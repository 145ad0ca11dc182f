//! Command-line options of the chronophotography tool, and their parsing
//! into the modes of the processor.
use vstd::prelude::*;
use vstd::string::*;
use crate::modes::{
    outlier_mode_parsable, spec_background_mode, spec_compression, spec_outlier_mode,
    spec_outlier_selection_mode, spec_selection_mode, BackgroundMode, Compression, OutlierMode,
    OutlierSelectionMode, SelectionMode,
};
use crate::text::{decimal_str, push_u8_decimal};

verus! {

/// Raw command line arguments.
#[derive(Debug, Clone)]
pub struct Cli {
    /// File search pattern.
    pub pattern: String,
    /// Temp directory. Optional, default system temp directory.
    pub temp_dir: Option<String>,
    /// Path to output file.
    pub output: String,
    /// Path of output image showing which pixels are outliers (blend value).
    pub blend_output: Option<String>,
    /// Pixel selection mode (lighter|darker|outlier/<threshold>). Optional, default 'outlier'.
    pub mode: Option<String>,
    /// Outlier threshold mode (abs[olute]/<threshold>|rel[ative]/<threshold>). Optional, default 'abs/0.05/0.2'.
    pub threshold: Option<String>,
    /// Background pixel selection mode (first|random|average|median). Optional, default 'random'.
    pub background: Option<String>,
    /// Outlier selection mode in case more than one outlier is found (first|last|extreme|average). Optional, default 'extreme'.
    pub outlier: Option<String>,
    /// Compression mode for time slices (gzip|zlib|deflate). Optional, default 'gzip'.
    pub compression: Option<String>,
    /// Output image quality for JPG files, in percent. Optional, default '95'.
    pub quality: Option<u8>,
    /// Print debug information (i.e. parsed cmd parameters).
    pub debug: bool,
}

/// Parsed command line arguments.
#[derive(Debug, Clone)]
pub struct CliParsed {
    /// File search pattern.
    pub pattern: String,
    /// Temp directory. Uses system temp directory if `None`.
    pub temp_dir: Option<String>,
    /// Path of the final output image.
    pub output: String,
    /// Path of output image showing which pixels are outliers (blend value).
    pub blend_output: Option<String>,
    /// Pixel selection mode.
    pub mode: SelectionMode,
    /// Outlier threshold mode.
    pub threshold: OutlierMode,
    /// Outlier selection mode in case more than one outlier is found.
    pub outlier: OutlierSelectionMode,
    /// Background pixel selection mode.
    pub background: BackgroundMode,
    /// Compression mode for time slices.
    pub compression: Compression,
    /// Output image quality for JPG files, in percent.
    pub quality: u8,
    /// Print debug information (i.e. parsed cmd parameters).
    pub debug: bool,
}

/// Error of a command line whose values are out of range.
#[derive(Debug, Clone, PartialEq, Eq)]
pub struct ParseCliError(pub String);

/// The text of an option, or its default.
pub open spec fn option_text(o: Option<String>, default: Seq<char>) -> Seq<char> {
    match o {
        Some(s) => s@,
        None => default,
    }
}

/// Whether a quality is a percentage above 0.
pub open spec fn quality_valid(q: u8) -> bool {
    0 < q <= 100
}

impl Cli {
    /// The pixel selection mode text, with its default.
    pub open spec fn mode_text(&self) -> Seq<char> {
        option_text(self.mode, "outlier"@)
    }

    /// The threshold text, with its default.
    pub open spec fn threshold_text(&self) -> Seq<char> {
        option_text(self.threshold, "abs/0.05/0.2"@)
    }

    /// The background mode text, with its default.
    pub open spec fn background_text(&self) -> Seq<char> {
        option_text(self.background, "random"@)
    }

    /// The outlier selection mode text, with its default.
    pub open spec fn outlier_text(&self) -> Seq<char> {
        option_text(self.outlier, "extreme"@)
    }

    /// The compression text, with its default.
    pub open spec fn compression_text(&self) -> Seq<char> {
        option_text(self.compression, "gzip"@)
    }

    /// Whether every mode option (or its default) names a mode.
    pub open spec fn modes_valid(&self) -> bool {
        &&& spec_selection_mode(self.mode_text()) is Some
        &&& outlier_mode_parsable(self.threshold_text())
        &&& spec_outlier_mode(self.threshold_text()) is Some
        &&& spec_background_mode(self.background_text()) is Some
        &&& spec_outlier_selection_mode(self.outlier_text()) is Some
        &&& spec_compression(self.compression_text()) is Some
    }

    /// Tells whether every mode option (or its default) names a mode, which
    /// [`Cli::parse`] requires.
    pub fn check_modes(&self) -> (ok: bool)
        ensures
            ok == self.modes_valid(),
    {
        let mode: &str = match &self.mode {
            Some(m) => m.as_str(),
            None => "outlier",
        };
        let threshold: &str = match &self.threshold {
            Some(t) => t.as_str(),
            None => "abs/0.05/0.2",
        };
        let background: &str = match &self.background {
            Some(b) => b.as_str(),
            None => "random",
        };
        let outlier: &str = match &self.outlier {
            Some(o) => o.as_str(),
            None => "extreme",
        };
        let compression: &str = match &self.compression {
            Some(c) => c.as_str(),
            None => "gzip",
        };
        if SelectionMode::from_string(mode).is_err() {
            return false;
        }
        if !OutlierMode::can_parse(threshold) {
            return false;
        }
        if OutlierMode::from_string(threshold).is_err() {
            return false;
        }
        if BackgroundMode::from_string(background).is_err() {
            return false;
        }
        if OutlierSelectionMode::from_string(outlier).is_err() {
            return false;
        }
        Compression::from_string(compression).is_ok()
    }

    /// What parsing this Cli gives: the mode options (or their defaults)
    /// become modes, the quality defaults to 95 and must lie in `1 ..= 100`.
    pub open spec fn parsed_as(&self, res: Result<CliParsed, ParseCliError>) -> bool {
        match self.quality {
            Some(q) if !quality_valid(q) => res matches Err(e) && e.0@
                == "Expected 0 < qualtiy <= 100. Got value "@ + decimal_str(q as nat),
            _ => res matches Ok(p) && {
                &&& p.pattern == self.pattern
                &&& p.temp_dir == self.temp_dir
                &&& p.output == self.output
                &&& p.blend_output == self.blend_output
                &&& p.mode == spec_selection_mode(self.mode_text())->0
                &&& p.threshold == spec_outlier_mode(self.threshold_text())->0
                &&& p.background == spec_background_mode(self.background_text())->0
                &&& p.outlier == spec_outlier_selection_mode(self.outlier_text())->0
                &&& p.compression == spec_compression(self.compression_text())->0
                &&& p.quality == (match self.quality {
                    Some(q) => q,
                    None => 95u8,
                })
                &&& p.debug == self.debug
            },
        }
    }

    /// Parses this Cli into a [`CliParsed`]: the mode options (or their
    /// defaults) become modes, the quality defaults to 95 and must lie in
    /// `1 ..= 100`.
    pub fn parse(&self) -> (res: Result<CliParsed, ParseCliError>)
        requires
            self.modes_valid(),
        ensures
            self.parsed_as(res),
    {
        let mode_str: &str = match &self.mode {
            Some(m) => m.as_str(),
            None => "outlier",
        };
        let threshold_str: &str = match &self.threshold {
            Some(t) => t.as_str(),
            None => "abs/0.05/0.2",
        };
        let background_str: &str = match &self.background {
            Some(b) => b.as_str(),
            None => "random",
        };
        let outlier_str: &str = match &self.outlier {
            Some(o) => o.as_str(),
            None => "extreme",
        };
        let compression_str: &str = match &self.compression {
            Some(c) => c.as_str(),
            None => "gzip",
        };
        let mode = match SelectionMode::from_string(mode_str) {
            Ok(m) => m,
            Err(e) => {
                return Err(ParseCliError(e.0));
            },
        };
        let threshold = match OutlierMode::from_string(threshold_str) {
            Ok(t) => t,
            Err(e) => {
                return Err(ParseCliError(e.0));
            },
        };
        let background = match BackgroundMode::from_string(background_str) {
            Ok(b) => b,
            Err(e) => {
                return Err(ParseCliError(e.0));
            },
        };
        let outlier = match OutlierSelectionMode::from_string(outlier_str) {
            Ok(o) => o,
            Err(e) => {
                return Err(ParseCliError(e.0));
            },
        };
        let compression = match Compression::from_string(compression_str) {
            Ok(c) => c,
            Err(e) => {
                return Err(ParseCliError(e.0));
            },
        };
        let quality: u8 = match self.quality {
            Some(q) => {
                if q <= 100 && q > 0 {
                    q
                } else {
                    let mut msg = String::from_str("Expected 0 < qualtiy <= 100. Got value ");
                    push_u8_decimal(&mut msg, q);
                    return Err(ParseCliError(msg));
                }
            },
            None => 95,
        };
        let temp_dir = match &self.temp_dir {
            Some(d) => Some(d.clone()),
            None => None,
        };
        let blend_output = match &self.blend_output {
            Some(o) => Some(o.clone()),
            None => None,
        };
        Ok(
            CliParsed {
                pattern: self.pattern.clone(),
                temp_dir,
                output: self.output.clone(),
                blend_output,
                mode,
                threshold,
                background,
                outlier,
                compression,
                quality,
                debug: self.debug,
            },
        )
    }
}

} // verus!
