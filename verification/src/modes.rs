//! Selection modes of the pixel analysis and their textual names.
use vstd::prelude::*;
use vstd::string::*;
use crate::text::{find_char, find_char_exec, lemma_find_char_props, str_equal};
use crate::decimal::{parse_decimal, spec_parse_decimal, Decimal};

verus! {

/// Pixel selection mode.
#[derive(Debug, Clone, Copy, PartialEq, Eq, Structural)]
pub enum SelectionMode {
    /// Selects by outlier analysis (multi-dimensional distance to the median).
    Outlier,
    /// Selects the lightest/brightest pixel (sum of red, green and blue).
    Lighter,
    /// Selects the darkest pixel (sum of red, green and blue).
    Darker,
}

/// Outlier determination algorithm.
#[derive(Debug, Clone, Copy, PartialEq, Eq, Structural)]
pub enum OutlierMode {
    /// Threshold relative to the colour band range [0, 255].
    Absolute { threshold: Decimal },
    /// Threshold relative to the inter-quartile range of each colour band.
    Relative { threshold: Decimal },
}

impl OutlierMode {
    /// The threshold of either variant.
    pub open spec fn spec_threshold(self) -> Decimal {
        match self {
            OutlierMode::Absolute { threshold } => threshold,
            OutlierMode::Relative { threshold } => threshold,
        }
    }

    /// The threshold of either variant.
    pub fn threshold(&self) -> (t: Decimal)
        ensures
            t == self.spec_threshold(),
    {
        match self {
            OutlierMode::Absolute { threshold } => *threshold,
            OutlierMode::Relative { threshold } => *threshold,
        }
    }

    /// Whether the threshold is relative to the inter-quartile range.
    pub fn is_relative(&self) -> (r: bool)
        ensures
            r == self is Relative,
    {
        match self {
            OutlierMode::Absolute { .. } => false,
            OutlierMode::Relative { .. } => true,
        }
    }
}

/// Selection mode if multiple outliers are found.
#[derive(Debug, Clone, Copy, PartialEq, Eq, Structural)]
pub enum OutlierSelectionMode {
    /// Use the first outlier.
    First,
    /// Use the last outlier.
    Last,
    /// Use the most extreme outlier.
    Extreme,
    /// Use the average of all outliers.
    Average,
}

/// Background pixel selection mode, i.e. when no outliers are found.
#[derive(Debug, Clone, Copy, PartialEq, Eq, Structural)]
pub enum BackgroundMode {
    /// Use the pixel from the first image.
    First,
    /// Use the pixel from a randomly selected image.
    Random,
    /// Use the average of the pixel from all images (Warning: may result in banding!).
    Average,
    /// Use the median of the pixel from all images (Warning: may result in banding!).
    Median,
}

/// Compression mode of the time slice files.
#[derive(Debug, Clone, Copy, PartialEq, Eq, Structural)]
pub enum Compression {
    /// gzip compression.
    GZip,
    /// zlib compression.
    ZLib,
    /// Raw deflate compression.
    Deflate,
}

/// Error for a string that names no variant of an option enum.
#[derive(Debug, Clone, PartialEq, Eq)]
pub struct ParseEnumError(pub String);

/// The mode that a name denotes, if any.
pub open spec fn spec_selection_mode(s: Seq<char>) -> Option<SelectionMode> {
    if s == "lighter"@ {
        Some(SelectionMode::Lighter)
    } else if s == "darker"@ {
        Some(SelectionMode::Darker)
    } else if s == "outlier"@ || outlier_with_threshold(s) {
        Some(SelectionMode::Outlier)
    } else {
        None
    }
}

impl SelectionMode {
    /// Parses `lighter`, `darker`, `outlier` or `outlier/<threshold>`, where
    /// the threshold must read as a number; its value is not used here (the
    /// outlier threshold is an option of its own).
    pub fn from_string(s: &str) -> (res: Result<SelectionMode, ParseEnumError>)
        ensures
            match spec_selection_mode(s@) {
                Some(m) => res == Ok::<SelectionMode, ParseEnumError>(m),
                None => res matches Err(e) && e.0@ == "Not a pixel selection mode: "@ + s@
                    + ". Must be one of (lighter|darker|outlier)"@,
            },
    {
        if str_equal(s, "lighter") {
            Ok(SelectionMode::Lighter)
        } else if str_equal(s, "darker") {
            Ok(SelectionMode::Darker)
        } else if str_equal(s, "outlier") || is_outlier_with_threshold(s) {
            Ok(SelectionMode::Outlier)
        } else {
            let mut msg = String::from_str("Not a pixel selection mode: ");
            msg.append(s);
            msg.append(". Must be one of (lighter|darker|outlier)");
            Err(ParseEnumError(msg))
        }
    }
}


/// Whether the text is `outlier/<t>` with `t` reading as a number.
pub open spec fn outlier_with_threshold(s: Seq<char>) -> bool {
    let p = find_char(s, '/');
    &&& p < s.len()
    &&& mode_field(s) == "outlier"@
    &&& spec_parse_decimal(s.skip(p + 1)) is Some
}

/// Tells whether the text is `outlier/<t>` with `t` reading as a number.
fn is_outlier_with_threshold(s: &str) -> (r: bool)
    ensures
        r == outlier_with_threshold(s@),
{
    let len = s.unicode_len();
    let p = find_char_exec(s, '/');
    proof {
        lemma_find_char_props(s@, '/');
    }
    if p >= len {
        return false;
    }
    let head = s.substring_char(0, p);
    let tail = s.substring_char(p + 1, len);
    proof {
        assert(head@ =~= mode_field(s@));
        assert(tail@ =~= s@.skip(p + 1));
    }
    str_equal(head, "outlier") && parse_decimal(tail).is_some()
}

/// The text before the first `/`.
pub open spec fn mode_field(s: Seq<char>) -> Seq<char> {
    s.take(find_char(s, '/'))
}

/// The text between the first and the second `/` (or the end).
pub open spec fn threshold_field(s: Seq<char>) -> Seq<char> {
    let rest = s.skip(find_char(s, '/') + 1);
    rest.take(find_char(rest, '/'))
}

/// Whether the text has a `/` followed by a threshold that reads as a number.
pub open spec fn outlier_mode_parsable(s: Seq<char>) -> bool {
    find_char(s, '/') < s.len() && spec_parse_decimal(threshold_field(s)) is Some
}

/// The outlier mode that a text `mode/threshold[/...]` denotes, if any.
pub open spec fn spec_outlier_mode(s: Seq<char>) -> Option<OutlierMode> {
    let t = spec_parse_decimal(threshold_field(s))->0;
    let m = mode_field(s);
    if m == "absolute"@ || m == "abs"@ {
        Some(OutlierMode::Absolute { threshold: t })
    } else if m == "relative"@ || m == "rel"@ {
        Some(OutlierMode::Relative { threshold: t })
    } else {
        None
    }
}

impl OutlierMode {
    /// Whether [`OutlierMode::from_string`] accepts the text: it has a `/`
    /// followed by a threshold that reads as a number.
    pub fn can_parse(s: &str) -> (ok: bool)
        ensures
            ok == outlier_mode_parsable(s@),
    {
        let len = s.unicode_len();
        let p = find_char_exec(s, '/');
        if p >= len {
            return false;
        }
        let rest = s.substring_char(p + 1, len);
        let q = find_char_exec(rest, '/');
        proof {
            lemma_find_char_props(rest@, '/');
        }
        let t = rest.substring_char(0, q);
        proof {
            assert(t@ =~= threshold_field(s@));
        }
        parse_decimal(t).is_some()
    }

    /// Parses `abs[olute]/<threshold>` or `rel[ative]/<threshold>`; text
    /// after a second `/` is ignored.
    pub fn from_string(s: &str) -> (res: Result<OutlierMode, ParseEnumError>)
        requires
            outlier_mode_parsable(s@),
        ensures
            match spec_outlier_mode(s@) {
                Some(m) => res == Ok::<OutlierMode, ParseEnumError>(m),
                None => res matches Err(e) && e.0@ == "Not a pixel outlier detection mode: "@ + s@
                    + ". Must be one of (abs[olute]/<threshold>|rel[ative]/<threshold>)"@,
            },
    {
        let len = s.unicode_len();
        let p = find_char_exec(s, '/');
        proof {
            lemma_find_char_props(s@, '/');
        }
        let opt = s.substring_char(0, p);
        let rest = s.substring_char(p + 1, len);
        let q = find_char_exec(rest, '/');
        proof {
            lemma_find_char_props(rest@, '/');
        }
        let t = rest.substring_char(0, q);
        proof {
            assert(t@ =~= threshold_field(s@));
            assert(opt@ =~= mode_field(s@));
        }
        let threshold = match parse_decimal(t) {
            Some(d) => d,
            None => {
                proof {
                    assert(false);
                }
                return Err(ParseEnumError(String::new()));
            },
        };
        if str_equal(opt, "absolute") || str_equal(opt, "abs") {
            Ok(OutlierMode::Absolute { threshold })
        } else if str_equal(opt, "relative") || str_equal(opt, "rel") {
            Ok(OutlierMode::Relative { threshold })
        } else {
            let mut msg = String::from_str("Not a pixel outlier detection mode: ");
            msg.append(s);
            msg.append(". Must be one of (abs[olute]/<threshold>|rel[ative]/<threshold>)");
            Err(ParseEnumError(msg))
        }
    }
}

/// The outlier selection mode that a name denotes, if any.
pub open spec fn spec_outlier_selection_mode(s: Seq<char>) -> Option<OutlierSelectionMode> {
    if s == "first"@ {
        Some(OutlierSelectionMode::First)
    } else if s == "last"@ {
        Some(OutlierSelectionMode::Last)
    } else if s == "extreme"@ {
        Some(OutlierSelectionMode::Extreme)
    } else if s == "average"@ {
        Some(OutlierSelectionMode::Average)
    } else {
        None
    }
}

impl OutlierSelectionMode {
    /// Parses `first`, `last`, `extreme` or `average`.
    pub fn from_string(s: &str) -> (res: Result<OutlierSelectionMode, ParseEnumError>)
        ensures
            match spec_outlier_selection_mode(s@) {
                Some(m) => res == Ok::<OutlierSelectionMode, ParseEnumError>(m),
                None => res matches Err(e) && e.0@ == "Not an outlier selection mode: "@ + s@
                    + ". Must be one of (first|last|extreme|average)"@,
            },
    {
        if str_equal(s, "first") {
            Ok(OutlierSelectionMode::First)
        } else if str_equal(s, "last") {
            Ok(OutlierSelectionMode::Last)
        } else if str_equal(s, "extreme") {
            Ok(OutlierSelectionMode::Extreme)
        } else if str_equal(s, "average") {
            Ok(OutlierSelectionMode::Average)
        } else {
            let mut msg = String::from_str("Not an outlier selection mode: ");
            msg.append(s);
            msg.append(". Must be one of (first|last|extreme|average)");
            Err(ParseEnumError(msg))
        }
    }
}

/// The background mode that a name denotes, if any.
pub open spec fn spec_background_mode(s: Seq<char>) -> Option<BackgroundMode> {
    if s == "first"@ {
        Some(BackgroundMode::First)
    } else if s == "random"@ {
        Some(BackgroundMode::Random)
    } else if s == "average"@ {
        Some(BackgroundMode::Average)
    } else if s == "median"@ {
        Some(BackgroundMode::Median)
    } else {
        None
    }
}

impl BackgroundMode {
    /// Parses `first`, `random`, `average` or `median`.
    pub fn from_string(s: &str) -> (res: Result<BackgroundMode, ParseEnumError>)
        ensures
            match spec_background_mode(s@) {
                Some(m) => res == Ok::<BackgroundMode, ParseEnumError>(m),
                None => res matches Err(e) && e.0@ == "Not a background pixel selection mode: "@ + s@
                    + ". Must be one of (first|random|average|median)"@,
            },
    {
        if str_equal(s, "first") {
            Ok(BackgroundMode::First)
        } else if str_equal(s, "random") {
            Ok(BackgroundMode::Random)
        } else if str_equal(s, "average") {
            Ok(BackgroundMode::Average)
        } else if str_equal(s, "median") {
            Ok(BackgroundMode::Median)
        } else {
            let mut msg = String::from_str("Not a background pixel selection mode: ");
            msg.append(s);
            msg.append(". Must be one of (first|random|average|median)");
            Err(ParseEnumError(msg))
        }
    }
}

/// The compression that a name denotes, if any.
pub open spec fn spec_compression(s: Seq<char>) -> Option<Compression> {
    if s == "gzip"@ {
        Some(Compression::GZip)
    } else if s == "zlib"@ {
        Some(Compression::ZLib)
    } else if s == "deflate"@ {
        Some(Compression::Deflate)
    } else {
        None
    }
}

impl Compression {
    /// Parses `gzip`, `zlib` or `deflate`.
    pub fn from_string(s: &str) -> (res: Result<Compression, ParseEnumError>)
        ensures
            match spec_compression(s@) {
                Some(m) => res == Ok::<Compression, ParseEnumError>(m),
                None => res matches Err(e) && e.0@ == "Not a compression mode: "@ + s@
                    + ". Must be one of (gzip|zlib|deflate)"@,
            },
    {
        if str_equal(s, "gzip") {
            Ok(Compression::GZip)
        } else if str_equal(s, "zlib") {
            Ok(Compression::ZLib)
        } else if str_equal(s, "deflate") {
            Ok(Compression::Deflate)
        } else {
            let mut msg = String::from_str("Not a compression mode: ");
            msg.append(s);
            msg.append(". Must be one of (gzip|zlib|deflate)");
            Err(ParseEnumError(msg))
        }
    }
}

} // verus!
