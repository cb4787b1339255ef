//! Character classes driving normalization: the fixed sets of
//! apostrophe-like and dash-like code points, and the alphanumeric test.
//!
//! The two sets are configuration tables of lookalike code points; extending
//! them for future Unicode additions only means adding arms here.

use vstd::prelude::*;

verus! {

/// The fixed set of apostrophe-like code points: ASCII apostrophe, left and
/// right single quotation marks, single high-reversed-9 quotation mark,
/// modifier-letter apostrophe, fullwidth apostrophe, grave accent, acute
/// accent, modifier letter prime, and prime.
pub open spec fn apostrophe_like(c: char) -> bool {
    ||| c == '\''
    ||| c == '\u{2018}'
    ||| c == '\u{2019}'
    ||| c == '\u{201B}'
    ||| c == '\u{02BC}'
    ||| c == '\u{FF07}'
    ||| c == '\u{0060}'
    ||| c == '\u{00B4}'
    ||| c == '\u{02B9}'
    ||| c == '\u{2032}'
}

/// The fixed set of dash-like code points: ASCII hyphen-minus, hyphen,
/// non-breaking hyphen, figure dash, en dash, em dash, horizontal bar,
/// minus sign, small hyphen-minus, and fullwidth hyphen-minus.
pub open spec fn dash_like(c: char) -> bool {
    ||| c == '-'
    ||| c == '\u{2010}'
    ||| c == '\u{2011}'
    ||| c == '\u{2012}'
    ||| c == '\u{2013}'
    ||| c == '\u{2014}'
    ||| c == '\u{2015}'
    ||| c == '\u{2212}'
    ||| c == '\u{FE63}'
    ||| c == '\u{FF0D}'
}

/// Whether a character counts as alphanumeric, exactly as the standard
/// library's Unicode tables decide it. The value is a function of the
/// character alone; [`char_is_alnum`] is the executable test.
pub uninterp spec fn alnum(c: char) -> bool;

/// Relies on `char::is_alphanumeric` from std: the result depends on the
/// character alone, looked up in the Unicode Alphabetic and Number tables.
#[verifier::external_body]
pub(crate) fn char_is_alnum(c: char) -> (r: bool)
    ensures
        r == alnum(c),
{
    c.is_alphanumeric()
}

/// A word-forming character: alphanumeric and not apostrophe-like. These are
/// the characters that survive into a token's text; everything else is either
/// elided (apostrophes between word-forming characters) or splits the word.
pub open spec fn word_char(c: char) -> bool {
    alnum(c) && !apostrophe_like(c)
}

pub(crate) fn is_apostrophe(c: char) -> (r: bool)
    ensures
        r == apostrophe_like(c),
{
    match c {
        '\'' | '\u{2018}' | '\u{2019}' | '\u{201B}' | '\u{02BC}' | '\u{FF07}' | '\u{0060}'
            | '\u{00B4}' | '\u{02B9}' | '\u{2032}' => true,
        _ => false,
    }
}

pub(crate) fn is_dash(c: char) -> (r: bool)
    ensures
        r == dash_like(c),
{
    match c {
        '-' | '\u{2010}' | '\u{2011}' | '\u{2012}' | '\u{2013}' | '\u{2014}' | '\u{2015}'
            | '\u{2212}' | '\u{FE63}' | '\u{FF0D}' => true,
        _ => false,
    }
}

pub(crate) fn is_word_char(c: char) -> (r: bool)
    ensures
        r == word_char(c),
{
    char_is_alnum(c) && !is_apostrophe(c)
}

} // verus!
