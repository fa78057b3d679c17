//! Market data: the rules by which candle files are picked and labelled.
//! (Reading the files is the application's part.)

use vstd::prelude::*;

use crate::text::{chars_equal, chars_of};

pub mod download;

verus! {

/// What `str::to_uppercase` returns for the characters `s`.
pub uninterp spec fn uppercased(s: Seq<char>) -> Seq<char>;

/// `str::to_uppercase`: the Unicode upper-case form of `s`.
#[verifier::external_body]
fn to_uppercase(s: &str) -> (r: String)
    ensures
        r@ == uppercased(s@),
{
    s.to_uppercase()
}

/// The symbol a candle file stands for when its rows do not name one.
pub open spec fn file_symbol(stem: Option<Seq<char>>) -> Seq<char> {
    match stem {
        Some(s) => uppercased(s),
        None => uppercased("UNKNOWN"@),
    }
}

/// Loads candles from a directory of CSV files (one file per symbol).
pub struct CsvLoader;

impl CsvLoader {
    /// Whether a file with extension `ext` is a candle file: the extension is exactly `csv`.
    pub fn is_candle_file(ext: Option<&str>) -> (r: bool)
        ensures
            r == (ext matches Some(e) && e@ == "csv"@),
    {
        match ext {
            Some(e) => {
                let wanted = chars_of("csv");
                chars_equal(&chars_of(e), &wanted)
            },
            None => false,
        }
    }

    /// The symbol of a file with stem `stem` (`UNKNOWN` when the stem is not
    /// text), upper-cased.
    pub fn symbol_for_file(stem: Option<&str>) -> (r: String)
        ensures
            r@ == file_symbol(
                match stem {
                    Some(s) => Some(s@),
                    None => None,
                },
            ),
    {
        match stem {
            Some(s) => to_uppercase(s),
            None => to_uppercase("UNKNOWN"),
        }
    }

    /// The symbol of a candle row: its own, or the file's when the row leaves it empty.
    pub fn row_symbol(own: String, from_file: &String) -> (r: String)
        ensures
            r@ == if own@.len() == 0 {
                from_file@
            } else {
                own@
            },
    {
        if own.as_str().is_empty() {
            from_file.clone()
        } else {
            own
        }
    }
}

} // verus!
