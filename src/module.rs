//! Module descriptors: a structured header, a delimiter line, and free-text details.
use vstd::prelude::*;
use crate::parse::ParseError;
use crate::text::{chars_of, has_at, is_prefix, string_of, trim_bounds, trimmed};

verus! {

/// The header of a module descriptor.
pub struct ModuleInfoHeader {
    pub name: String,
    pub description: String,
    pub headers: Vec<String>,
    pub qml_files: Vec<String>,
}

/// A module descriptor: its header and its details text.
pub struct ModuleInfo {
    pub header: ModuleInfoHeader,
    pub details: String,
}

pub open spec fn delimiter() -> Seq<char> {
    seq!['-', '-', '-', '-', '-']
}

/// The first place at or after `i` where the delimiter starts in `s`.
pub open spec fn delimiter_from(s: Seq<char>, i: int) -> Option<int>
    decreases s.len() - i,
{
    if i < 0 || i + 5 > s.len() {
        None
    } else if is_prefix(delimiter(), s.subrange(i, s.len() as int)) {
        Some(i)
    } else {
        delimiter_from(s, i + 1)
    }
}

/// The header text and the details text of a descriptor, each trimmed: what
/// stands before and after the first delimiter.
pub open spec fn module_parts(text: Seq<char>) -> Option<(Seq<char>, Seq<char>)> {
    match delimiter_from(text, 0) {
        Some(k) => if 0 <= k && k + 5 <= text.len() {
            Some((trimmed(text.subrange(0, k)), trimmed(text.subrange(k + 5, text.len() as int))))
        } else {
            None
        },
        None => None,
    }
}

/// Splits a module descriptor into its header text and its details text.
pub fn split_module(text: &str) -> (r: Result<(String, String), ParseError>)
    ensures
        match module_parts(text@) {
            Some((h, d)) => r matches Ok((a, b)) && a@ == h && b@ == d,
            None => r matches Err(e) && e@ == crate::parse::ParseErrorV::MissingDelimiter,
        },
{
    let v = chars_of(text);
    let dash = vec!['-', '-', '-', '-', '-'];
    assert(dash@ == delimiter());
    let n = v.len();
    let mut i: usize = 0;
    while i < n && n - i >= 5
        invariant
            i <= n,
            n == v.len(),
            v@ == text@,
            dash@ == delimiter(),
            delimiter_from(v@, 0) == delimiter_from(v@, i as int),
        decreases n - i,
    {
        if has_at(&v, i, &dash) {
            let (a, b) = trim_bounds(&v, 0, i);
            let (c, d) = trim_bounds(&v, i + 5, n);
            return Ok((string_of(&v, a, b), string_of(&v, c, d)));
        }
        i = i + 1;
    }
    assert(delimiter_from(v@, i as int) is None);
    Err(ParseError::MissingDelimiter)
}

} // verus!
