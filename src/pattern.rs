//! Compiled patterns and what matching them yields. Matching itself is done by
//! the `fancy_regex` crate; what a scan returns is named, not restated.
use vstd::prelude::*;

verus! {

/// A compiled pattern of `fancy_regex`, held opaque.
#[verifier::external_type_specification]
#[verifier::external_body]
pub struct ExRegex(fancy_regex::Regex);

/// Why `fancy_regex` could not compile or match, held opaque.
#[verifier::external_type_specification]
#[verifier::external_body]
pub struct ExRegexError(fancy_regex::Error);

/// A compiled pattern, with the source text it was compiled from.
pub struct Pattern {
    source: String,
    re: fancy_regex::Regex,
}

impl Pattern {
    pub closed spec fn source(&self) -> Seq<char> {
        self.source@
    }
}

pub open spec fn opt_text(o: Option<String>) -> Option<Seq<char>> {
    match o {
        Some(s) => Some(s@),
        None => None,
    }
}

/// The captured groups of one match, as text.
pub open spec fn match_view(m: Vec<Option<String>>) -> Seq<Option<Seq<char>>> {
    m@.map_values(|g: Option<String>| opt_text(g))
}

/// The captured groups of each match, as text.
pub open spec fn captures_view(v: Seq<Vec<Option<String>>>) -> Seq<Seq<Option<Seq<char>>>> {
    v.map_values(|m: Vec<Option<String>>| match_view(m))
}

/// Group `i` of a match, if it took part.
pub open spec fn group(c: Seq<Option<Seq<char>>>, i: int) -> Option<Seq<char>> {
    if 0 <= i < c.len() {
        c[i]
    } else {
        None
    }
}

/// Group `i` of a match, if it took part.
pub fn group_at(m: &Vec<Option<String>>, i: usize) -> (r: Option<String>)
    ensures
        opt_text(r) == group(match_view(*m), i as int),
{
    if i < m.len() {
        match &m[i] {
            Some(s) => Some(s.clone()),
            None => None,
        }
    } else {
        None
    }
}

pub open spec fn names_view(v: Seq<&str>) -> Seq<Seq<char>> {
    v.map_values(|g: &str| g@)
}

/// What scanning `text` for every non-overlapping match of `pattern` yields,
/// each match given by the text of the named `groups`, in the order named;
/// `None` where the matcher gives up with an error.
pub uninterp spec fn regex_captures(pattern: Seq<char>, groups: Seq<Seq<char>>, text: Seq<char>) -> Option<Seq<Seq<Option<Seq<char>>>>>;

/// What replacing every non-overlapping match of `pattern` in `text` by
/// `replacement`, with `$name` expanded to the group of that name, yields;
/// `None` where the matcher gives up with an error.
pub uninterp spec fn regex_replaced(pattern: Seq<char>, replacement: Seq<char>, text: Seq<char>) -> Option<Seq<char>>;

/// Relies on fancy_regex::Regex::new: compiles `source`, or reports why it cannot.
#[verifier::external_body]
pub(crate) fn compile(source: &str) -> (r: Result<Pattern, fancy_regex::Error>)
    ensures
        r matches Ok(p) ==> p.source() == source@,
{
    match fancy_regex::Regex::new(source) {
        Ok(re) => Ok(Pattern { source: source.to_string(), re }),
        Err(e) => Err(e),
    }
}

/// Relies on fancy_regex::Regex::captures_iter: every non-overlapping match of
/// the pattern in `text`, in order, each as the text of the named `groups`.
#[verifier::external_body]
pub(crate) fn scan(p: &Pattern, groups: &Vec<&str>, text: &str) -> (r: Result<Vec<Vec<Option<String>>>, fancy_regex::Error>)
    ensures
        match r {
            Ok(v) => regex_captures(p.source(), names_view(groups@), text@) == Some(captures_view(v@)),
            Err(_) => regex_captures(p.source(), names_view(groups@), text@) is None,
        },
{
    let mut out = Vec::new();
    for caps in p.re.captures_iter(text) {
        let caps = caps?;
        out.push(groups.iter().map(|g| caps.name(g).map(|m| m.as_str().to_string())).collect());
    }
    Ok(out)
}

/// Relies on fancy_regex::Regex::try_replacen with no limit: `text` with every
/// match of the pattern replaced by `replacement`, group references expanded.
#[verifier::external_body]
pub(crate) fn replace_all(p: &Pattern, text: &str, replacement: &str) -> (r: Result<String, fancy_regex::Error>)
    ensures
        match r {
            Ok(s) => regex_replaced(p.source(), replacement@, text@) == Some(s@),
            Err(_) => regex_replaced(p.source(), replacement@, text@) is None,
        },
{
    match p.re.try_replacen(text, 0, replacement) {
        Ok(s) => Ok(s.into_owned()),
        Err(e) => Err(e),
    }
}

} // verus!
