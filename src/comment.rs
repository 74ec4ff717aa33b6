//! Documentation comments: normalisation, the summary/details split, admonition
//! blocks, and inline cross-reference tokens.
use vstd::prelude::*;
use crate::pattern::{compile, regex_replaced, replace_all, Pattern};
use crate::resolver::{first_from, is_char, last_below};
use crate::text::is_suffix;
use crate::text::{chars_of, has_at, is_prefix, push_char, trim_bounds, trimmed};

verus! {

/// The lines of `s` as `str::lines` gives them: split at each `\n`, a `\r`
/// before it dropped, no empty line after a final `\n`.
pub open spec fn lines_of(s: Seq<char>) -> Seq<Seq<char>>
    decreases s.len(),
{
    if s.len() == 0 {
        Seq::empty()
    } else {
        match first_from(s, is_char('\n'), 0) {
            Some(k) => if 0 <= k < s.len() {
                seq![strip_cr(s.subrange(0, k))] + lines_of(s.subrange(k + 1, s.len() as int))
            } else {
                Seq::empty()
            },
            None => seq![s],
        }
    }
}

pub open spec fn strip_cr(l: Seq<char>) -> Seq<char> {
    if l.len() > 0 && l.last() == '\r' {
        l.drop_last()
    } else {
        l
    }
}

pub open spec fn leader() -> Seq<char> {
    seq!['/', '/', '/']
}

/// A comment line without its leader and at most one following space; a line
/// without a leader stays as it is.
pub open spec fn clean_line(l: Seq<char>) -> Seq<char> {
    let t = trimmed(l);
    if is_prefix(leader(), t) {
        let r = t.subrange(3, t.len() as int);
        if r.len() > 0 && r[0] == ' ' {
            r.subrange(1, r.len() as int)
        } else {
            r
        }
    } else {
        l
    }
}

/// `xs` without its leading empty lines.
pub open spec fn skip_blank(xs: Seq<Seq<char>>) -> Seq<Seq<char>>
    decreases xs.len(),
{
    if xs.len() == 0 {
        xs
    } else if xs[0].len() == 0 {
        skip_blank(xs.drop_first())
    } else {
        xs
    }
}

/// Each line followed by a line break.
pub open spec fn join_lines(xs: Seq<Seq<char>>) -> Seq<char>
    decreases xs.len(),
{
    if xs.len() == 0 {
        Seq::empty()
    } else {
        join_lines(xs.drop_last()) + xs.last() + seq!['\n']
    }
}

/// The comment text with leaders stripped and leading blank lines dropped.
pub open spec fn normalized(text: Seq<char>) -> Seq<char> {
    join_lines(skip_blank(lines_of(text).map_values(|l: Seq<char>| clean_line(l))))
}

proof fn lemma_skip_blank_push(xs: Seq<Seq<char>>, x: Seq<char>)
    ensures
        skip_blank(xs.push(x)) == if skip_blank(xs).len() == 0 {
            if x.len() == 0 {
                Seq::<Seq<char>>::empty()
            } else {
                seq![x]
            }
        } else {
            skip_blank(xs).push(x)
        },
    decreases xs.len(),
{
    if xs.len() == 0 {
        assert(xs.push(x) =~= seq![x]);
        assert(seq![x].drop_first() =~= Seq::<Seq<char>>::empty());
        assert(skip_blank(Seq::<Seq<char>>::empty()) == Seq::<Seq<char>>::empty());
    } else {
        assert(xs.push(x)[0] == xs[0]);
        assert(xs.push(x).drop_first() =~= xs.drop_first().push(x));
        if xs[0].len() == 0 {
            lemma_skip_blank_push(xs.drop_first(), x);
        }
    }
}

fn append_range(out: &mut String, v: &Vec<char>, from: usize, to: usize)
    requires
        from <= to <= v.len(),
    ensures
        final(out)@ == old(out)@ + v@.subrange(from as int, to as int),
{
    let mut i = from;
    while i < to
        invariant
            from <= i <= to <= v.len(),
            out@ == old(out)@ + v@.subrange(from as int, i as int),
        decreases to - i,
    {
        push_char(out, v[i]);
        i = i + 1;
        assert(out@ =~= old(out)@ + v@.subrange(from as int, i as int));
    }
}

/// The bounds of the cleaned form of the line `v[from..to]`.
fn clean_bounds(v: &Vec<char>, from: usize, to: usize) -> (r: (usize, usize))
    requires
        from <= to <= v.len(),
    ensures
        r.0 <= r.1 <= v.len(),
        v@.subrange(r.0 as int, r.1 as int) == clean_line(v@.subrange(from as int, to as int)),
{
    let (a, b) = trim_bounds(v, from, to);
    let lead = vec!['/', '/', '/'];
    assert(lead@ == leader());
    let ghost t = v@.subrange(a as int, b as int);
    if b - a >= 3 && has_at(v, a, &lead) {
        assert(v@.subrange(a as int, v.len() as int).subrange(0, 3) =~= t.subrange(0, 3));
        let mut r = a + 3;
        assert(t.subrange(3, t.len() as int) =~= v@.subrange(r as int, b as int));
        if r < b && v[r] == ' ' {
            r = r + 1;
            assert(t.subrange(3, t.len() as int).subrange(1, (b - a - 3) as int) =~= v@.subrange(r as int, b as int));
        }
        (r, b)
    } else {
        proof {
            if b - a >= 3 {
                assert(v@.subrange(a as int, v.len() as int).subrange(0, 3) =~= t.subrange(0, 3));
            }
        }
        (from, to)
    }
}

/// Strips comment leaders and at most one following space from each line, drops
/// leading blank lines, and ends each line with a line break.
pub fn normalize(text: &str) -> (r: String)
    ensures
        r@ == normalized(text@),
{
    let v = chars_of(text);
    let n = v.len();
    let mut out = String::new();
    let mut p: usize = 0;
    let ghost mut done: Seq<Seq<char>> = Seq::empty();
    assert(v@.subrange(0, n as int) == v@);
    while p < n
        invariant
            p <= n == v.len(),
            v@ == text@,
            lines_of(v@) == done + lines_of(v@.subrange(p as int, n as int)),
            out@ == join_lines(skip_blank(done.map_values(|l: Seq<char>| clean_line(l)))),
        decreases n - p,
    {
        let ghost rest = v@.subrange(p as int, n as int);
        let mut e = p;
        while e < n && v[e] != '\n'
            invariant
                p <= e <= n == v.len(),
                rest == v@.subrange(p as int, n as int),
                first_from(rest, is_char('\n'), 0) == first_from(rest, is_char('\n'), (e - p) as int),
            decreases n - e,
        {
            e = e + 1;
        }
        let mut le = e;
        if e < n && le > p && v[le - 1] == '\r' {
            le = le - 1;
        }
        let ghost line = v@.subrange(p as int, le as int);
        proof {
            if e < n {
                assert(rest.subrange(0, (e - p) as int) =~= v@.subrange(p as int, e as int));
                assert(strip_cr(v@.subrange(p as int, e as int)) =~= line);
                assert(rest.subrange((e - p + 1) as int, rest.len() as int) =~= v@.subrange(e + 1, n as int));
            } else {
                assert(rest =~= line);
            }
        }
        let (a, b) = clean_bounds(&v, p, le);
        let ghost cl = clean_line(line);
        let ghost before = done.map_values(|l: Seq<char>| clean_line(l));
        proof {
            lemma_skip_blank_push(before, cl);
            assert(done.push(line).map_values(|l: Seq<char>| clean_line(l)) =~= before.push(cl));
        }
        let seen = out.as_str().is_empty() == false;
        proof {
            if skip_blank(before).len() > 0 {
                assert(join_lines(skip_blank(before)).len() > 0) by {
                    let sb = skip_blank(before);
                    assert(join_lines(sb) == join_lines(sb.drop_last()) + sb.last() + seq!['\n']);
                }
            }
        }
        if seen || a < b {
            append_range(&mut out, &v, a, b);
            push_char(&mut out, '\n');
            proof {
                let sb = if skip_blank(before).len() == 0 { seq![cl] } else { skip_blank(before).push(cl) };
                assert(sb.drop_last() =~= skip_blank(before));
            }
        }
        proof {
            done = done.push(line);
        }
        p = if e < n { e + 1 } else { n };
        proof {
            if p == n {
                assert(v@.subrange(p as int, n as int) =~= Seq::<char>::empty());
            }
        }
    }
    out
}

/// `s` with every non-overlapping occurrence of `from`, left to right, replaced by `to`.
pub open spec fn replace_lit(s: Seq<char>, from: Seq<char>, to: Seq<char>) -> Seq<char>
    decreases s.len(),
{
    if s.len() == 0 || from.len() == 0 {
        s
    } else if is_prefix(from, s) {
        to + replace_lit(s.subrange(from.len() as int, s.len() as int), from, to)
    } else {
        seq![s[0]] + replace_lit(s.drop_first(), from, to)
    }
}

/// `text` with every occurrence of `from` replaced by `to`.
pub fn replace_text(text: &str, from: &str, to: &str) -> (r: String)
    ensures
        r@ == replace_lit(text@, from@, to@),
{
    let v = chars_of(text);
    let f = chars_of(from);
    let n = v.len();
    let mut out = String::new();
    if f.len() == 0 {
        append_range(&mut out, &v, 0, n);
        assert(v@.subrange(0, n as int) == v@);
        return out;
    }
    let mut p: usize = 0;
    assert(v@.subrange(0, n as int) == v@);
    while p < n
        invariant
            p <= n == v.len(),
            v@ == text@,
            f@ == from@,
            f.len() > 0,
            replace_lit(v@, f@, to@) == out@ + replace_lit(v@.subrange(p as int, n as int), f@, to@),
        decreases n - p,
    {
        let ghost rest = v@.subrange(p as int, n as int);
        if has_at(&v, p, &f) {
            out.append(to);
            assert(rest.subrange(f.len() as int, rest.len() as int) =~= v@.subrange(p + f.len(), n as int));
            p = p + f.len();
        } else {
            push_char(&mut out, v[p]);
            assert(rest.drop_first() =~= v@.subrange(p + 1, n as int));
            p = p + 1;
        }
    }
    assert(v@.subrange(p as int, n as int) =~= Seq::<char>::empty());
    out
}

pub const CALLOUT_PATTERN: &'static str = r#">\s+\[!(?<type>\w+)]\s+"#;
pub const CALLOUT_REPLACEMENT: &'static str = "> [!$type]\n> ";

/// Rewrites admonition markers into the two-line block form.
pub struct GfmQuoteBlocks {
    callout_regex: Pattern,
}

/// The admonition rewrite: the alias label is made canonical, then each
/// single-line marker is split into the two-line block form; where the matcher
/// gives up, the text after the first step is kept.
pub open spec fn quote_blocks(text: Seq<char>) -> Seq<char> {
    let t = replace_lit(text, "> [!INFO]"@, "> [!NOTE]"@);
    match regex_replaced(CALLOUT_PATTERN@, CALLOUT_REPLACEMENT@, t) {
        Some(x) => x,
        None => t,
    }
}

impl GfmQuoteBlocks {
    pub closed spec fn wf(&self) -> bool {
        self.callout_regex.source() == CALLOUT_PATTERN@
    }

    pub fn new() -> (r: Option<GfmQuoteBlocks>)
        ensures
            r matches Some(g) ==> g.wf(),
    {
        match compile(CALLOUT_PATTERN) {
            Ok(p) => Some(GfmQuoteBlocks { callout_regex: p }),
            Err(_) => None,
        }
    }

    pub fn apply(&self, text: &mut String)
        requires
            self.wf(),
        ensures
            final(text)@ == quote_blocks(old(text)@),
    {
        let t = replace_text(text.as_str(), "> [!INFO]", "> [!NOTE]");
        match replace_all(&self.callout_regex, t.as_str(), CALLOUT_REPLACEMENT) {
            Ok(x) => *text = x,
            Err(_) => *text = t,
        }
    }
}

/// The summary and the details of normalised comment text `d`: text marked by a
/// leading `!` has its first line (without one leading space) as summary and the
/// rest, if there is a line break, as details; other text is all details.
pub open spec fn split_summary(d: Seq<char>) -> (Option<Seq<char>>, Option<Seq<char>>) {
    if d.len() > 0 && d[0] == '!' {
        let rest = d.subrange(1, d.len() as int);
        match first_from(rest, is_char('\n'), 0) {
            Some(k) => (Some(drop_space(rest.subrange(0, k))), Some(rest.subrange(k + 1, rest.len() as int))),
            None => (Some(drop_space(rest)), None),
        }
    } else {
        (None, Some(d))
    }
}

pub open spec fn drop_space(s: Seq<char>) -> Seq<char> {
    if s.len() > 0 && s[0] == ' ' {
        s.subrange(1, s.len() as int)
    } else {
        s
    }
}

/// Splits normalised comment text into summary and details, as `split_summary` says.
pub fn summary_and_details(d: &str) -> (r: (Option<String>, Option<String>))
    ensures
        crate::pattern::opt_text(r.0) == split_summary(d@).0,
        crate::pattern::opt_text(r.1) == split_summary(d@).1,
{
    let v = chars_of(d);
    let n = v.len();
    if n == 0 || v[0] != '!' {
        return (None, Some(String::from_str(d)));
    }
    let ghost rest = v@.subrange(1, n as int);
    let mut k: usize = 1;
    while k < n && v[k] != '\n'
        invariant
            1 <= k <= n == v.len(),
            rest == v@.subrange(1, n as int),
            first_from(rest, is_char('\n'), 0) == first_from(rest, is_char('\n'), (k - 1) as int),
        decreases n - k,
    {
        k = k + 1;
    }
    let mut a: usize = 1;
    if a < k && v[a] == ' ' {
        a = 2;
    }
    let summary = crate::text::string_of(&v, a, k);
    proof {
        assert(rest.subrange(0, (k - 1) as int) =~= v@.subrange(1, k as int));
        assert(drop_space(v@.subrange(1, k as int)) =~= v@.subrange(a as int, k as int));
    }
    if k < n {
        let details = crate::text::string_of(&v, k + 1, n);
        assert(rest.subrange(k as int, rest.len() as int) =~= v@.subrange(k + 1, n as int));
        (Some(summary), Some(details))
    } else {
        assert(rest =~= v@.subrange(1, k as int));
        (Some(summary), None)
    }
}

/// Whether `c` has the Unicode Lowercase property.
pub uninterp spec fn lowercase(c: char) -> bool;

/// Relies on char::is_lowercase: whether `c` has the Lowercase property.
#[verifier::external_body]
fn is_lower(c: char) -> (r: bool)
    ensures
        r == lowercase(c),
{
    c.is_lowercase()
}

/// The first `@@` in `s` at or after `i`.
pub open spec fn pair_from(s: Seq<char>, i: int) -> Option<int>
    decreases s.len() - i,
{
    if i < 0 || i + 1 >= s.len() {
        None
    } else if s[i] == '@' && s[i + 1] == '@' {
        Some(i)
    } else {
        pair_from(s, i + 1)
    }
}

pub open spec fn is_sep(c: char) -> bool {
    c == '$' || c == ' ' || c == ',' || c == ';' || c == ':'
}

pub open spec fn sep() -> spec_fn(char) -> bool {
    |c: char| is_sep(c)
}

/// The length of the token at the start of `s` and where the text after it
/// resumes: the token runs to the first separator, a `$` separator is consumed,
/// and one trailing `.` is left to the text.
pub open spec fn token_bounds(s: Seq<char>) -> (int, int) {
    let (tl, end) = match first_from(s, sep(), 0) {
        Some(j) => (j, if s[j] == '$' { j + 1 } else { j }),
        None => (s.len() as int, s.len() as int),
    };
    if tl > 0 && s[tl - 1] == '.' {
        (tl - 1, end - 1)
    } else {
        (tl, end)
    }
}

/// `s` split at its last `.`; all of it is the second part where it has none.
pub open spec fn rsplit_dot(s: Seq<char>) -> (Seq<char>, Seq<char>) {
    match last_below(s, is_char('.'), s.len() as int) {
        Some(k) => (s.subrange(0, k), s.subrange(k + 1, s.len() as int)),
        None => (Seq::empty(), s),
    }
}

/// The module path with `_` before it and for each `.` in it.
pub open spec fn underscored(m: Seq<char>) -> Seq<char> {
    seq!['_'] + m.map_values(|c: char| if c == '.' { '_' } else { c })
}

/// The type a cross-reference token names, if any, and its member text. A token
/// starting in lower case names a member of the current type. Otherwise it is a
/// dotted type name, possibly ending in a lower-case member, its module
/// defaulting to `module`.
pub open spec fn token_split(ty: Seq<char>, module: Seq<char>) -> (Option<(Seq<char>, Seq<char>)>, Seq<char>) {
    if ty.len() == 0 {
        (None, Seq::empty())
    } else if lowercase(ty[0]) {
        (None, ty)
    } else {
        let (a, b) = rsplit_dot(ty);
        let (m, n, mem) = if b.len() > 0 && lowercase(b[0]) {
            let (c, d) = rsplit_dot(a);
            (c, d, b)
        } else {
            (a, b, Seq::empty())
        };
        (Some((if m.len() == 0 { module } else { m }, n)), mem)
    }
}

/// The kind and name of a member reference: one ending in `()` is a function,
/// in `(s)` a signal, any other a property.
pub open spec fn member_split(member: Seq<char>) -> (Seq<char>, Seq<char>) {
    if is_suffix("()"@, member) {
        ("func"@, member.subrange(0, member.len() - 2))
    } else if is_suffix("(s)"@, member) {
        ("signal"@, member.subrange(0, member.len() - 3))
    } else {
        ("prop"@, member)
    }
}

/// The part of a placeholder that names the type `t`: its origin, its module
/// path and its name.
pub open spec fn type_part(t: Option<(Seq<char>, Seq<char>)>) -> Seq<char> {
    match t {
        Some((m, n)) => (if is_prefix("Quickshell"@, m) {
            "99MQS"@
        } else {
            "99MQT_qml"@
        }) + underscored(m) + "99N"@ + n,
        None => Seq::empty(),
    }
}

/// The part of a placeholder that names a member, if it has a name.
pub open spec fn member_part(kind: Seq<char>, name: Seq<char>) -> Seq<char> {
    if name.len() > 0 {
        "99V"@ + name + "99T"@ + kind
    } else {
        Seq::empty()
    }
}

/// The placeholder for the cross-reference token `ty`.
pub open spec fn render(ty: Seq<char>, module: Seq<char>) -> Seq<char> {
    let (t, member) = token_split(ty, module);
    let (kind, name) = member_split(member);
    "TYPE"@ + type_part(t) + member_part(kind, name) + "99TYPE"@
}

/// The line `s` with each `@@` token replaced by its placeholder.
pub open spec fn links_in(s: Seq<char>, module: Seq<char>) -> Seq<char>
    decreases s.len(),
{
    match pair_from(s, 0) {
        None => s,
        Some(i) => if 0 <= i && i + 2 <= s.len() {
            let rest = s.subrange(i + 2, s.len() as int);
            let (tl, end) = token_bounds(rest);
            if 0 <= tl <= rest.len() && 0 <= end <= rest.len() {
                s.subrange(0, i) + render(rest.subrange(0, tl), module) + links_in(rest.subrange(end, rest.len() as int), module)
            } else {
                s
            }
        } else {
            s
        },
    }
}

/// Every line of `text`, its tokens replaced, followed by a line break.
pub open spec fn type_links(text: Seq<char>, module: Seq<char>) -> Seq<char> {
    join_lines(lines_of(text).map_values(|l: Seq<char>| links_in(l, module)))
}

/// The last `.` in `v[a..b]`, as an offset from `a`.
fn last_dot(v: &Vec<char>, a: usize, b: usize) -> (r: Option<usize>)
    requires
        a <= b <= v.len(),
    ensures
        match r {
            Some(k) => last_below(v@.subrange(a as int, b as int), is_char('.'), (b - a) as int) == Some(k as int) && k < b - a,
            None => last_below(v@.subrange(a as int, b as int), is_char('.'), (b - a) as int) is None,
        },
{
    let ghost sub = v@.subrange(a as int, b as int);
    let mut j = b;
    while j > a
        invariant
            a <= j <= b <= v.len(),
            sub == v@.subrange(a as int, b as int),
            last_below(sub, is_char('.'), (b - a) as int) == last_below(sub, is_char('.'), (j - a) as int),
        decreases j,
    {
        if v[j - 1] == '.' {
            return Some(j - 1 - a);
        }
        j = j - 1;
    }
    None
}

fn append_text(out: &mut String, s: &str)
    ensures
        final(out)@ == old(out)@ + s@,
{
    out.append(s);
}

/// Appends `"_"` and the characters of `v[a..b]`, each `.` written as `_`.
fn append_underscored(out: &mut String, v: &Vec<char>, a: usize, b: usize)
    requires
        a <= b <= v.len(),
    ensures
        final(out)@ == old(out)@ + underscored(v@.subrange(a as int, b as int)),
{
    push_char(out, '_');
    let ghost sub = v@.subrange(a as int, b as int);
    let ghost mapped = sub.map_values(|c: char| if c == '.' { '_' } else { c });
    let mut i = a;
    while i < b
        invariant
            a <= i <= b <= v.len(),
            sub == v@.subrange(a as int, b as int),
            mapped == sub.map_values(|c: char| if c == '.' { '_' } else { c }),
            out@ == old(out)@ + seq!['_'] + mapped.subrange(0, i - a),
        decreases b - i,
    {
        let c = v[i];
        push_char(out, if c == '.' { '_' } else { c });
        i = i + 1;
        assert(mapped.subrange(0, i - a) =~= mapped.subrange(0, i - a - 1).push(mapped[i - a - 1]));
    }
    assert(mapped.subrange(0, b - a) =~= mapped);
    assert(old(out)@ + seq!['_'] + mapped =~= old(out)@ + underscored(sub));
}

/// Where the parts of the token `v[a..b]` stand: whether it names a type, whether
/// that type's module is the current one, then the bounds of module, name and member.
fn token_parts(v: &Vec<char>, a: usize, b: usize, Ghost(module): Ghost<Seq<char>>) -> (r: (bool, bool, usize, usize, usize, usize, usize, usize))
    requires
        a <= b <= v.len(),
    ensures
        r.2 <= r.3 <= v.len(),
        r.4 <= r.5 <= v.len(),
        r.6 <= r.7 <= v.len(),
        token_split(v@.subrange(a as int, b as int), module).1 == v@.subrange(r.6 as int, r.7 as int),
        match token_split(v@.subrange(a as int, b as int), module).0 {
            Some((m, n)) => r.0 && n == v@.subrange(r.4 as int, r.5 as int)
                && m == if r.1 { module } else { v@.subrange(r.2 as int, r.3 as int) },
            None => !r.0,
        },
{
    let ghost ty = v@.subrange(a as int, b as int);
    if a == b {
        return (false, false, a, a, a, a, a, a);
    }
    if is_lower(v[a]) {
        return (false, false, a, a, a, a, a, b);
    }
    let (sa, sb, ta, tb) = match last_dot(v, a, b) {
        Some(k) => (a, a + k, a + k + 1, b),
        None => (a, a, a, b),
    };
    assert(rsplit_dot(ty).0 =~= v@.subrange(sa as int, sb as int));
    assert(rsplit_dot(ty).1 =~= v@.subrange(ta as int, tb as int));
    if tb > ta && is_lower(v[ta]) {
        let (ma, mb, na, nb) = match last_dot(v, sa, sb) {
            Some(k) => (sa, sa + k, sa + k + 1, sb),
            None => (sa, sa, sa, sb),
        };
        let ghost s2 = v@.subrange(sa as int, sb as int);
        assert(rsplit_dot(s2).0 =~= v@.subrange(ma as int, mb as int));
        assert(rsplit_dot(s2).1 =~= v@.subrange(na as int, nb as int));
        (true, ma == mb, ma, mb, na, nb, ta, tb)
    } else {
        (true, sa == sb, sa, sb, ta, tb, a, a)
    }
}

/// The kind of the member reference `v[a..b]` (0 property, 1 function, 2 signal)
/// and the end of its name.
fn member_parts(v: &Vec<char>, a: usize, b: usize) -> (r: (u8, usize))
    requires
        a <= b <= v.len(),
    ensures
        a <= r.1 <= b,
        r.0 < 3,
        member_split(v@.subrange(a as int, b as int)) == (
            if r.0 == 1 { "func"@ } else if r.0 == 2 { "signal"@ } else { "prop"@ },
            v@.subrange(a as int, r.1 as int),
        ),
{
    let ghost member = v@.subrange(a as int, b as int);
    let paren = vec!['\u{28}', '\u{29}'];
    let sig = vec!['\u{28}', 's', '\u{29}'];
    proof {
        reveal_strlit("()");
        reveal_strlit("(s)");
    }
    assert(paren@ == "()"@);
    assert(sig@ == "(s)"@);
    let two = b - a >= 2 && crate::text::has_at(v, b - 2, &paren);
    proof {
        if b - a >= 2 {
            assert(v@.subrange(b - 2, v.len() as int).subrange(0, 2) =~= member.subrange(member.len() - 2, member.len() as int));
        }
    }
    if two {
        assert(v@.subrange(a as int, b - 2) =~= member.subrange(0, member.len() - 2));
        return (1, b - 2);
    }
    let three = b - a >= 3 && crate::text::has_at(v, b - 3, &sig);
    proof {
        if b - a >= 3 {
            assert(v@.subrange(b - 3, v.len() as int).subrange(0, 3) =~= member.subrange(member.len() - 3, member.len() as int));
        }
    }
    if three {
        assert(v@.subrange(a as int, b - 3) =~= member.subrange(0, member.len() - 3));
        return (2, b - 3);
    }
    (0, b)
}

fn starts_quick(v: &Vec<char>, a: usize, b: usize) -> (r: bool)
    requires
        a <= b <= v.len(),
    ensures
        r == is_prefix("Quickshell"@, v@.subrange(a as int, b as int)),
{
    let qs = vec!['Q', 'u', 'i', 'c', 'k', 's', 'h', 'e', 'l', 'l'];
    proof {
        reveal_strlit("Quickshell");
    }
    assert(qs@ == "Quickshell"@);
    if b - a < 10 {
        return false;
    }
    let r = crate::text::has_at(v, a, &qs);
    assert(v@.subrange(a as int, v.len() as int).subrange(0, 10) =~= v@.subrange(a as int, b as int).subrange(0, 10));
    r
}

fn append_type_part(out: &mut String, v: &Vec<char>, use_ctx: bool, ma: usize, mb: usize, na: usize, nb: usize, module: &Vec<char>)
    requires
        ma <= mb <= v.len(),
        na <= nb <= v.len(),
    ensures
        final(out)@ == old(out)@ + type_part(Some((if use_ctx { module@ } else { v@.subrange(ma as int, mb as int) }, v@.subrange(na as int, nb as int)))),
{
    let ghost m = if use_ctx { module@ } else { v@.subrange(ma as int, mb as int) };
    let quick = if use_ctx {
        starts_quick(module, 0, module.len())
    } else {
        starts_quick(v, ma, mb)
    };
    assert(module@.subrange(0, module.len() as int) =~= module@);
    let ghost before = out@;
    if quick {
        append_text(out, "99MQS");
    } else {
        append_text(out, "99MQT_qml");
    }
    if use_ctx {
        append_underscored(out, module, 0, module.len());
    } else {
        append_underscored(out, v, ma, mb);
    }
    append_text(out, "99N");
    append_range(out, v, na, nb);
    assert(out@ =~= before + ((if is_prefix("Quickshell"@, m) { "99MQS"@ } else { "99MQT_qml"@ }) + underscored(m) + "99N"@ + v@.subrange(na as int, nb as int)));
}

fn append_member_part(out: &mut String, v: &Vec<char>, kind: u8, ea: usize, ke: usize)
    requires
        ea <= ke <= v.len(),
    ensures
        final(out)@ == old(out)@ + member_part(
            if kind == 1 { "func"@ } else if kind == 2 { "signal"@ } else { "prop"@ },
            v@.subrange(ea as int, ke as int),
        ),
{
    if ke > ea {
        let ghost before = out@;
        append_text(out, "99V");
        append_range(out, v, ea, ke);
        append_text(out, "99T");
        if kind == 1 {
            append_text(out, "func");
        } else if kind == 2 {
            append_text(out, "signal");
        } else {
            append_text(out, "prop");
        }
        assert(out@ =~= before + ("99V"@ + v@.subrange(ea as int, ke as int) + "99T"@ + (if kind == 1 { "func"@ } else if kind == 2 { "signal"@ } else { "prop"@ })));
    } else {
        assert(out@ =~= old(out)@ + Seq::<char>::empty());
    }
}

/// Appends the placeholder for the token `v[a..b]`.
fn render_token(v: &Vec<char>, a: usize, b: usize, module: &Vec<char>, out: &mut String)
    requires
        a <= b <= v.len(),
    ensures
        final(out)@ == old(out)@ + render(v@.subrange(a as int, b as int), module@),
{
    let (has_type, use_ctx, ma, mb, na, nb, ea, eb) = token_parts(v, a, b, Ghost(module@));
    let (kind, ke) = member_parts(v, ea, eb);
    let ghost before = out@;
    append_text(out, "TYPE");
    let ghost head_end = out@;
    if has_type {
        append_type_part(out, v, use_ctx, ma, mb, na, nb, module);
    }
    let ghost type_end = out@;
    append_member_part(out, v, kind, ea, ke);
    append_text(out, "99TYPE");
    let ghost ts = token_split(v@.subrange(a as int, b as int), module@);
    assert(type_end == head_end + type_part(ts.0));
    assert(out@ =~= before + ("TYPE"@ + type_part(ts.0) + member_part(member_split(ts.1).0, member_split(ts.1).1) + "99TYPE"@));
}

/// The first `@@` in `v[from..to]`.
fn find_pair(v: &Vec<char>, from: usize, to: usize) -> (r: Option<usize>)
    requires
        from <= to <= v.len(),
    ensures
        match r {
            Some(q) => from <= q && q + 2 <= to && pair_from(v@.subrange(from as int, to as int), 0) == Some((q - from) as int),
            None => pair_from(v@.subrange(from as int, to as int), 0) is None,
        },
{
    let ghost sub = v@.subrange(from as int, to as int);
    let mut q = from;
    while to - q > 1
        invariant
            from <= q <= to <= v.len(),
            sub == v@.subrange(from as int, to as int),
            pair_from(sub, 0) == pair_from(sub, (q - from) as int),
        decreases to - q,
    {
        if v[q] == '@' && v[q + 1] == '@' {
            return Some(q);
        }
        q = q + 1;
    }
    None
}

/// Where the token starting at `v[r]` ends, and where the text after it resumes.
fn token_end(v: &Vec<char>, r: usize, to: usize) -> (e: (usize, usize))
    requires
        r <= to <= v.len(),
    ensures
        r <= e.0 <= to,
        r <= e.1 <= to,
        token_bounds(v@.subrange(r as int, to as int)) == ((e.0 - r) as int, (e.1 - r) as int),
{
    let ghost rest = v@.subrange(r as int, to as int);
    let mut j = r;
    while j < to && !(v[j] == '$' || v[j] == ' ' || v[j] == ',' || v[j] == ';' || v[j] == ':')
        invariant
            r <= j <= to <= v.len(),
            rest == v@.subrange(r as int, to as int),
            first_from(rest, sep(), 0) == first_from(rest, sep(), (j - r) as int),
        decreases to - j,
    {
        j = j + 1;
    }
    let (mut te, mut en) = if j < to {
        (j, if v[j] == '$' { j + 1 } else { j })
    } else {
        (to, to)
    };
    if te > r && v[te - 1] == '.' {
        te = te - 1;
        en = en - 1;
    }
    (te, en)
}

/// Appends the line `v[from..to]` with its tokens replaced.
fn links_line(v: &Vec<char>, from: usize, to: usize, module: &Vec<char>, out: &mut String)
    requires
        from <= to <= v.len(),
    ensures
        final(out)@ == old(out)@ + links_in(v@.subrange(from as int, to as int), module@),
    decreases to - from,
{
    let ghost sub = v@.subrange(from as int, to as int);
    let q = match find_pair(v, from, to) {
        Some(q) => q,
        None => {
            append_range(out, v, from, to);
            return;
        },
    };
    let r = q + 2;
    let ghost rest = sub.subrange((r - from) as int, sub.len() as int);
    assert(rest =~= v@.subrange(r as int, to as int));
    let (te, en) = token_end(v, r, to);
    assert(rest.subrange(0, (te - r) as int) =~= v@.subrange(r as int, te as int));
    assert(rest.subrange((en - r) as int, rest.len() as int) =~= v@.subrange(en as int, to as int));
    assert(sub.subrange(0, (q - from) as int) =~= v@.subrange(from as int, q as int));
    let ghost o0 = out@;
    append_range(out, v, from, q);
    render_token(v, r, te, module, out);
    links_line(v, en, to, module, out);
    assert(out@ =~= o0 + (v@.subrange(from as int, q as int) + render(v@.subrange(r as int, te as int), module@)
        + links_in(v@.subrange(en as int, to as int), module@)));
}

/// Replaces the cross-reference tokens of every line of `text`.
pub fn replace_links(text: &str, module: &str) -> (r: String)
    ensures
        r@ == type_links(text@, module@),
{
    let v = chars_of(text);
    let m = chars_of(module);
    let n = v.len();
    let mut out = String::new();
    let mut p: usize = 0;
    let ghost mut done: Seq<Seq<char>> = Seq::empty();
    assert(v@.subrange(0, n as int) == v@);
    while p < n
        invariant
            p <= n == v.len(),
            v@ == text@,
            m@ == module@,
            lines_of(v@) == done + lines_of(v@.subrange(p as int, n as int)),
            out@ == join_lines(done.map_values(|l: Seq<char>| links_in(l, module@))),
        decreases n - p,
    {
        let ghost rest = v@.subrange(p as int, n as int);
        let mut e = p;
        while e < n && v[e] != '\n'
            invariant
                p <= e <= n == v.len(),
                rest == v@.subrange(p as int, n as int),
                first_from(rest, is_char('\n'), 0) == first_from(rest, is_char('\n'), (e - p) as int),
            decreases n - e,
        {
            e = e + 1;
        }
        let mut le = e;
        if e < n && le > p && v[le - 1] == '\r' {
            le = le - 1;
        }
        let ghost line = v@.subrange(p as int, le as int);
        proof {
            if e < n {
                assert(rest.subrange(0, (e - p) as int) =~= v@.subrange(p as int, e as int));
                assert(strip_cr(v@.subrange(p as int, e as int)) =~= line);
                assert(rest.subrange((e - p + 1) as int, rest.len() as int) =~= v@.subrange(e + 1, n as int));
            } else {
                assert(rest =~= line);
            }
        }
        let ghost before = done.map_values(|l: Seq<char>| links_in(l, module@));
        links_line(&v, p, le, &m, &mut out);
        push_char(&mut out, '\n');
        proof {
            let after = done.push(line).map_values(|l: Seq<char>| links_in(l, module@));
            assert(after =~= before.push(links_in(line, module@)));
            assert(after.drop_last() =~= before);
            done = done.push(line);
        }
        p = if e < n { e + 1 } else { n };
        proof {
            if p == n {
                assert(v@.subrange(p as int, n as int) =~= Seq::<char>::empty());
            }
        }
    }
    out
}

/// What a reformatting pass is told: the module that owns the text.
pub struct Context {
    pub module: String,
}

/// A rewrite of documentation text.
pub trait ReformatPass {
    /// The pass can run.
    spec fn ready(&self) -> bool;

    /// What the pass makes of `text`, owned by `module`.
    spec fn reformatted(&self, module: Seq<char>, text: Seq<char>) -> Seq<char>;

    fn reformat(&self, context: &Context, text: &mut String)
        requires
            self.ready(),
        ensures
            final(text)@ == self.reformatted(context.module@, old(text)@),
    ;
}

/// Replaces inline cross-reference tokens by structured placeholders.
pub struct TypeLinks;

impl TypeLinks {
    pub fn apply(&self, context: &Context, text: &mut String)
        ensures
            final(text)@ == type_links(old(text)@, context.module@),
    {
        *text = replace_links(text.as_str(), context.module.as_str());
    }
}

impl ReformatPass for TypeLinks {
    open spec fn ready(&self) -> bool {
        true
    }

    open spec fn reformatted(&self, module: Seq<char>, text: Seq<char>) -> Seq<char> {
        type_links(text, module)
    }

    fn reformat(&self, context: &Context, text: &mut String) {
        self.apply(context, text);
    }
}

impl ReformatPass for GfmQuoteBlocks {
    open spec fn ready(&self) -> bool {
        self.wf()
    }

    open spec fn reformatted(&self, module: Seq<char>, text: Seq<char>) -> Seq<char> {
        quote_blocks(text)
    }

    fn reformat(&self, _context: &Context, text: &mut String) {
        self.apply(text);
    }
}

/// The documentation text of a comment: normalised, admonitions rewritten, and
/// cross-references replaced.
pub open spec fn comment_details(text: Seq<char>, module: Seq<char>) -> Seq<char> {
    type_links(quote_blocks(normalized(text)), module)
}

/// The documentation text of `comment`.
pub fn parse_details(comment: &crate::parse::Comment, quotes: &GfmQuoteBlocks) -> (r: String)
    requires
        quotes.wf(),
    ensures
        r@ == comment_details(comment.text@, comment.module@),
{
    let mut s = normalize(comment.text.as_str());
    quotes.apply(&mut s);
    let ctx = Context { module: comment.module.clone() };
    TypeLinks.apply(&ctx, &mut s);
    s
}

/// The summary and the details of `comment`.
pub fn parse_details_desc(comment: &crate::parse::Comment, quotes: &GfmQuoteBlocks) -> (r: (Option<String>, Option<String>))
    requires
        quotes.wf(),
    ensures
        crate::pattern::opt_text(r.0) == split_summary(comment_details(comment.text@, comment.module@)).0,
        crate::pattern::opt_text(r.1) == split_summary(comment_details(comment.text@, comment.module@)).1,
{
    let d = parse_details(comment, quotes);
    summary_and_details(d.as_str())
}

/// A comment marked by a leading `!` splits into a summary, the text before the
/// first line break (without one leading space), and details, the text after it;
/// with no line break there are no details. Unmarked text is all details, with
/// no summary.
pub proof fn lemma_summary_split(d: Seq<char>)
    ensures
        !(d.len() > 0 && d[0] == '!') ==> split_summary(d) == (None::<Seq<char>>, Some(d)),
        d.len() > 0 && d[0] == '!' ==> forall|k: int|
            1 <= k < d.len() && d[k] == '\n' && (forall|j: int| 1 <= j < k ==> d[j] != '\n') ==> split_summary(d) == (
                Some(drop_space(d.subrange(1, k))),
                Some(d.subrange(k + 1, d.len() as int)),
            ),
        d.len() > 0 && d[0] == '!' && (forall|j: int| 1 <= j < d.len() ==> d[j] != '\n') ==> split_summary(d) == (
            Some(drop_space(d.subrange(1, d.len() as int))),
            None::<Seq<char>>,
        ),
{
    if d.len() > 0 && d[0] == '!' {
        let rest = d.subrange(1, d.len() as int);
        lemma_first_from_chars(rest);
        assert forall|k: int|
            1 <= k < d.len() && d[k] == '\n' && (forall|j: int| 1 <= j < k ==> d[j] != '\n') implies split_summary(d) == (
                Some(drop_space(d.subrange(1, k))),
                Some(d.subrange(k + 1, d.len() as int)),
            ) by {
            assert(rest[k - 1] == '\n');
            if first_from(rest, is_char('\n'), 0) != Some(k - 1) {
                let m = first_from(rest, is_char('\n'), 0)->0;
                assert(rest[m] == d[m + 1]);
            }
            assert(rest.subrange(0, k - 1) =~= d.subrange(1, k));
            assert(rest.subrange(k, rest.len() as int) =~= d.subrange(k + 1, d.len() as int));
        }
        if forall|j: int| 1 <= j < d.len() ==> d[j] != '\n' {
            if first_from(rest, is_char('\n'), 0) is Some {
                let m = first_from(rest, is_char('\n'), 0)->0;
                assert(rest[m] == d[m + 1]);
            }
        }
    }
}

proof fn lemma_first_from_chars(s: Seq<char>)
    ensures
        match first_from(s, is_char('\n'), 0) {
            Some(k) => 0 <= k < s.len() && s[k] == '\n' && forall|j: int| 0 <= j < k ==> s[j] != '\n',
            None => forall|j: int| 0 <= j < s.len() ==> s[j] != '\n',
        },
{
    crate::resolver::lemma_first_from(s, is_char('\n'), 0);
}

} // verus!
