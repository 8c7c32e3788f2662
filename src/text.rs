//! Character-level helpers shared by the usage store and the search.

use vstd::prelude::*;

verus! {

/// The name for what `str::to_lowercase` returns on a sequence of characters.
pub uninterp spec fn lower_of(s: Seq<char>) -> Seq<char>;

/// `needle` occurs in `haystack` as a contiguous run of characters.
pub open spec fn is_substring(needle: Seq<char>, haystack: Seq<char>) -> bool {
    exists|i: int|
        0 <= i <= haystack.len() - needle.len() && #[trigger] haystack.subrange(
            i,
            i + needle.len(),
        ) == needle
}

/// Case-insensitive containment, as both the search and the frequent view use it.
pub open spec fn folded_match(pattern: Seq<char>, path: Seq<char>) -> bool {
    is_substring(lower_of(pattern), lower_of(path))
}

/// Relies on `str::to_lowercase`: the result depends on the characters alone,
/// and the empty string stays empty.
#[verifier::external_body]
fn lowercase(s: &str) -> (r: String)
    ensures
        r@ == lower_of(s@),
        s@.len() == 0 ==> r@.len() == 0,
{
    s.to_lowercase()
}

/// Relies on `String::push`: appends one character.
#[verifier::external_body]
pub(crate) fn push_char(s: &mut String, c: char)
    ensures
        final(s)@ == old(s)@.push(c),
{
    s.push(c)
}

/// Relies on `String::pop`: removes and returns the last character, if any.
#[verifier::external_body]
pub(crate) fn pop_char(s: &mut String) -> (r: Option<char>)
    ensures
        old(s)@.len() == 0 ==> r is None && final(s)@ == old(s)@,
        old(s)@.len() > 0 ==> r == Some(old(s)@.last()) && final(s)@ == old(s)@.drop_last(),
{
    s.pop()
}

/// The characters of `s`, in order.
pub fn chars_of(s: &str) -> (r: Vec<char>)
    ensures
        r@ == s@,
{
    let mut v: Vec<char> = Vec::new();
    for c in it: s.chars()
        invariant
            v@ == it.seq().subrange(0, it.index() as int),
    {
        v.push(c);
    }
    v
}

/// The string made of the characters `cs[from..to]`.
pub fn string_of(cs: &Vec<char>, from: usize, to: usize) -> (r: String)
    requires
        from <= to <= cs.len(),
    ensures
        r@ == cs@.subrange(from as int, to as int),
{
    let mut s = String::new();
    let mut i: usize = from;
    while i < to
        invariant
            from <= i <= to <= cs.len(),
            s@ == cs@.subrange(from as int, i as int),
        decreases to - i,
    {
        push_char(&mut s, cs[i]);
        i += 1;
        assert(s@ =~= cs@.subrange(from as int, i as int));
    }
    s
}

/// Whether `needle` occurs in `haystack`.
pub fn contains_substring(haystack: &str, needle: &str) -> (r: bool)
    ensures
        r == is_substring(needle@, haystack@),
{
    let h = chars_of(haystack);
    let n = chars_of(needle);
    contains_chars(&h, &n)
}

fn contains_chars(h: &Vec<char>, n: &Vec<char>) -> (r: bool)
    ensures
        r == is_substring(n@, h@),
{
    if n.len() > h.len() {
        return false;
    }
    let last: usize = h.len() - n.len();
    let mut i: usize = 0;
    while i <= last
        invariant
            last == h.len() - n.len(),
            n.len() <= h.len(),
            i <= last + 1,
            forall|k: int| 0 <= k < i ==> #[trigger] h@.subrange(k, k + n.len()) != n@,
        decreases last + 1 - i,
    {
        let mut j: usize = 0;
        while j < n.len() && h[i + j] == n[j]
            invariant
                i <= last,
                last == h.len() - n.len(),
                j <= n.len(),
                forall|m: int| 0 <= m < j ==> h@[i + m] == n@[m],
            decreases n.len() - j,
        {
            j += 1;
        }
        if j == n.len() {
            assert(h@.subrange(i as int, i + n.len()) =~= n@);
            return true;
        }
        assert(h@.subrange(i as int, i + n.len())[j as int] != n@[j as int]);
        i += 1;
    }
    false
}

/// Whether `path` contains `pattern`, ignoring case.
pub fn folded_contains(path: &str, pattern: &str) -> (r: bool)
    ensures
        r == folded_match(pattern@, path@),
{
    let p = lowercase(path);
    let q = lowercase(pattern);
    contains_substring(p.as_str(), q.as_str())
}

/// The views of a sequence of strings.
pub open spec fn views(v: Seq<String>) -> Seq<Seq<char>> {
    v.map_values(|s: String| s@)
}

/// The pieces of `t` between its newline characters: one more than there are
/// newlines, the last one empty when `t` is empty or ends with a newline.
pub open spec fn split_pieces(t: Seq<char>) -> Seq<Seq<char>>
    decreases t.len(),
{
    if t.len() == 0 {
        seq![Seq::empty()]
    } else {
        let prev = split_pieces(t.drop_last());
        if t.last() == '\n' {
            prev.push(Seq::empty())
        } else {
            prev.update(prev.len() - 1, prev.last().push(t.last()))
        }
    }
}

/// A line without the carriage return that ends a CRLF line ending.
pub open spec fn strip_cr(l: Seq<char>) -> Seq<char> {
    if l.len() > 0 && l.last() == '\r' {
        l.drop_last()
    } else {
        l
    }
}

/// The lines of a text: each newline ends a line (with an optional carriage
/// return before it, which is dropped); a last line without a newline counts
/// when it is not empty.
pub open spec fn lines(t: Seq<char>) -> Seq<Seq<char>> {
    let p = split_pieces(t);
    let ended = p.subrange(0, p.len() - 1).map_values(|l: Seq<char>| strip_cr(l));
    if p.last().len() == 0 {
        ended
    } else {
        ended.push(p.last())
    }
}

/// Splits a text into its lines.
pub fn text_lines(text: &str) -> (r: Vec<String>)
    ensures
        views(r@) == lines(text@),
{
    let cs = chars_of(text);
    let mut out: Vec<String> = Vec::new();
    let ghost mut raw: Seq<Seq<char>> = Seq::empty();
    let mut start: usize = 0;
    let mut i: usize = 0;
    assert(cs@.subrange(0, 0) =~= Seq::<char>::empty());
    assert(raw.push(cs@.subrange(0, 0)) =~= seq![Seq::<char>::empty()]);
    assert(views(out@) =~= raw.map_values(|l: Seq<char>| strip_cr(l)));
    while i < cs.len()
        invariant
            cs@ == text@,
            start <= i <= cs.len(),
            split_pieces(cs@.subrange(0, i as int)) == raw.push(cs@.subrange(start as int, i as int)),
            views(out@) == raw.map_values(|l: Seq<char>| strip_cr(l)),
        decreases cs.len() - i,
    {
        let ghost before = cs@.subrange(0, i as int);
        assert(cs@.subrange(0, i + 1).drop_last() =~= before);
        if cs[i] == '\n' {
            let piece = Ghost(cs@.subrange(start as int, i as int));
            let end: usize = if i > start && cs[i - 1] == '\r' { i - 1 } else { i };
            let line = string_of(&cs, start, end);
            assert(line@ =~= strip_cr(piece@));
            let ghost old_out = out@;
            out.push(line);
            proof {
                raw = raw.push(piece@);
                assert(views(out@) =~= views(old_out).push(line@));
                assert(raw.map_values(|l: Seq<char>| strip_cr(l)) =~= raw.drop_last().map_values(
                    |l: Seq<char>| strip_cr(l),
                ).push(strip_cr(piece@)));
            }
            start = i + 1;
            assert(cs@.subrange(start as int, i + 1) =~= Seq::<char>::empty());
        } else {
            assert(cs@.subrange(start as int, i + 1) =~= cs@.subrange(start as int, i as int).push(cs[i as int]));
        }
        i += 1;
    }
    assert(cs@.subrange(0, i as int) =~= text@);
    let ghost p = split_pieces(text@);
    assert(p.subrange(0, p.len() - 1) =~= raw);
    if start < cs.len() {
        let end: usize = cs.len();
        let last = string_of(&cs, start, end);
        out.push(last);
        assert(views(out@) =~= lines(text@));
    } else {
        assert(views(out@) =~= lines(text@));
    }
    out
}

} // verus!
