//! Reading, writing and updating the usage store. Its text form holds one
//! `<count><TAB><path>` line per entry.

use vstd::prelude::*;
use crate::entry::entry_views;
use crate::store::{FrequencyMap, lemma_lists_unique, lemma_map_of_lists, lists, map_of};
use crate::text::{chars_of, lines, push_char, split_pieces, string_of, strip_cr, text_lines, views};

verus! {

pub open spec fn is_digit(c: char) -> bool {
    '0' <= c && c <= '9'
}

pub open spec fn digit_value(c: char) -> int {
    c as int - '0' as int
}

pub open spec fn all_digits(s: Seq<char>) -> bool {
    forall|i: int| 0 <= i < s.len() ==> is_digit(#[trigger] s[i])
}

/// The number that a run of decimal digits denotes.
pub open spec fn digits_value(s: Seq<char>) -> nat
    decreases s.len(),
{
    if s.len() == 0 {
        0
    } else {
        (10 * digits_value(s.drop_last()) + digit_value(s.last())) as nat
    }
}

/// A count as `u32`'s `from_str` reads it: an optional `+`, then one or more
/// decimal digits whose value fits in 32 bits.
pub open spec fn parse_count(s: Seq<char>) -> Option<u32> {
    let digits = if s.len() > 0 && s[0] == '+' { s.drop_first() } else { s };
    if digits.len() > 0 && all_digits(digits) && digits_value(digits) <= u32::MAX {
        Some(digits_value(digits) as u32)
    } else {
        None
    }
}

/// The index of the first tab of a line.
pub open spec fn is_first_tab(line: Seq<char>, k: int) -> bool {
    0 <= k < line.len() && line[k] == '\t' && forall|j: int| 0 <= j < k ==> line[j] != '\t'
}

/// The record that one line holds: the count before the first tab, the path
/// after it; a line without a tab or with a malformed count holds none.
pub open spec fn parse_record(line: Seq<char>) -> Option<(Seq<char>, u32)> {
    if exists|k: int| is_first_tab(line, k) {
        let k = choose|k: int| is_first_tab(line, k);
        match parse_count(line.subrange(0, k)) {
            Some(n) => Some((line.subrange(k + 1, line.len() as int), n)),
            None => None,
        }
    } else {
        None
    }
}

/// The records of a sequence of lines, in order, skipping the malformed ones.
pub open spec fn records(ls: Seq<Seq<char>>) -> Seq<(Seq<char>, u32)>
    decreases ls.len(),
{
    if ls.len() == 0 {
        Seq::empty()
    } else {
        let prev = records(ls.drop_last());
        match parse_record(ls.last()) {
            Some(r) => prev.push(r),
            None => prev,
        }
    }
}

/// The mapping that a stored text holds.
pub open spec fn parse_store(t: Seq<char>) -> Map<Seq<char>, u32> {
    map_of(records(lines(t)))
}

/// The character of a decimal digit.
pub open spec fn digit_char(d: nat) -> char {
    if d == 0 { '0' }
    else if d == 1 { '1' }
    else if d == 2 { '2' }
    else if d == 3 { '3' }
    else if d == 4 { '4' }
    else if d == 5 { '5' }
    else if d == 6 { '6' }
    else if d == 7 { '7' }
    else if d == 8 { '8' }
    else { '9' }
}

/// The decimal form of a number, without leading zeros.
pub open spec fn decimal(n: nat) -> Seq<char>
    decreases n,
{
    if n < 10 {
        seq![digit_char(n)]
    } else {
        decimal(n / 10).push(digit_char(n % 10))
    }
}

/// One stored line without its newline: the count, a tab, the path.
pub open spec fn record_body(x: (Seq<char>, u32)) -> Seq<char> {
    decimal(x.1 as nat) + seq!['\t'] + x.0
}

/// The text of a sequence of records, one line each.
pub open spec fn serialize_entries(s: Seq<(Seq<char>, u32)>) -> Seq<char>
    decreases s.len(),
{
    if s.len() == 0 {
        Seq::empty()
    } else {
        serialize_entries(s.drop_last()) + record_body(s.last()) + seq!['\n']
    }
}

/// A path that the text form can hold: no tab, no line break.
pub open spec fn storable_path(p: Seq<char>) -> bool {
    forall|i: int| 0 <= i < p.len() ==> #[trigger] p[i] != '\t' && p[i] != '\n' && p[i] != '\r'
}

proof fn lemma_digits_prefix(s: Seq<char>, k: int)
    requires
        all_digits(s),
        0 <= k <= s.len(),
    ensures
        digits_value(s.subrange(0, k)) <= digits_value(s),
    decreases s.len(),
{
    if k < s.len() {
        let t = s.drop_last();
        assert(t.subrange(0, k) =~= s.subrange(0, k));
        lemma_digits_prefix(t, k);
    } else {
        assert(s.subrange(0, k) =~= s);
    }
}

fn digit_of(d: u32) -> (r: char)
    requires
        d < 10,
    ensures
        r == digit_char(d as nat),
{
    if d == 0 { '0' }
    else if d == 1 { '1' }
    else if d == 2 { '2' }
    else if d == 3 { '3' }
    else if d == 4 { '4' }
    else if d == 5 { '5' }
    else if d == 6 { '6' }
    else if d == 7 { '7' }
    else if d == 8 { '8' }
    else { '9' }
}

/// Reads the count in `cs[from..to]`.
fn parse_count_at(cs: &Vec<char>, from: usize, to: usize) -> (r: Option<u32>)
    requires
        from <= to <= cs.len(),
    ensures
        r == parse_count(cs@.subrange(from as int, to as int)),
{
    let ghost s = cs@.subrange(from as int, to as int);
    let mut start: usize = from;
    if from < to && cs[from] == '+' {
        start = from + 1;
    }
    let ghost digits = cs@.subrange(start as int, to as int);
    assert(digits =~= (if s.len() > 0 && s[0] == '+' { s.drop_first() } else { s }));
    if start == to {
        return None;
    }
    let mut acc: u32 = 0;
    let mut i: usize = start;
    assert(cs@.subrange(start as int, start as int) =~= Seq::<char>::empty());
    while i < to
        invariant
            start <= i <= to <= cs.len(),
            digits == cs@.subrange(start as int, to as int),
            s == cs@.subrange(from as int, to as int),
            digits == (if s.len() > 0 && s[0] == '+' { s.drop_first() } else { s }),
            all_digits(cs@.subrange(start as int, i as int)),
            acc as nat == digits_value(cs@.subrange(start as int, i as int)),
        decreases to - i,
    {
        let c = cs[i];
        let ghost next = cs@.subrange(start as int, i + 1);
        assert(next.drop_last() =~= cs@.subrange(start as int, i as int));
        assert(digits[i - start] == c);
        if !('0' <= c && c <= '9') {
            assert(!is_digit(digits[i - start]));
            return None;
        }
        let d: u32 = (c as u32) - ('0' as u32);
        assert(all_digits(next));
        assert(next.last() == c);
        assert(digits_value(next) == 10 * acc + d);
        let grown = match acc.checked_mul(10) {
            Some(a) => a.checked_add(d),
            None => None,
        };
        match grown {
            Some(v) => {
                acc = v;
            },
            None => {
                proof {
                    if all_digits(digits) {
                        assert(digits.subrange(0, i + 1 - start) =~= next);
                        lemma_digits_prefix(digits, i + 1 - start);
                    }
                }
                return None;
            },
        }
        i += 1;
    }
    Some(acc)
}

/// Reads the record of one line, if it holds one.
fn read_record(line: &str) -> (r: Option<(String, u32)>)
    ensures
        match r {
            Some((p, n)) => parse_record(line@) == Some((p@, n)),
            None => parse_record(line@) is None,
        },
{
    let cs = chars_of(line);
    let mut k: usize = 0;
    while k < cs.len() && cs[k] != '\t'
        invariant
            k <= cs.len(),
            cs@ == line@,
            forall|j: int| 0 <= j < k ==> cs@[j] != '\t',
        decreases cs.len() - k,
    {
        k += 1;
    }
    if k == cs.len() {
        assert forall|t: int| !is_first_tab(line@, t) by {
            if 0 <= t < line@.len() {
                assert(line@[t] != '\t');
            }
        }
        return None;
    }
    assert(is_first_tab(line@, k as int));
    proof {
        let c = choose|t: int| is_first_tab(line@, t);
        assert(c == k) by {
            if c < k {
                assert(line@[c] != '\t');
            } else if c > k {
                assert(line@[k as int] != '\t');
            }
        }
    }
    match parse_count_at(&cs, 0, k) {
        Some(n) => {
            let path = string_of(&cs, k + 1, cs.len());
            Some((path, n))
        },
        None => None,
    }
}

/// Appends the decimal form of `n`.
fn push_decimal(s: &mut String, n: u32)
    ensures
        final(s)@ == old(s)@ + decimal(n as nat),
    decreases n,
{
    if n >= 10 {
        push_decimal(s, n / 10);
    }
    push_char(s, digit_of(n % 10));
    proof {
        if n >= 10 {
            assert(final(s)@ =~= old(s)@ + decimal(n as nat));
        } else {
            assert(final(s)@ =~= old(s)@ + decimal(n as nat));
        }
    }
}

/// Reading and writing the usage store's text.
pub struct FrequencyManager;

impl FrequencyManager {
    /// The store that a text holds: each well-formed line in order, a later
    /// line of a path replacing an earlier one; malformed lines are skipped.
    pub fn load(contents: &str) -> (r: FrequencyMap)
        ensures
            r.wf(),
            r@ == parse_store(contents@),
    {
        let ls = text_lines(contents);
        let mut map = FrequencyMap::new();
        let mut i: usize = 0;
        assert(views(ls@).subrange(0, 0) =~= Seq::<Seq<char>>::empty());
        while i < ls.len()
            invariant
                i <= ls.len(),
                views(ls@) == lines(contents@),
                map.wf(),
                map@ == map_of(records(views(ls@).subrange(0, i as int))),
            decreases ls.len() - i,
        {
            let ghost done = views(ls@).subrange(0, i + 1);
            assert(done.drop_last() =~= views(ls@).subrange(0, i as int));
            assert(done.last() == ls[i as int]@);
            let ghost prev = records(views(ls@).subrange(0, i as int));
            match read_record(ls[i].as_str()) {
                Some((path, n)) => {
                    map.insert(path.as_str(), n);
                    assert(records(done) == prev.push((path@, n)));
                    assert(prev.push((path@, n)).drop_last() =~= prev);
                },
                None => {
                    assert(records(done) == prev);
                },
            }
            i += 1;
        }
        assert(views(ls@).subrange(0, i as int) =~= views(ls@));
        map
    }

    /// The text of the store: one line per entry, in some order.
    pub fn save(map: &FrequencyMap) -> (r: String)
        requires
            map.wf(),
        ensures
            exists|s: Seq<(Seq<char>, u32)>| lists(map@, s) && r@ == serialize_entries(s),
    {
        let entries = map.entries();
        let mut out = String::new();
        let mut i: usize = 0;
        assert(entry_views(entries@).subrange(0, 0) =~= Seq::<(Seq<char>, u32)>::empty());
        while i < entries.len()
            invariant
                i <= entries.len(),
                out@ == serialize_entries(entry_views(entries@).subrange(0, i as int)),
            decreases entries.len() - i,
        {
            let ghost done = entry_views(entries@).subrange(0, i + 1);
            assert(done.drop_last() =~= entry_views(entries@).subrange(0, i as int));
            assert(done.last() == entries[i as int]@);
            push_decimal(&mut out, entries[i].count);
            push_char(&mut out, '\t');
            out.append(entries[i].path.as_str());
            push_char(&mut out, '\n');
            assert(out@ =~= serialize_entries(done));
            i += 1;
        }
        assert(entry_views(entries@).subrange(0, i as int) =~= entry_views(entries@));
        out
    }

    /// Counts one more choice of `path`; a new path starts at 1, and a count
    /// at the largest `u32` stays there.
    pub fn increment(map: &mut FrequencyMap, path: &str)
        requires
            old(map).wf(),
        ensures
            final(map).wf(),
            final(map)@ == old(map)@.insert(path@, incremented(old(map)@, path@)),
    {
        let count: u32 = match map.get(path) {
            Some(c) => c.saturating_add(1),
            None => 1,
        };
        map.insert(path, count);
    }
}

/// The count of `path` after one more choice of it.
pub open spec fn incremented(m: Map<Seq<char>, u32>, path: Seq<char>) -> u32 {
    if !m.contains_key(path) {
        1
    } else if m[path] < u32::MAX {
        (m[path] + 1) as u32
    } else {
        m[path]
    }
}

/// What bookmarking a directory did.
#[derive(Debug, Clone, Copy, PartialEq, Eq)]
pub enum BookmarkOutcome {
    Added,
    AlreadyBookmarked,
}

/// Bookmarks `current_dir` with a count of 1, unless the store already holds
/// it, in which case its count stays as it is.
pub fn bookmark_current_directory(map: &mut FrequencyMap, current_dir: &str) -> (r: BookmarkOutcome)
    requires
        old(map).wf(),
    ensures
        final(map).wf(),
        old(map)@.contains_key(current_dir@) ==> r == BookmarkOutcome::AlreadyBookmarked
            && final(map)@ == old(map)@,
        !old(map)@.contains_key(current_dir@) ==> r == BookmarkOutcome::Added && final(map)@
            == old(map)@.insert(current_dir@, 1),
{
    if map.contains_key(current_dir) {
        BookmarkOutcome::AlreadyBookmarked
    } else {
        map.insert(current_dir, 1);
        BookmarkOutcome::Added
    }
}

/// Resetting a path's count twice in a row leaves the store as the first
/// reset left it: the second removal finds nothing to remove.
pub proof fn lemma_reset_idempotent(
    before: FrequencyMap,
    once: FrequencyMap,
    twice: FrequencyMap,
    path: Seq<char>,
)
    requires
        once@ == before@.remove(path),
        twice@ == once@.remove(path),
    ensures
        twice@ == once@,
{
    assert(once@.remove(path) =~= once@);
}

/// The stored lines of a sequence of records, without their newlines.
pub open spec fn record_bodies(s: Seq<(Seq<char>, u32)>) -> Seq<Seq<char>> {
    s.map_values(|x: (Seq<char>, u32)| record_body(x))
}

proof fn lemma_decimal(n: nat)
    ensures
        decimal(n).len() > 0,
        all_digits(decimal(n)),
        digits_value(decimal(n)) == n,
    decreases n,
{
    let c = digit_char(n % 10);
    assert(is_digit(c) && digit_value(c) == n % 10);
    if n >= 10 {
        lemma_decimal(n / 10);
        assert(decimal(n).drop_last() =~= decimal(n / 10));
        assert(decimal(n).last() == c);
        assert(10 * (n / 10) + n % 10 == n);
        assert(digits_value(decimal(n)) == 10 * digits_value(decimal(n / 10)) + digit_value(c));
    } else {
        assert(decimal(n).drop_last() =~= Seq::<char>::empty());
        assert(decimal(n).last() == c);
        assert(digits_value(decimal(n)) == 10 * digits_value(Seq::<char>::empty()) + digit_value(c));
    }
}

proof fn lemma_split_len(t: Seq<char>)
    ensures
        split_pieces(t).len() >= 1,
    decreases t.len(),
{
    if t.len() > 0 {
        lemma_split_len(t.drop_last());
    }
}

/// Text without a newline extends the last piece.
proof fn lemma_split_append(t: Seq<char>, b: Seq<char>)
    requires
        forall|i: int| 0 <= i < b.len() ==> #[trigger] b[i] != '\n',
    ensures
        split_pieces(t + b) == split_pieces(t).drop_last().push(split_pieces(t).last() + b),
    decreases b.len(),
{
    lemma_split_len(t);
    let p = split_pieces(t);
    if b.len() == 0 {
        assert(t + b =~= t);
        assert(p.drop_last().push(p.last() + b) =~= p);
    } else {
        let b0 = b.drop_last();
        lemma_split_append(t, b0);
        assert((t + b).drop_last() =~= t + b0);
        assert((t + b).last() == b.last());
        assert((p.last() + b0).push(b.last()) =~= p.last() + b);
        assert(p.drop_last().push(p.last() + b0).update(p.len() - 1, (p.last() + b0).push(b.last()))
            =~= p.drop_last().push(p.last() + b));
    }
}

proof fn lemma_body_chars(x: (Seq<char>, u32))
    requires
        storable_path(x.0),
    ensures
        forall|i: int| 0 <= i < record_body(x).len() ==> #[trigger] record_body(x)[i] != '\n',
        record_body(x).len() > 0 && record_body(x).last() != '\r',
{
    lemma_decimal(x.1 as nat);
    let d = decimal(x.1 as nat);
    assert forall|i: int| 0 <= i < record_body(x).len() implies #[trigger] record_body(x)[i] != '\n' by {
        if i < d.len() {
            assert(is_digit(d[i]));
        } else if i > d.len() {
            assert(record_body(x)[i] == x.0[i - d.len() - 1]);
        }
    }
    if x.0.len() > 0 {
        assert(record_body(x).last() == x.0[x.0.len() - 1]);
    }
}

proof fn lemma_split_serialized(s: Seq<(Seq<char>, u32)>)
    requires
        forall|i: int| 0 <= i < s.len() ==> storable_path(#[trigger] s[i].0),
    ensures
        split_pieces(serialize_entries(s)) == record_bodies(s).push(Seq::empty()),
    decreases s.len(),
{
    if s.len() == 0 {
        assert(record_bodies(s).push(Seq::empty()) =~= seq![Seq::<char>::empty()]);
    } else {
        let t = s.drop_last();
        let x = s.last();
        assert(storable_path(s[s.len() - 1].0));
        assert forall|i: int| 0 <= i < t.len() implies storable_path(#[trigger] t[i].0) by {
            assert(t[i] == s[i]);
        }
        lemma_split_serialized(t);
        lemma_body_chars(x);
        let head = serialize_entries(t);
        lemma_split_append(head, record_body(x));
        assert(record_bodies(t).push(Seq::empty()).drop_last() =~= record_bodies(t));
        assert(Seq::<char>::empty() + record_body(x) =~= record_body(x));
        let whole = serialize_entries(s);
        assert(whole.drop_last() =~= head + record_body(x));
        assert(record_bodies(s) =~= record_bodies(t).push(record_body(x)));
    }
}

proof fn lemma_record_body(x: (Seq<char>, u32))
    ensures
        parse_record(record_body(x)) == Some(x),
{
    lemma_decimal(x.1 as nat);
    let d = decimal(x.1 as nat);
    let line = record_body(x);
    let k = d.len() as int;
    assert forall|j: int| 0 <= j < k implies line[j] != '\t' by {
        assert(line[j] == d[j]);
        assert(is_digit(d[j]));
    }
    assert(is_first_tab(line, k));
    let c = choose|t: int| is_first_tab(line, t);
    assert(c == k) by {
        if c < k {
            assert(line[c] != '\t');
        } else if c > k {
            assert(line[k] == '\t');
        }
    }
    assert(line.subrange(0, k) =~= d);
    assert(is_digit(d[0]));
    assert(line.subrange(k + 1, line.len() as int) =~= x.0);
}

proof fn lemma_records_of_bodies(s: Seq<(Seq<char>, u32)>)
    ensures
        records(record_bodies(s)) == s,
    decreases s.len(),
{
    if s.len() > 0 {
        let t = s.drop_last();
        lemma_records_of_bodies(t);
        assert(record_bodies(s).drop_last() =~= record_bodies(t));
        lemma_record_body(s.last());
        assert(s =~= t.push(s.last()));
    } else {
        assert(record_bodies(s) =~= Seq::<Seq<char>>::empty());
    }
}

/// Loading the text that saving a store produced gives that store back,
/// whenever no path holds a tab or a line break: whatever order the entries
/// were written in, `load(save(m))` holds `m`, so `save(load(save(m)))` writes
/// the same mapping again.
pub proof fn lemma_save_load_round_trip(m: Map<Seq<char>, u32>, s: Seq<(Seq<char>, u32)>)
    requires
        lists(m, s),
        forall|k: Seq<char>| #[trigger] m.contains_key(k) ==> storable_path(k),
    ensures
        parse_store(serialize_entries(s)) == m,
{
    assert forall|i: int| 0 <= i < s.len() implies storable_path(#[trigger] s[i].0) by {
        assert(m.contains_key(s[i].0));
    }
    lemma_split_serialized(s);
    let text = serialize_entries(s);
    let p = split_pieces(text);
    assert(p.subrange(0, p.len() - 1) =~= record_bodies(s));
    assert forall|i: int| 0 <= i < s.len() implies strip_cr(#[trigger] record_bodies(s)[i]) == record_bodies(s)[i] by {
        lemma_body_chars(s[i]);
    }
    assert(lines(text) =~= record_bodies(s));
    lemma_records_of_bodies(s);
    lemma_map_of_lists(s);
    lemma_lists_unique(map_of(s), m, s);
}

} // verus!
