//! Finding each process's stack range token in its memory-map listing.
use vstd::prelude::*;

verus! {

/// The characters of `s`, one per element.
pub fn chars_of(s: &str) -> (r: Vec<char>)
    ensures
        r@ == s@,
{
    let n = s.unicode_len();
    let mut out: Vec<char> = Vec::with_capacity(n);
    let mut i: usize = 0;
    while i < n
        invariant
            n == s@.len(),
            i <= n,
            out@ == s@.subrange(0, i as int),
        decreases n - i,
    {
        out.push(s.get_char(i));
        i = i + 1;
        assert(out@ =~= s@.subrange(0, i as int));
    }
    assert(out@ =~= s@);
    out
}

/// `pat` occurs in `s` starting at position `k`.
pub open spec fn occurs_at(s: Seq<char>, pat: Seq<char>, k: int) -> bool {
    0 <= k && k + pat.len() <= s.len() && s.subrange(k, k + pat.len()) == pat
}

pub open spec fn contains(s: Seq<char>, pat: Seq<char>) -> bool {
    exists|k: int| occurs_at(s, pat, k)
}

/// Whether `pat` occurs anywhere in `s`.
pub fn contains_chars(s: &Vec<char>, pat: &Vec<char>) -> (r: bool)
    ensures
        r == contains(s@, pat@),
{
    let n = s.len();
    let m = pat.len();
    if m > n {
        assert forall|k: int| !occurs_at(s@, pat@, k) by {}
        return false;
    }
    let mut i: usize = 0;
    while i <= n - m
        invariant
            n == s@.len(),
            m == pat@.len(),
            m <= n,
            i <= n - m + 1,
            forall|k: int| 0 <= k < i ==> !#[trigger] occurs_at(s@, pat@, k),
        decreases n - m + 1 - i,
    {
        let mut j: usize = 0;
        let mut same = true;
        while j < m && same
            invariant
                n == s@.len(),
                m == pat@.len(),
                i + m <= n,
                j <= m,
                same ==> forall|t: int| 0 <= t < j ==> s@[i + t] == pat@[t],
                !same ==> j > 0 && s@[i + j - 1] != pat@[j - 1],
            decreases m - j + (if same { 1int } else { 0int }),
        {
            if s[i + j] != pat[j] {
                same = false;
            }
            j = j + 1;
        }
        if same {
            assert(s@.subrange(i as int, i + m) =~= pat@);
            assert(occurs_at(s@, pat@, i as int));
            return true;
        }
        assert(s@.subrange(i as int, i + m)[j - 1] == s@[i + j - 1]);
        i = i + 1;
    }
    assert forall|k: int| !occurs_at(s@, pat@, k) by {
        if 0 <= k < i {
        }
    }
    false
}

/// The whitespace that separates the fields of a line: the characters with
/// the Unicode `White_Space` property.
pub open spec fn is_space(c: char) -> bool {
    ('\u{9}' <= c && c <= '\u{d}') || c == ' ' || c == '\u{85}' || c == '\u{a0}'
        || c == '\u{1680}' || ('\u{2000}' <= c && c <= '\u{200a}') || c == '\u{2028}'
        || c == '\u{2029}' || c == '\u{202f}' || c == '\u{205f}' || c == '\u{3000}'
}

pub fn is_space_char(c: char) -> (r: bool)
    ensures
        r == is_space(c),
{
    ('\u{9}' <= c && c <= '\u{d}') || c == ' ' || c == '\u{85}' || c == '\u{a0}'
        || c == '\u{1680}' || ('\u{2000}' <= c && c <= '\u{200a}') || c == '\u{2028}'
        || c == '\u{2029}' || c == '\u{202f}' || c == '\u{205f}' || c == '\u{3000}'
}

/// The first position at or after `i` that is not whitespace.
pub open spec fn skip_spaces(s: Seq<char>, i: int) -> int
    decreases s.len() - i,
{
    if 0 <= i < s.len() && is_space(s[i]) {
        skip_spaces(s, i + 1)
    } else {
        i
    }
}

/// The first position at or after `i` that is whitespace.
pub open spec fn skip_word(s: Seq<char>, i: int) -> int
    decreases s.len() - i,
{
    if 0 <= i < s.len() && !is_space(s[i]) {
        skip_word(s, i + 1)
    } else {
        i
    }
}

/// The first whitespace-delimited field of `s` (empty when there is none).
pub open spec fn first_field(s: Seq<char>) -> Seq<char> {
    s.subrange(skip_spaces(s, 0), skip_word(s, skip_spaces(s, 0)))
}

/// The position just past the last character before `i` that is not
/// whitespace.
pub open spec fn back_spaces(s: Seq<char>, i: int) -> int
    decreases i,
{
    if 0 < i <= s.len() && is_space(s[i - 1]) {
        back_spaces(s, i - 1)
    } else {
        i
    }
}

/// The start of the run of non-whitespace characters that ends at `i`.
pub open spec fn back_word(s: Seq<char>, i: int) -> int
    decreases i,
{
    if 0 < i <= s.len() && !is_space(s[i - 1]) {
        back_word(s, i - 1)
    } else {
        i
    }
}

/// The last whitespace-delimited field of `s` (empty when there is none).
pub open spec fn last_field(s: Seq<char>) -> Seq<char> {
    s.subrange(back_word(s, back_spaces(s, s.len() as int)), back_spaces(s, s.len() as int))
}

/// The first whitespace-delimited field of `line`.
pub fn first_field_of(line: &str) -> (r: String)
    ensures
        r@ == first_field(line@),
{
    let cs = chars_of(line);
    let n = cs.len();
    let mut a: usize = 0;
    while a < n && is_space_char(cs[a])
        invariant
            n == line@.len(),
            cs@ == line@,
            a <= n,
            skip_spaces(line@, 0) == skip_spaces(line@, a as int),
        decreases n - a,
    {
        a = a + 1;
    }
    let mut b: usize = a;
    while b < n && !is_space_char(cs[b])
        invariant
            n == line@.len(),
            cs@ == line@,
            a <= b <= n,
            skip_spaces(line@, 0) == a,
            skip_word(line@, a as int) == skip_word(line@, b as int),
        decreases n - b,
    {
        b = b + 1;
    }
    line.substring_char(a, b).to_owned()
}

/// The last whitespace-delimited field of `line`.
pub fn last_field_of(line: &str) -> (r: String)
    ensures
        r@ == last_field(line@),
{
    let cs = chars_of(line);
    let n = cs.len();
    let mut e: usize = n;
    while e > 0 && is_space_char(cs[e - 1])
        invariant
            n == line@.len(),
            cs@ == line@,
            e <= n,
            back_spaces(line@, n as int) == back_spaces(line@, e as int),
        decreases e,
    {
        e = e - 1;
    }
    let mut b: usize = e;
    while b > 0 && !is_space_char(cs[b - 1])
        invariant
            n == line@.len(),
            cs@ == line@,
            b <= e <= n,
            back_spaces(line@, n as int) == e,
            back_word(line@, e as int) == back_word(line@, b as int),
        decreases b,
    {
        b = b - 1;
    }
    line.substring_char(b, e).to_owned()
}

/// The annotation that marks the stack line of a memory map.
pub open spec fn stack_tag() -> Seq<char> {
    seq!['[', 's', 't', 'a', 'c', 'k', ']']
}

/// The mark of a process directory line in a long listing of `/proc`.
pub open spec fn dir_tag() -> Seq<char> {
    seq!['d', 'r', '-']
}

/// A process directory line names its process id in its last field.
pub fn listing_pid(line: &str) -> (r: Option<String>)
    ensures
        r is Some <==> contains(line@, dir_tag()),
        r is Some ==> r->0@ == last_field(line@),
{
    let tag = vec!['d', 'r', '-'];
    assert(tag@ =~= dir_tag());
    let cs = chars_of(line);
    if contains_chars(&cs, &tag) {
        Some(last_field_of(line))
    } else {
        None
    }
}

pub open spec fn lines_view(lines: Seq<String>) -> Seq<Seq<char>> {
    lines.map_values(|l: String| l@)
}

pub open spec fn opt_view(o: Option<String>) -> Option<Seq<char>> {
    match o {
        Some(s) => Some(s@),
        None => None,
    }
}

/// The range token of the first stack line at or after line `i`.
pub open spec fn stack_token_from(lines: Seq<Seq<char>>, i: int) -> Option<Seq<char>>
    decreases lines.len() - i,
{
    if 0 <= i < lines.len() {
        if contains(lines[i], stack_tag()) {
            Some(first_field(lines[i]))
        } else {
            stack_token_from(lines, i + 1)
        }
    } else {
        None
    }
}

/// The range token of a process's stack: the first field of the first
/// memory-map line annotated as the stack, if any.
pub open spec fn stack_token_of(lines: Seq<Seq<char>>) -> Option<Seq<char>> {
    stack_token_from(lines, 0)
}

/// Finds the stack range token in a process's memory-map lines.
pub fn stack_token(map_lines: &Vec<String>) -> (r: Option<String>)
    ensures
        opt_view(r) == stack_token_of(lines_view(map_lines@)),
{
    let ghost lv = lines_view(map_lines@);
    let tag = vec!['[', 's', 't', 'a', 'c', 'k', ']'];
    assert(tag@ =~= stack_tag());
    let mut i: usize = 0;
    while i < map_lines.len()
        invariant
            lv == lines_view(map_lines@),
            tag@ == stack_tag(),
            i <= map_lines@.len(),
            stack_token_from(lv, 0) == stack_token_from(lv, i as int),
        decreases map_lines@.len() - i,
    {
        let line = map_lines[i].as_str();
        assert(lv[i as int] == line@);
        let cs = chars_of(line);
        if contains_chars(&cs, &tag) {
            return Some(first_field_of(line));
        }
        i = i + 1;
    }
    None
}

/// A process id with the lines of its memory map.
pub struct ProcessMaps {
    pub pid: String,
    pub map_lines: Vec<String>,
}

/// A process id with the range token of its stack.
#[derive(Debug)]
pub struct StackEntry {
    pub pid: String,
    pub token: String,
}

pub open spec fn maps_view(p: ProcessMaps) -> (Seq<char>, Seq<Seq<char>>) {
    (p.pid@, lines_view(p.map_lines@))
}

pub open spec fn entry_view(e: StackEntry) -> (Seq<char>, Seq<char>) {
    (e.pid@, e.token@)
}

pub open spec fn entries_view(es: Seq<StackEntry>) -> Seq<(Seq<char>, Seq<char>)> {
    es.map_values(|e: StackEntry| entry_view(e))
}

/// Each process that has a stack line, paired with its stack token, in the
/// order of the processes.
pub open spec fn located(ps: Seq<(Seq<char>, Seq<Seq<char>>)>) -> Seq<(Seq<char>, Seq<char>)>
    decreases ps.len(),
{
    if ps.len() == 0 {
        Seq::empty()
    } else {
        let rest = located(ps.drop_last());
        match stack_token_of(ps.last().1) {
            Some(t) => rest.push((ps.last().0, t)),
            None => rest,
        }
    }
}

/// Entry `e` pairs the id of process `j` with that process's own stack token.
pub open spec fn belongs_to(ps: Seq<(Seq<char>, Seq<Seq<char>>)>, j: int, e: (Seq<char>, Seq<char>)) -> bool {
    0 <= j < ps.len() && e.0 == ps[j].0 && stack_token_of(ps[j].1) == Some(e.1)
}

pub open spec fn owned(ps: Seq<(Seq<char>, Seq<Seq<char>>)>, e: (Seq<char>, Seq<char>)) -> bool {
    exists|j: int| belongs_to(ps, j, e)
}

pub open spec fn listed(es: Seq<(Seq<char>, Seq<char>)>, e: (Seq<char>, Seq<char>)) -> bool {
    exists|k: int| 0 <= k < es.len() && es[k] == e
}

/// Every located entry carries the token of the process whose id it carries,
/// and every process with a stack line has such an entry, so ids and tokens
/// cannot drift apart when some processes have no stack.
pub proof fn lemma_located_association(ps: Seq<(Seq<char>, Seq<Seq<char>>)>)
    ensures
        located(ps).len() <= ps.len(),
        forall|k: int| 0 <= k < located(ps).len() ==> owned(ps, #[trigger] located(ps)[k]),
        forall|j: int|
            0 <= j < ps.len() && stack_token_of(#[trigger] ps[j].1) is Some ==> listed(
                located(ps),
                (ps[j].0, stack_token_of(ps[j].1)->0),
            ),
    decreases ps.len(),
{
    if ps.len() > 0 {
        let init = ps.drop_last();
        lemma_located_association(init);
        let rest = located(init);
        let n = ps.len() - 1;
        let all = located(ps);
        assert(ps.last() == ps[n]);
        assert forall|j: int| 0 <= j < init.len() implies init[j] == ps[j] by {}
        let t = stack_token_of(ps[n].1);
        if t is Some {
            assert(all == rest.push((ps[n].0, t->0)));
        } else {
            assert(all == rest);
        }
        assert forall|k: int| 0 <= k < all.len() implies owned(ps, #[trigger] all[k]) by {
            if k < rest.len() {
                assert(all[k] == rest[k]);
                assert(owned(init, rest[k]));
                let j = choose|j: int| belongs_to(init, j, rest[k]);
                assert(init[j] == ps[j]);
                assert(belongs_to(ps, j, all[k]));
            } else {
                assert(belongs_to(ps, n, all[k]));
            }
        }
        assert forall|j: int|
            0 <= j < ps.len() && stack_token_of(#[trigger] ps[j].1) is Some implies listed(
                all,
                (ps[j].0, stack_token_of(ps[j].1)->0),
            ) by {
            let e = (ps[j].0, stack_token_of(ps[j].1)->0);
            if j < n {
                assert(init[j] == ps[j]);
                assert(listed(rest, e));
                let k = choose|k: int| 0 <= k < rest.len() && rest[k] == e;
                assert(all[k] == rest[k]);
            } else {
                assert(all[rest.len() as int] == e);
            }
        }
    }
}

/// Pairs each process that has a stack with its own stack token, keeping the
/// order of `procs`; a process without a stack line contributes nothing.
pub fn locate_stacks(procs: &Vec<ProcessMaps>) -> (r: Vec<StackEntry>)
    ensures
        entries_view(r@) == located(procs@.map_values(|p: ProcessMaps| maps_view(p))),
{
    let ghost pv = procs@.map_values(|p: ProcessMaps| maps_view(p));
    let mut out: Vec<StackEntry> = Vec::new();
    let mut i: usize = 0;
    while i < procs.len()
        invariant
            pv == procs@.map_values(|p: ProcessMaps| maps_view(p)),
            i <= procs@.len(),
            entries_view(out@) == located(pv.subrange(0, i as int)),
        decreases procs@.len() - i,
    {
        let p = &procs[i];
        let found = stack_token(&p.map_lines);
        assert(pv.subrange(0, i + 1).drop_last() =~= pv.subrange(0, i as int));
        assert(pv.subrange(0, i + 1).last() == maps_view(*p));
        match found {
            Some(token) => {
                let pid = p.pid.clone();
                let ghost before = out@;
                out.push(StackEntry { pid, token });
                assert(entries_view(out@) =~= entries_view(before).push(entry_view(out@.last())));
            },
            None => {},
        }
        i = i + 1;
    }
    assert(pv.subrange(0, i as int) =~= pv);
    out
}

} // verus!
