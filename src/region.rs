//! Stack address ranges: parsing a `"start-end"` token and the values derived
//! from a region.
use vstd::prelude::*;

verus! {

/// Page size used to align a region's start into an offset of the image.
pub const PAGE_SIZE: u64 = 4096;

/// Width of the marker that precedes each hexadecimal half of a token.
pub const PREFIX_LEN: usize = 4;

/// A stack address range; a parsed region always has `start < end`.
#[derive(Debug, Clone, Copy, PartialEq, Eq, Structural)]
pub struct MemoryRegion {
    pub start: u64,
    pub end: u64,
}

/// Why a range token was rejected.
#[derive(Debug, Clone, Copy, PartialEq, Eq, Structural)]
pub enum RangeError {
    /// Not exactly one `-`, or a half that is not a hexadecimal numeral
    /// fitting in 64 bits once its marker is removed.
    MalformedRange,
    /// Both halves parse, but the end is not above the start.
    InvalidRange,
    /// The region is longer than one read can hold.
    LengthTooLarge,
}

pub open spec fn is_hex_digit(c: char) -> bool {
    ('0' <= c && c <= '9') || ('a' <= c && c <= 'f') || ('A' <= c && c <= 'F')
}

pub open spec fn hex_digit_value(c: char) -> nat {
    if '0' <= c && c <= '9' {
        (c as nat - '0' as nat) as nat
    } else if 'a' <= c && c <= 'f' {
        (c as nat - 'a' as nat + 10) as nat
    } else {
        (c as nat - 'A' as nat + 10) as nat
    }
}

pub open spec fn all_hex(s: Seq<char>) -> bool {
    forall|k: int| 0 <= k < s.len() ==> is_hex_digit(#[trigger] s[k])
}

/// The number that a string of hexadecimal digits denotes.
pub open spec fn hex_value(s: Seq<char>) -> nat
    decreases s.len(),
{
    if s.len() == 0 {
        0
    } else {
        hex_value(s.drop_last()) * 16 + hex_digit_value(s.last())
    }
}

/// The value of one half of a token: its marker dropped, the rest a
/// non-empty hexadecimal numeral that fits in a `u64`.
pub open spec fn half_value(h: Seq<char>) -> Option<u64> {
    let body = h.skip(PREFIX_LEN as int);
    if h.len() > PREFIX_LEN && all_hex(body) && hex_value(body) <= u64::MAX {
        Some(hex_value(body) as u64)
    } else {
        None
    }
}

/// `i` is the position of the one and only `-` of `s`.
pub open spec fn sole_dash_at(s: Seq<char>, i: int) -> bool {
    &&& 0 <= i < s.len()
    &&& s[i] == '-'
    &&& forall|j: int| 0 <= j < s.len() && j != i ==> #[trigger] s[j] != '-'
}

/// What parsing a range token yields.
pub open spec fn range_of(s: Seq<char>) -> Result<MemoryRegion, RangeError> {
    if exists|i: int| sole_dash_at(s, i) {
        let i = choose|i: int| sole_dash_at(s, i);
        match (half_value(s.take(i)), half_value(s.skip(i + 1))) {
            (Some(a), Some(b)) => if a < b {
                Ok(MemoryRegion { start: a, end: b })
            } else {
                Err(RangeError::InvalidRange)
            },
            _ => Err(RangeError::MalformedRange),
        }
    } else {
        Err(RangeError::MalformedRange)
    }
}

/// A token made of two marked hexadecimal halves parses to exactly those two
/// values when the first is below the second, and is an invalid range
/// otherwise.
pub proof fn lemma_well_formed_token(p1: Seq<char>, a: Seq<char>, p2: Seq<char>, b: Seq<char>)
    requires
        p1.len() == PREFIX_LEN,
        p2.len() == PREFIX_LEN,
        forall|k: int| 0 <= k < p1.len() ==> #[trigger] p1[k] != '-',
        forall|k: int| 0 <= k < p2.len() ==> #[trigger] p2[k] != '-',
        a.len() > 0,
        b.len() > 0,
        all_hex(a),
        all_hex(b),
        hex_value(a) <= u64::MAX,
        hex_value(b) <= u64::MAX,
    ensures
        range_of(p1 + a + seq!['-'] + p2 + b) == if hex_value(a) < hex_value(b) {
            Ok(MemoryRegion { start: hex_value(a) as u64, end: hex_value(b) as u64 })
        } else {
            Err::<MemoryRegion, RangeError>(RangeError::InvalidRange)
        },
{
    let s = p1 + a + seq!['-'] + p2 + b;
    let i: int = (p1.len() + a.len()) as int;
    assert forall|j: int| 0 <= j < s.len() && j != i implies #[trigger] s[j] != '-' by {
        if j < p1.len() {
            assert(s[j] == p1[j]);
        } else if j < i {
            assert(s[j] == a[j - p1.len()]);
        } else if j < i + 1 + p2.len() {
            assert(s[j] == p2[j - i - 1]);
        } else {
            assert(s[j] == b[j - i - 1 - p2.len()]);
        }
    }
    assert(s[i] == '-');
    assert(sole_dash_at(s, i));
    let ch = choose|k: int| sole_dash_at(s, k);
    assert(ch == i) by {
        if ch != i {
            assert(s[i] != '-');
        }
    }
    assert(s.take(i) =~= p1 + a);
    assert(s.skip(i + 1) =~= p2 + b);
    assert((p1 + a).skip(PREFIX_LEN as int) =~= a);
    assert((p2 + b).skip(PREFIX_LEN as int) =~= b);
}

/// A token without a `-`, or with more than one, is malformed.
pub proof fn lemma_separator_count(s: Seq<char>)
    requires
        (forall|k: int| 0 <= k < s.len() ==> #[trigger] s[k] != '-') || exists|i: int, j: int|
            0 <= i < j < s.len() && #[trigger] s[i] == '-' && #[trigger] s[j] == '-',
    ensures
        range_of(s) == Err::<MemoryRegion, RangeError>(RangeError::MalformedRange),
{
    assert forall|k: int| !sole_dash_at(s, k) by {
        if sole_dash_at(s, k) {
            if forall|m: int| 0 <= m < s.len() ==> #[trigger] s[m] != '-' {
                assert(s[k] != '-');
            } else {
                let (i, j) = choose|i: int, j: int|
                    0 <= i < j < s.len() && #[trigger] s[i] == '-' && #[trigger] s[j] == '-';
                if k == i {
                    assert(s[j] != '-');
                } else {
                    assert(s[i] != '-');
                }
            }
        }
    }
}

/// A token with one `-` whose halves hold a character that is not a
/// hexadecimal digit after their markers is malformed.
pub proof fn lemma_non_hex_character(s: Seq<char>, i: int, k: int)
    requires
        sole_dash_at(s, i),
        (PREFIX_LEN <= k < i) || (i + 1 + PREFIX_LEN <= k < s.len()),
        !is_hex_digit(s[k]),
    ensures
        range_of(s) == Err::<MemoryRegion, RangeError>(RangeError::MalformedRange),
{
    let ch = choose|m: int| sole_dash_at(s, m);
    assert(ch == i) by {
        if ch != i {
            assert(s[i] != '-');
        }
    }
    if k < i {
        let body = s.take(i).skip(PREFIX_LEN as int);
        assert(body[k - PREFIX_LEN] == s[k]);
        assert(!all_hex(body));
    } else {
        let body = s.skip(i + 1).skip(PREFIX_LEN as int);
        assert(body[k - i - 1 - PREFIX_LEN] == s[k]);
        assert(!all_hex(body));
    }
}

/// The start rounded down to a page boundary.
pub open spec fn page_aligned(start: u64) -> u64 {
    start & !((PAGE_SIZE - 1) as u64)
}

impl MemoryRegion {
    pub open spec fn wf(self) -> bool {
        self.start < self.end
    }

    /// Number of bytes covered by the region.
    pub fn length(&self) -> (r: u64)
        requires
            self.wf(),
        ensures
            r == self.end - self.start,
    {
        self.end - self.start
    }

    /// Offset in the image at which the region's bytes are read.
    pub fn aligned_offset(&self) -> (r: u64)
        ensures
            r == page_aligned(self.start),
    {
        align_down(self.start)
    }
}

/// The value of a hexadecimal digit, or `None` for any other character.
pub fn hex_digit(c: char) -> (r: Option<u64>)
    ensures
        r is Some <==> is_hex_digit(c),
        r is Some ==> r->0 as nat == hex_digit_value(c) && r->0 < 16,
{
    if '0' <= c && c <= '9' {
        Some((c as u32 - '0' as u32) as u64)
    } else if 'a' <= c && c <= 'f' {
        Some((c as u32 - 'a' as u32 + 10) as u64)
    } else if 'A' <= c && c <= 'F' {
        Some((c as u32 - 'A' as u32 + 10) as u64)
    } else {
        None
    }
}

/// Parses the characters `from..to` of `token` as one half of a range token.
fn parse_half(token: &str, from: usize, to: usize) -> (r: Option<u64>)
    requires
        from <= to <= token@.len(),
    ensures
        r == half_value(token@.subrange(from as int, to as int)),
{
    let ghost h = token@.subrange(from as int, to as int);
    if to - from <= PREFIX_LEN {
        return None;
    }
    let ghost body = h.skip(PREFIX_LEN as int);
    assert(body =~= token@.subrange(from + PREFIX_LEN, to as int));
    let mut i: usize = from + PREFIX_LEN;
    let mut acc: u64 = 0;
    let mut over = false;
    assert(token@.subrange(from + PREFIX_LEN, i as int) =~= Seq::<char>::empty());
    while i < to
        invariant
            from + PREFIX_LEN <= i <= to <= token@.len(),
            h == token@.subrange(from as int, to as int),
            body == token@.subrange(from + PREFIX_LEN, to as int),
            all_hex(token@.subrange(from + PREFIX_LEN, i as int)),
            !over ==> acc as nat == hex_value(token@.subrange(from + PREFIX_LEN, i as int)),
            over ==> hex_value(token@.subrange(from + PREFIX_LEN, i as int)) > u64::MAX,
        decreases to - i,
    {
        let c = token.get_char(i);
        let ghost prev = token@.subrange(from + PREFIX_LEN, i as int);
        let ghost next = token@.subrange(from + PREFIX_LEN, i + 1);
        assert(next.drop_last() =~= prev);
        assert(next.last() == c);
        match hex_digit(c) {
            None => {
                assert(body[i - from - PREFIX_LEN] == c);
                assert(!all_hex(body));
                assert(h.skip(PREFIX_LEN as int) == body);
                return None;
            },
            Some(d) => {
                assert(hex_value(next) == hex_value(prev) * 16 + hex_digit_value(c));
                if !over {
                    if acc <= 0x0fff_ffff_ffff_ffff {
                        acc = acc * 16 + d;
                    } else {
                        over = true;
                    }
                }
                assert forall|k: int| 0 <= k < next.len() implies is_hex_digit(#[trigger] next[k]) by {
                    if k < prev.len() {
                        assert(next[k] == prev[k]);
                    }
                }
            },
        }
        i = i + 1;
    }
    assert(token@.subrange(from + PREFIX_LEN, i as int) =~= body);
    if over {
        None
    } else {
        Some(acc)
    }
}

/// Parses a stack range token: two halves separated by a single `-`, each a
/// `PREFIX_LEN`-character marker followed by a hexadecimal numeral.
pub fn parse_range(token: &str) -> (r: Result<MemoryRegion, RangeError>)
    ensures
        r == range_of(token@),
        r is Ok ==> r->Ok_0.wf(),
{
    let ghost s = token@;
    let n = token.unicode_len();
    let mut count: usize = 0;
    let mut pos: usize = 0;
    let mut pos2: usize = 0;
    let mut i: usize = 0;
    while i < n
        invariant
            n == s.len(),
            s == token@,
            i <= n,
            count <= 2,
            count == 0 ==> forall|j: int| 0 <= j < i ==> #[trigger] s[j] != '-',
            count >= 1 ==> pos < i && s[pos as int] == '-',
            count == 1 ==> forall|j: int| 0 <= j < i && j != pos ==> #[trigger] s[j] != '-',
            count == 2 ==> pos2 < i && pos2 != pos && s[pos2 as int] == '-',
        decreases n - i,
    {
        if token.get_char(i) == '-' {
            if count == 0 {
                pos = i;
                count = 1;
            } else if count == 1 {
                pos2 = i;
                count = 2;
            }
        }
        i = i + 1;
    }
    if count != 1 {
        assert forall|k: int| !sole_dash_at(s, k) by {
            if sole_dash_at(s, k) {
                if count == 0 {
                    assert(s[k] != '-');
                } else if k == pos as int {
                    assert(s[pos2 as int] != '-');
                } else {
                    assert(s[pos as int] != '-');
                }
            }
        }
        return Err(RangeError::MalformedRange);
    }
    assert(sole_dash_at(s, pos as int));
    let ghost ch = choose|k: int| sole_dash_at(s, k);
    assert(ch == pos) by {
        if ch != pos {
            assert(s[pos as int] != '-');
        }
    }
    assert(s.take(pos as int) =~= s.subrange(0, pos as int));
    assert(s.skip(pos + 1) =~= s.subrange(pos + 1, n as int));
    let left = parse_half(token, 0, pos);
    let right = parse_half(token, pos + 1, n);
    match (left, right) {
        (Some(a), Some(b)) => {
            if a < b {
                Ok(MemoryRegion { start: a, end: b })
            } else {
                Err(RangeError::InvalidRange)
            }
        },
        _ => Err(RangeError::MalformedRange),
    }
}

/// Rounds an address down to a multiple of `PAGE_SIZE`.
pub fn align_down(start: u64) -> (r: u64)
    ensures
        r == page_aligned(start),
        r <= start,
        r % PAGE_SIZE == 0,
        start - r < PAGE_SIZE,
{
    proof {
        lemma_page_aligned(start);
    }
    start & !(PAGE_SIZE - 1)
}

/// An aligned offset never exceeds the address it comes from, is a multiple
/// of the page size, and lies less than one page below the address.
pub proof fn lemma_page_aligned(start: u64)
    ensures
        page_aligned(start) <= start,
        page_aligned(start) % PAGE_SIZE == 0,
        start - page_aligned(start) < PAGE_SIZE,
{
    assert((start & !4095u64) <= start) by (bit_vector);
    assert((start & !4095u64) % 4096u64 == 0) by (bit_vector);
    assert(start - (start & !4095u64) < 4096u64) by (bit_vector);
}

} // verus!
