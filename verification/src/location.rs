//! Incremental computation of line/column locations for dependency ranges.
//!
//! A [`DependencyLocationAdvancer`] turns byte-offset ranges into 1-based
//! line/column locations, reusing the previously computed position when
//! ranges arrive in increasing source order, as import statements usually
//! do. Lines are counted at newline bytes; columns count UTF-16 code units,
//! derived from the UTF-8 encoding of the source.

use crate::dependency::DependencyRange;
use vstd::prelude::*;
use vstd::slice::{slice_index_get, slice_subrange};
use vstd::string::StringSliceAdditionalSpecFns;

verus! {

/// A 1-based source position; the column counts UTF-16 code units.
#[derive(Debug, Clone, Copy, PartialEq, Eq, Structural)]
pub struct SourcePosition {
    pub line: usize,
    pub column: usize,
}

/// A resolved location: a start position, and an end position when the
/// range does not collapse to a point.
#[derive(Debug, Clone, Copy, PartialEq, Eq)]
pub struct RealDependencyLocation {
    pub start: SourcePosition,
    pub end: Option<SourcePosition>,
}

impl RealDependencyLocation {
    pub fn new(start: SourcePosition, end: Option<SourcePosition>) -> (r: RealDependencyLocation)
        ensures
            r.start == start,
            r.end == end,
    {
        RealDependencyLocation { start, end }
    }
}

/// The location attached to a dependency.
#[derive(Debug, Clone, Copy, PartialEq, Eq)]
pub enum DependencyLocation {
    Real(RealDependencyLocation),
}

/// UTF-16 code units contributed by one UTF-8 byte: continuation bytes
/// contribute nothing, the leading byte of a four-byte sequence two units
/// (a surrogate pair), every other byte one unit.
pub open spec fn utf16_weight(b: u8) -> nat {
    if 0x80 <= b < 0xC0 {
        0
    } else if b >= 0xF0 {
        2
    } else {
        1
    }
}

/// UTF-16 length of a UTF-8 byte sequence, as the sum of the bytes' weights.
pub open spec fn utf16_len(s: Seq<u8>) -> nat
    decreases s.len(),
{
    if s.len() == 0 {
        0
    } else {
        utf16_weight(s[0]) + utf16_len(s.drop_first())
    }
}

/// The number of newline bytes in `s`.
pub open spec fn newline_count(s: Seq<u8>) -> nat
    decreases s.len(),
{
    if s.len() == 0 {
        0
    } else {
        (if s[0] == 10 { 1nat } else { 0nat }) + newline_count(s.drop_first())
    }
}

/// The index of the last newline byte in `s`, if any.
pub open spec fn last_newline(s: Seq<u8>) -> Option<int>
    decreases s.len(),
{
    if s.len() == 0 {
        None
    } else if s.last() == 10 {
        Some(s.len() - 1)
    } else {
        last_newline(s.drop_last())
    }
}

pub proof fn lemma_last_newline(s: Seq<u8>)
    ensures
        match last_newline(s) {
            Some(i) => 0 <= i < s.len() && s[i] == 10 && forall|j: int|
                i < j < s.len() ==> s[j] != 10,
            None => forall|j: int| 0 <= j < s.len() ==> s[j] != 10,
        },
    decreases s.len(),
{
    if s.len() > 0 && s.last() != 10 {
        lemma_last_newline(s.drop_last());
        match last_newline(s.drop_last()) {
            Some(i) => {
                assert forall|j: int| i < j < s.len() implies s[j] != 10 by {
                    if j < s.len() - 1 {
                        assert(s.drop_last()[j] == s[j]);
                    }
                }
            },
            None => {
                assert forall|j: int| 0 <= j < s.len() implies s[j] != 10 by {
                    if j < s.len() - 1 {
                        assert(s.drop_last()[j] == s[j]);
                    }
                }
            },
        }
    }
}

/// Both byte counts distribute over concatenation.
pub proof fn lemma_counts_concat(a: Seq<u8>, b: Seq<u8>)
    ensures
        utf16_len(a + b) == utf16_len(a) + utf16_len(b),
        newline_count(a + b) == newline_count(a) + newline_count(b),
    decreases a.len(),
{
    if a.len() == 0 {
        assert(a + b =~= b);
    } else {
        assert((a + b).drop_first() =~= a.drop_first() + b);
        assert((a + b)[0] == a[0]);
        lemma_counts_concat(a.drop_first(), b);
    }
}

/// The byte counts over `[i, j)` split at any point `k` between.
pub proof fn lemma_counts_split(s: Seq<u8>, i: int, k: int, j: int)
    requires
        0 <= i <= k <= j <= s.len(),
    ensures
        utf16_len(s.subrange(i, j)) == utf16_len(s.subrange(i, k)) + utf16_len(s.subrange(k, j)),
        newline_count(s.subrange(i, j)) == newline_count(s.subrange(i, k)) + newline_count(
            s.subrange(k, j),
        ),
{
    assert(s.subrange(i, j) =~= s.subrange(i, k) + s.subrange(k, j));
    lemma_counts_concat(s.subrange(i, k), s.subrange(k, j));
}

/// The number of newlines never exceeds the byte count, and the UTF-16
/// length at most doubles it.
pub proof fn lemma_counts_bounds(s: Seq<u8>)
    ensures
        newline_count(s) <= s.len(),
        utf16_len(s) <= 2 * s.len(),
    decreases s.len(),
{
    if s.len() > 0 {
        lemma_counts_bounds(s.drop_first());
    }
}

/// What advancing a source position over the bytes `[from_off, to_off)`
/// yields: `None` when the range is backwards or out of bounds, or when a
/// line or column count would not fit in `usize`; otherwise the position
/// advanced by the newlines crossed, with the column recounted from the
/// last newline when one is crossed.
pub open spec fn spec_advance_pos(
    bytes: Seq<u8>,
    from_off: int,
    from_pos: SourcePosition,
    to_off: int,
) -> Option<SourcePosition> {
    if to_off < from_off || to_off > bytes.len() {
        None
    } else {
        let seg = bytes.subrange(from_off, to_off);
        match last_newline(seg) {
            Some(idx) => {
                let line = from_pos.line + newline_count(seg);
                let column = utf16_len(seg.subrange(idx + 1, seg.len() as int)) + 1;
                if line <= usize::MAX && column <= usize::MAX {
                    Some(SourcePosition { line: line as usize, column: column as usize })
                } else {
                    None
                }
            },
            None => {
                let column = from_pos.column + utf16_len(seg);
                if column <= usize::MAX {
                    Some(SourcePosition { line: from_pos.line, column: column as usize })
                } else {
                    None
                }
            },
        }
    }
}

/// Relies on memchr::memrchr: the index of the last occurrence of `needle`
/// in `haystack`, or `None` when the byte does not occur.
#[verifier::external_body]
fn rfind_byte(needle: u8, haystack: &[u8]) -> (r: Option<usize>)
    ensures
        match r {
            Some(i) => i < haystack@.len() && haystack@[i as int] == needle && forall|j: int|
                i < j < haystack@.len() ==> haystack@[j] != needle,
            None => forall|j: int| 0 <= j < haystack@.len() ==> haystack@[j] != needle,
        },
{
    memchr::memrchr(needle, haystack)
}

/// Overflow-checked addition on `usize`.
fn checked_add_usize(a: usize, b: usize) -> (r: Option<usize>)
    ensures
        r == if a + b <= usize::MAX {
            Some((a + b) as usize)
        } else {
            None::<usize>
        },
{
    if b <= usize::MAX - a {
        Some(a + b)
    } else {
        None
    }
}

/// The number of newline bytes in `seg`.
fn count_newlines(seg: &[u8]) -> (r: usize)
    ensures
        r == newline_count(seg@),
{
    let n = seg.len();
    let mut count: usize = 0;
    let mut i: usize = 0;
    while i < n
        invariant
            i <= n,
            n == seg@.len(),
            count == newline_count(seg@.subrange(0, i as int)),
            count <= i,
        decreases n - i,
    {
        let b = *slice_index_get(seg, i);
        proof {
            lemma_counts_split(seg@, 0, i as int, i + 1);
            assert(seg@.subrange(i as int, i + 1).len() == 1);
            assert(seg@.subrange(i as int, i + 1)[0] == b);
            assert(newline_count(seg@.subrange(i as int, i + 1).drop_first()) == 0);
            assert(newline_count(seg@.subrange(i as int, i + 1)) == (if b == 10 {
                1nat
            } else {
                0nat
            }));
        }
        if b == 10 {
            count += 1;
        }
        i += 1;
    }
    proof {
        assert(seg@.subrange(0, n as int) =~= seg@);
    }
    count
}

/// The UTF-16 length of `seg[lo..hi]`, or `None` when it does not fit in
/// `usize`.
fn utf16_count(seg: &[u8], lo: usize, hi: usize) -> (r: Option<usize>)
    requires
        lo <= hi <= seg@.len(),
    ensures
        r == if utf16_len(seg@.subrange(lo as int, hi as int)) <= usize::MAX {
            Some(utf16_len(seg@.subrange(lo as int, hi as int)) as usize)
        } else {
            None::<usize>
        },
{
    let mut total: usize = 0;
    let mut i: usize = lo;
    while i < hi
        invariant
            lo <= i <= hi <= seg@.len(),
            total == utf16_len(seg@.subrange(lo as int, i as int)),
        decreases hi - i,
    {
        let b = *slice_index_get(seg, i);
        let w: usize = if b >= 0x80 && b < 0xC0 {
            0
        } else if b >= 0xF0 {
            2
        } else {
            1
        };
        proof {
            lemma_counts_split(seg@, lo as int, i as int, i + 1);
            assert(seg@.subrange(i as int, i + 1).len() == 1);
            assert(seg@.subrange(i as int, i + 1)[0] == b);
            assert(utf16_len(seg@.subrange(i as int, i + 1).drop_first()) == 0);
            assert(utf16_len(seg@.subrange(i as int, i + 1)) == utf16_weight(b));
        }
        match checked_add_usize(total, w) {
            Some(t) => {
                total = t;
            },
            None => {
                proof {
                    lemma_counts_split(seg@, lo as int, i + 1, hi as int);
                }
                return None;
            },
        }
        i += 1;
    }
    Some(total)
}

/// Advance a source position from byte offset `from_off` (where it reads
/// `from_pos`) to byte offset `to_off`, counting newline bytes and UTF-16
/// columns. Returns `None` when the range is backwards or out of bounds, or
/// when a count would not fit in `usize`.
pub fn advance_pos(source: &str, from_off: usize, from_pos: SourcePosition, to_off: usize) -> (r:
    Option<SourcePosition>)
    ensures
        r == spec_advance_pos(source.spec_bytes(), from_off as int, from_pos, to_off as int),
{
    let bytes = source.as_bytes();
    if to_off < from_off || to_off > bytes.len() {
        return None;
    }
    let seg = slice_subrange(bytes, from_off, to_off);
    let ghost segs = source.spec_bytes().subrange(from_off as int, to_off as int);
    proof {
        assert(seg@ == segs);
        lemma_last_newline(segs);
    }
    match rfind_byte(10u8, seg) {
        Some(idx) => {
            proof {
                assert(last_newline(segs) == Some(idx as int)) by {
                    match last_newline(segs) {
                        Some(i) => {
                            if i < idx as int {
                                assert(segs[idx as int] == 10);
                            } else if i > idx as int {
                                assert(segs[i] == 10);
                            }
                        },
                        None => {
                            assert(segs[idx as int] == 10);
                        },
                    }
                }
            }
            let nl = count_newlines(seg);
            let line = match checked_add_usize(from_pos.line, nl) {
                Some(l) => l,
                None => {
                    return None;
                },
            };
            let width = match utf16_count(seg, idx + 1, seg.len()) {
                Some(w) => w,
                None => {
                    return None;
                },
            };
            let column = match checked_add_usize(width, 1) {
                Some(c) => c,
                None => {
                    return None;
                },
            };
            Some(SourcePosition { line, column })
        },
        None => {
            proof {
                assert(last_newline(segs) is None) by {
                    match last_newline(segs) {
                        Some(i) => {
                            assert(segs[i] == 10);
                        },
                        None => {},
                    }
                }
                assert(segs.subrange(0, segs.len() as int) =~= segs);
            }
            let width = match utf16_count(seg, 0, seg.len()) {
                Some(w) => w,
                None => {
                    return None;
                },
            };
            let column = match checked_add_usize(from_pos.column, width) {
                Some(c) => c,
                None => {
                    return None;
                },
            };
            Some(SourcePosition { line: from_pos.line, column })
        },
    }
}

/// The position of the first byte of a source: line one, column one.
pub open spec fn origin_pos() -> SourcePosition {
    SourcePosition { line: 1, column: 1 }
}

/// The position of byte offset `off`, counted from the start of the source.
pub open spec fn pos_at(bytes: Seq<u8>, off: int) -> Option<SourcePosition> {
    spec_advance_pos(bytes, 0, origin_pos(), off)
}

/// The location built from a start and an end position: a collapsed range
/// carries no end position.
pub open spec fn make_location(sp: SourcePosition, ep: SourcePosition) -> DependencyLocation {
    if sp == ep {
        DependencyLocation::Real(RealDependencyLocation { start: sp, end: None })
    } else {
        DependencyLocation::Real(RealDependencyLocation { start: sp, end: Some(ep) })
    }
}

/// The location of `range`, advanced from the base point `(base_off,
/// base_pos)`.
pub open spec fn location_from(
    bytes: Seq<u8>,
    base_off: int,
    base_pos: SourcePosition,
    range: DependencyRange,
) -> Option<DependencyLocation> {
    match spec_advance_pos(bytes, base_off, base_pos, range.start as int) {
        None => None,
        Some(sp) => match spec_advance_pos(bytes, range.start as int, sp, range.end as int) {
            None => None,
            Some(ep) => Some(make_location(sp, ep)),
        },
    }
}

/// The location of `range`, computed from the start of the source alone.
pub open spec fn full_location(bytes: Seq<u8>, range: DependencyRange) -> Option<
    DependencyLocation,
> {
    location_from(bytes, 0, origin_pos(), range)
}

/// Advances source positions incrementally to compute dependency locations,
/// reusing the previously computed position when ranges arrive in increasing
/// source order.
#[derive(Debug, Clone, Copy)]
pub struct DependencyLocationAdvancer {
    pub last_range: Option<DependencyRange>,
    pub last_location: Option<DependencyLocation>,
    pub last_start_pos: Option<SourcePosition>,
}

/// The base point the next computation starts from: the cached start
/// position when the new range begins at or after the cached one, the start
/// of the source otherwise.
pub open spec fn spec_base_point(a: DependencyLocationAdvancer, range: DependencyRange) -> (
    int,
    SourcePosition,
) {
    match (a.last_range, a.last_start_pos) {
        (Some(lr), Some(lsp)) => if range.start >= lr.start {
            (lr.start as int, lsp)
        } else {
            (0, origin_pos())
        },
        _ => (0, origin_pos()),
    }
}

/// What one computation returns: the cached location when the range repeats,
/// otherwise the location advanced from the base point.
pub open spec fn spec_compute_location(
    a: DependencyLocationAdvancer,
    bytes: Seq<u8>,
    range: DependencyRange,
) -> Option<DependencyLocation> {
    if a.last_range == Some(range) {
        a.last_location
    } else {
        let base = spec_base_point(a, range);
        location_from(bytes, base.0, base.1, range)
    }
}

/// The cache state after one computation: untouched on the fast path and on
/// failure, otherwise primed with the new range, its location, and its start
/// position.
pub open spec fn spec_after_compute(
    a: DependencyLocationAdvancer,
    bytes: Seq<u8>,
    range: DependencyRange,
) -> DependencyLocationAdvancer {
    if a.last_range == Some(range) {
        a
    } else {
        match spec_compute_location(a, bytes, range) {
            Some(loc) => DependencyLocationAdvancer {
                last_range: Some(range),
                last_location: Some(loc),
                last_start_pos: match loc {
                    DependencyLocation::Real(rl) => Some(rl.start),
                },
            },
            None => a,
        }
    }
}

/// The cache agrees with this source: the cached start position is the true
/// position of the cached range's start, and the cached location is the true
/// location of the cached range.
pub open spec fn consistent(a: DependencyLocationAdvancer, bytes: Seq<u8>) -> bool {
    match a.last_range {
        Some(lr) => {
            &&& pos_at(bytes, lr.start as int) is Some
            &&& a.last_start_pos == pos_at(bytes, lr.start as int)
            &&& a.last_location == full_location(bytes, lr)
        },
        None => a.last_location is None && a.last_start_pos is None,
    }
}

/// Sources whose line and column counts stay clear of `usize` overflow.
pub open spec fn small_source(bytes: Seq<u8>) -> bool {
    2 * bytes.len() + 2 <= usize::MAX
}

/// A byte sequence with no newline has newline count zero.
pub proof fn lemma_no_newline(s: Seq<u8>)
    requires
        forall|j: int| 0 <= j < s.len() ==> s[j] != 10,
    ensures
        newline_count(s) == 0,
    decreases s.len(),
{
    if s.len() > 0 {
        assert(forall|j: int| 0 <= j < s.drop_first().len() ==> s.drop_first()[j] == s[j + 1]);
        lemma_no_newline(s.drop_first());
    }
}

/// Advancing in two hops lands where the single hop does, provided the
/// whole span stays clear of overflow.
pub proof fn lemma_advance_compose(
    bytes: Seq<u8>,
    a: int,
    p: SourcePosition,
    q: SourcePosition,
    b: int,
    c: int,
)
    requires
        0 <= a <= b <= c <= bytes.len(),
        small_source(bytes),
        p.line + newline_count(bytes.subrange(a, c)) <= usize::MAX,
        p.column + utf16_len(bytes.subrange(a, c)) <= usize::MAX,
        spec_advance_pos(bytes, a, p, b) == Some(q),
    ensures
        spec_advance_pos(bytes, b, q, c) == spec_advance_pos(bytes, a, p, c),
{
    let sab = bytes.subrange(a, b);
    let sbc = bytes.subrange(b, c);
    let sac = bytes.subrange(a, c);
    lemma_counts_split(bytes, a, b, c);
    lemma_last_newline(sab);
    lemma_last_newline(sbc);
    lemma_last_newline(sac);
    lemma_counts_bounds(sac);
    lemma_counts_bounds(sab);
    lemma_counts_bounds(sbc);
    assert(sac =~= sab + sbc);
    match last_newline(sbc) {
        Some(i2) => {
            let gi = b - a + i2;
            assert(sac[gi] == sbc[i2]);
            assert forall|j: int| gi < j < sac.len() implies sac[j] != 10 by {
                assert(sac[j] == sbc[j - (b - a)]);
            }
            assert(last_newline(sac) == Some(gi)) by {
                match last_newline(sac) {
                    Some(i) => {
                        if i < gi {
                            assert(sac[gi] == 10);
                        } else if i > gi {
                            assert(sac[i] != 10);
                        }
                    },
                    None => {
                        assert(sac[gi] == 10);
                    },
                }
            }
            assert(sac.subrange(gi + 1, sac.len() as int) =~= sbc.subrange(
                i2 + 1,
                sbc.len() as int,
            ));
            lemma_counts_bounds(sbc.subrange(i2 + 1, sbc.len() as int));
            assert(q.line == p.line + newline_count(sab)) by {
                match last_newline(sab) {
                    Some(i1) => {},
                    None => {
                        lemma_no_newline(sab);
                    },
                }
            }
        },
        None => {
            lemma_no_newline(sbc);
            match last_newline(sab) {
                Some(i1) => {
                    assert(sac[i1] == sab[i1]);
                    assert forall|j: int| i1 < j < sac.len() implies sac[j] != 10 by {
                        if j < b - a {
                            assert(sac[j] == sab[j]);
                        } else {
                            assert(sac[j] == sbc[j - (b - a)]);
                        }
                    }
                    assert(last_newline(sac) == Some(i1)) by {
                        match last_newline(sac) {
                            Some(i) => {
                                if i < i1 {
                                    assert(sac[i1] == 10);
                                } else if i > i1 {
                                    assert(sac[i] != 10);
                                }
                            },
                            None => {
                                assert(sac[i1] == 10);
                            },
                        }
                    }
                    assert(sac.subrange(i1 + 1, sac.len() as int) =~= sab.subrange(
                        i1 + 1,
                        sab.len() as int,
                    ) + sbc);
                    lemma_counts_concat(sab.subrange(i1 + 1, sab.len() as int), sbc);
                    lemma_counts_bounds(sab.subrange(i1 + 1, sab.len() as int));
                },
                None => {
                    assert forall|j: int| 0 <= j < sac.len() implies sac[j] != 10 by {
                        if j < b - a {
                            assert(sac[j] == sab[j]);
                        } else {
                            assert(sac[j] == sbc[j - (b - a)]);
                        }
                    }
                    assert(last_newline(sac) is None) by {
                        match last_newline(sac) {
                            Some(i) => {
                                assert(sac[i] != 10);
                            },
                            None => {},
                        }
                    }
                    lemma_no_newline(sac);
                },
            }
        },
    }
}

impl Default for DependencyLocationAdvancer {
    /// A fresh advancer with an empty cache.
    fn default() -> (r: DependencyLocationAdvancer)
        ensures
            r.last_range is None,
            r.last_location is None,
            r.last_start_pos is None,
    {
        DependencyLocationAdvancer { last_range: None, last_location: None, last_start_pos: None }
    }
}

impl DependencyLocationAdvancer {
    /// A fresh advancer with an empty cache, consistent with every source.
    pub fn new() -> (r: DependencyLocationAdvancer)
        ensures
            r.last_range is None,
            r.last_location is None,
            r.last_start_pos is None,
            forall|bytes: Seq<u8>| consistent(r, bytes),
    {
        DependencyLocationAdvancer::default()
    }

    /// Compute the location of `range` in `source`, reusing the cached
    /// position when the range starts at or after the cached one.
    ///
    /// The caching is transparent: whenever the cache agrees with `source`
    /// and the source is small enough for its counts to fit in `usize`, the
    /// result equals the location computed from the start of the source
    /// alone, and the cache agrees with `source` afterwards too.
    pub fn compute_dependency_location(&mut self, source: &str, range: DependencyRange) -> (r:
        Option<DependencyLocation>)
        ensures
            r == spec_compute_location(*old(self), source.spec_bytes(), range),
            *final(self) == spec_after_compute(*old(self), source.spec_bytes(), range),
            consistent(*old(self), source.spec_bytes()) && small_source(source.spec_bytes())
                ==> r == full_location(source.spec_bytes(), range) && consistent(
                *final(self),
                source.spec_bytes(),
            ),
    {
        let ghost bytes = source.spec_bytes();
        let start = range.start as usize;
        let end = range.end as usize;
        let cached = match self.last_range {
            Some(lr) => lr == range,
            None => false,
        };
        if cached {
            proof {
                assert(self.last_range == Some(range));
            }
            return self.last_location;
        }
        proof {
            assert(self.last_range != Some(range));
        }
        let mut base_offset: usize = 0;
        let mut base_pos = SourcePosition { line: 1, column: 1 };
        match (self.last_range, self.last_start_pos) {
            (Some(lr), Some(lsp)) => {
                if start >= lr.start as usize {
                    base_offset = lr.start as usize;
                    base_pos = lsp;
                }
            },
            _ => {},
        }
        proof {
            assert((base_offset as int, base_pos) == spec_base_point(*self, range));
        }
        let result = match advance_pos(source, base_offset, base_pos, start) {
            None => None,
            Some(start_pos) => match advance_pos(source, start, start_pos, end) {
                None => None,
                Some(end_pos) => if start_pos.line == end_pos.line && start_pos.column
                    == end_pos.column {
                    proof {
                        assert(start_pos == end_pos);
                    }
                    Some(DependencyLocation::Real(RealDependencyLocation::new(start_pos, None)))
                } else {
                    Some(
                        DependencyLocation::Real(
                            RealDependencyLocation::new(start_pos, Some(end_pos)),
                        ),
                    )
                },
            },
        };
        proof {
            assert(result == spec_compute_location(*old(self), bytes, range));
        }
        match result {
            Some(loc) => {
                self.last_range = Some(range);
                self.last_location = Some(loc);
                match loc {
                    DependencyLocation::Real(rl) => {
                        self.last_start_pos = Some(rl.start);
                    },
                }
            },
            None => {},
        }
        proof {
            if consistent(*old(self), bytes) && small_source(bytes) {
                lemma_counts_bounds(bytes.subrange(0, range.start as int));
                match old(self).last_range {
                    Some(lr) => {
                        if range.start >= lr.start && old(self).last_start_pos is Some {
                            let lsp = pos_at(bytes, lr.start as int)->0;
                            if range.start as int <= bytes.len() {
                                assert(lr.start as int <= bytes.len());
                                lemma_advance_compose(
                                    bytes,
                                    0,
                                    origin_pos(),
                                    lsp,
                                    lr.start as int,
                                    range.start as int,
                                );
                            } else {
                                assert(spec_advance_pos(
                                    bytes,
                                    lr.start as int,
                                    lsp,
                                    range.start as int,
                                ) is None);
                                assert(pos_at(bytes, range.start as int) is None);
                            }
                        }
                    },
                    None => {},
                }
                assert(result == full_location(bytes, range));
            }
        }
        result
    }
}

} // verus!
