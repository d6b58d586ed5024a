use vstd::prelude::*;
use vstd::utf8::*;

use crate::text::{byte_len, ceil_boundary, ceil_char_boundary, floor_boundary, floor_char_boundary};
use crate::types::SubMatch;

verus! {

/// What a highlighted span of a line stands for; the current find match
/// wins over other find matches, which win over the search's own matches.
#[derive(Clone, Copy, Debug, PartialEq, Eq, Structural)]
pub enum SpanKind {
    CurFind,
    Find,
    Rga,
}

/// A piece of a line to draw: the bytes `[start, end)` of the line, and the
/// kind of highlight they get, if any.
#[derive(Clone, Copy, Debug, PartialEq, Eq, Structural)]
pub struct Segment {
    pub start: usize,
    pub end: usize,
    pub kind: Option<SpanKind>,
}

/// The non-empty spans, clipped to the line length `len`: the search's
/// submatches, then the find matches, then the current find match.
pub open spec fn line_spans(
    len: usize,
    submatches: Seq<SubMatch>,
    finds: Seq<(usize, usize)>,
    current: Option<(usize, usize)>,
) -> Seq<(usize, usize, SpanKind)> {
    clipped(len, submatches.map_values(|m: SubMatch| (m.start, m.end)), SpanKind::Rga)
        + clipped(len, finds, SpanKind::Find) + clipped(
        len,
        match current {
            Some(c) => seq![c],
            None => Seq::empty(),
        },
        SpanKind::CurFind,
    )
}

/// The smaller of `a` and `b`.
pub open spec fn min_usize(a: usize, b: usize) -> usize {
    if a < b {
        a
    } else {
        b
    }
}

/// The ranges clipped to `[0, len]`, empty ones dropped, each of kind `kind`.
pub open spec fn clipped(len: usize, ranges: Seq<(usize, usize)>, kind: SpanKind) -> Seq<(usize, usize, SpanKind)>
    decreases ranges.len(),
{
    if ranges.len() == 0 {
        Seq::empty()
    } else {
        let r = ranges.last();
        let s = min_usize(r.0, len);
        let e = min_usize(r.1, len);
        clipped(len, ranges.drop_last(), kind) + (if e > s {
            seq![(s, e, kind)]
        } else {
            Seq::empty()
        })
    }
}

/// The positions where the highlighting may change: both ends of the line
/// and both ends of every span.
pub open spec fn bound_set(len: usize, spans: Seq<(usize, usize, SpanKind)>) -> Set<usize> {
    Set::new(
        |b: usize|
            b == 0 || b == len || exists|k: int|
                0 <= k < spans.len() && (spans[k].0 == b || spans[k].1 == b),
    )
}

/// A span of kind `kind` covers `[lo, hi)`.
pub open spec fn covered_by(spans: Seq<(usize, usize, SpanKind)>, kind: SpanKind, lo: usize, hi: usize) -> bool {
    exists|k: int| 0 <= k < spans.len() && spans[k].2 == kind && spans[k].0 <= lo && spans[k].1 >= hi
}

/// The highlight of `[lo, hi)`: the strongest kind of span covering it.
pub open spec fn covering_kind(spans: Seq<(usize, usize, SpanKind)>, lo: usize, hi: usize) -> Option<SpanKind> {
    if covered_by(spans, SpanKind::CurFind, lo, hi) {
        Some(SpanKind::CurFind)
    } else if covered_by(spans, SpanKind::Find, lo, hi) {
        Some(SpanKind::Find)
    } else if covered_by(spans, SpanKind::Rga, lo, hi) {
        Some(SpanKind::Rga)
    } else {
        None
    }
}

/// `bs` is strictly increasing.
pub open spec fn strictly_increasing(bs: Seq<usize>) -> bool {
    forall|i: int, j: int| 0 <= i < j < bs.len() ==> bs[i] < bs[j]
}

/// The pieces to draw between consecutive positions of `bs`, up to the
/// `n`-th: each stretch widened to character boundaries of the line
/// `bytes`, dropped when that leaves nothing.
pub open spec fn pieces(bs: Seq<usize>, bytes: Seq<u8>, spans: Seq<(usize, usize, SpanKind)>, n: int) -> Seq<Segment>
    decreases n,
{
    if n <= 0 || n >= bs.len() {
        Seq::empty()
    } else {
        let lo = bs[n - 1];
        let hi = bs[n];
        let s = floor_boundary(bytes, lo as int);
        let e = ceil_boundary(bytes, if hi < bytes.len() { hi as int } else { bytes.len() as int });
        pieces(bs, bytes, spans, n - 1) + (if s < e {
            seq![Segment { start: s as usize, end: e as usize, kind: covering_kind(spans, lo, hi) }]
        } else {
            Seq::empty()
        })
    }
}

/// Appends to `spans` the ranges clipped to `len`, empty ones dropped.
fn push_clipped(spans: &mut Vec<(usize, usize, SpanKind)>, len: usize, ranges: &Vec<(usize, usize)>, kind: SpanKind)
    ensures
        final(spans)@ == old(spans)@ + clipped(len, ranges@, kind),
{
    let ghost start = spans@;
    let mut k: usize = 0;
    while k < ranges.len()
        invariant
            k <= ranges@.len(),
            spans@ == start + clipped(len, ranges@.take(k as int), kind),
        decreases ranges@.len() - k,
    {
        let (a, b) = ranges[k];
        let s = if a < len {
            a
        } else {
            len
        };
        let e = if b < len {
            b
        } else {
            len
        };
        assert(ranges@.take(k + 1).drop_last() == ranges@.take(k as int));
        if e > s {
            spans.push((s, e, kind));
        }
        k += 1;
        assert(spans@ =~= start + clipped(len, ranges@.take(k as int), kind));
    }
    assert(ranges@.take(k as int) == ranges@);
}

/// Inserts `b` into the strictly increasing `bs`, unless it is there.
fn insert_bound(bs: &mut Vec<usize>, b: usize)
    requires
        strictly_increasing(old(bs)@),
    ensures
        strictly_increasing(final(bs)@),
        final(bs)@.to_set() == old(bs)@.to_set().insert(b),
{
    let mut i: usize = 0;
    while i < bs.len() && bs[i] < b
        invariant
            i <= bs@.len(),
            forall|j: int| 0 <= j < i ==> bs@[j] < b,
        decreases bs@.len() - i,
    {
        i += 1;
    }
    if i < bs.len() && bs[i] == b {
        assert(old(bs)@.to_set().insert(b) =~= old(bs)@.to_set());
        return;
    }
    let ghost before = bs@;
    bs.insert(i, b);
    assert forall|x: usize| #[trigger] bs@.to_set().contains(x) == before.to_set().insert(b).contains(x) by {
        if bs@.to_set().contains(x) {
            let j = choose|j: int| 0 <= j < bs@.len() && bs@[j] == x;
            if j < i {
                assert(before[j] == x);
            } else if j > i {
                assert(before[j - 1] == x);
            }
        }
        if before.to_set().contains(x) {
            let j = choose|j: int| 0 <= j < before.len() && before[j] == x;
            if j < i {
                assert(bs@[j] == x);
            } else {
                assert(bs@[j + 1] == x);
            }
        }
        if x == b {
            assert(bs@[i as int] == b);
        }
    }
    assert(bs@.to_set() =~= before.to_set().insert(b));
}

/// The strongest kind of span in `spans` that covers `[lo, hi)`.
fn choose_kind(spans: &Vec<(usize, usize, SpanKind)>, lo: usize, hi: usize) -> (r: Option<SpanKind>)
    ensures
        r == covering_kind(spans@, lo, hi),
{
    let mut cur = false;
    let mut find = false;
    let mut rga = false;
    let mut k: usize = 0;
    while k < spans.len()
        invariant
            k <= spans@.len(),
            cur == covered_by(spans@.take(k as int), SpanKind::CurFind, lo, hi),
            find == covered_by(spans@.take(k as int), SpanKind::Find, lo, hi),
            rga == covered_by(spans@.take(k as int), SpanKind::Rga, lo, hi),
        decreases spans@.len() - k,
    {
        let (s, e, kind) = spans[k];
        let ghost t = spans@.take(k + 1);
        assert(t[k as int] == spans@[k as int]);
        assert(forall|j: int| 0 <= j < k ==> t[j] == spans@.take(k as int)[j]);
        if s <= lo && e >= hi {
            match kind {
                SpanKind::CurFind => {
                    cur = true;
                },
                SpanKind::Find => {
                    find = true;
                },
                SpanKind::Rga => {
                    rga = true;
                },
            }
        }
        k += 1;
    }
    assert(spans@.take(k as int) == spans@);
    if cur {
        Some(SpanKind::CurFind)
    } else if find {
        Some(SpanKind::Find)
    } else if rga {
        Some(SpanKind::Rga)
    } else {
        None
    }
}

/// The pieces a result line is drawn in: the line is cut at both ends of
/// every highlighted span, each stretch gets the strongest highlight that
/// covers it, and is widened to character boundaries before it is drawn.
pub fn highlight_segments(
    line: &str,
    submatches: &Vec<SubMatch>,
    finds: &Vec<(usize, usize)>,
    current: Option<(usize, usize)>,
) -> (segs: Vec<Segment>)
    ensures
        ({
            let len = encode_utf8(line@).len() as usize;
            let spans = line_spans(len, submatches@, finds@, current);
            exists|bs: Seq<usize>|
                strictly_increasing(bs) && bs.to_set() == bound_set(len, spans) && segs@ == pieces(
                    bs,
                    encode_utf8(line@),
                    spans,
                    bs.len() - 1,
                )
        }),
        forall|k: int|
            #![trigger segs@[k]]
            0 <= k < segs@.len() ==> {
                &&& segs@[k].start < segs@[k].end
                &&& segs@[k].end <= encode_utf8(line@).len()
                &&& is_char_boundary(encode_utf8(line@), segs@[k].start as int)
                &&& is_char_boundary(encode_utf8(line@), segs@[k].end as int)
            },
{
    let len = byte_len(line);
    let mut sub_ranges: Vec<(usize, usize)> = Vec::new();
    let mut k: usize = 0;
    while k < submatches.len()
        invariant
            k <= submatches@.len(),
            sub_ranges@ == submatches@.take(k as int).map_values(|m: SubMatch| (m.start, m.end)),
        decreases submatches@.len() - k,
    {
        sub_ranges.push((submatches[k].start, submatches[k].end));
        k += 1;
        assert(sub_ranges@ =~= submatches@.take(k as int).map_values(|m: SubMatch| (m.start, m.end)));
    }
    assert(submatches@.take(k as int) == submatches@);
    let mut spans: Vec<(usize, usize, SpanKind)> = Vec::new();
    push_clipped(&mut spans, len, &sub_ranges, SpanKind::Rga);
    push_clipped(&mut spans, len, finds, SpanKind::Find);
    let mut cur_ranges: Vec<(usize, usize)> = Vec::new();
    match current {
        Some(c) => cur_ranges.push(c),
        None => {},
    }
    push_clipped(&mut spans, len, &cur_ranges, SpanKind::CurFind);
    assert(spans@ =~= line_spans(len, submatches@, finds@, current)) by {
        assert(Seq::<(usize, usize, SpanKind)>::empty() + clipped(len, sub_ranges@, SpanKind::Rga)
            =~= clipped(len, sub_ranges@, SpanKind::Rga));
        assert(cur_ranges@ =~= match current {
            Some(c) => seq![c],
            None => Seq::empty(),
        });
    }
    let ghost all_spans = spans@;

    // sorted, distinct cut positions
    let mut bs: Vec<usize> = Vec::new();
    insert_bound(&mut bs, 0);
    insert_bound(&mut bs, len);
    let mut j: usize = 0;
    while j < spans.len()
        invariant
            j <= spans@.len(),
            spans@ == all_spans,
            strictly_increasing(bs@),
            bs@.to_set() == Set::new(
                |b: usize|
                    b == 0 || b == len || exists|q: int|
                        0 <= q < j && (spans@[q].0 == b || spans@[q].1 == b),
            ),
        decreases spans@.len() - j,
    {
        let ghost set_before = bs@.to_set();
        insert_bound(&mut bs, spans[j].0);
        insert_bound(&mut bs, spans[j].1);
        j += 1;
        assert(bs@.to_set() =~= Set::new(
            |b: usize|
                b == 0 || b == len || exists|q: int| 0 <= q < j && (spans@[q].0 == b || spans@[q].1 == b),
        )) by {
            assert forall|b: usize| #[trigger] bs@.to_set().contains(b) implies (b == 0 || b == len
                || exists|q: int| 0 <= q < j && (spans@[q].0 == b || spans@[q].1 == b)) by {
                if set_before.contains(b) {
                    if b != 0 && b != len {
                        let q = choose|q: int| 0 <= q < j - 1 && (spans@[q].0 == b || spans@[q].1 == b);
                        assert(0 <= q < j);
                    }
                } else {
                    assert(spans@[j - 1].0 == b || spans@[j - 1].1 == b);
                }
            }
        }
    }
    assert(bs@.to_set() =~= bound_set(len, spans@));

    let mut segs: Vec<Segment> = Vec::new();
    let mut i: usize = 1;
    while i < bs.len()
        invariant
            1 <= i,
            i <= bs@.len() || bs@.len() == 0,
            spans@ == all_spans,
            len == encode_utf8(line@).len(),
            segs@ == pieces(bs@, encode_utf8(line@), spans@, i - 1),
            forall|k: int|
                #![trigger segs@[k]]
                0 <= k < segs@.len() ==> {
                    &&& segs@[k].start < segs@[k].end
                    &&& segs@[k].end <= encode_utf8(line@).len()
                    &&& is_char_boundary(encode_utf8(line@), segs@[k].start as int)
                    &&& is_char_boundary(encode_utf8(line@), segs@[k].end as int)
                },
        decreases bs@.len() - i,
    {
        let lo = bs[i - 1];
        let hi = bs[i];
        let s = floor_char_boundary(line, lo);
        let e = ceil_char_boundary(line, if hi < len { hi } else { len });
        if s < e {
            let kind = choose_kind(&spans, lo, hi);
            let ghost before = segs@;
            segs.push(Segment { start: s, end: e, kind });
            assert(forall|k: int| 0 <= k < before.len() ==> segs@[k] == before[k]);
        }
        i += 1;
        assert(segs@ =~= pieces(bs@, encode_utf8(line@), spans@, i - 1));
    }
    assert(segs@ == pieces(bs@, encode_utf8(line@), spans@, bs@.len() - 1));
    segs
}

/// The pieces between consecutive cut positions that all lie on character
/// boundaries are exactly those stretches, one per pair.
pub proof fn lemma_pieces_exact(bs: Seq<usize>, bytes: Seq<u8>, spans: Seq<(usize, usize, SpanKind)>, n: int)
    requires
        strictly_increasing(bs),
        0 <= n < bs.len(),
        forall|i: int| 0 <= i < bs.len() ==> #[trigger] bs[i] <= bytes.len(),
        forall|i: int| 0 <= i < bs.len() ==> is_char_boundary(bytes, #[trigger] bs[i] as int),
    ensures
        pieces(bs, bytes, spans, n).len() == n,
        forall|k: int|
            0 <= k < n ==> (#[trigger] pieces(bs, bytes, spans, n)[k]).start == bs[k] && pieces(
                bs,
                bytes,
                spans,
                n,
            )[k].end == bs[k + 1],
    decreases n,
{
    if n > 0 {
        lemma_pieces_exact(bs, bytes, spans, n - 1);
        let lo = bs[n - 1];
        let hi = bs[n];
        assert(lo < hi);
        assert(floor_boundary(bytes, lo as int) == lo);
        assert(ceil_boundary(bytes, hi as int) == hi);
        let prev = pieces(bs, bytes, spans, n - 1);
        let cur = pieces(bs, bytes, spans, n);
        assert forall|k: int| 0 <= k < n implies (#[trigger] cur[k]).start == bs[k] && cur[k].end == bs[k + 1] by {
            if k < n - 1 {
                assert(cur[k] == prev[k]);
            }
        }
    }
}

/// When every end of a highlighted span lies on a character boundary of
/// the line (as in any ASCII line), the pieces tile the line: the first
/// starts at its start, each starts where the one before ends, and the
/// last ends at its end.
pub proof fn lemma_pieces_tile_line(
    line: Seq<char>,
    submatches: Seq<SubMatch>,
    finds: Seq<(usize, usize)>,
    current: Option<(usize, usize)>,
    bs: Seq<usize>,
)
    requires
        encode_utf8(line).len() <= usize::MAX,
        strictly_increasing(bs),
        bs.to_set() == bound_set(
            encode_utf8(line).len() as usize,
            line_spans(encode_utf8(line).len() as usize, submatches, finds, current),
        ),
        forall|b: usize|
            #[trigger] bs.to_set().contains(b) ==> is_char_boundary(encode_utf8(line), b as int),
        encode_utf8(line).len() > 0,
    ensures
        ({
            let len = encode_utf8(line).len() as usize;
            let segs = pieces(bs, encode_utf8(line), line_spans(len, submatches, finds, current), bs.len() - 1);
            &&& segs.len() > 0
            &&& segs[0].start == 0
            &&& segs.last().end == len
            &&& forall|k: int| 0 <= k < segs.len() - 1 ==> (#[trigger] segs[k]).end == segs[k + 1].start
        }),
{
    let bytes = encode_utf8(line);
    let len = bytes.len() as usize;
    let spans = line_spans(len, submatches, finds, current);
    lemma_line_spans_bounded(len, submatches, finds, current);
    assert(bs.to_set().contains(0usize));
    assert(bs.to_set().contains(len));
    assert forall|i: int| 0 <= i < bs.len() implies #[trigger] bs[i] <= bytes.len() by {
        assert(bs.to_set().contains(bs[i]));
        if bs[i] != 0 && bs[i] != len {
            let k = choose|k: int| 0 <= k < spans.len() && (spans[k].0 == bs[i] || spans[k].1 == bs[i]);
        }
    }
    assert forall|i: int| 0 <= i < bs.len() implies is_char_boundary(bytes, #[trigger] bs[i] as int) by {
        assert(bs.to_set().contains(bs[i]));
    }
    let i0 = choose|i: int| 0 <= i < bs.len() && bs[i] == 0usize;
    let il = choose|i: int| 0 <= i < bs.len() && bs[i] == len;
    assert(bs[0] == 0) by {
        if i0 > 0 {
            assert(bs[0] < bs[i0]);
        }
    }
    assert(bs.last() == len) by {
        if il < bs.len() - 1 {
            assert(bs[il] < bs[bs.len() - 1]);
        }
    }
    assert(bs.len() >= 2) by {
        if bs.len() < 2 {
            assert(i0 == il);
        }
    }
    lemma_pieces_exact(bs, bytes, spans, bs.len() - 1);
}

/// Clipped spans lie within the line.
pub proof fn lemma_clipped_bounded(len: usize, ranges: Seq<(usize, usize)>, kind: SpanKind)
    ensures
        forall|k: int|
            0 <= k < clipped(len, ranges, kind).len() ==> (#[trigger] clipped(len, ranges, kind)[k]).0 <= len
                && clipped(len, ranges, kind)[k].1 <= len,
    decreases ranges.len(),
{
    if ranges.len() > 0 {
        lemma_clipped_bounded(len, ranges.drop_last(), kind);
        let prev = clipped(len, ranges.drop_last(), kind);
        let cur = clipped(len, ranges, kind);
        assert forall|k: int| 0 <= k < cur.len() implies (#[trigger] cur[k]).0 <= len && cur[k].1 <= len by {
            if k < prev.len() {
                assert(cur[k] == prev[k]);
            }
        }
    }
}

/// Every span of a line lies within it.
pub proof fn lemma_line_spans_bounded(
    len: usize,
    submatches: Seq<SubMatch>,
    finds: Seq<(usize, usize)>,
    current: Option<(usize, usize)>,
)
    ensures
        forall|k: int|
            0 <= k < line_spans(len, submatches, finds, current).len() ==> (#[trigger] line_spans(
                len,
                submatches,
                finds,
                current,
            )[k]).0 <= len && line_spans(len, submatches, finds, current)[k].1 <= len,
{
    let a = clipped(len, submatches.map_values(|m: SubMatch| (m.start, m.end)), SpanKind::Rga);
    let b = clipped(len, finds, SpanKind::Find);
    let c = clipped(
        len,
        match current {
            Some(x) => seq![x],
            None => Seq::empty(),
        },
        SpanKind::CurFind,
    );
    lemma_clipped_bounded(len, submatches.map_values(|m: SubMatch| (m.start, m.end)), SpanKind::Rga);
    lemma_clipped_bounded(len, finds, SpanKind::Find);
    lemma_clipped_bounded(
        len,
        match current {
            Some(x) => seq![x],
            None => Seq::empty(),
        },
        SpanKind::CurFind,
    );
    let all = line_spans(len, submatches, finds, current);
    assert(all == a + b + c);
    assert forall|k: int| 0 <= k < all.len() implies (#[trigger] all[k]).0 <= len && all[k].1 <= len by {
        if k < a.len() {
            assert(all[k] == a[k]);
        } else if k < a.len() + b.len() {
            assert(all[k] == b[k - a.len()]);
        } else {
            assert(all[k] == c[k - a.len() - b.len()]);
        }
    }
}

/// Two strictly increasing sequences with the same elements are equal: the
/// cut positions of a line, and so its pieces, are determined.
pub proof fn lemma_sorted_unique(a: Seq<usize>, b: Seq<usize>)
    requires
        strictly_increasing(a),
        strictly_increasing(b),
        a.to_set() == b.to_set(),
    ensures
        a == b,
    decreases a.len() + b.len(),
{
    if a.len() == 0 {
        if b.len() > 0 {
            assert(b.to_set().contains(b[0]));
        }
        assert(a =~= b);
    } else if b.len() == 0 {
        assert(a.to_set().contains(a[0]));
    } else {
        // the largest elements agree
        let la = a.last();
        let lb = b.last();
        assert(a.to_set().contains(la));
        assert(b.to_set().contains(lb));
        let ia = choose|i: int| 0 <= i < a.len() && a[i] == lb;
        let ib = choose|i: int| 0 <= i < b.len() && b[i] == la;
        assert(la == lb) by {
            if la < lb {
                assert(b[ib] < lb);
                assert(ib < b.len() - 1 || ib == b.len() - 1);
            }
            if lb < la {
                assert(a[ia] < la);
            }
        }
        let a2 = a.drop_last();
        let b2 = b.drop_last();
        assert(a2.to_set() =~= b2.to_set()) by {
            assert forall|x: usize| #[trigger] a2.to_set().contains(x) implies b2.to_set().contains(x) by {
                let i = choose|i: int| 0 <= i < a2.len() && a2[i] == x;
                assert(a.to_set().contains(x));
                let k = choose|k: int| 0 <= k < b.len() && b[k] == x;
                assert(x < la);
                assert(k != b.len() - 1);
                assert(b2[k] == x);
            }
            assert forall|x: usize| #[trigger] b2.to_set().contains(x) implies a2.to_set().contains(x) by {
                let i = choose|i: int| 0 <= i < b2.len() && b2[i] == x;
                assert(b.to_set().contains(x));
                let k = choose|k: int| 0 <= k < a.len() && a[k] == x;
                assert(x < lb);
                assert(k != a.len() - 1);
                assert(a2[k] == x);
            }
        }
        lemma_sorted_unique(a2, b2);
        assert(a =~= b) by {
            assert(a == a2.push(la));
            assert(b == b2.push(lb));
        }
    }
}

/// The piece drawn for the stretch between the cut positions at `m - 1`
/// and `m`.
pub open spec fn piece_at(bs: Seq<usize>, bytes: Seq<u8>, spans: Seq<(usize, usize, SpanKind)>, m: int) -> Segment {
    let lo = bs[m - 1];
    let hi = bs[m];
    Segment {
        start: floor_boundary(bytes, lo as int) as usize,
        end: ceil_boundary(bytes, if hi < bytes.len() { hi as int } else { bytes.len() as int }) as usize,
        kind: covering_kind(spans, lo, hi),
    }
}

/// The character boundary at or below `i` is no greater than `i`.
proof fn lemma_floor_below(bytes: Seq<u8>, i: int)
    requires
        0 <= i,
    ensures
        0 <= floor_boundary(bytes, i) <= i,
        floor_boundary(bytes, i) <= bytes.len(),
    decreases i,
{
    if i < bytes.len() && i > 0 && !is_char_boundary(bytes, i) {
        lemma_floor_below(bytes, i - 1);
    }
}

/// The character boundary at or above `i`, within the line, is no smaller
/// than `i`.
proof fn lemma_ceil_above(bytes: Seq<u8>, i: int)
    requires
        0 <= i <= bytes.len(),
    ensures
        i <= ceil_boundary(bytes, i) <= bytes.len(),
    decreases bytes.len() - i,
{
    if i < bytes.len() && !is_char_boundary(bytes, i) {
        lemma_ceil_above(bytes, i + 1);
    }
}

/// Each piece comes from the stretch between two consecutive cut positions.
proof fn lemma_piece_origin(bs: Seq<usize>, bytes: Seq<u8>, spans: Seq<(usize, usize, SpanKind)>, n: int)
    ensures
        forall|k: int|
            #![trigger pieces(bs, bytes, spans, n)[k]]
            0 <= k < pieces(bs, bytes, spans, n).len() ==> exists|m: int|
                1 <= m <= n && m < bs.len() && #[trigger] piece_at(bs, bytes, spans, m) == pieces(
                    bs,
                    bytes,
                    spans,
                    n,
                )[k],
    decreases n,
{
    if 0 < n < bs.len() {
        lemma_piece_origin(bs, bytes, spans, n - 1);
        let prev = pieces(bs, bytes, spans, n - 1);
        let cur = pieces(bs, bytes, spans, n);
        assert forall|k: int| #![trigger cur[k]] 0 <= k < cur.len() implies exists|m: int|
            1 <= m <= n && m < bs.len() && #[trigger] piece_at(bs, bytes, spans, m) == cur[k] by {
            if k < prev.len() {
                assert(cur[k] == prev[k]);
                let m = choose|m: int| 1 <= m <= n - 1 && m < bs.len() && #[trigger] piece_at(bs, bytes, spans, m) == prev[k];
                assert(piece_at(bs, bytes, spans, m) == cur[k]);
            } else {
                assert(piece_at(bs, bytes, spans, n) == cur[k]);
            }
        }
    }
}

/// The stretch between the cut positions at `m - 1` and `m` is drawn when
/// it keeps some bytes once widened to character boundaries.
proof fn lemma_piece_present(bs: Seq<usize>, bytes: Seq<u8>, spans: Seq<(usize, usize, SpanKind)>, n: int, m: int)
    requires
        1 <= m <= n < bs.len(),
        floor_boundary(bytes, bs[m - 1] as int) < ceil_boundary(
            bytes,
            if bs[m] < bytes.len() { bs[m] as int } else { bytes.len() as int },
        ),
    ensures
        exists|k: int|
            0 <= k < pieces(bs, bytes, spans, n).len() && #[trigger] pieces(bs, bytes, spans, n)[k] == piece_at(
                bs,
                bytes,
                spans,
                m,
            ),
    decreases n,
{
    let prev = pieces(bs, bytes, spans, n - 1);
    let cur = pieces(bs, bytes, spans, n);
    if m == n {
        assert(cur[prev.len() as int] == piece_at(bs, bytes, spans, m));
    } else {
        lemma_piece_present(bs, bytes, spans, n - 1, m);
        let k = choose|k: int| 0 <= k < prev.len() && #[trigger] prev[k] == piece_at(bs, bytes, spans, m);
        assert(cur[k] == prev[k]);
    }
}

/// Between the cut positions at `i < j`, with `bs[i] <= b < bs[j]`, lies a
/// stretch from one cut position to the next that holds `b`.
proof fn lemma_bracket(bs: Seq<usize>, b: int, i: int, j: int) -> (m: int)
    requires
        0 <= i < j < bs.len(),
        bs[i] <= b < bs[j],
    ensures
        i < m <= j,
        bs[m - 1] <= b < bs[m],
    decreases j - i,
{
    if j == i + 1 {
        j
    } else if bs[i + 1] <= b {
        lemma_bracket(bs, b, i + 1, j)
    } else {
        i + 1
    }
}

/// Byte `b` of the line lies in a piece drawn as the current find match.
pub open spec fn drawn_as_current(segs: Seq<Segment>, b: int) -> bool {
    exists|k: int| 0 <= k < segs.len() && #[trigger] segs[k].start <= b < segs[k].end && segs[k].kind == Some(SpanKind::CurFind)
}

/// The current find match, when it is a non-empty range within the line,
/// is drawn as the current match all along, whatever the other find
/// matches and the search's own matches are: every byte of it lies in a
/// piece of kind `CurFind`, and no piece within it gets another kind.
pub proof fn lemma_current_find_drawn(
    line: Seq<char>,
    submatches: Seq<SubMatch>,
    finds: Seq<(usize, usize)>,
    s: usize,
    e: usize,
    segs: Seq<Segment>,
)
    requires
        s < e <= encode_utf8(line).len() <= usize::MAX,
        ({
            let len = encode_utf8(line).len() as usize;
            let spans = line_spans(len, submatches, finds, Some((s, e)));
            exists|bs: Seq<usize>|
                strictly_increasing(bs) && bs.to_set() == bound_set(len, spans) && segs == pieces(
                    bs,
                    encode_utf8(line),
                    spans,
                    bs.len() - 1,
                )
        }),
    ensures
        forall|b: int| s <= b < e ==> #[trigger] drawn_as_current(segs, b),
        forall|k: int|
            0 <= k < segs.len() && s <= #[trigger] segs[k].start && segs[k].end <= e ==> segs[k].kind == Some(
                SpanKind::CurFind,
            ),
{
    let bytes = encode_utf8(line);
    let len = bytes.len() as usize;
    let spans = line_spans(len, submatches, finds, Some((s, e)));
    let bs = choose|bs: Seq<usize>|
        strictly_increasing(bs) && bs.to_set() == bound_set(len, spans) && segs == pieces(bs, bytes, spans, bs.len() - 1);
    let n = bs.len() - 1;
    // the current match is the last span
    let a = clipped(len, submatches.map_values(|m: SubMatch| (m.start, m.end)), SpanKind::Rga);
    let f = clipped(len, finds, SpanKind::Find);
    assert(seq![(s, e)].drop_last() =~= Seq::<(usize, usize)>::empty());
    let c = clipped(len, seq![(s, e)], SpanKind::CurFind);
    assert(seq![(s, e)].last() == (s, e));
    assert(clipped(len, Seq::<(usize, usize)>::empty(), SpanKind::CurFind) =~= Seq::empty());
    assert(min_usize(s, len) == s && min_usize(e, len) == e);
    assert(c =~= seq![(s, e, SpanKind::CurFind)]);
    assert(spans == a + f + c);
    let ks = spans.len() - 1;
    assert(spans[ks] == (s, e, SpanKind::CurFind));
    lemma_line_spans_bounded(len, submatches, finds, Some((s, e)));
    // both its ends are cut positions, and every cut position lies in the line
    assert(bound_set(len, spans).contains(s));
    assert(bound_set(len, spans).contains(e));
    assert(bs.to_set().contains(s));
    assert(bs.to_set().contains(e));
    let is = choose|i: int| 0 <= i < bs.len() && bs[i] == s;
    let ie = choose|i: int| 0 <= i < bs.len() && bs[i] == e;
    assert(is < ie) by {
        if ie <= is {
            if ie < is {
                assert(bs[ie] < bs[is]);
            }
        }
    }
    assert forall|i: int| 0 <= i < bs.len() implies #[trigger] bs[i] <= len by {
        assert(bs.to_set().contains(bs[i]));
        if bs[i] != 0 && bs[i] != len {
            let k = choose|k: int| 0 <= k < spans.len() && (spans[k].0 == bs[i] || spans[k].1 == bs[i]);
        }
    }
    // a stretch within the current match is covered by it
    assert forall|lo: usize, hi: usize| s <= lo && hi <= e implies #[trigger] covering_kind(spans, lo, hi) == Some(
        SpanKind::CurFind,
    ) by {
        assert(covered_by(spans, SpanKind::CurFind, lo, hi));
    }
    lemma_piece_origin(bs, bytes, spans, n);
    assert forall|b: int| s <= b < e implies #[trigger] drawn_as_current(segs, b) by {
        let m = lemma_bracket(bs, b, is, ie);
        let lo = bs[m - 1];
        let hi = bs[m];
        assert(s <= lo) by {
            if m - 1 > is {
                assert(bs[is] < bs[m - 1]);
            }
        }
        assert(hi <= e) by {
            if m < ie {
                assert(bs[m] < bs[ie]);
            }
        }
        lemma_floor_below(bytes, lo as int);
        lemma_ceil_above(bytes, hi as int);
        assert(covering_kind(spans, lo, hi) == Some(SpanKind::CurFind));
        lemma_piece_present(bs, bytes, spans, n, m);
        let k = choose|k: int| 0 <= k < segs.len() && #[trigger] segs[k] == piece_at(bs, bytes, spans, m);
        assert(segs[k].start <= b < segs[k].end);
    }
    assert forall|k: int| 0 <= k < segs.len() && s <= #[trigger] segs[k].start && segs[k].end <= e implies segs[k].kind
        == Some(SpanKind::CurFind) by {
        let m = choose|m: int| 1 <= m <= n && m < bs.len() && #[trigger] piece_at(bs, bytes, spans, m) == segs[k];
        let lo = bs[m - 1];
        let hi = bs[m];
        lemma_floor_below(bytes, lo as int);
        lemma_ceil_above(bytes, hi as int);
        assert(covering_kind(spans, lo, hi) == Some(SpanKind::CurFind));
    }
}

} // verus!
