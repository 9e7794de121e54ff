//! Embedding-vector support: the byte codec used to persist vectors, and
//! the ranking of similarity-scored candidates.
//!
//! A stored embedding is a flat little-endian byte sequence, four bytes per
//! element; elements are carried as their 32-bit patterns, and scores as
//! order-preserving integer keys, so the numeric work of the embedding
//! provider stays outside this crate.

use vstd::prelude::*;

verus! {

/// The little-endian four-byte encoding of one element.
pub open spec fn spec_le4(w: u32) -> Seq<u8> {
    seq![
        (w & 0xFF) as u8,
        ((w >> 8) & 0xFF) as u8,
        ((w >> 16) & 0xFF) as u8,
        ((w >> 24) & 0xFF) as u8,
    ]
}

/// The flat little-endian encoding of a vector.
pub open spec fn spec_embedding_bytes(ws: Seq<u32>) -> Seq<u8>
    decreases ws.len(),
{
    if ws.len() == 0 {
        Seq::empty()
    } else {
        spec_le4(ws[0]) + spec_embedding_bytes(ws.drop_first())
    }
}

proof fn lemma_embedding_bytes_len(ws: Seq<u32>)
    ensures
        spec_embedding_bytes(ws).len() == 4 * ws.len(),
    decreases ws.len(),
{
    if ws.len() > 0 {
        lemma_embedding_bytes_len(ws.drop_first());
    }
}

proof fn lemma_embedding_bytes_push(ws: Seq<u32>, w: u32)
    ensures
        spec_embedding_bytes(ws.push(w)) == spec_embedding_bytes(ws) + spec_le4(w),
    decreases ws.len(),
{
    if ws.len() == 0 {
        assert(ws.push(w)[0] == w);
        assert(ws.push(w).drop_first() =~= Seq::<u32>::empty());
        assert(spec_embedding_bytes(Seq::<u32>::empty()) =~= Seq::<u8>::empty());
        assert(spec_embedding_bytes(ws.push(w)) =~= spec_le4(w) + Seq::<u8>::empty());
        assert(spec_le4(w) + Seq::<u8>::empty() =~= spec_le4(w));
        assert(spec_embedding_bytes(ws) + spec_le4(w) =~= spec_le4(w));
    } else {
        assert(ws.push(w).drop_first() =~= ws.drop_first().push(w));
        lemma_embedding_bytes_push(ws.drop_first(), w);
        assert(spec_embedding_bytes(ws.push(w)) =~= spec_embedding_bytes(ws) + spec_le4(w));
    }
}

/// Serialize an embedding (one 32-bit pattern per element) to flat
/// little-endian bytes.
pub fn embedding_to_bytes(embedding: &Vec<u32>) -> (r: Vec<u8>)
    ensures
        r@ == spec_embedding_bytes(embedding@),
        r@.len() == 4 * embedding@.len(),
{
    let mut r: Vec<u8> = Vec::new();
    let mut i: usize = 0;
    proof {
        assert(embedding@.subrange(0, 0) =~= Seq::<u32>::empty());
    }
    while i < embedding.len()
        invariant
            i <= embedding@.len(),
            r@ == spec_embedding_bytes(embedding@.subrange(0, i as int)),
            r@.len() == 4 * i,
        decreases embedding@.len() - i,
    {
        let w = embedding[i];
        r.push((w & 0xFF) as u8);
        r.push(((w >> 8) & 0xFF) as u8);
        r.push(((w >> 16) & 0xFF) as u8);
        r.push(((w >> 24) & 0xFF) as u8);
        proof {
            lemma_embedding_bytes_push(embedding@.subrange(0, i as int), w);
            assert(embedding@.subrange(0, i + 1) =~= embedding@.subrange(0, i as int).push(w));
            assert(r@ =~= spec_embedding_bytes(embedding@.subrange(0, i as int)) + spec_le4(w));
        }
        i += 1;
    }
    proof {
        assert(embedding@.subrange(0, i as int) =~= embedding@);
        lemma_embedding_bytes_len(embedding@);
    }
    r
}

/// A stored embedding whose length is not a multiple of four bytes is
/// malformed; this is surfaced, never silently coerced.
pub open spec fn spec_embedding_bytes_wf(bytes: Seq<u8>) -> bool {
    bytes.len() % 4 == 0
}

/// Deserialize an embedding from flat little-endian bytes.  Returns the
/// element patterns, or nothing when the length is not a multiple of four.
pub fn bytes_to_embedding(bytes: &Vec<u8>) -> (r: Option<Vec<u32>>)
    ensures
        match r {
            Some(ws) => spec_embedding_bytes_wf(bytes@) && bytes@ == spec_embedding_bytes(ws@)
                && ws@.len() * 4 == bytes@.len(),
            None => !spec_embedding_bytes_wf(bytes@),
        },
{
    if bytes.len() % 4 != 0 {
        return None;
    }
    let mut ws: Vec<u32> = Vec::new();
    let mut i: usize = 0;
    proof {
        assert(Seq::<u8>::empty() =~= spec_embedding_bytes(ws@));
    }
    while i < bytes.len()
        invariant
            i <= bytes@.len(),
            i % 4 == 0,
            bytes@.len() % 4 == 0,
            ws@.len() * 4 == i,
            bytes@.subrange(0, i as int) == spec_embedding_bytes(ws@),
        decreases bytes@.len() - i,
    {
        let c0: u8 = bytes[i];
        let c1: u8 = bytes[i + 1];
        let c2: u8 = bytes[i + 2];
        let c3: u8 = bytes[i + 3];
        let w: u32 = (c0 as u32) | ((c1 as u32) << 8) | ((c2 as u32) << 16) | ((c3 as u32) << 24);
        proof {
            assert((w & 0xFF) as u8 == c0 && ((w >> 8) & 0xFF) as u8 == c1 && ((w >> 16)
                & 0xFF) as u8 == c2 && ((w >> 24) & 0xFF) as u8 == c3) by (bit_vector)
                requires
                    w == (c0 as u32) | ((c1 as u32) << 8) | ((c2 as u32) << 16) | ((
                    c3 as u32) << 24),
            ;
            assert(spec_le4(w) =~= bytes@.subrange(i as int, i + 4));
            lemma_embedding_bytes_push(ws@, w);
            assert(bytes@.subrange(0, i + 4) =~= bytes@.subrange(0, i as int) + bytes@.subrange(
                i as int,
                i + 4,
            ));
        }
        ws.push(w);
        i += 4;
    }
    proof {
        assert(bytes@.subrange(0, i as int) =~= bytes@);
    }
    Some(ws)
}

/// A similarity-ranked candidate: a chunk id and an integer score key
/// whose order agrees with the similarity order.
///
/// Stable insertion by descending score: the candidate goes after every
/// candidate whose score is at least as high.
pub open spec fn spec_insert_desc(acc: Seq<(i64, i64)>, x: (i64, i64)) -> Seq<(i64, i64)>
    decreases acc.len(),
{
    if acc.len() == 0 {
        seq![x]
    } else if acc[acc.len() - 1].1 >= x.1 {
        acc.push(x)
    } else {
        spec_insert_desc(acc.drop_last(), x).push(acc[acc.len() - 1])
    }
}

/// Stable sort by descending score.
pub open spec fn spec_sort_desc_from(s: Seq<(i64, i64)>, i: int, acc: Seq<(i64, i64)>) -> Seq<
    (i64, i64),
>
    decreases s.len() - i,
    when 0 <= i
{
    if i >= s.len() {
        acc
    } else {
        spec_sort_desc_from(s, i + 1, spec_insert_desc(acc, s[i]))
    }
}

/// The top `k` candidates by score: the stable descending sort, truncated.
pub open spec fn spec_top_k(s: Seq<(i64, i64)>, k: int) -> Seq<(i64, i64)> {
    let sorted = spec_sort_desc_from(s, 0, Seq::empty());
    if sorted.len() <= k {
        sorted
    } else {
        sorted.take(k)
    }
}

pub open spec fn spec_sorted_desc(s: Seq<(i64, i64)>) -> bool {
    forall|i: int, j: int| 0 <= i < j < s.len() ==> (#[trigger] s[i]).1 >= (#[trigger] s[j]).1
}

proof fn lemma_insert_desc_sorted(acc: Seq<(i64, i64)>, x: (i64, i64))
    requires
        spec_sorted_desc(acc),
    ensures
        spec_sorted_desc(spec_insert_desc(acc, x)),
        spec_insert_desc(acc, x).len() == acc.len() + 1,
    decreases acc.len(),
{
    let r = spec_insert_desc(acc, x);
    if acc.len() == 0 {
        assert(r =~= seq![x]);
    } else if acc[acc.len() - 1].1 >= x.1 {
        assert(r =~= acc.push(x));
        assert forall|i: int, j: int| 0 <= i < j < r.len() implies (#[trigger] r[i]).1
            >= (#[trigger] r[j]).1 by {
            if j < acc.len() {
            } else {
                assert(r[j] == x);
                assert(r[i] == acc[i]);
                assert(acc[i].1 >= acc[acc.len() - 1].1);
            }
        }
    } else {
        let d = acc.drop_last();
        let last = acc[acc.len() - 1];
        assert(spec_sorted_desc(d));
        lemma_insert_desc_sorted(d, x);
        lemma_insert_desc_elements(d, x);
        let inner = spec_insert_desc(d, x);
        assert(r =~= inner.push(last));
        assert forall|i: int, j: int| 0 <= i < j < r.len() implies (#[trigger] r[i]).1
            >= (#[trigger] r[j]).1 by {
            if j < inner.len() {
            } else {
                assert(r[j] == last);
                if r[i] == x {
                    assert(x.1 > last.1);
                } else {
                    assert(d.contains(r[i]) || r[i] == x);
                    if d.contains(r[i]) {
                        let q = choose|q: int| 0 <= q < d.len() && d[q] == r[i];
                        assert(acc[q] == d[q]);
                        assert(acc[q].1 >= last.1);
                    }
                }
            }
        }
    }
}

proof fn lemma_insert_desc_elements(acc: Seq<(i64, i64)>, x: (i64, i64))
    ensures
        forall|i: int|
            0 <= i < spec_insert_desc(acc, x).len() ==> acc.contains(
                #[trigger] spec_insert_desc(acc, x)[i],
            ) || spec_insert_desc(acc, x)[i] == x,
    decreases acc.len(),
{
    let r = spec_insert_desc(acc, x);
    if acc.len() == 0 {
        assert(r =~= seq![x]);
    } else if acc[acc.len() - 1].1 >= x.1 {
        assert(r =~= acc.push(x));
        assert forall|i: int| 0 <= i < r.len() implies acc.contains(#[trigger] r[i]) || r[i]
            == x by {
            if i < acc.len() {
                assert(acc[i] == r[i]);
            }
        }
    } else {
        let d = acc.drop_last();
        let last = acc[acc.len() - 1];
        lemma_insert_desc_elements(d, x);
        let inner = spec_insert_desc(d, x);
        assert(r =~= inner.push(last));
        assert forall|i: int| 0 <= i < r.len() implies acc.contains(#[trigger] r[i]) || r[i]
            == x by {
            if i < inner.len() {
                assert(d.contains(r[i]) || r[i] == x);
                if d.contains(r[i]) {
                    let q = choose|q: int| 0 <= q < d.len() && d[q] == r[i];
                    assert(acc[q] == r[i]);
                }
            } else {
                assert(r[i] == last);
            }
        }
    }
}

proof fn lemma_insert_desc_position(acc: Seq<(i64, i64)>, x: (i64, i64), pos: int)
    requires
        0 <= pos <= acc.len(),
        forall|i: int| pos <= i < acc.len() ==> (#[trigger] acc[i]).1 < x.1,
        pos > 0 ==> acc[pos - 1].1 >= x.1,
    ensures
        spec_insert_desc(acc, x) == acc.take(pos) + seq![x] + acc.skip(pos),
    decreases acc.len(),
{
    if acc.len() == 0 {
        assert(spec_insert_desc(acc, x) =~= acc.take(0) + seq![x] + acc.skip(0));
    } else if acc[acc.len() - 1].1 >= x.1 {
        assert(pos == acc.len());
        assert(acc.push(x) =~= acc.take(pos) + seq![x] + acc.skip(pos));
    } else {
        let d = acc.drop_last();
        assert(pos <= d.len());
        lemma_insert_desc_position(d, x, pos);
        assert(d.take(pos) =~= acc.take(pos));
        assert(spec_insert_desc(d, x).push(acc[acc.len() - 1]) =~= acc.take(pos) + seq![x]
            + acc.skip(pos));
    }
}

/// Inserts a candidate into a descending-sorted vector, after candidates
/// with equal scores.
fn insert_desc(v: &mut Vec<(i64, i64)>, x: (i64, i64))
    requires
        spec_sorted_desc(old(v)@),
    ensures
        final(v)@ == spec_insert_desc(old(v)@, x),
        spec_sorted_desc(final(v)@),
{
    proof {
        lemma_insert_desc_sorted(old(v)@, x);
    }
    let ghost orig = v@;
    let mut pos: usize = v.len();
    while pos > 0 && v[pos - 1].1 < x.1
        invariant
            pos <= v@.len(),
            v@ == orig,
            forall|i: int| pos <= i < v@.len() ==> (#[trigger] v@[i]).1 < x.1,
        decreases pos,
    {
        pos -= 1;
    }
    v.insert(pos, x);
    proof {
        lemma_insert_desc_position(orig, x, pos as int);
        assert(v@ =~= orig.take(pos as int) + seq![x] + orig.skip(pos as int));
    }
}

/// The top `k` candidates by descending score, ties and equal scores
/// keeping their original order.  Never returns more than `k` results, and
/// scores never increase along the result.
pub fn top_k(candidates: &Vec<(i64, i64)>, k: usize) -> (r: Vec<(i64, i64)>)
    ensures
        r@ == spec_top_k(candidates@, k as int),
        r@.len() <= k,
        r@.len() == if candidates@.len() <= k {
            candidates@.len() as int
        } else {
            k as int
        },
        spec_sorted_desc(r@),
{
    let ghost s = candidates@;
    let mut sorted: Vec<(i64, i64)> = Vec::new();
    let mut i: usize = 0;
    while i < candidates.len()
        invariant
            i <= candidates@.len(),
            s == candidates@,
            spec_sorted_desc(sorted@),
            sorted@.len() == i,
            spec_sort_desc_from(s, 0, Seq::empty()) == spec_sort_desc_from(
                s,
                i as int,
                sorted@,
            ),
        decreases candidates@.len() - i,
    {
        proof {
            lemma_insert_desc_sorted(sorted@, s[i as int]);
        }
        insert_desc(&mut sorted, candidates[i]);
        i += 1;
    }

    let mut r: Vec<(i64, i64)> = Vec::new();
    let n = if sorted.len() < k {
        sorted.len()
    } else {
        k
    };
    let mut j: usize = 0;
    while j < n
        invariant
            j <= n <= sorted@.len(),
            r@ =~= sorted@.take(j as int),
            spec_sorted_desc(sorted@),
        decreases n - j,
    {
        r.push(sorted[j]);
        j += 1;
        proof {
            assert(r@ =~= sorted@.take(j as int));
        }
    }
    proof {
        if sorted@.len() <= k {
            assert(r@ =~= sorted@);
        }
        assert forall|p: int, q: int| 0 <= p < q < r@.len() implies (#[trigger] r@[p]).1
            >= (#[trigger] r@[q]).1 by {
            assert(r@[p] == sorted@[p]);
            assert(r@[q] == sorted@[q]);
        }
    }
    r
}

} // verus!
