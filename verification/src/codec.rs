//! Chunk codec: splitting a payload into bounded-size chunks on write, and
//! concatenating an index-sorted chunk sequence back into the payload on read.

use vstd::prelude::*;
use vstd::multiset::Multiset;
use vstd::seq_lib::{to_multiset_contains, to_multiset_insert, to_multiset_len, to_multiset_remove};
use crate::objects::{ChunkDoc, ChunkView};

verus! {

/// The partition of `p` into consecutive pieces of `c` bytes each, except the
/// last piece, which holds the remainder. An empty payload has no pieces.
pub open spec fn split_bytes(p: Seq<u8>, c: int) -> Seq<Seq<u8>>
    recommends
        c >= 1,
    decreases p.len(),
    when c >= 1
{
    if p.len() == 0 {
        Seq::empty()
    } else if p.len() <= c {
        seq![p]
    } else {
        seq![p.subrange(0, c)] + split_bytes(p.subrange(c, p.len() as int), c)
    }
}

/// The concatenation of a sequence of byte sequences, in order.
pub open spec fn concat_bytes(ss: Seq<Seq<u8>>) -> Seq<u8>
    decreases ss.len(),
{
    if ss.len() == 0 {
        Seq::empty()
    } else {
        ss[0] + concat_bytes(ss.drop_first())
    }
}

/// The chunk records for the pieces of a split payload: piece `i` becomes the
/// chunk with 1-based index `i + 1`, owned by `id`.
pub open spec fn chunk_views(ss: Seq<Seq<u8>>, id: Seq<char>) -> Seq<ChunkView>
    recommends
        ss.len() <= i32::MAX,
{
    Seq::new(ss.len(), |i: int| ChunkView { parent_id: id, index: (i + 1) as i32, data: ss[i] })
}

/// The mathematical values of a sequence of chunk records.
pub open spec fn views_of(s: Seq<ChunkDoc>) -> Seq<ChunkView> {
    s.map_values(|c: ChunkDoc| c@)
}

/// The chunks stand in ascending index order.
pub open spec fn sorted_by_index(s: Seq<ChunkView>) -> bool {
    forall|i: int, j: int| 0 <= i < j < s.len() ==> s[i].index <= s[j].index
}

/// No two chunks share an index.
pub open spec fn distinct_indices(s: Seq<ChunkView>) -> bool {
    forall|i: int, j: int| 0 <= i < j < s.len() ==> s[i].index != s[j].index
}

/// The payload a chunk sequence carries: its data fields concatenated in order.
pub open spec fn joined(s: Seq<ChunkView>) -> Seq<u8> {
    concat_bytes(s.map_values(|c: ChunkView| c.data))
}

/// A split payload is recovered whole by concatenating its pieces in order:
/// no byte is dropped, duplicated or reordered.
pub proof fn lemma_concat_split(p: Seq<u8>, c: int)
    requires
        c >= 1,
    ensures
        concat_bytes(split_bytes(p, c)) == p,
    decreases p.len(),
{
    let s = split_bytes(p, c);
    if p.len() == 0 {
        assert(concat_bytes(s) =~= p);
    } else if p.len() <= c {
        assert(s == seq![p]);
        assert(s.drop_first() =~= Seq::<Seq<u8>>::empty());
        assert(concat_bytes(s.drop_first()) == Seq::<u8>::empty());
        assert(concat_bytes(s) == s[0] + concat_bytes(s.drop_first()));
        assert(concat_bytes(s) =~= p);
    } else {
        let rest = p.subrange(c, p.len() as int);
        lemma_concat_split(rest, c);
        assert(s == seq![p.subrange(0, c)] + split_bytes(rest, c));
        assert(s[0] == p.subrange(0, c));
        assert(s.drop_first() =~= split_bytes(rest, c));
        assert(concat_bytes(s) == s[0] + concat_bytes(s.drop_first()));
        assert(concat_bytes(s) =~= p);
    }
}

/// The shape of a split: a payload of `n` bytes makes `ceil(n / c)` pieces
/// (none exactly when the payload is empty), every piece but the last holds
/// exactly `c` bytes, and the last holds the remainder, between 1 and `c`.
pub proof fn lemma_split_shape(p: Seq<u8>, c: int)
    requires
        c >= 1,
    ensures
        split_bytes(p, c).len() == 0 <==> p.len() == 0,
        p.len() > 0 ==> c * (split_bytes(p, c).len() - 1) < p.len() <= c * split_bytes(p, c).len(),
        forall|i: int|
            0 <= i < split_bytes(p, c).len() - 1 ==> (#[trigger] split_bytes(p, c)[i]).len() == c,
        p.len() > 0 ==> split_bytes(p, c).last().len() == p.len() - c * (split_bytes(p, c).len()
            - 1),
    decreases p.len(),
{
    if p.len() == 0 {
    } else if p.len() <= c {
        assert(split_bytes(p, c) == seq![p]);
        assert(c * (1 - 1) == 0) by (nonlinear_arith);
        assert(c * 1 == c) by (nonlinear_arith);
    } else {
        let rest = p.subrange(c, p.len() as int);
        lemma_split_shape(rest, c);
        let s = split_bytes(p, c);
        let n = split_bytes(rest, c).len() as int;
        assert(s == seq![p.subrange(0, c)] + split_bytes(rest, c));
        assert(s.len() == n + 1);
        assert(forall|i: int| 1 <= i < s.len() ==> s[i] == split_bytes(rest, c)[i - 1]);
        assert(s.last() == split_bytes(rest, c).last());
        assert(c * ((n + 1) - 1) == c * n) by (nonlinear_arith);
        assert(c * (n - 1) + c == c * n) by (nonlinear_arith);
        assert(c * n + c == c * (n + 1)) by (nonlinear_arith);
    }
}

/// The piece count of a split, written as a ceiling division.
pub proof fn lemma_split_count_is_ceil(p: Seq<u8>, c: int)
    requires
        c >= 1,
    ensures
        split_bytes(p, c).len() == (p.len() + c - 1) / c,
{
    lemma_split_shape(p, c);
    let n = split_bytes(p, c).len() as int;
    let l = p.len() as int;
    if l == 0 {
        vstd::arithmetic::div_mod::lemma_fundamental_div_mod_converse(c - 1, c, 0, c - 1);
    } else {
        let r = c * n - l;
        assert(c * n - c * (n - 1) == c) by (nonlinear_arith);
        assert(0 <= r < c);
        assert(l + c - 1 == n * c + (c - 1 - r)) by (nonlinear_arith)
            requires
                r == c * n - l,
        ;
        vstd::arithmetic::div_mod::lemma_fundamental_div_mod_converse(l + c - 1, c, n, c - 1 - r);
    }
}

/// The chunk records of a split payload are sorted by index, with no index
/// repeated: they already stand in the order `joined` expects.
pub proof fn lemma_chunk_views_sorted(ss: Seq<Seq<u8>>, id: Seq<char>)
    requires
        ss.len() <= i32::MAX,
    ensures
        sorted_by_index(chunk_views(ss, id)),
        distinct_indices(chunk_views(ss, id)),
        forall|i: int| 0 <= i < ss.len() ==> (#[trigger] chunk_views(ss, id)[i]).index == i + 1,
{
    assert forall|i: int| 0 <= i < ss.len() implies (#[trigger] chunk_views(ss, id)[i]).index == i
        + 1 by {
        assert(0 <= i + 1 <= i32::MAX);
    }
}

/// Concatenation over one more piece appends that piece's bytes.
pub proof fn lemma_concat_push(ss: Seq<Seq<u8>>, x: Seq<u8>)
    ensures
        concat_bytes(ss.push(x)) == concat_bytes(ss) + x,
    decreases ss.len(),
{
    if ss.len() == 0 {
        assert(ss.push(x).drop_first() =~= Seq::<Seq<u8>>::empty());
        assert(concat_bytes(ss.push(x).drop_first()) == Seq::<u8>::empty());
        assert(concat_bytes(ss.push(x)) == ss.push(x)[0] + concat_bytes(ss.push(x).drop_first()));
        assert(ss.push(x)[0] == x);
        assert(concat_bytes(ss) == Seq::<u8>::empty());
        assert(concat_bytes(ss.push(x)) =~= concat_bytes(ss) + x);
    } else {
        lemma_concat_push(ss.drop_first(), x);
        assert(ss.push(x).drop_first() =~= ss.drop_first().push(x));
        assert(ss.push(x)[0] == ss[0]);
        assert(concat_bytes(ss.push(x)) == ss[0] + concat_bytes(ss.drop_first().push(x)));
        assert(concat_bytes(ss) == ss[0] + concat_bytes(ss.drop_first()));
        assert(concat_bytes(ss.push(x)) =~= concat_bytes(ss) + x);
    }
}

/// Two chunk sequences sorted by index, holding the same records, one of them
/// free of repeated indices, are the same sequence.
pub proof fn lemma_sorted_permutation_unique(x: Seq<ChunkView>, y: Seq<ChunkView>)
    requires
        sorted_by_index(x),
        sorted_by_index(y),
        distinct_indices(y),
        x.to_multiset() == y.to_multiset(),
    ensures
        x == y,
    decreases x.len(),
{
    to_multiset_len(x);
    to_multiset_len(y);
    if x.len() == 0 {
        assert(x =~= y);
    } else {
        assert(y.len() == x.len());
        assert(x.contains(x[0]));
        to_multiset_contains(x, x[0]);
        to_multiset_contains(y, x[0]);
        assert(y.contains(x[0]));
        let j = choose|j: int| 0 <= j < y.len() && y[j] == x[0];
        assert(y.contains(y[0]));
        to_multiset_contains(y, y[0]);
        to_multiset_contains(x, y[0]);
        assert(x.contains(y[0]));
        let i = choose|i: int| 0 <= i < x.len() && x[i] == y[0];
        // the heads carry the least index on either side, so the indices agree
        if i > 0 {
            assert(x[0].index <= x[i].index);
        }
        if j > 0 {
            assert(y[0].index <= y[j].index);
        }
        assert(x[0].index == y[0].index);
        // y repeats no index, so x's head can only sit at y's head
        if j > 0 {
            assert(y[0].index != y[j].index);
            assert(false);
        }
        assert(x[0] == y[0]);
        assert(x.drop_first() =~= x.remove(0));
        assert(y.drop_first() =~= y.remove(0));
        to_multiset_remove(x, 0);
        to_multiset_remove(y, 0);
        assert(x.drop_first().to_multiset() == x.to_multiset().remove(x[0]));
        assert(y.drop_first().to_multiset() == y.to_multiset().remove(y[0]));
        assert(sorted_by_index(x.drop_first()));
        assert(sorted_by_index(y.drop_first()));
        assert(distinct_indices(y.drop_first()));
        lemma_sorted_permutation_unique(x.drop_first(), y.drop_first());
        assert forall|m: int| 0 <= m < x.len() implies x[m] == y[m] by {
            if m > 0 {
                assert(x[m] == x.drop_first()[m - 1]);
                assert(y[m] == y.drop_first()[m - 1]);
            }
        }
        assert(x =~= y);
    }
}

/// The round trip: any index-sorted arrangement of the chunk records of
/// `split_bytes(p, c)` joins back to exactly `p`, whatever order the store
/// returned them in.
pub proof fn lemma_round_trip(p: Seq<u8>, c: int, id: Seq<char>, t: Seq<ChunkView>)
    requires
        c >= 1,
        split_bytes(p, c).len() <= i32::MAX,
        sorted_by_index(t),
        t.to_multiset() == chunk_views(split_bytes(p, c), id).to_multiset(),
    ensures
        joined(t) == p,
{
    let u = chunk_views(split_bytes(p, c), id);
    lemma_chunk_views_sorted(split_bytes(p, c), id);
    lemma_sorted_permutation_unique(t, u);
    assert(u.map_values(|cv: ChunkView| cv.data) =~= split_bytes(p, c));
    lemma_concat_split(p, c);
}

/// Splits `payload` into chunk records owned by `parent_id`: consecutive
/// pieces of `max_chunk` bytes (the last piece holding the remainder), indexed
/// 1 upward in payload order.
pub fn split_chunks(parent_id: &str, payload: &Vec<u8>, max_chunk: usize) -> (r: Vec<ChunkDoc>)
    requires
        max_chunk >= 1,
        split_bytes(payload@, max_chunk as int).len() <= i32::MAX,
    ensures
        views_of(r@) == chunk_views(split_bytes(payload@, max_chunk as int), parent_id@),
{
    let ghost full = split_bytes(payload@, max_chunk as int);
    let ghost c = max_chunk as int;
    let mut r: Vec<ChunkDoc> = Vec::new();
    let mut off: usize = 0;
    proof {
        assert(payload@.skip(0) =~= payload@);
        assert(full.skip(0) =~= full);
        assert(views_of(r@) =~= chunk_views(full, parent_id@).take(0));
    }
    while off < payload.len()
        invariant
            max_chunk >= 1,
            c == max_chunk as int,
            off <= payload.len(),
            full == split_bytes(payload@, c),
            full.len() <= i32::MAX,
            r@.len() <= full.len(),
            views_of(r@) =~= chunk_views(full, parent_id@).take(r@.len() as int),
            split_bytes(payload@.skip(off as int), c) =~= full.skip(r@.len() as int),
        decreases payload.len() - off,
    {
        let ghost k = r@.len() as int;
        let ghost suf = payload@.skip(off as int);
        proof {
            assert(suf.len() > 0);
            assert(split_bytes(suf, c).len() > 0);
            assert(full.skip(k).len() == full.len() - k);
            assert(k < full.len());
        }
        let rem = payload.len() - off;
        let piece = if rem <= max_chunk {
            rem
        } else {
            max_chunk
        };
        let data = vstd::slice::slice_to_vec(
            vstd::slice::slice_subrange(payload.as_slice(), off, off + piece),
        );
        proof {
            if suf.len() <= c {
                assert(data@ =~= suf);
                assert(split_bytes(suf, c) == seq![suf]);
            } else {
                assert(data@ =~= suf.subrange(0, c));
            }
            assert(data@ == split_bytes(suf, c)[0]);
            assert(full[k] == full.skip(k)[0]);
            assert(data@ == full[k]);
        }
        let index: i32 = (r.len() as i32) + 1;
        let chunk = ChunkDoc::new(String::from_str(parent_id), index, data);
        let ghost cv = chunk@;
        let ghost rpre = r@;
        r.push(chunk);
        off = off + piece;
        proof {
            assert(views_of(r@) =~= views_of(rpre).push(cv));
            assert(chunk_views(full, parent_id@).take(k + 1) =~= chunk_views(
                full,
                parent_id@,
            ).take(k).push(chunk_views(full, parent_id@)[k]));
            assert(cv == chunk_views(full, parent_id@)[k]);
            assert(views_of(r@) =~= chunk_views(full, parent_id@).take(k + 1));
            // the unprocessed suffix still splits into the unbuilt pieces
            if suf.len() <= c {
                assert(payload@.skip(off as int) =~= Seq::<u8>::empty());
                assert(split_bytes(payload@.skip(off as int), c) == Seq::<Seq<u8>>::empty());
                assert(full.skip(k).len() == 1);
                assert(full.skip(k + 1) =~= Seq::<Seq<u8>>::empty());
            } else {
                assert(suf.subrange(c, suf.len() as int) =~= payload@.skip(off as int));
                assert(split_bytes(suf, c) == seq![suf.subrange(0, c)] + split_bytes(
                    payload@.skip(off as int),
                    c,
                ));
                assert(split_bytes(suf, c).drop_first() =~= split_bytes(
                    payload@.skip(off as int),
                    c,
                ));
                assert(full.skip(k).drop_first() =~= full.skip(k + 1));
            }
        }
    }
    proof {
        assert(payload@.skip(off as int) =~= Seq::<u8>::empty());
        assert(split_bytes(Seq::<u8>::empty(), c) == Seq::<Seq<u8>>::empty());
        assert(full.skip(r@.len() as int).len() == 0);
        assert(r@.len() == full.len());
        assert(chunk_views(full, parent_id@).take(r@.len() as int) =~= chunk_views(
            full,
            parent_id@,
        ));
        assert(views_of(r@) =~= chunk_views(full, parent_id@));
    }
    r
}

/// Concatenates the data of `chunks` in the order given.
pub fn join_chunks(chunks: &Vec<ChunkDoc>) -> (r: Vec<u8>)
    ensures
        r@ == joined(views_of(chunks@)),
{
    let ghost cs = views_of(chunks@);
    let mut r: Vec<u8> = Vec::new();
    proof {
        assert(cs.take(0).map_values(|c: ChunkView| c.data) =~= Seq::<Seq<u8>>::empty());
        assert(r@ =~= joined(cs.take(0)));
    }
    let mut i: usize = 0;
    while i < chunks.len()
        invariant
            i <= chunks.len(),
            cs == views_of(chunks@),
            r@ == joined(cs.take(i as int)),
        decreases chunks.len() - i,
    {
        let data = &chunks[i].data;
        let ghost r0 = r@;
        let mut j: usize = 0;
        proof {
            assert(r@ =~= r0 + data@.subrange(0, 0));
        }
        while j < data.len()
            invariant
                j <= data.len(),
                data@ == cs[i as int].data,
                0 <= i < cs.len(),
                r@ == r0 + data@.subrange(0, j as int),
            decreases data.len() - j,
        {
            r.push(data[j]);
            j += 1;
            proof {
                assert(r@ =~= r0 + data@.subrange(0, j as int));
            }
        }
        proof {
            assert(data@.subrange(0, data@.len() as int) =~= data@);
            let dt = cs.take(i as int).map_values(|c: ChunkView| c.data);
            lemma_concat_push(dt, cs[i as int].data);
            assert(cs.take(i + 1) =~= cs.take(i as int).push(cs[i as int]));
            assert(cs.take(i + 1).map_values(|c: ChunkView| c.data) =~= dt.push(
                cs[i as int].data,
            ));
            assert(r0 + data@ == joined(cs.take(i + 1)));
        }
        i += 1;
    }
    proof {
        assert(cs.take(cs.len() as int) =~= cs);
    }
    r
}

/// Reorders `chunks` into ascending index order; the records themselves are
/// kept exactly, nothing added or dropped.
pub fn sort_chunks(chunks: &mut Vec<ChunkDoc>)
    ensures
        sorted_by_index(views_of(final(chunks)@)),
        views_of(final(chunks)@).to_multiset() == views_of(old(chunks)@).to_multiset(),
{
    broadcast use vstd::multiset::group_multiset_axioms;

    let ghost orig = views_of(old(chunks)@);
    let mut out: Vec<ChunkDoc> = Vec::new();
    proof {
        assert(views_of(out@) =~= Seq::<ChunkView>::empty());
        to_multiset_len(views_of(out@));
        assert(views_of(out@).to_multiset() =~= Multiset::<ChunkView>::empty());
        assert(views_of(out@).to_multiset().add(views_of(chunks@).to_multiset()) =~= orig
            .to_multiset());
    }
    while chunks.len() > 0
        invariant
            sorted_by_index(views_of(out@)),
            views_of(out@).to_multiset().add(views_of(chunks@).to_multiset()) == orig.to_multiset(),
        decreases chunks.len(),
    {
        let ghost pre = views_of(chunks@);
        let x = chunks.pop().unwrap();
        proof {
            let n = pre.len() as int;
            assert(x@ == pre[n - 1]);
            assert(views_of(chunks@) =~= pre.remove(n - 1));
            to_multiset_remove(pre, n - 1);
            assert(views_of(chunks@).to_multiset() == pre.to_multiset().remove(pre[n - 1]));
            assert(pre.contains(pre[n - 1]));
            to_multiset_contains(pre, pre[n - 1]);
            assert(pre.to_multiset().count(x@) > 0);
        }
        let ghost before = views_of(out@);
        // find the first slot whose chunk sorts after x
        let mut pos: usize = 0;
        while pos < out.len() && out[pos].index <= x.index
            invariant
                pos <= out.len(),
                forall|k: int| 0 <= k < pos ==> views_of(out@)[k].index <= x@.index,
                views_of(out@) == before,
            decreases out.len() - pos,
        {
            pos += 1;
        }
        proof {
            assert(pos == before.len() || before[pos as int].index > x@.index);
        }
        out.insert(pos, x);
        proof {
            assert(views_of(out@) =~= before.insert(pos as int, x@));
            to_multiset_insert(before, pos as int, x@);
            let now = views_of(out@);
            let p = pos as int;
            assert forall|a: int, b: int| 0 <= a < b < now.len() implies now[a].index
                <= now[b].index by {
                if b < p {
                    assert(now[a] == before[a] && now[b] == before[b]);
                } else if a < p && b == p {
                    assert(now[a] == before[a] && now[b] == x@);
                } else if a < p && b > p {
                    assert(now[a] == before[a] && now[b] == before[b - 1]);
                } else if a == p && b > p {
                    assert(now[a] == x@ && now[b] == before[b - 1]);
                    assert(before[p].index > x@.index);
                    if p < b - 1 {
                        assert(before[p].index <= before[b - 1].index);
                    }
                } else {
                    assert(now[a] == before[a - 1] && now[b] == before[b - 1]);
                }
            }
            assert(views_of(out@).to_multiset().add(views_of(chunks@).to_multiset()) =~= orig
                .to_multiset());
        }
    }
    proof {
        assert(views_of(chunks@) =~= Seq::<ChunkView>::empty());
        to_multiset_len(views_of(chunks@));
        assert(views_of(chunks@).to_multiset() =~= Multiset::<ChunkView>::empty());
        assert(views_of(out@).to_multiset().add(views_of(chunks@).to_multiset()) =~= views_of(
            out@,
        ).to_multiset());
    }
    *chunks = out;
}

} // verus!
