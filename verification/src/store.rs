//! The object store: two keyed collections — header records by id, chunk
//! records by parent id — with the narrow operations the service depends on.

use vstd::prelude::*;
use crate::codec::views_of;
use crate::objects::{ChunkDoc, ChunkView, HeaderDoc, HeaderView};

verus! {

/// Mathematical value of a [`Store`]: the header records and chunk records it
/// holds, in insertion order.
pub ghost struct StoreView {
    pub headers: Seq<HeaderView>,
    pub chunks: Seq<ChunkView>,
}

/// The mathematical values of a sequence of header records.
pub open spec fn header_views_of(s: Seq<HeaderDoc>) -> Seq<HeaderView> {
    s.map_values(|h: HeaderDoc| h@)
}

/// Some stored header carries the id.
pub open spec fn has_header(hs: Seq<HeaderView>, id: Seq<char>) -> bool {
    exists|i: int| 0 <= i < hs.len() && hs[i].id == id
}

/// The stored header carrying the id; meaningful when ids are unique.
pub open spec fn header_for(hs: Seq<HeaderView>, id: Seq<char>) -> HeaderView {
    hs[choose|i: int| 0 <= i < hs.len() && hs[i].id == id]
}

/// No two stored headers share an id.
pub open spec fn unique_ids(hs: Seq<HeaderView>) -> bool {
    forall|i: int, j: int| 0 <= i < j < hs.len() ==> hs[i].id != hs[j].id
}

/// The headers left once those carrying the id are removed.
pub open spec fn headers_without(hs: Seq<HeaderView>, id: Seq<char>) -> Seq<HeaderView>
    decreases hs.len(),
{
    if hs.len() == 0 {
        hs
    } else {
        let rest = headers_without(hs.drop_last(), id);
        if hs.last().id == id {
            rest
        } else {
            rest.push(hs.last())
        }
    }
}

/// The chunks belonging to the object with the given id, in stored order.
pub open spec fn chunks_for(cs: Seq<ChunkView>, pid: Seq<char>) -> Seq<ChunkView>
    decreases cs.len(),
{
    if cs.len() == 0 {
        cs
    } else {
        let rest = chunks_for(cs.drop_last(), pid);
        if cs.last().parent_id == pid {
            rest.push(cs.last())
        } else {
            rest
        }
    }
}

/// The chunks left once those of the object with the given id are removed.
pub open spec fn chunks_without(cs: Seq<ChunkView>, pid: Seq<char>) -> Seq<ChunkView>
    decreases cs.len(),
{
    if cs.len() == 0 {
        cs
    } else {
        let rest = chunks_without(cs.drop_last(), pid);
        if cs.last().parent_id == pid {
            rest
        } else {
            rest.push(cs.last())
        }
    }
}

/// Filtering keeps only chunks of the requested object.
pub proof fn lemma_chunks_for_members(cs: Seq<ChunkView>, pid: Seq<char>)
    ensures
        forall|k: int|
            0 <= k < chunks_for(cs, pid).len() ==> (#[trigger] chunks_for(cs, pid)[k]).parent_id
                == pid,
    decreases cs.len(),
{
    if cs.len() > 0 {
        lemma_chunks_for_members(cs.drop_last(), pid);
        let rest = chunks_for(cs.drop_last(), pid);
        assert forall|k: int| 0 <= k < chunks_for(cs, pid).len() implies (#[trigger] chunks_for(
            cs,
            pid,
        )[k]).parent_id == pid by {
            if cs.last().parent_id == pid {
                assert(chunks_for(cs, pid) == rest.push(cs.last()));
                if k < rest.len() {
                    assert(chunks_for(cs, pid)[k] == rest[k]);
                } else {
                    assert(chunks_for(cs, pid)[k] == cs.last());
                }
            } else {
                assert(chunks_for(cs, pid) == rest);
            }
        }
    }
}

/// A chunk set holding nothing of the object filters to nothing.
pub proof fn lemma_chunks_for_absent(cs: Seq<ChunkView>, pid: Seq<char>)
    requires
        forall|k: int| 0 <= k < cs.len() ==> (#[trigger] cs[k]).parent_id != pid,
    ensures
        chunks_for(cs, pid) == Seq::<ChunkView>::empty(),
    decreases cs.len(),
{
    if cs.len() > 0 {
        assert(forall|k: int|
            0 <= k < cs.drop_last().len() ==> (#[trigger] cs.drop_last()[k]).parent_id != pid);
        lemma_chunks_for_absent(cs.drop_last(), pid);
        assert(cs.last().parent_id != pid);
    }
}

/// A chunk set entirely of the object filters to itself.
pub proof fn lemma_chunks_for_all_match(cs: Seq<ChunkView>, pid: Seq<char>)
    requires
        forall|k: int| 0 <= k < cs.len() ==> (#[trigger] cs[k]).parent_id == pid,
    ensures
        chunks_for(cs, pid) == cs,
    decreases cs.len(),
{
    if cs.len() > 0 {
        assert(forall|k: int|
            0 <= k < cs.drop_last().len() ==> (#[trigger] cs.drop_last()[k]).parent_id == pid);
        lemma_chunks_for_all_match(cs.drop_last(), pid);
        assert(chunks_for(cs, pid) =~= cs.drop_last().push(cs.last()));
        assert(cs.drop_last().push(cs.last()) =~= cs);
    }
}

/// Filtering distributes over concatenation: a batch appended to the store
/// contributes exactly its own matching chunks, after the existing ones.
pub proof fn lemma_chunks_for_concat(a: Seq<ChunkView>, b: Seq<ChunkView>, pid: Seq<char>)
    ensures
        chunks_for(a + b, pid) == chunks_for(a, pid) + chunks_for(b, pid),
    decreases b.len(),
{
    if b.len() == 0 {
        assert(a + b =~= a);
        assert(chunks_for(b, pid) =~= Seq::<ChunkView>::empty());
        assert(chunks_for(a, pid) + chunks_for(b, pid) =~= chunks_for(a, pid));
    } else {
        lemma_chunks_for_concat(a, b.drop_last(), pid);
        assert((a + b).drop_last() =~= a + b.drop_last());
        assert((a + b).last() == b.last());
        if b.last().parent_id == pid {
            assert(chunks_for(b, pid) =~= chunks_for(b.drop_last(), pid).push(b.last()));
            assert(chunks_for(a + b, pid) =~= chunks_for(a, pid) + chunks_for(b, pid));
        } else {
            assert(chunks_for(b, pid) =~= chunks_for(b.drop_last(), pid));
            assert(chunks_for(a + b, pid) =~= chunks_for(a, pid) + chunks_for(b, pid));
        }
    }
}

/// What a deletion leaves: no header under the id, and no chunk of the
/// object, remain to be found.
pub proof fn lemma_delete_removes_object(hs: Seq<HeaderView>, cs: Seq<ChunkView>, id: Seq<char>)
    ensures
        !has_header(headers_without(hs, id), id),
        chunks_for(chunks_without(cs, id), id) == Seq::<ChunkView>::empty(),
{
    lemma_headers_without_members(hs, id);
    lemma_chunks_without_members(cs, id);
    lemma_chunks_for_absent(chunks_without(cs, id), id);
}

/// No header left by a removal carries the removed id.
proof fn lemma_headers_without_members(hs: Seq<HeaderView>, id: Seq<char>)
    ensures
        forall|k: int|
            0 <= k < headers_without(hs, id).len() ==> (#[trigger] headers_without(hs, id)[k]).id
                != id,
    decreases hs.len(),
{
    if hs.len() > 0 {
        lemma_headers_without_members(hs.drop_last(), id);
        let rest = headers_without(hs.drop_last(), id);
        assert forall|k: int| 0 <= k < headers_without(hs, id).len() implies (
        #[trigger] headers_without(hs, id)[k]).id != id by {
            if hs.last().id == id {
                assert(headers_without(hs, id) == rest);
            } else {
                assert(headers_without(hs, id) == rest.push(hs.last()));
                if k < rest.len() {
                    assert(headers_without(hs, id)[k] == rest[k]);
                } else {
                    assert(headers_without(hs, id)[k] == hs.last());
                }
            }
        }
    }
}

/// No chunk left by a removal belongs to the removed object.
proof fn lemma_chunks_without_members(cs: Seq<ChunkView>, pid: Seq<char>)
    ensures
        forall|k: int|
            0 <= k < chunks_without(cs, pid).len() ==> (#[trigger] chunks_without(cs, pid)[k])
                .parent_id != pid,
    decreases cs.len(),
{
    if cs.len() > 0 {
        lemma_chunks_without_members(cs.drop_last(), pid);
        let rest = chunks_without(cs.drop_last(), pid);
        assert forall|k: int| 0 <= k < chunks_without(cs, pid).len() implies (
        #[trigger] chunks_without(cs, pid)[k]).parent_id != pid by {
            if cs.last().parent_id == pid {
                assert(chunks_without(cs, pid) == rest);
            } else {
                assert(chunks_without(cs, pid) == rest.push(cs.last()));
                if k < rest.len() {
                    assert(chunks_without(cs, pid)[k] == rest[k]);
                } else {
                    assert(chunks_without(cs, pid)[k] == cs.last());
                }
            }
        }
    }
}

/// Removing an id nothing carries changes nothing.
proof fn lemma_headers_without_absent(hs: Seq<HeaderView>, id: Seq<char>)
    requires
        forall|k: int| 0 <= k < hs.len() ==> (#[trigger] hs[k]).id != id,
    ensures
        headers_without(hs, id) == hs,
    decreases hs.len(),
{
    if hs.len() > 0 {
        assert(forall|k: int|
            0 <= k < hs.drop_last().len() ==> (#[trigger] hs.drop_last()[k]).id != id);
        lemma_headers_without_absent(hs.drop_last(), id);
        assert(headers_without(hs, id) =~= hs.drop_last().push(hs.last()));
        assert(hs.drop_last().push(hs.last()) =~= hs);
    }
}

/// When exactly one header carries the id, removal takes out just that one.
proof fn lemma_headers_without_at(hs: Seq<HeaderView>, id: Seq<char>, w: int)
    requires
        0 <= w < hs.len(),
        hs[w].id == id,
        forall|k: int| 0 <= k < hs.len() && k != w ==> (#[trigger] hs[k]).id != id,
    ensures
        headers_without(hs, id) == hs.remove(w),
    decreases hs.len(),
{
    if w == hs.len() - 1 {
        assert(hs.last().id == id);
        assert(forall|k: int|
            0 <= k < hs.drop_last().len() ==> (#[trigger] hs.drop_last()[k]).id != id);
        lemma_headers_without_absent(hs.drop_last(), id);
        assert(hs.remove(w) =~= hs.drop_last());
    } else {
        assert(hs.last().id != id);
        assert(hs.drop_last()[w] == hs[w]);
        assert(forall|k: int|
            0 <= k < hs.drop_last().len() && k != w ==> (#[trigger] hs.drop_last()[k]).id != id);
        lemma_headers_without_at(hs.drop_last(), id, w);
        assert(headers_without(hs, id) =~= hs.drop_last().remove(w).push(hs.last()));
        assert(hs.drop_last().remove(w).push(hs.last()) =~= hs.remove(w));
    }
}

/// The in-memory object store. Header ids are unique — the keyed-collection
/// shape the service's uniqueness probe maintains.
pub struct Store {
    headers: Vec<HeaderDoc>,
    chunks: Vec<ChunkDoc>,
}

impl View for Store {
    type V = StoreView;

    closed spec fn view(&self) -> StoreView {
        StoreView { headers: header_views_of(self.headers@), chunks: views_of(self.chunks@) }
    }
}

impl Store {
    /// The store's invariant: headers are keyed by id, so no id repeats.
    pub open spec fn wf(&self) -> bool {
        unique_ids(self@.headers)
    }

    /// An empty store.
    pub fn new() -> (r: Store)
        ensures
            r@.headers == Seq::<HeaderView>::empty(),
            r@.chunks == Seq::<ChunkView>::empty(),
            r.wf(),
    {
        let r = Store { headers: Vec::new(), chunks: Vec::new() };
        proof {
            assert(r@.headers =~= Seq::<HeaderView>::empty());
            assert(r@.chunks =~= Seq::<ChunkView>::empty());
        }
        r
    }

    /// Looks a header up by id.
    pub fn find_header(&self, id: &String) -> (r: Option<&HeaderDoc>)
        requires
            self.wf(),
        ensures
            r is Some <==> has_header(self@.headers, id@),
            r matches Some(h) ==> h@ == header_for(self@.headers, id@),
    {
        let ghost hs = self@.headers;
        let mut i: usize = 0;
        while i < self.headers.len()
            invariant
                i <= self.headers.len(),
                hs == self@.headers,
                self.wf(),
                forall|j: int| 0 <= j < i ==> hs[j].id != id@,
            decreases self.headers.len() - i,
        {
            if self.headers[i].id == *id {
                proof {
                    assert(hs[i as int].id == id@);
                    assert(has_header(hs, id@));
                    let w = choose|w: int| 0 <= w < hs.len() && hs[w].id == id@;
                    if w < i as int {
                        assert(hs[w].id != hs[i as int].id);
                        assert(false);
                    } else if w > i as int {
                        assert(hs[i as int].id != hs[w].id);
                        assert(false);
                    }
                }
                return Some(&self.headers[i]);
            }
            i += 1;
        }
        proof {
            if has_header(hs, id@) {
                let w = choose|w: int| 0 <= w < hs.len() && hs[w].id == id@;
                assert(hs[w].id != id@);
            }
        }
        None
    }

    /// Number of stored headers carrying the id — the uniqueness probe; with
    /// ids unique, 0 or 1.
    pub fn count_headers(&self, id: &String) -> (n: usize)
        requires
            self.wf(),
        ensures
            n <= 1,
            (n == 0) <==> !has_header(self@.headers, id@),
    {
        match self.find_header(id) {
            Some(_) => 1,
            None => 0,
        }
    }

    /// Stores a header record; its id must not be in use.
    pub fn insert_header(&mut self, h: HeaderDoc)
        requires
            old(self).wf(),
            !has_header(old(self)@.headers, h@.id),
        ensures
            final(self).wf(),
            final(self)@.headers == old(self)@.headers.push(h@),
            final(self)@.chunks == old(self)@.chunks,
    {
        let ghost hs = self@.headers;
        let ghost hv = h@;
        self.headers.push(h);
        proof {
            assert(self@.headers =~= hs.push(hv));
            assert forall|a: int, b: int| 0 <= a < b < self@.headers.len() implies self@.headers[a]
                .id != self@.headers[b].id by {
                if b == hs.len() as int {
                    assert(self@.headers[a] == hs[a]);
                    if hs[a].id == hv.id {
                        assert(has_header(hs, hv.id));
                    }
                }
            }
        }
    }

    /// Stores a batch of chunk records, one bulk append.
    pub fn insert_chunks(&mut self, batch: Vec<ChunkDoc>)
        requires
            old(self).wf(),
        ensures
            final(self).wf(),
            final(self)@.headers == old(self)@.headers,
            final(self)@.chunks == old(self)@.chunks + views_of(batch@),
    {
        let ghost cs = self@.chunks;
        let ghost bv = views_of(batch@);
        let mut batch = batch;
        self.chunks.append(&mut batch);
        proof {
            assert(self@.chunks =~= cs + bv);
        }
    }

    /// All chunks of the object, in stored order — not yet sorted by index.
    pub fn find_chunks(&self, pid: &String) -> (r: Vec<ChunkDoc>)
        ensures
            views_of(r@) == chunks_for(self@.chunks, pid@),
    {
        let ghost cs = self@.chunks;
        let mut r: Vec<ChunkDoc> = Vec::new();
        proof {
            assert(cs.take(0) =~= Seq::<ChunkView>::empty());
            assert(views_of(r@) =~= chunks_for(cs.take(0), pid@));
        }
        let mut i: usize = 0;
        while i < self.chunks.len()
            invariant
                i <= self.chunks.len(),
                cs == self@.chunks,
                views_of(r@) == chunks_for(cs.take(i as int), pid@),
            decreases self.chunks.len() - i,
        {
            let ghost rpre = views_of(r@);
            if self.chunks[i].parent_id == *pid {
                r.push(self.chunks[i].clone());
                proof {
                    assert(views_of(r@) =~= rpre.push(cs[i as int]));
                }
            }
            proof {
                assert(cs.take(i + 1).drop_last() =~= cs.take(i as int));
                assert(cs.take(i + 1).last() == cs[i as int]);
                assert(views_of(r@) =~= chunks_for(cs.take(i + 1), pid@));
            }
            i += 1;
        }
        proof {
            assert(cs.take(cs.len() as int) =~= cs);
        }
        r
    }

    /// Removes the header carrying the id, reporting how many records went —
    /// 1 when the id was stored, otherwise 0.
    pub fn delete_header(&mut self, id: &String) -> (n: usize)
        requires
            old(self).wf(),
        ensures
            final(self).wf(),
            final(self)@.headers == headers_without(old(self)@.headers, id@),
            final(self)@.chunks == old(self)@.chunks,
            (n == 1) <==> has_header(old(self)@.headers, id@),
            n <= 1,
    {
        let ghost hs = self@.headers;
        let mut i: usize = 0;
        while i < self.headers.len()
            invariant
                i <= self.headers.len(),
                hs == self@.headers,
                old(self)@ == self@,
                self.wf(),
                forall|j: int| 0 <= j < i ==> hs[j].id != id@,
            decreases self.headers.len() - i,
        {
            if self.headers[i].id == *id {
                proof {
                    assert(hs[i as int].id == id@);
                    assert(has_header(hs, id@));
                    assert(forall|k: int|
                        0 <= k < hs.len() && k != i as int ==> (#[trigger] hs[k]).id != id@);
                    lemma_headers_without_at(hs, id@, i as int);
                }
                self.headers.remove(i);
                proof {
                    assert(self@.headers =~= hs.remove(i as int));
                    assert forall|a: int, b: int|
                        0 <= a < b < self@.headers.len() implies self@.headers[a].id
                        != self@.headers[b].id by {
                        let aa = if a < i as int { a } else { a + 1 };
                        let bb = if b < i as int { b } else { b + 1 };
                        assert(self@.headers[a] == hs[aa]);
                        assert(self@.headers[b] == hs[bb]);
                    }
                }
                return 1;
            }
            i += 1;
        }
        proof {
            assert(forall|k: int| 0 <= k < hs.len() ==> (#[trigger] hs[k]).id != id@);
            lemma_headers_without_absent(hs, id@);
            if has_header(hs, id@) {
                let w = choose|w: int| 0 <= w < hs.len() && hs[w].id == id@;
                assert(hs[w].id != id@);
            }
        }
        0
    }

    /// Removes every chunk of the object, reporting how many records went.
    pub fn delete_chunks(&mut self, pid: &String) -> (n: usize)
        ensures
            final(self)@.headers == old(self)@.headers,
            final(self)@.chunks == chunks_without(old(self)@.chunks, pid@),
            n == chunks_for(old(self)@.chunks, pid@).len(),
            old(self).wf() ==> final(self).wf(),
    {
        let ghost cs = self@.chunks;
        let mut kept: Vec<ChunkDoc> = Vec::new();
        let mut removed: usize = 0;
        proof {
            assert(cs.take(0) =~= Seq::<ChunkView>::empty());
            assert(views_of(kept@) =~= chunks_without(cs.take(0), pid@));
            assert(chunks_for(cs.take(0), pid@) =~= Seq::<ChunkView>::empty());
        }
        let mut i: usize = 0;
        while i < self.chunks.len()
            invariant
                i <= self.chunks.len(),
                cs == self@.chunks,
                old(self)@ == self@,
                removed <= i,
                views_of(kept@) == chunks_without(cs.take(i as int), pid@),
                removed == chunks_for(cs.take(i as int), pid@).len(),
            decreases self.chunks.len() - i,
        {
            let ghost kpre = views_of(kept@);
            if self.chunks[i].parent_id == *pid {
                removed += 1;
            } else {
                kept.push(self.chunks[i].clone());
                proof {
                    assert(views_of(kept@) =~= kpre.push(cs[i as int]));
                }
            }
            proof {
                assert(cs.take(i + 1).drop_last() =~= cs.take(i as int));
                assert(cs.take(i + 1).last() == cs[i as int]);
                assert(views_of(kept@) =~= chunks_without(cs.take(i + 1), pid@));
            }
            i += 1;
        }
        proof {
            assert(cs.take(cs.len() as int) =~= cs);
        }
        self.chunks = kept;
        removed
    }
}

} // verus!
