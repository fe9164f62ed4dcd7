use vstd::prelude::*;
use crate::cursor::BlockCursor;
use crate::index::{find_term, Block, Index, PostingList};
use crate::merge::cursors_wf;

verus! {

impl Index {
    /// Terms and lists align, and every block is non-empty with aligned arrays.
    pub open spec fn wf(&self) -> bool {
        &&& self.terms@.len() == self.lists@.len()
        &&& forall|i: int, j: int|
            0 <= i < j < self.terms@.len() ==> self.terms@[i]@ != self.terms@[j]@
        &&& forall|i: int| 0 <= i < self.lists@.len() ==> (#[trigger] self.lists@[i]).wf()
    }

    /// Whether the index is well formed: used on an index read back from storage.
    pub fn check_wf(&self) -> (r: bool)
        ensures
            r == self.wf(),
    {
        if self.terms.len() != self.lists.len() {
            return false;
        }
        let mut a: usize = 0;
        while a < self.terms.len()
            invariant
                a <= self.terms@.len(),
                forall|i: int, j: int| 0 <= i < j < self.terms@.len() && i < a ==> self.terms@[i]@ != self.terms@[j]@,
            decreases self.terms@.len() - a,
        {
            let mut b: usize = a + 1;
            while b < self.terms.len()
                invariant
                    a < b <= self.terms@.len(),
                    forall|i: int, j: int| 0 <= i < j < self.terms@.len() && i < a ==> self.terms@[i]@ != self.terms@[j]@,
                    forall|j: int| a < j < b ==> self.terms@[a as int]@ != self.terms@[j]@,
                decreases self.terms@.len() - b,
            {
                if self.terms[a] == self.terms[b] {
                    return false;
                }
                b += 1;
            }
            a += 1;
        }
        let mut i: usize = 0;
        while i < self.lists.len()
            invariant
                i <= self.lists@.len(),
                forall|q: int| 0 <= q < i ==> (#[trigger] self.lists@[q]).wf(),
            decreases self.lists@.len() - i,
        {
            let list = &self.lists[i];
            let mut j: usize = 0;
            while j < list.blocks.len()
                invariant
                    i < self.lists@.len(),
                    *list == self.lists@[i as int],
                    j <= list.blocks@.len(),
                    forall|q: int| 0 <= q < j ==> (#[trigger] list.blocks@[q]).wf() && list.blocks@[q].ascending(),
                    forall|q: int| 0 <= q && q + 1 < j ==> (#[trigger] list.blocks@[q]).last_doc_id < list.blocks@[q + 1].doc_ids@[0],
                decreases list.blocks@.len() - j,
            {
                let b: &Block = &list.blocks[j];
                let n = b.doc_ids.len();
                if n == 0 || b.freqs.len() != n || b.doc_lens.len() != n || b.last_doc_id
                    != b.doc_ids[n - 1] {
                    assert(!list.blocks@[j as int].wf());
                    assert(!self.lists@[i as int].wf());
                    return false;
                }
                let mut q: usize = 0;
                while q + 1 < n
                    invariant
                        i < self.lists@.len(),
                        *list == self.lists@[i as int],
                        j < list.blocks@.len(),
                        *b == list.blocks@[j as int],
                        n == b.doc_ids@.len(),
                        n > 0,
                        q < n,
                        forall|x: int, y: int| 0 <= x < y <= q ==> (#[trigger] b.doc_ids@[x]) < (#[trigger] b.doc_ids@[y]),
                    decreases n - q,
                {
                    if b.doc_ids[q] >= b.doc_ids[q + 1] {
                        assert(!b.ascending());
                        assert(!self.lists@[i as int].wf());
                        return false;
                    }
                    proof {
                        assert forall|x: int, y: int| 0 <= x < y <= q + 1 implies (#[trigger] b.doc_ids@[x]) < (#[trigger] b.doc_ids@[y]) by {
                            if y == q + 1 && x < q {
                                assert(b.doc_ids@[x] < b.doc_ids@[q as int]);
                            }
                        }
                    }
                    q += 1;
                }
                assert(b.ascending());
                if j > 0 && list.blocks[j - 1].last_doc_id >= b.doc_ids[0] {
                    assert(!list.ascending());
                    assert(!self.lists@[i as int].wf());
                    return false;
                }
                assert(j > 0 ==> list.blocks@[j - 1].last_doc_id < list.blocks@[j as int].doc_ids@[0]);
                j += 1;
            }
            assert(list.ascending()) by {
                assert forall|q: int| 0 <= q < list.blocks@.len() - 1 implies (#[trigger] list.blocks@[q]).last_doc_id
                    < list.blocks@[q + 1].doc_ids@[0] by {
                    assert(0 <= q + 1 < j);
                }
            }
            i += 1;
        }
        true
    }

    /// Position of the term equal to `t`, if the index holds it.
    pub fn lookup(&self, t: &String) -> (r: Option<usize>)
        ensures
            r matches Some(j) ==> j < self.terms@.len() && self.terms@[j as int]@ == t@,
            r is None ==> forall|j: int| 0 <= j < self.terms@.len() ==> self.terms@[j]@ != t@,
    {
        find_term(&self.terms, t)
    }
}

/// The term `s` of the index occurs among the query terms `q`, and its list is not empty.
pub open spec fn selected(index: &Index, q: Seq<String>, s: int) -> bool {
    &&& 0 <= s < index.terms@.len()
    &&& index.lists@[s].blocks@.len() > 0
    &&& exists|k: int| 0 <= k < q.len() && (#[trigger] q[k])@ == index.terms@[s]@
}

/// The distinct terms of `query` that the index holds with a non-empty list,
/// as positions in the index.
pub fn query_terms(index: &Index, query: &Vec<String>) -> (r: Vec<usize>)
    requires
        index.wf(),
    ensures
        forall|i: int, j: int| 0 <= i < j < r@.len() ==> r@[i] != r@[j],
        forall|i: int| 0 <= i < r@.len() ==> selected(index, query@, #[trigger] r@[i] as int),
        forall|s: usize| selected(index, query@, s as int) ==> r@.contains(s),
{
    let mut out: Vec<usize> = Vec::new();
    let mut k: usize = 0;
    while k < query.len()
        invariant
            index.wf(),
            k <= query@.len(),
            forall|i: int, j: int| 0 <= i < j < out@.len() ==> out@[i] != out@[j],
            forall|i: int| 0 <= i < out@.len() ==> selected(index, query@, #[trigger] out@[i] as int),
            forall|s: usize|
                s < index.terms@.len() && index.lists@[s as int].blocks@.len() > 0 && (exists|m: int|
                    0 <= m < k && (#[trigger] query@[m])@ == index.terms@[s as int]@)
                    ==> out@.contains(s),
        decreases query@.len() - k,
    {
        let ghost old_out = out@;
        let found = index.lookup(&query[k]);
        if let Some(s) = found {
            if index.lists[s].blocks.len() > 0 {
                let mut seen = false;
                let mut i: usize = 0;
                while i < out.len()
                    invariant
                        i <= out@.len(),
                        seen <==> exists|j: int| 0 <= j < i && out@[j] == s,
                    decreases out@.len() - i,
                {
                    if out[i] == s {
                        seen = true;
                    }
                    i += 1;
                }
                if !seen {
                    assert(selected(index, query@, s as int)) by {
                        assert(query@[k as int]@ == index.terms@[s as int]@);
                    }
                    out.push(s);
                    assert(out@[out@.len() - 1] == s);
                }
                assert(out@.contains(s));
            }
        }
        proof {
            assert forall|s: usize|
                s < index.terms@.len() && index.lists@[s as int].blocks@.len() > 0 && (exists|m: int|
                    0 <= m < k + 1 && (#[trigger] query@[m])@ == index.terms@[s as int]@)
                    implies out@.contains(s) by {
                let m = choose|m: int|
                    0 <= m < k + 1 && (#[trigger] query@[m])@ == index.terms@[s as int]@;
                if m < k {
                    assert(old_out.contains(s));
                    let j = choose|j: int| 0 <= j < old_out.len() && old_out[j] == s;
                    assert(out@[j] == s);
                } else {
                    let s2 = found->0;
                    assert(found is Some);
                    assert(index.terms@[s2 as int]@ == index.terms@[s as int]@);
                    assert(s2 == s);
                }
            }
        }
        k += 1;
    }
    proof {
        assert forall|s: usize| selected(index, query@, s as int) implies out@.contains(s) by {
            let m = choose|m: int|
                0 <= m < query@.len() && (#[trigger] query@[m])@ == index.terms@[s as int]@;
        }
    }
    out
}

/// One cursor at the start of each of the given term lists.
pub fn open_cursors(index: &Index, terms: &Vec<usize>) -> (r: Vec<BlockCursor>)
    requires
        index.wf(),
        forall|i: int| 0 <= i < terms@.len() ==> #[trigger] terms@[i] < index.lists@.len(),
    ensures
        r@.len() == terms@.len(),
        forall|i: int| 0 <= i < r@.len() ==> #[trigger] r@[i] == (BlockCursor { term: terms@[i], block_idx: 0, in_block_idx: 0 }),
        cursors_wf(r@, index.lists@),
{
    let mut out: Vec<BlockCursor> = Vec::new();
    let mut i: usize = 0;
    while i < terms.len()
        invariant
            index.wf(),
            forall|q: int| 0 <= q < terms@.len() ==> #[trigger] terms@[q] < index.lists@.len(),
            i <= terms@.len(),
            out@.len() == i,
            forall|q: int| 0 <= q < i ==> #[trigger] out@[q] == (BlockCursor { term: terms@[q], block_idx: 0, in_block_idx: 0 }),
            cursors_wf(out@, index.lists@),
        decreases terms@.len() - i,
    {
        let c = BlockCursor::new(terms[i]);
        let ghost l: PostingList = index.lists@[terms@[i as int] as int];
        assert(l.wf());
        assert(l.blocks@.len() > 0 ==> l.blocks@[0].wf());
        out.push(c);
        i += 1;
    }
    out
}

} // verus!
