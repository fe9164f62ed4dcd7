use vstd::prelude::*;
use crate::index::{Block, Posting, PostingList};

verus! {

impl PostingList {
    /// Every block is non-empty with aligned arrays, and document ids ascend
    /// within and across blocks.
    pub open spec fn wf(&self) -> bool {
        &&& forall|j: int|
            0 <= j < self.blocks@.len() ==> {
                &&& (#[trigger] self.blocks@[j]).wf()
                &&& self.blocks@[j].ascending()
            }
        &&& self.ascending()
    }
}

impl PostingList {
    /// Each block starts above the last document id of the block before it.
    pub open spec fn ascending(&self) -> bool {
        forall|b: int|
            0 <= b < self.blocks@.len() - 1 ==> (#[trigger] self.blocks@[b]).last_doc_id
                < self.blocks@[b + 1].doc_ids@[0]
    }
}

impl Block {
    pub open spec fn ascending(&self) -> bool {
        forall|a: int, b: int|
            0 <= a < b < self.doc_ids@.len() ==> (#[trigger] self.doc_ids@[a]) < (#[trigger] self.doc_ids@[b])
    }
}

/// A position in one term's posting list: a block and an entry inside it.
#[derive(Clone, Copy, Debug, PartialEq, Eq)]
pub struct BlockCursor {
    /// The term's position in the index.
    pub term: usize,
    pub block_idx: usize,
    pub in_block_idx: usize,
}

impl BlockCursor {
    /// The cursor points at an entry, or is past the last block.
    pub open spec fn wf(&self, list: &PostingList) -> bool {
        ||| (self.block_idx < list.blocks@.len() && self.in_block_idx
            < list.blocks@[self.block_idx as int].len())
        ||| (self.block_idx == list.blocks@.len() && self.in_block_idx == 0)
    }

    /// The posting under the cursor, if any is left.
    pub open spec fn at(&self, list: &PostingList) -> Option<Posting> {
        if self.block_idx < list.blocks@.len() {
            Some(list.blocks@[self.block_idx as int].postings()[self.in_block_idx as int])
        } else {
            None
        }
    }

    /// `to` is this cursor moved on by one posting: to the next entry of the
    /// block, or to the start of the next block.
    pub open spec fn moved_on(&self, to: BlockCursor, list: &PostingList) -> bool {
        &&& to.term == self.term
        &&& if self.block_idx >= list.blocks@.len() {
            to == *self
        } else if self.in_block_idx + 1 < list.blocks@[self.block_idx as int].len() {
            to.block_idx == self.block_idx && to.in_block_idx == self.in_block_idx + 1
        } else {
            to.block_idx == self.block_idx + 1 && to.in_block_idx == 0
        }
    }

    /// Entry `i` of block `b` lies at or after this cursor and before `to`.
    pub open spec fn passes(&self, to: BlockCursor, b: int, i: int) -> bool {
        &&& (b > self.block_idx || (b == self.block_idx && i >= self.in_block_idx))
        &&& (b < to.block_idx || (b == to.block_idx && i < to.in_block_idx))
    }

    /// `to` is where a seek for `target` from this cursor lands: no earlier,
    /// past only postings below `target`, and on one at or above it if any is left.
    pub open spec fn seek_post(&self, to: BlockCursor, list: &PostingList, target: u32) -> bool {
        &&& to.term == self.term
        &&& to.wf(list)
        &&& (to.block_idx > self.block_idx || (to.block_idx == self.block_idx && to.in_block_idx
            >= self.in_block_idx))
        &&& forall|b: int, i: int|
            0 <= b < list.blocks@.len() && 0 <= i < list.blocks@[b].doc_ids@.len() && self.passes(
                to,
                b,
                i,
            ) ==> #[trigger] list.blocks@[b].doc_ids@[i] < target
        &&& (to.at(list) matches Some(p) ==> p.0 >= target)
    }

    /// A cursor on the first posting of the list of term `term`.
    pub fn new(term: usize) -> (r: BlockCursor)
        ensures
            r == (BlockCursor { term, block_idx: 0, in_block_idx: 0 }),
    {
        BlockCursor { term, block_idx: 0, in_block_idx: 0 }
    }

    /// The posting under the cursor, if any is left.
    pub fn current(&self, list: &PostingList) -> (r: Option<Posting>)
        requires
            list.wf(),
            self.wf(list),
        ensures
            r == self.at(list),
    {
        if self.block_idx >= list.blocks.len() {
            return None;
        }
        let block: &Block = &list.blocks[self.block_idx];
        let i = self.in_block_idx;
        Some((block.doc_ids[i], block.freqs[i], block.doc_lens[i]))
    }

    /// The document id under the cursor, if any is left.
    pub fn curr_doc_id(&self, list: &PostingList) -> (r: Option<u32>)
        requires
            list.wf(),
            self.wf(list),
        ensures
            r == (match self.at(list) {
                Some(p) => Some(p.0),
                None => None::<u32>,
            }),
    {
        match self.current(list) {
            Some(p) => Some(p.0),
            None => None,
        }
    }

    /// Moves to the next posting, entering the next block when this one is done.
    pub fn advance(&mut self, list: &PostingList)
        requires
            list.wf(),
            old(self).wf(list),
        ensures
            old(self).moved_on(*final(self), list),
            final(self).wf(list),
    {
        if self.block_idx >= list.blocks.len() {
            return;
        }
        if self.in_block_idx < list.blocks[self.block_idx].doc_ids.len() - 1 {
            self.in_block_idx = self.in_block_idx + 1;
        } else {
            self.block_idx = self.block_idx + 1;
            self.in_block_idx = 0;
        }
    }
}

/// In a list in document order, moving a cursor on reaches a larger document id.
pub proof fn lemma_next_larger(c: BlockCursor, list: &PostingList)
    requires
        list.wf(),
        c.wf(list),
        c.at(list) is Some,
    ensures
        forall|n: BlockCursor|
            c.moved_on(n, list) ==> (#[trigger] n.at(list) matches Some(q) ==> q.0 > (c.at(list)->0).0),
{
    let b = c.block_idx as int;
    let blk = list.blocks@[b];
    let i = c.in_block_idx as int;
    assert(blk.wf() && blk.ascending());
    assert((c.at(list)->0).0 == blk.doc_ids@[i]);
    if i + 1 < blk.len() {
        assert(blk.doc_ids@[i] < blk.doc_ids@[i + 1]);
        assert(blk.postings()[i + 1].0 == blk.doc_ids@[i + 1]);
    } else if b + 1 < list.blocks@.len() {
        let nb = list.blocks@[b + 1];
        assert(nb.wf());
        assert(i == blk.len() - 1);
        assert(blk.last_doc_id < nb.doc_ids@[0]);
        assert(nb.postings()[0].0 == nb.doc_ids@[0]);
    }
}

impl BlockCursor {
    /// Moves to the first posting at or above `target`, skipping every block
    /// whose last document id is below it without looking inside.
    pub fn seek(&mut self, list: &PostingList, target: u32)
        requires
            list.wf(),
            old(self).wf(list),
        ensures
            old(self).seek_post(*final(self), list, target),
    {
        let ghost start = *self;
        let n = list.blocks.len();
        while self.block_idx < n && list.blocks[self.block_idx].last_doc_id < target
            invariant
                n == list.blocks@.len(),
                list.wf(),
                self.wf(list),
                self.term == start.term,
                self.block_idx > start.block_idx || *self == start,
                forall|b: int, i: int|
                    0 <= b < list.blocks@.len() && 0 <= i < list.blocks@[b].doc_ids@.len()
                        && start.passes(*self, b, i) ==> #[trigger] list.blocks@[b].doc_ids@[i] < target,
            decreases n - self.block_idx,
        {
            let ghost cur = *self;
            let ghost blk = list.blocks@[cur.block_idx as int];
            self.block_idx = self.block_idx + 1;
            self.in_block_idx = 0;
            proof {
                assert forall|b: int, i: int|
                    0 <= b < list.blocks@.len() && 0 <= i < list.blocks@[b].doc_ids@.len()
                        && start.passes(*self, b, i) implies #[trigger] list.blocks@[b].doc_ids@[i] < target by {
                    if b == cur.block_idx {
                        assert(blk.wf() && blk.ascending());
                        if i < blk.doc_ids@.len() - 1 {
                            assert(blk.doc_ids@[i] < blk.doc_ids@[blk.doc_ids@.len() - 1]);
                        }
                    } else {
                        assert(start.passes(cur, b, i));
                    }
                }
            }
        }
        if self.block_idx < n {
            let block = &list.blocks[self.block_idx];
            let len = block.doc_ids.len();
            while block.doc_ids[self.in_block_idx] < target
                invariant
                    n == list.blocks@.len(),
                    list.wf(),
                    self.block_idx < n,
                    *block == list.blocks@[self.block_idx as int],
                    len == block.doc_ids@.len(),
                    block.wf(),
                    block.last_doc_id >= target,
                    self.in_block_idx < len,
                    self.term == start.term,
                    self.block_idx > start.block_idx || (self.block_idx == start.block_idx
                        && self.in_block_idx >= start.in_block_idx),
                    forall|b: int, i: int|
                        0 <= b < list.blocks@.len() && 0 <= i < list.blocks@[b].doc_ids@.len()
                            && start.passes(*self, b, i) ==> #[trigger] list.blocks@[b].doc_ids@[i] < target,
                decreases len - self.in_block_idx,
            {
                let ghost cur = *self;
                self.in_block_idx = self.in_block_idx + 1;
                proof {
                    assert forall|b: int, i: int|
                        0 <= b < list.blocks@.len() && 0 <= i < list.blocks@[b].doc_ids@.len()
                            && start.passes(*self, b, i) implies #[trigger] list.blocks@[b].doc_ids@[i] < target by {
                        if !start.passes(cur, b, i) {
                            assert(b == cur.block_idx && i == cur.in_block_idx);
                        }
                    }
                }
            }
        }
    }
}

} // verus!
