use vstd::prelude::*;
use crate::cursor::{lemma_next_larger, BlockCursor};
use crate::index::PostingList;

verus! {

/// One query term found in a candidate document: the cursor's position among
/// the query's cursors, the term frequency, and the document length.
pub type Hit = (usize, u32, u32);

/// A document met by at least one cursor, with every term found in it.
pub struct Candidate {
    pub doc_id: u32,
    pub hits: Vec<Hit>,
}

/// Every cursor names a list of `lists` and stands well inside it.
pub open spec fn cursors_wf(cs: Seq<BlockCursor>, lists: Seq<PostingList>) -> bool {
    forall|i: int|
        0 <= i < cs.len() ==> {
            &&& (#[trigger] cs[i]).term < lists.len()
            &&& lists[cs[i].term as int].wf()
            &&& cs[i].wf(&lists[cs[i].term as int])
        }
}

/// The posting under cursor `c`.
pub open spec fn at_of(c: BlockCursor, lists: Seq<PostingList>) -> Option<(u32, u32, u32)> {
    c.at(&lists[c.term as int])
}

/// The smallest document id under any cursor of `cs`.
pub open spec fn min_live(cs: Seq<BlockCursor>, lists: Seq<PostingList>) -> Option<u32>
    decreases cs.len(),
{
    if cs.len() == 0 {
        None
    } else {
        let prev = min_live(cs.drop_last(), lists);
        match at_of(cs.last(), lists) {
            None => prev,
            Some(p) => match prev {
                Some(m) => if p.0 < m {
                    Some(p.0)
                } else {
                    Some(m)
                },
                None => Some(p.0),
            },
        }
    }
}

/// The cursors of `cs` that stand at document `doc`, in order, with what they hold.
pub open spec fn hits_at(cs: Seq<BlockCursor>, lists: Seq<PostingList>, doc: u32) -> Seq<Hit>
    decreases cs.len(),
{
    if cs.len() == 0 {
        seq![]
    } else {
        let prev = hits_at(cs.drop_last(), lists, doc);
        match at_of(cs.last(), lists) {
            Some(p) => if p.0 == doc {
                prev.push(((cs.len() - 1) as usize, p.1, p.2))
            } else {
                prev
            },
            None => prev,
        }
    }
}

/// `to` is cursor `c` after a candidate at `doc`: moved on if it stood
/// there, else unchanged.
pub open spec fn stepped_past(c: BlockCursor, to: BlockCursor, lists: Seq<PostingList>, doc: u32) -> bool {
    match at_of(c, lists) {
        Some(p) => if p.0 == doc {
            c.moved_on(to, &lists[c.term as int])
        } else {
            to == c
        },
        None => to == c,
    }
}

/// The next candidate of a merge over the cursors: the smallest document id
/// under any of them, with every cursor standing there. Those cursors move
/// on by one posting; the others stay. `None` once every cursor is done.
pub fn next_candidate(lists: &Vec<PostingList>, cursors: &mut Vec<BlockCursor>) -> (r: Option<
    Candidate,
>)
    requires
        cursors_wf(old(cursors)@, lists@),
    ensures
        cursors_wf(final(cursors)@, lists@),
        r is None <==> min_live(old(cursors)@, lists@) is None,
        r matches Some(c) ==> {
            &&& min_live(old(cursors)@, lists@) == Some(c.doc_id)
            &&& c.hits@ == hits_at(old(cursors)@, lists@, c.doc_id)
            &&& final(cursors)@.len() == old(cursors)@.len()
            &&& forall|i: int|
                0 <= i < final(cursors)@.len() ==> stepped_past(
                    old(cursors)@[i],
                    #[trigger] final(cursors)@[i],
                    lists@,
                    c.doc_id,
                )
        },
        r is None ==> final(cursors)@ == old(cursors)@,
{
    let n = cursors.len();
    let mut best: Option<u32> = None;
    let mut i: usize = 0;
    while i < n
        invariant
            n == cursors@.len(),
            i <= n,
            cursors_wf(cursors@, lists@),
            best == min_live(cursors@.take(i as int), lists@),
        decreases n - i,
    {
        let c = cursors[i];
        assert(cursors@.take(i + 1).drop_last() =~= cursors@.take(i as int));
        assert(cursors@.take(i + 1).last() == c);
        match c.curr_doc_id(&lists[c.term]) {
            Some(d) => {
                match best {
                    Some(m) => {
                        if d < m {
                            best = Some(d);
                        }
                    },
                    None => {
                        best = Some(d);
                    },
                }
            },
            None => {},
        }
        i += 1;
    }
    assert(cursors@.take(n as int) =~= cursors@);
    let doc = match best {
        Some(m) => m,
        None => {
            return None;
        },
    };
    let ghost old_cs = cursors@;
    let mut hits: Vec<Hit> = Vec::new();
    let mut i: usize = 0;
    while i < n
        invariant
            n == cursors@.len(),
            n == old_cs.len(),
            i <= n,
            cursors_wf(old_cs, lists@),
            cursors_wf(cursors@, lists@),
            hits@ == hits_at(old_cs.take(i as int), lists@, doc),
            forall|j: int| 0 <= j < i ==> stepped_past(old_cs[j], #[trigger] cursors@[j], lists@, doc),
            forall|j: int| i <= j < n ==> #[trigger] cursors@[j] == old_cs[j],
        decreases n - i,
    {
        let c = cursors[i];
        assert(old_cs.take(i + 1).drop_last() =~= old_cs.take(i as int));
        assert(old_cs.take(i + 1).last() == c);
        let list = &lists[c.term];
        match c.current(list) {
            Some(p) => {
                if p.0 == doc {
                    hits.push((i, p.1, p.2));
                    let mut moved = c;
                    moved.advance(list);
                    cursors.set(i, moved);
                }
            },
            None => {},
        }
        i += 1;
    }
    assert(old_cs.take(n as int) =~= old_cs);
    Some(Candidate { doc_id: doc, hits })
}

/// No cursor of `cs` stands below the smallest live document id.
pub proof fn lemma_min_live_is_min(cs: Seq<BlockCursor>, lists: Seq<PostingList>)
    ensures
        min_live(cs, lists) is None <==> forall|i: int|
            0 <= i < cs.len() ==> (#[trigger] at_of(cs[i], lists)) is None,
        min_live(cs, lists) matches Some(m) ==> forall|i: int|
            0 <= i < cs.len() ==> (#[trigger] at_of(cs[i], lists) matches Some(p) ==> p.0 >= m),
    decreases cs.len(),
{
    if cs.len() > 0 {
        let prev = cs.drop_last();
        lemma_min_live_is_min(prev, lists);
        assert forall|i: int| 0 <= i < cs.len() - 1 implies cs[i] == prev[i] by {}
        if min_live(cs, lists) is None {
            assert forall|i: int| 0 <= i < cs.len() implies (#[trigger] at_of(cs[i], lists)) is None by {
                if i < cs.len() - 1 {
                    assert(at_of(prev[i], lists) is None);
                }
            }
        }
    }
}

/// Candidates come out in strictly ascending document order: after the
/// step that yields document `d`, every cursor that still holds postings
/// stands above `d`. So a merge offers each document at most once, in
/// ascending order, as the top-K selector's law asks.
pub proof fn lemma_candidates_ascend(
    lists: Seq<PostingList>,
    old: Seq<BlockCursor>,
    new: Seq<BlockCursor>,
    d: u32,
)
    requires
        cursors_wf(old, lists),
        min_live(old, lists) == Some(d),
        new.len() == old.len(),
        forall|i: int| 0 <= i < new.len() ==> stepped_past(old[i], #[trigger] new[i], lists, d),
    ensures
        forall|i: int|
            0 <= i < new.len() ==> (#[trigger] at_of(new[i], lists) matches Some(p) ==> p.0 > d),
{
    lemma_min_live_is_min(old, lists);
    assert forall|i: int| 0 <= i < new.len() implies (#[trigger] at_of(new[i], lists) matches Some(p)
        ==> p.0 > d) by {
        let c = old[i];
        assert(cursors_wf(old, lists) ==> c.term < lists.len());
        if at_of(c, lists) is Some {
            assert((at_of(c, lists)->0).0 >= d);
            if (at_of(c, lists)->0).0 == d {
                lemma_next_larger(c, &lists[c.term as int]);
                assert(c.moved_on(new[i], &lists[c.term as int]));
                assert(new[i].term == c.term);
            }
        }
    }
}

/// The cursors that still hold postings, as (current document id, cursor
/// position), ascending by document id.
#[verifier::rlimit(40)]
pub fn live_by_doc(lists: &Vec<PostingList>, cursors: &Vec<BlockCursor>) -> (r: Vec<(u32, usize)>)
    requires
        cursors_wf(cursors@, lists@),
    ensures
        forall|a: int, b: int| 0 <= a < b < r@.len() ==> (#[trigger] r@[a]).0 <= (#[trigger] r@[b]).0,
        forall|a: int, b: int| 0 <= a < b < r@.len() ==> (#[trigger] r@[a]).1 != (#[trigger] r@[b]).1,
        forall|a: int|
            0 <= a < r@.len() ==> (#[trigger] r@[a]).1 < cursors@.len() && (at_of(
                cursors@[r@[a].1 as int],
                lists@,
            ) matches Some(p) && p.0 == r@[a].0),
        forall|i: int|
            0 <= i < cursors@.len() && (#[trigger] at_of(cursors@[i], lists@)) is Some ==> exists|a: int|
                0 <= a < r@.len() && r@[a].1 == i,
{
    let mut out: Vec<(u32, usize)> = Vec::new();
    let n = cursors.len();
    let mut i: usize = 0;
    while i < n
        invariant
            n == cursors@.len(),
            i <= n,
            cursors_wf(cursors@, lists@),
            forall|a: int, b: int| 0 <= a < b < out@.len() ==> (#[trigger] out@[a]).0 <= (#[trigger] out@[b]).0,
            forall|a: int, b: int| 0 <= a < b < out@.len() ==> (#[trigger] out@[a]).1 != (#[trigger] out@[b]).1,
            forall|a: int|
                0 <= a < out@.len() ==> (#[trigger] out@[a]).1 < i && (at_of(
                    cursors@[out@[a].1 as int],
                    lists@,
                ) matches Some(p) && p.0 == out@[a].0),
            forall|j: int|
                0 <= j < i && (#[trigger] at_of(cursors@[j], lists@)) is Some ==> exists|a: int|
                    0 <= a < out@.len() && out@[a].1 == j,
        decreases n - i,
    {
        let c = cursors[i];
        if let Some(d) = c.curr_doc_id(&lists[c.term]) {
            let mut p: usize = 0;
            while p < out.len() && out[p].0 <= d
                invariant
                    p <= out@.len(),
                    forall|q: int| 0 <= q < p ==> (#[trigger] out@[q]).0 <= d,
                decreases out@.len() - p,
            {
                p += 1;
            }
            let ghost before = out@;
            out.insert(p, (d, i));
            proof {
                assert forall|a: int, b: int| 0 <= a < b < out@.len() implies (#[trigger] out@[a]).0
                    <= (#[trigger] out@[b]).0 by {
                    if b < p {
                    } else if b == p {
                        assert(before[a].0 <= d);
                    } else if a == p {
                        assert(before[p as int].0 > d);
                        assert(before[p as int].0 <= before[b - 1].0 || p == b - 1);
                    } else if a < p {
                        assert(before[a].0 <= before[b - 1].0);
                    } else {
                        assert(before[a - 1].0 <= before[b - 1].0);
                    }
                }
                assert forall|a: int, b: int| 0 <= a < b < out@.len() implies (#[trigger] out@[a]).1
                    != (#[trigger] out@[b]).1 by {
                    if a == p {
                        assert(before[b - 1].1 < i);
                    } else if b == p {
                        assert(before[a].1 < i);
                    } else if a < p && b < p {
                    } else if a < p {
                        assert(out@[b] == before[b - 1]);
                    } else {
                        assert(out@[a] == before[a - 1]);
                        assert(out@[b] == before[b - 1]);
                    }
                }
                assert forall|a: int| 0 <= a < out@.len() implies (#[trigger] out@[a]).1 < i + 1 && (at_of(
                    cursors@[out@[a].1 as int],
                    lists@,
                ) matches Some(p) && p.0 == out@[a].0) by {
                    if a < p {
                        assert(out@[a] == before[a]);
                    } else if a > p {
                        assert(out@[a] == before[a - 1]);
                    }
                }
                assert forall|j: int|
                    0 <= j < i + 1 && (#[trigger] at_of(cursors@[j], lists@)) is Some implies exists|a: int|
                        0 <= a < out@.len() && out@[a].1 == j by {
                    if j == i {
                        assert(out@[p as int].1 == j);
                    } else {
                        let a = choose|a: int| 0 <= a < before.len() && before[a].1 == j;
                        if a < p {
                            assert(out@[a].1 == j);
                        } else {
                            assert(out@[a + 1].1 == j);
                        }
                    }
                }
            }
        }
        i += 1;
    }
    out
}

/// Moves every cursor to its first posting at or above `target` (the pivot
/// of a pruning step); a cursor already there stays.
pub fn skip_to(lists: &Vec<PostingList>, cursors: &mut Vec<BlockCursor>, target: u32)
    requires
        cursors_wf(old(cursors)@, lists@),
    ensures
        cursors_wf(final(cursors)@, lists@),
        final(cursors)@.len() == old(cursors)@.len(),
        forall|i: int|
            0 <= i < final(cursors)@.len() ==> old(cursors)@[i].seek_post(
                #[trigger] final(cursors)@[i],
                &lists@[old(cursors)@[i].term as int],
                target,
            ),
{
    let ghost start = cursors@;
    let n = cursors.len();
    let mut i: usize = 0;
    while i < n
        invariant
            n == cursors@.len(),
            n == start.len(),
            i <= n,
            cursors_wf(start, lists@),
            cursors_wf(cursors@, lists@),
            forall|j: int|
                0 <= j < i ==> start[j].seek_post(
                    #[trigger] cursors@[j],
                    &lists@[start[j].term as int],
                    target,
                ),
            forall|j: int| i <= j < n ==> #[trigger] cursors@[j] == start[j],
        decreases n - i,
    {
        let mut c = cursors[i];
        c.seek(&lists[c.term], target);
        cursors.set(i, c);
        i += 1;
    }
}

} // verus!
