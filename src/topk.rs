use vstd::prelude::*;

verus! {

broadcast use vstd::seq_lib::group_to_multiset_ensures;

/// A scored document: an order key of its score (a larger key is a better
/// score) and its internal id.
pub type Scored = (u64, u32);

/// `a` may stand before `b` in a ranking: a better score, or an equal
/// score and a document id no larger.
pub open spec fn in_order(a: Scored, b: Scored) -> bool {
    a.0 > b.0 || (a.0 == b.0 && a.1 <= b.1)
}

/// Score descending, then document id ascending.
pub open spec fn ranked(s: Seq<Scored>) -> bool {
    forall|i: int, j: int| 0 <= i < j < s.len() ==> in_order(#[trigger] s[i], #[trigger] s[j])
}

/// Entry `w` is the weakest of `s`: the smallest score, and among those the
/// largest document id.
pub open spec fn is_weakest(s: Seq<Scored>, w: int) -> bool {
    &&& 0 <= w < s.len()
    &&& forall|j: int| 0 <= j < s.len() ==> in_order(#[trigger] s[j], s[w])
}

/// What offering `x` to a selector of capacity `k` holding `old` may leave:
/// while fewer than `k` are held `x` is added; after that `x` replaces the
/// weakest entry if its score is strictly better, and is dropped otherwise.
pub open spec fn offer_post(old: Seq<Scored>, k: nat, x: Scored, new: Seq<Scored>) -> bool {
    if old.len() < k {
        new == old.push(x)
    } else if k == 0 {
        new == old
    } else {
        exists|w: int|
            {
                &&& is_weakest(old, w)
                &&& new == if x.0 > old[w].0 {
                    old.update(w, x)
                } else {
                    old
                }
            }
    }
}

/// `e` holds the best `k` of the offered `s`: as many as `k` allows, all
/// of `s` when it fits, no document twice, and each one ranked before
/// every offered entry left out.
pub open spec fn is_top(e: Seq<Scored>, s: Seq<Scored>, k: nat) -> bool {
    &&& e.len() == if s.len() < k { s.len() } else { k }
    &&& forall|i: int| 0 <= i < e.len() ==> s.contains(#[trigger] e[i])
    &&& forall|i: int, j: int| 0 <= i < j < e.len() ==> (#[trigger] e[i]).1 != (#[trigger] e[j]).1
    &&& s.len() <= k ==> forall|y: Scored| s.contains(y) ==> e.contains(y)
    &&& forall|y: Scored, i: int|
        s.contains(y) && !e.contains(y) && 0 <= i < e.len() ==> #[trigger] in_order(e[i], y)
}

/// Offering documents in ascending id order keeps exactly the best K of
/// all offered so far: an empty selector holds the best of nothing, and if
/// `old` holds the best `k` of `s`, whatever an offer of a document with a
/// larger id than all of `s` leaves holds the best `k` of `s` with it.
pub proof fn lemma_offer_keeps_top(old: Seq<Scored>, k: nat, s: Seq<Scored>, x: Scored, new: Seq<Scored>)
    requires
        is_top(old, s, k),
        forall|i: int| 0 <= i < s.len() ==> (#[trigger] s[i]).1 < x.1,
        offer_post(old, k, x, new),
    ensures
        is_top(seq![], seq![], k),
        is_top(new, s.push(x), k),
{
    let t = s.push(x);
    assert forall|y: Scored| #[trigger] t.contains(y) implies s.contains(y) || y == x by {
        let i = choose|i: int| 0 <= i < t.len() && t[i] == y;
        if i < s.len() {
            assert(s[i] == y);
        }
    }
    assert(t[s.len() as int] == x);
    assert forall|y: Scored| #[trigger] s.contains(y) implies t.contains(y) && y.1 < x.1 by {
        let i = choose|i: int| 0 <= i < s.len() && s[i] == y;
        assert(t[i] == y);
    }
    assert forall|i: int| 0 <= i < old.len() implies (#[trigger] old[i]).1 < x.1 by {
        assert(s.contains(old[i]));
    }
    if old.len() < k {
        assert(new == old.push(x));
        assert(new[old.len() as int] == x);
        assert forall|i: int| 0 <= i < new.len() implies t.contains(#[trigger] new[i]) by {
            if i < old.len() {
                assert(new[i] == old[i]);
                assert(s.contains(old[i]));
            }
        }
        assert forall|y: Scored| t.contains(y) implies new.contains(y) by {
            if y != x {
                assert(s.contains(y));
                assert(old.contains(y));
                let i = choose|i: int| 0 <= i < old.len() && old[i] == y;
                assert(new[i] == y);
            }
        }
    } else if k == 0 {
    } else {
        let w = choose|w: int|
            {
                &&& is_weakest(old, w)
                &&& new == if x.0 > old[w].0 {
                    old.update(w, x)
                } else {
                    old
                }
            };
        assert(!old.contains(x)) by {
            if old.contains(x) {
                let i = choose|i: int| 0 <= i < old.len() && old[i] == x;
            }
        }
        if x.0 > old[w].0 {
            assert forall|i: int| 0 <= i < new.len() implies t.contains(#[trigger] new[i]) by {
                if i != w {
                    assert(s.contains(old[i]));
                }
            }
            assert forall|y: Scored, i: int|
                t.contains(y) && !new.contains(y) && 0 <= i < new.len() implies #[trigger] in_order(
                new[i],
                y,
            ) by {
                if y != x {
                    assert(s.contains(y));
                    if old.contains(y) {
                        let j = choose|j: int| 0 <= j < old.len() && old[j] == y;
                        if j != w {
                            assert(new[j] == y);
                        }
                        assert(in_order(old[i], old[w]));
                    } else {
                        assert(in_order(old[w], y));
                        assert(in_order(old[i], y));
                    }
                } else {
                    assert(new[w] == x);
                }
            }
        } else {
            assert forall|y: Scored, i: int|
                t.contains(y) && !new.contains(y) && 0 <= i < new.len() implies #[trigger] in_order(
                new[i],
                y,
            ) by {
                assert(in_order(old[i], old[w]));
                if y != x {
                    assert(s.contains(y));
                }
            }
        }
    }
}

/// The K best scored documents offered so far.
pub struct TopK {
    pub k: usize,
    pub entries: Vec<Scored>,
}

impl TopK {
    pub open spec fn wf(&self) -> bool {
        self.entries@.len() <= self.k
    }

    /// An empty selector of capacity `k`.
    pub fn new(k: usize) -> (r: TopK)
        ensures
            r.k == k,
            r.entries@ == Seq::<Scored>::empty(),
            r.wf(),
    {
        TopK { k, entries: Vec::new() }
    }

    /// Position of the weakest entry.
    fn weakest(&self) -> (w: usize)
        requires
            self.entries@.len() > 0,
        ensures
            is_weakest(self.entries@, w as int),
    {
        let mut w: usize = 0;
        let mut i: usize = 1;
        while i < self.entries.len()
            invariant
                0 <= w < i <= self.entries@.len(),
                forall|j: int| 0 <= j < i ==> in_order(#[trigger] self.entries@[j], self.entries@[w as int]),
            decreases self.entries@.len() - i,
        {
            if in_order_exec(self.entries[w], self.entries[i]) {
                w = i;
            }
            i += 1;
        }
        w
    }

    /// The score key a newcomer must beat once the selector is full.
    pub fn threshold(&self) -> (r: Option<u64>)
        requires
            self.wf(),
        ensures
            self.entries@.len() < self.k || self.k == 0 ==> r is None,
            self.entries@.len() == self.k && self.k > 0 ==> (r matches Some(t) && exists|w: int|
                is_weakest(self.entries@, w) && self.entries@[w].0 == t),
    {
        if self.entries.len() < self.k || self.k == 0 {
            None
        } else {
            let w = self.weakest();
            Some(self.entries[w].0)
        }
    }

    /// Offers a scored document. While fewer than `k` are held it is kept;
    /// after that it replaces the weakest entry only if its score is strictly
    /// better.
    pub fn offer(&mut self, key: u64, doc: u32)
        requires
            old(self).wf(),
        ensures
            final(self).wf(),
            final(self).k == old(self).k,
            offer_post(old(self).entries@, old(self).k as nat, (key, doc), final(self).entries@),
    {
        if self.entries.len() < self.k {
            self.entries.push((key, doc));
        } else if self.k > 0 {
            let w = self.weakest();
            if key > self.entries[w].0 {
                self.entries.set(w, (key, doc));
            }
        }
    }

    /// The held entries, best first: score descending, document id ascending.
    pub fn into_sorted_vec(self) -> (r: Vec<Scored>)
        ensures
            ranked(r@),
            r@.to_multiset() == self.entries@.to_multiset(),
    {
        let src = self.entries;
        let mut out: Vec<Scored> = Vec::new();
        let mut i: usize = 0;
        while i < src.len()
            invariant
                i <= src@.len(),
                ranked(out@),
                out@.to_multiset() == src@.take(i as int).to_multiset(),
            decreases src@.len() - i,
        {
            let e = src[i];
            let mut p: usize = 0;
            while p < out.len() && in_order_exec(out[p], e)
                invariant
                    p <= out@.len(),
                    forall|q: int| 0 <= q < p ==> in_order(#[trigger] out@[q], e),
                decreases out@.len() - p,
            {
                p += 1;
            }
            let ghost before = out@;
            out.insert(p, e);
            assert forall|a: int, b: int| 0 <= a < b < out@.len() implies in_order(
                #[trigger] out@[a],
                #[trigger] out@[b],
            ) by {
                if b < p {
                    assert(in_order(before[a], before[b]));
                } else if b == p {
                    assert(in_order(before[a], e));
                } else if a == p {
                    assert(in_order(e, before[p as int]));
                    assert(in_order(before[p as int], before[b - 1]) || p == b - 1);
                } else if a < p {
                    assert(in_order(before[a], before[b - 1]));
                } else {
                    assert(in_order(before[a - 1], before[b - 1]));
                }
            }
            assert(src@.take(i + 1) =~= src@.take(i as int).push(e));
            i += 1;
        }
        assert(src@.take(src@.len() as int) =~= src@);
        out
    }
}

/// Executable form of `in_order`.
pub fn in_order_exec(a: Scored, b: Scored) -> (r: bool)
    ensures
        r == in_order(a, b),
{
    a.0 > b.0 || (a.0 == b.0 && a.1 <= b.1)
}

} // verus!
