use vstd::prelude::*;

verus! {

/// Number of postings a block holds at most.
pub const BLOCK_SIZE: usize = 128;

/// One posting: internal document id, term frequency, document length.
pub type Posting = (u32, u32, u32);

/// How often `t` occurs in `toks`.
pub open spec fn count_in(toks: Seq<Seq<char>>, t: Seq<char>) -> nat
    decreases toks.len(),
{
    if toks.len() == 0 {
        0
    } else {
        count_in(toks.drop_last(), t) + if toks.last() == t { 1nat } else { 0nat }
    }
}

/// The postings of term `t` over the tokenized corpus `docs`, ascending by document id.
pub open spec fn postings_of(docs: Seq<Seq<Seq<char>>>, t: Seq<char>) -> Seq<Posting>
    decreases docs.len(),
{
    if docs.len() == 0 {
        seq![]
    } else {
        let prev = postings_of(docs.drop_last(), t);
        let c = count_in(docs.last(), t);
        if c > 0 {
            prev.push(((docs.len() - 1) as u32, c as u32, docs.last().len() as u32))
        } else {
            prev
        }
    }
}

/// The `j`-th chunk of `BLOCK_SIZE` postings of `p`.
pub open spec fn chunk(p: Seq<Posting>, j: int) -> Seq<Posting> {
    let lo = j * BLOCK_SIZE;
    let hi = if lo + BLOCK_SIZE < p.len() { lo + BLOCK_SIZE } else { p.len() as int };
    p.subrange(lo, hi)
}

/// Number of blocks that `n` postings fill.
pub open spec fn num_blocks(n: nat) -> nat {
    ((n + BLOCK_SIZE - 1) as nat / BLOCK_SIZE as nat) as nat
}

/// The tokens of each document, as character sequences.
pub open spec fn docs_view(docs: Seq<Vec<String>>) -> Seq<Seq<Seq<char>>> {
    docs.map_values(|d: Vec<String>| d@.map_values(|s: String| s@))
}

/// A segment of a posting list, held as parallel arrays aligned by index.
pub struct Block {
    pub last_doc_id: u32,
    pub doc_ids: Vec<u32>,
    pub freqs: Vec<u32>,
    pub doc_lens: Vec<u32>,
}

impl Block {
    pub open spec fn len(&self) -> nat {
        self.doc_ids@.len()
    }

    pub open spec fn wf(&self) -> bool {
        &&& self.freqs@.len() == self.doc_ids@.len()
        &&& self.doc_lens@.len() == self.doc_ids@.len()
        &&& self.doc_ids@.len() > 0
        &&& self.last_doc_id == self.doc_ids@.last()
    }

    pub open spec fn postings(&self) -> Seq<Posting> {
        Seq::new(self.doc_ids@.len(), |i: int| (self.doc_ids@[i], self.freqs@[i], self.doc_lens@[i]))
    }
}

/// The blocks of one term, and how many documents hold the term.
pub struct PostingList {
    pub blocks: Vec<Block>,
    pub doc_count: usize,
}

impl PostingList {
    /// The list holds exactly the postings `p`, cut into blocks of `BLOCK_SIZE`.
    pub open spec fn holds(&self, p: Seq<Posting>) -> bool {
        &&& self.doc_count == p.len()
        &&& self.blocks@.len() == num_blocks(p.len())
        &&& forall|j: int|
            0 <= j < self.blocks@.len() ==> {
                &&& (#[trigger] self.blocks@[j]).wf()
                &&& self.blocks@[j].postings() == chunk(p, j)
            }
    }
}

/// The inverted index: distinct terms, each with its posting list.
pub struct Index {
    pub terms: Vec<String>,
    pub lists: Vec<PostingList>,
}

impl Index {
    /// The index is the one built from the tokenized corpus `docs`.
    pub open spec fn built_from(&self, docs: Seq<Seq<Seq<char>>>) -> bool {
        &&& self.terms@.len() == self.lists@.len()
        &&& forall|i: int, j: int|
            0 <= i < j < self.terms@.len() ==> self.terms@[i]@ != self.terms@[j]@
        &&& forall|i: int|
            0 <= i < self.terms@.len() ==> (#[trigger] self.lists@[i]).holds(
                postings_of(docs, self.terms@[i]@),
            )
        &&& forall|t: Seq<char>|
            #![trigger postings_of(docs, t)]
            postings_of(docs, t).len() > 0 <==> exists|i: int|
                0 <= i < self.terms@.len() && self.terms@[i]@ == t
    }
}

/// Postings of `t` after the documents before `d` and the first `k` tokens of document `d`.
pub open spec fn postings_upto(docs: Seq<Seq<Seq<char>>>, d: int, k: int, t: Seq<char>) -> Seq<
    Posting,
> {
    let prev = postings_of(docs.take(d), t);
    let c = count_in(docs[d].take(k), t);
    if c > 0 {
        prev.push((d as u32, c as u32, docs[d].len() as u32))
    } else {
        prev
    }
}

proof fn lemma_count_le(toks: Seq<Seq<char>>, t: Seq<char>)
    ensures
        count_in(toks, t) <= toks.len(),
    decreases toks.len(),
{
    if toks.len() > 0 {
        lemma_count_le(toks.drop_last(), t);
    }
}

proof fn lemma_postings_before(docs: Seq<Seq<Seq<char>>>, t: Seq<char>)
    requires
        docs.len() <= u32::MAX + 1,
    ensures
        forall|i: int|
            0 <= i < postings_of(docs, t).len() ==> (#[trigger] postings_of(docs, t)[i]).0
                < docs.len(),
    decreases docs.len(),
{
    if docs.len() > 0 {
        lemma_postings_before(docs.drop_last(), t);
        let prev = postings_of(docs.drop_last(), t);
        assert forall|i: int|
            0 <= i < postings_of(docs, t).len() implies (#[trigger] postings_of(docs, t)[i]).0
                < docs.len() by {
            if i < prev.len() {
                assert(postings_of(docs, t)[i] == prev[i]);
            }
        }
    }
}

/// A list holding `p` has one full block of `BLOCK_SIZE` postings for each
/// whole `BLOCK_SIZE` of them, and the rest, if any, in one last block.
pub proof fn lemma_block_sizes(l: PostingList, p: Seq<Posting>)
    requires
        l.holds(p),
    ensures
        forall|j: int|
            0 <= j < l.blocks@.len() ==> (#[trigger] l.blocks@[j]).len() == if (j + 1) * BLOCK_SIZE
                <= p.len() {
                BLOCK_SIZE as int
            } else {
                p.len() - j * BLOCK_SIZE
            },
{
    assert forall|j: int| 0 <= j < l.blocks@.len() implies (#[trigger] l.blocks@[j]).len() == if (j
        + 1) * BLOCK_SIZE <= p.len() {
        BLOCK_SIZE as int
    } else {
        p.len() - j * BLOCK_SIZE
    } by {
        assert(l.blocks@[j].postings().len() == l.blocks@[j].len());
        assert(j * BLOCK_SIZE < p.len()) by (nonlinear_arith)
            requires
                0 <= j < l.blocks@.len(),
                l.blocks@.len() == num_blocks(p.len()),
        ;
        assert((j + 1) * BLOCK_SIZE == j * BLOCK_SIZE + BLOCK_SIZE) by (nonlinear_arith);
    }
}

/// Each posting list of an index built from `docs` lies in document order,
/// with ids below the number of documents.
pub proof fn lemma_postings_ordered(docs: Seq<Seq<Seq<char>>>, t: Seq<char>)
    requires
        docs.len() <= u32::MAX + 1,
    ensures
        forall|i: int|
            0 <= i < postings_of(docs, t).len() ==> (#[trigger] postings_of(docs, t)[i]).0
                < docs.len(),
        forall|i: int, j: int|
            0 <= i < j < postings_of(docs, t).len() ==> (#[trigger] postings_of(docs, t)[i]).0
                < (#[trigger] postings_of(docs, t)[j]).0,
    decreases docs.len(),
{
    lemma_postings_before(docs, t);
    if docs.len() > 0 {
        lemma_postings_ordered(docs.drop_last(), t);
        let prev = postings_of(docs.drop_last(), t);
        assert forall|i: int, j: int|
            0 <= i < j < postings_of(docs, t).len() implies (#[trigger] postings_of(docs, t)[i]).0
                < (#[trigger] postings_of(docs, t)[j]).0 by {
            assert(postings_of(docs, t)[i] == prev[i]);
            if j < prev.len() {
                assert(postings_of(docs, t)[j] == prev[j]);
            }
        }
    }
}

/// Index of the term equal to `x`, if any.
pub(crate) fn find_term(terms: &Vec<String>, x: &String) -> (r: Option<usize>)
    ensures
        r matches Some(j) ==> j < terms@.len() && terms@[j as int]@ == x@,
        r is None ==> forall|j: int| 0 <= j < terms@.len() ==> terms@[j]@ != x@,
{
    let mut i: usize = 0;
    while i < terms.len()
        invariant
            i <= terms@.len(),
            forall|j: int| 0 <= j < i ==> terms@[j]@ != x@,
        decreases terms@.len() - i,
    {
        if terms[i] == *x {
            return Some(i);
        }
        i += 1;
    }
    None
}


/// Gathers, for every distinct term of the corpus, its postings in document order.
fn collect_postings(docs: &Vec<Vec<String>>) -> (r: (Vec<String>, Vec<Vec<Posting>>))
    requires
        docs@.len() <= u32::MAX,
        forall|d: int| 0 <= d < docs@.len() ==> (#[trigger] docs@[d])@.len() <= u32::MAX,
    ensures
        r.0@.len() == r.1@.len(),
        forall|i: int, j: int| 0 <= i < j < r.0@.len() ==> r.0@[i]@ != r.0@[j]@,
        forall|i: int|
            0 <= i < r.0@.len() ==> (#[trigger] r.1@[i])@ == postings_of(
                docs_view(docs@),
                r.0@[i]@,
            ),
        forall|t: Seq<char>|
            #![trigger postings_of(docs_view(docs@), t)]
            postings_of(docs_view(docs@), t).len() > 0 <==> exists|i: int|
                0 <= i < r.0@.len() && r.0@[i]@ == t,
{
    let ghost dv = docs_view(docs@);
    let mut terms: Vec<String> = Vec::new();
    let mut acc: Vec<Vec<Posting>> = Vec::new();
    let mut d: usize = 0;
    proof {
        assert(dv.take(0) =~= seq![]);
    }
    while d < docs.len()
        invariant
            dv == docs_view(docs@),
            dv.len() == docs@.len(),
            docs@.len() <= u32::MAX,
            forall|e: int| 0 <= e < docs@.len() ==> (#[trigger] docs@[e])@.len() <= u32::MAX,
            d <= docs@.len(),
            terms@.len() == acc@.len(),
            forall|i: int, j: int| 0 <= i < j < terms@.len() ==> terms@[i]@ != terms@[j]@,
            forall|i: int|
                0 <= i < terms@.len() ==> (#[trigger] acc@[i])@ == postings_of(
                    dv.take(d as int),
                    terms@[i]@,
                ),
            forall|t: Seq<char>|
                #![trigger postings_of(dv.take(d as int), t)]
                postings_of(dv.take(d as int), t).len() > 0 <==> exists|i: int|
                    0 <= i < terms@.len() && terms@[i]@ == t,
        decreases docs@.len() - d,
    {
        let doc = &docs[d];
        let n = doc.len();
        let ghost toks = dv[d as int];
        assert(toks == doc@.map_values(|s: String| s@));
        let mut k: usize = 0;
        proof {
            assert forall|t: Seq<char>| #[trigger]
                postings_upto(dv, d as int, 0, t) == postings_of(dv.take(d as int), t) by {
                assert(toks.take(0) =~= seq![]);
            }
        }
        while k < n
            invariant
                dv == docs_view(docs@),
                dv.len() == docs@.len(),
                d < docs@.len(),
                d <= u32::MAX,
                doc == docs@[d as int],
                toks == dv[d as int],
                toks == doc@.map_values(|s: String| s@),
                n == toks.len(),
                n <= u32::MAX,
                k <= n,
                terms@.len() == acc@.len(),
                forall|i: int, j: int| 0 <= i < j < terms@.len() ==> terms@[i]@ != terms@[j]@,
                forall|i: int|
                    0 <= i < terms@.len() ==> (#[trigger] acc@[i])@ == postings_upto(
                        dv,
                        d as int,
                        k as int,
                        terms@[i]@,
                    ),
                forall|t: Seq<char>|
                    #![trigger postings_upto(dv, d as int, k as int, t)]
                    postings_upto(dv, d as int, k as int, t).len() > 0 <==> exists|i: int|
                        0 <= i < terms@.len() && terms@[i]@ == t,
            decreases n - k,
        {
            let x = &doc[k];
            let ghost xs = x@;
            assert(toks[k as int] == xs);
            proof {
                assert forall|t: Seq<char>|
                    count_in(#[trigger] toks.take(k + 1), t) == count_in(toks.take(k as int), t) + if xs == t { 1nat } else { 0nat } by {
                    assert(toks.take(k + 1).drop_last() =~= toks.take(k as int));
                }
                lemma_count_le(toks.take(k as int), xs);
            }
            let ghost old_terms = terms@;
            let ghost old_acc = acc@;
            let found = find_term(&terms, x);
            let j: usize = match found {
                Some(j) => j,
                None => {
                    terms.push(x.clone());
                    acc.push(Vec::new());
                    proof {
                        assert(postings_upto(dv, d as int, k as int, xs).len() == 0);
                        assert(count_in(toks.take(k as int), xs) == 0);
                    }
                    terms.len() - 1
                },
            };
            assert(terms@[j as int]@ == xs);
            let mut cur: Vec<Posting> = Vec::new();
            acc.set_and_swap(j, &mut cur);
            let ghost prev = postings_of(dv.take(d as int), xs);
            let ghost c_old = count_in(toks.take(k as int), xs);
            proof {
                lemma_postings_before(dv.take(d as int), xs);
            }
            assert(cur@ == postings_upto(dv, d as int, k as int, xs));
            let m = cur.len();
            if m > 0 && cur[m - 1].0 == d as u32 {
                assert(c_old > 0) by {
                    if c_old == 0 {
                        assert(cur@ == prev);
                        assert(prev[m - 1].0 < d);
                    }
                }
                let last = cur[m - 1];
                cur.set(m - 1, (last.0, last.1 + 1, last.2));
                assert(cur@ =~= prev.push((d as u32, (c_old + 1) as u32, n as u32)));
            } else {
                assert(c_old == 0);
                cur.push((d as u32, 1, n as u32));
                assert(cur@ =~= prev.push((d as u32, 1u32, n as u32)));
            }
            assert(cur@ == postings_upto(dv, d as int, k + 1, xs));
            acc.set_and_swap(j, &mut cur);
            proof {
                assert forall|i: int| 0 <= i < terms@.len() implies (#[trigger] acc@[i])@
                    == postings_upto(dv, d as int, k + 1, terms@[i]@) by {
                    if i != j {
                        assert(terms@[i]@ != xs);
                        assert(old_acc[i] == acc@[i]);
                    }
                }
                assert forall|t: Seq<char>|
                    #[trigger] postings_upto(dv, d as int, k + 1, t).len() > 0 <==> exists|i: int|
                        0 <= i < terms@.len() && terms@[i]@ == t by {
                    if t == xs {
                        assert(terms@[j as int]@ == t);
                    } else {
                        assert(postings_upto(dv, d as int, k + 1, t) == postings_upto(dv, d as int, k as int, t));
                        if exists|i: int| 0 <= i < terms@.len() && terms@[i]@ == t {
                            let i = choose|i: int| 0 <= i < terms@.len() && terms@[i]@ == t;
                            assert(i < old_terms.len());
                            assert(old_terms[i] == terms@[i]);
                        }
                        if exists|i: int| 0 <= i < old_terms.len() && old_terms[i]@ == t {
                            let i = choose|i: int| 0 <= i < old_terms.len() && old_terms[i]@ == t;
                            assert(old_terms[i] == terms@[i]);
                        }
                    }
                }
            }
            k += 1;
        }
        proof {
            assert(dv.take(d + 1).drop_last() =~= dv.take(d as int));
            assert(dv.take(d + 1).last() == toks);
            assert(toks.take(n as int) =~= toks);
            assert forall|t: Seq<char>| #[trigger] postings_of(dv.take(d + 1), t) == postings_upto(dv, d as int, n as int, t) by {
            }
        }
        d += 1;
    }
    proof {
        assert(dv.take(docs@.len() as int) =~= dv);
    }
    (terms, acc)
}


/// Cuts `p` into consecutive blocks of at most `BLOCK_SIZE` postings.
fn make_list(p: &Vec<Posting>) -> (r: PostingList)
    ensures
        r.holds(p@),
{
    let n = p.len();
    let mut blocks: Vec<Block> = Vec::new();
    let mut lo: usize = 0;
    while lo < n
        invariant
            n == p@.len(),
            lo <= n,
            lo < n ==> lo == blocks@.len() * BLOCK_SIZE,
            lo < n ==> blocks@.len() < num_blocks(n as nat),
            lo >= n ==> blocks@.len() == num_blocks(n as nat),
            forall|j: int|
                0 <= j < blocks@.len() ==> {
                    &&& (#[trigger] blocks@[j]).wf()
                    &&& blocks@[j].postings() == chunk(p@, j)
                },
        decreases n - lo,
    {
        let hi: usize = if n - lo > BLOCK_SIZE { lo + BLOCK_SIZE } else { n };
        let mut doc_ids: Vec<u32> = Vec::with_capacity(hi - lo);
        let mut freqs: Vec<u32> = Vec::with_capacity(hi - lo);
        let mut doc_lens: Vec<u32> = Vec::with_capacity(hi - lo);
        let mut i: usize = lo;
        while i < hi
            invariant
                lo <= i <= hi <= n,
                n == p@.len(),
                doc_ids@.len() == i - lo,
                freqs@.len() == i - lo,
                doc_lens@.len() == i - lo,
                forall|q: int|
                    0 <= q < i - lo ==> (doc_ids@[q], freqs@[q], doc_lens@[q]) == #[trigger] p@[lo
                        + q],
            decreases hi - i,
        {
            let e = p[i];
            doc_ids.push(e.0);
            freqs.push(e.1);
            doc_lens.push(e.2);
            i += 1;
        }
        let ghost (di, fr, dl) = (doc_ids@, freqs@, doc_lens@);
        let block = Block { last_doc_id: doc_ids[hi - lo - 1], doc_ids, freqs, doc_lens };
        let ghost j = blocks@.len() as int;
        assert(j * BLOCK_SIZE == lo);
        assert(chunk(p@, j) == p@.subrange(lo as int, hi as int));
        assert forall|q: int| 0 <= q < hi - lo implies #[trigger] block.postings()[q] == p@.subrange(
            lo as int,
            hi as int,
        )[q] by {
            assert(p@[lo + q] == (di[q], fr[q], dl[q]));
        }
        assert(block.postings() =~= p@.subrange(lo as int, hi as int));
        blocks.push(block);
        proof {
            assert(blocks@[j] == block);
            if hi < n {
                assert(blocks@.len() < num_blocks(n as nat)) by (nonlinear_arith)
                    requires
                        hi == lo + BLOCK_SIZE,
                        hi < n,
                        hi == blocks@.len() * BLOCK_SIZE,
                        lo == j * BLOCK_SIZE,
                        blocks@.len() == j + 1,
                ;
            } else {
                assert(blocks@.len() == num_blocks(n as nat)) by (nonlinear_arith)
                    requires
                        hi == n,
                        n - lo <= BLOCK_SIZE,
                        lo < n,
                        lo == j * BLOCK_SIZE,
                        blocks@.len() == j + 1,
                ;
            }
        }
        lo = hi;
    }
    PostingList { blocks, doc_count: n }
}

/// Builds the inverted index of a tokenized corpus: each distinct term with
/// its postings in document order, cut into blocks of `BLOCK_SIZE`.
pub fn build_index(docs: &Vec<Vec<String>>) -> (r: Index)
    requires
        docs@.len() <= u32::MAX,
        forall|d: int| 0 <= d < docs@.len() ==> (#[trigger] docs@[d])@.len() <= u32::MAX,
    ensures
        r.built_from(docs_view(docs@)),
{
    let (terms, acc) = collect_postings(docs);
    let mut lists: Vec<PostingList> = Vec::new();
    let mut i: usize = 0;
    while i < acc.len()
        invariant
            i <= acc@.len(),
            lists@.len() == i,
            forall|q: int| 0 <= q < i ==> (#[trigger] lists@[q]).holds(acc@[q]@),
        decreases acc@.len() - i,
    {
        lists.push(make_list(&acc[i]));
        i += 1;
    }
    Index { terms, lists }
}

} // verus!
