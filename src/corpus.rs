use vstd::prelude::*;
use crate::index::{build_index, chunk, docs_view, lemma_postings_ordered, num_blocks, postings_of, Index, BLOCK_SIZE};
use crate::tokenizer::{tokens_of, Tokenizer};

verus! {

/// Why a build was refused.
#[derive(Debug, Clone, Copy, PartialEq, Eq)]
pub enum BuildError {
    /// The id list and the document list differ in length.
    InvalidArgument,
    /// More documents than internal 32-bit ids can number.
    TooManyDocuments,
    /// A document with more tokens than a 32-bit length can count.
    DocumentTooLong,
}

/// The terms of each document of `documents`.
pub open spec fn corpus_tokens(documents: Seq<String>, fold: bool) -> Seq<Seq<Seq<char>>> {
    Seq::new(documents.len(), |d: int| tokens_of(documents[d]@, fold))
}

/// Sum of a sequence of lengths.
pub open spec fn total_of(lens: Seq<u32>) -> nat
    decreases lens.len(),
{
    if lens.len() == 0 {
        0
    } else {
        total_of(lens.drop_last()) + lens.last() as nat
    }
}

/// The external ids given to documents when none are supplied: their positions.
pub open spec fn default_ids(n: nat) -> Seq<u64> {
    Seq::new(n, |i: int| i as u64)
}

/// The indexed corpus: per-document lengths, external ids, and the inverted index.
pub struct Corpus {
    pub doc_lengths: Vec<u32>,
    pub doc_ids: Vec<u64>,
    pub total_length: u64,
    pub index: Index,
}

impl Corpus {
    pub open spec fn corpus_size(&self) -> nat {
        self.doc_ids@.len()
    }

    /// The corpus is the one built from `docs` under the external ids `ids`.
    pub open spec fn built_from(&self, docs: Seq<Seq<Seq<char>>>, ids: Seq<u64>) -> bool {
        &&& self.doc_ids@ == ids
        &&& self.doc_lengths@.len() == docs.len()
        &&& forall|d: int| 0 <= d < docs.len() ==> self.doc_lengths@[d] == (#[trigger] docs[d]).len()
        &&& self.total_length == total_of(self.doc_lengths@)
        &&& self.index.built_from(docs)
    }

    /// Lengths and ids cover the same documents, the index is well formed,
    /// and every posting names one of the documents.
    pub open spec fn wf(&self) -> bool {
        &&& self.doc_lengths@.len() == self.doc_ids@.len()
        &&& self.doc_ids@.len() <= u32::MAX
        &&& self.index.wf()
        &&& forall|i: int, j: int, q: int|
            0 <= i < self.index.lists@.len() && 0 <= j < self.index.lists@[i].blocks@.len() && 0
                <= q < self.index.lists@[i].blocks@[j].doc_ids@.len() ==> (#[trigger] self.index.lists@[i].blocks@[j].doc_ids@[q])
                < self.doc_ids@.len()
    }

    /// Whether the corpus is well formed: used on a corpus read back from storage.
    pub fn check_wf(&self) -> (r: bool)
        ensures
            r == self.wf(),
    {
        let n = self.doc_ids.len();
        if self.doc_lengths.len() != n || n > u32::MAX as usize || !self.index.check_wf() {
            return false;
        }
        let lists = &self.index.lists;
        let mut i: usize = 0;
        while i < lists.len()
            invariant
                *lists == self.index.lists,
                n == self.doc_ids@.len(),
                i <= lists@.len(),
                forall|a: int, j: int, q: int|
                    0 <= a < i && 0 <= j < lists@[a].blocks@.len() && 0 <= q < lists@[a].blocks@[j].doc_ids@.len()
                        ==> (#[trigger] lists@[a].blocks@[j].doc_ids@[q]) < n,
            decreases lists@.len() - i,
        {
            let blocks = &lists[i].blocks;
            let mut j: usize = 0;
            while j < blocks.len()
                invariant
                    *lists == self.index.lists,
                    n == self.doc_ids@.len(),
                    i < lists@.len(),
                    *blocks == lists@[i as int].blocks,
                    j <= blocks@.len(),
                    forall|a: int, j: int, q: int|
                        0 <= a < i && 0 <= j < lists@[a].blocks@.len() && 0 <= q < lists@[a].blocks@[j].doc_ids@.len()
                            ==> (#[trigger] lists@[a].blocks@[j].doc_ids@[q]) < n,
                    forall|b: int, q: int|
                        0 <= b < j && 0 <= q < blocks@[b].doc_ids@.len() ==> (#[trigger] blocks@[b].doc_ids@[q]) < n,
                decreases blocks@.len() - j,
            {
                let ids = &blocks[j].doc_ids;
                let mut q: usize = 0;
                while q < ids.len()
                    invariant
                        *lists == self.index.lists,
                        n == self.doc_ids@.len(),
                        i < lists@.len(),
                        *blocks == lists@[i as int].blocks,
                        j < blocks@.len(),
                        *ids == blocks@[j as int].doc_ids,
                        q <= ids@.len(),
                        forall|a: int, j: int, q: int|
                            0 <= a < i && 0 <= j < lists@[a].blocks@.len() && 0 <= q < lists@[a].blocks@[j].doc_ids@.len()
                                ==> (#[trigger] lists@[a].blocks@[j].doc_ids@[q]) < n,
                        forall|b: int, q: int|
                            0 <= b < j && 0 <= q < blocks@[b].doc_ids@.len() ==> (#[trigger] blocks@[b].doc_ids@[q]) < n,
                        forall|p: int| 0 <= p < q ==> (#[trigger] ids@[p]) < n,
                    decreases ids@.len() - q,
                {
                    if ids[q] as usize >= n {
                        assert(lists@[i as int].blocks@[j as int].doc_ids@[q as int] >= n);
                        return false;
                    }
                    q += 1;
                }
                j += 1;
            }
            i += 1;
        }
        true
    }

    /// An empty corpus.
    pub fn new() -> (r: Corpus)
        ensures
            r.built_from(seq![], seq![]),
            r.wf(),
    {
        let r = Corpus {
            doc_lengths: Vec::new(),
            doc_ids: Vec::new(),
            total_length: 0,
            index: Index { terms: Vec::new(), lists: Vec::new() },
        };
        assert forall|t: Seq<char>| #[trigger] crate::index::postings_of(seq![], t).len() == 0 by {}
        proof {
            lemma_built_wf(&r, seq![], seq![]);
        }
        r
    }

    /// Replaces the whole corpus by `documents`, tokenized with `tokenizer`.
    /// External ids are `ids` when given, else the positions 0..N-1. On any
    /// error the corpus is left as it was.
    pub fn fit(
        &mut self,
        tokenizer: &Tokenizer,
        documents: &Vec<String>,
        fold: bool,
        ids: Option<Vec<u64>>,
    ) -> (r: Result<(), BuildError>)
        ensures
            r is Err ==> *final(self) == *old(self),
            r == Err::<(), BuildError>(BuildError::InvalidArgument) <==> (ids matches Some(v)
                && v@.len() != documents@.len()),
            r == Err::<(), BuildError>(BuildError::TooManyDocuments) <==> (!(ids matches Some(v)
                && v@.len() != documents@.len()) && documents@.len() > u32::MAX),
            r == Err::<(), BuildError>(BuildError::DocumentTooLong) <==> (!(ids matches Some(v)
                && v@.len() != documents@.len()) && documents@.len() <= u32::MAX && exists|d: int|
                0 <= d < documents@.len() && tokens_of(documents@[d]@, fold).len() > u32::MAX),
            r is Ok ==> final(self).wf(),
            r is Ok ==> final(self).built_from(
                corpus_tokens(documents@, fold),
                match ids {
                    Some(v) => v@,
                    None => default_ids(documents@.len()),
                },
            ),
    {
        if let Some(ref v) = ids {
            if v.len() != documents.len() {
                return Err(BuildError::InvalidArgument);
            }
        }
        if documents.len() > u32::MAX as usize {
            return Err(BuildError::TooManyDocuments);
        }
        let n = documents.len();
        let ghost ct = corpus_tokens(documents@, fold);
        let mut tokens: Vec<Vec<String>> = Vec::new();
        let mut lengths: Vec<u32> = Vec::new();
        let mut total: u64 = 0;
        let mut d: usize = 0;
        while d < n
            invariant
                n == documents@.len(),
                n <= u32::MAX,
                ct == corpus_tokens(documents@, fold),
                d <= n,
                tokens@.len() == d,
                lengths@.len() == d,
                forall|e: int| 0 <= e < d ==> (#[trigger] tokens@[e])@.map_values(|w: String| w@) == ct[e],
                forall|e: int| 0 <= e < d ==> (#[trigger] tokens@[e])@.len() <= u32::MAX,
                forall|e: int| 0 <= e < d ==> #[trigger] lengths@[e] == ct[e].len(),
                forall|e: int| 0 <= e < d ==> ct[e].len() <= u32::MAX,
                total == total_of(lengths@),
                total <= d * u32::MAX,
                !(ids matches Some(v) && v@.len() != documents@.len()),
            decreases n - d,
        {
            let toks = tokenizer.tokenize(documents[d].as_str(), fold);
            assert(toks@.map_values(|w: String| w@).len() == toks@.len());
            assert(ct[d as int] == tokens_of(documents@[d as int]@, fold));
            if toks.len() > u32::MAX as usize {
                assert(tokens_of(documents@[d as int]@, fold).len() > u32::MAX);
                return Err(BuildError::DocumentTooLong);
            }
            let len = toks.len() as u32;
            let ghost before = lengths@;
            lengths.push(len);
            assert(lengths@.drop_last() =~= before);
            assert(total + len <= (d + 1) * u32::MAX) by (nonlinear_arith)
                requires
                    total <= d * u32::MAX,
                    len <= u32::MAX,
            ;
            assert((d + 1) * u32::MAX <= u32::MAX * u32::MAX) by (nonlinear_arith)
                requires
                    d < u32::MAX,
            ;
            total = total + len as u64;
            tokens.push(toks);
            d += 1;
        }
        assert forall|e: int| 0 <= e < documents@.len() implies tokens_of(documents@[e]@, fold).len()
            <= u32::MAX by {
            assert(ct[e] == tokens_of(documents@[e]@, fold));
        }
        assert(docs_view(tokens@) =~= ct) by {
            assert forall|e: int| 0 <= e < n implies docs_view(tokens@)[e] == ct[e] by {
                assert(tokens@[e]@.map_values(|w: String| w@) == ct[e]);
            }
        }
        let index = build_index(&tokens);
        let doc_ids = match ids {
            Some(v) => v,
            None => {
                let mut v: Vec<u64> = Vec::new();
                let mut i: usize = 0;
                while i < n
                    invariant
                        i <= n,
                        v@ == default_ids(i as nat),
                    decreases n - i,
                {
                    v.push(i as u64);
                    assert(v@ =~= default_ids((i + 1) as nat));
                    i += 1;
                }
                v
            },
        };
        *self = Corpus { doc_lengths: lengths, doc_ids, total_length: total, index };
        proof {
            lemma_built_wf(self, ct, self.doc_ids@);
        }
        Ok(())
    }
}

/// A corpus built from any tokenized documents is well formed.
pub proof fn lemma_built_wf(c: &Corpus, docs: Seq<Seq<Seq<char>>>, ids: Seq<u64>)
    requires
        c.built_from(docs, ids),
        ids.len() == docs.len(),
        docs.len() <= u32::MAX,
    ensures
        c.wf(),
{
    let lists = c.index.lists@;
    let terms = c.index.terms@;
    assert forall|i: int| 0 <= i < lists.len() implies (#[trigger] lists[i]).ascending() by {
        let p = postings_of(docs, terms[i]@);
        assert(lists[i].holds(p));
        lemma_postings_ordered(docs, terms[i]@);
        let bl = lists[i].blocks@;
        assert forall|b: int| 0 <= b < bl.len() - 1 implies (#[trigger] bl[b]).last_doc_id
            < bl[b + 1].doc_ids@[0] by {
            let x = bl[b];
            let y = bl[b + 1];
            assert(x.postings() == chunk(p, b));
            assert(y.postings() == chunk(p, b + 1));
            assert((b + 1) * BLOCK_SIZE == b * BLOCK_SIZE + BLOCK_SIZE) by (nonlinear_arith);
            assert((b + 1) * BLOCK_SIZE < p.len()) by (nonlinear_arith)
                requires
                    0 <= b < bl.len() - 1,
                    bl.len() == num_blocks(p.len()),
            ;
            assert(x.wf() && y.wf());
            let lx = x.doc_ids@.len() - 1;
            assert(x.postings()[lx].0 == x.doc_ids@[lx]);
            assert(chunk(p, b).len() == x.doc_ids@.len());
            assert(chunk(p, b)[lx] == p[b * BLOCK_SIZE + lx]);
            assert(y.postings()[0].0 == y.doc_ids@[0]);
            assert(chunk(p, b + 1)[0] == p[(b + 1) * BLOCK_SIZE]);
        }
    }
    assert forall|i: int| 0 <= i < lists.len() implies (#[trigger] lists[i]).wf() by {
        let p = postings_of(docs, terms[i]@);
        assert(lists[i].holds(p));
        lemma_postings_ordered(docs, terms[i]@);
        assert forall|j: int| 0 <= j < lists[i].blocks@.len() implies (#[trigger] lists[i].blocks@[j]).wf()
            && lists[i].blocks@[j].ascending() by {
            let b = lists[i].blocks@[j];
            assert(b.postings() == chunk(p, j));
            assert forall|x: int, y: int| 0 <= x < y < b.doc_ids@.len() implies (#[trigger] b.doc_ids@[x])
                < (#[trigger] b.doc_ids@[y]) by {
                assert(b.postings()[x].0 == b.doc_ids@[x]);
                assert(b.postings()[y].0 == b.doc_ids@[y]);
                assert(chunk(p, j).len() == b.doc_ids@.len());
                assert(chunk(p, j)[x] == p[j * BLOCK_SIZE + x]);
                assert(chunk(p, j)[y] == p[j * BLOCK_SIZE + y]);
            }
        }
    }
    assert forall|i: int, j: int, q: int|
        0 <= i < lists.len() && 0 <= j < lists[i].blocks@.len() && 0 <= q
            < lists[i].blocks@[j].doc_ids@.len() implies (#[trigger] lists[i].blocks@[j].doc_ids@[q])
        < ids.len() by {
        let p = postings_of(docs, terms[i]@);
        assert(lists[i].holds(p));
        lemma_postings_ordered(docs, terms[i]@);
        let b = lists[i].blocks@[j];
        assert(b.postings() == chunk(p, j));
        assert(b.postings()[q].0 == b.doc_ids@[q]);
        assert(j * BLOCK_SIZE + q < p.len()) by {
            assert(chunk(p, j).len() == b.doc_ids@.len());
        }
        assert(chunk(p, j)[q] == p[j * BLOCK_SIZE + q]);
    }
}

} // verus!
