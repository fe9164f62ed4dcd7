use vstd::prelude::*;

verus! {

#[verifier::external_type_specification]
#[verifier::external_body]
pub struct ExJieba(jieba_rs::Jieba);

/// Relies on jieba_rs::Jieba::new: builds a segmenter with the bundled dictionary.
pub assume_specification[ jieba_rs::Jieba::new ]() -> jieba_rs::Jieba;

/// The words into which the bundled-dictionary segmenter cuts `text`, in order.
pub uninterp spec fn segments_of(text: Seq<char>) -> Seq<Seq<char>>;

/// What `str::to_lowercase` makes of `s`.
pub uninterp spec fn lower_of(s: Seq<char>) -> Seq<char>;

/// What `str::trim` leaves of `s`.
pub uninterp spec fn trim_of(s: Seq<char>) -> Seq<char>;

/// Relies on jieba_rs::Jieba::cut (without HMM): the words of `text`, in order.
/// The segmenter was made by `Jieba::new` and is never changed, so the words
/// depend on the text alone.
#[verifier::external_body]
fn cut(jieba: &jieba_rs::Jieba, text: &str) -> (r: Vec<String>)
    ensures
        r@.map_values(|w: String| w@) == segments_of(text@),
{
    jieba.cut(text, false).into_iter().map(|t| t.word.to_string()).collect()
}

/// Relies on str::to_lowercase.
#[verifier::external_body]
fn lowercase(s: &str) -> (r: String)
    ensures
        r@ == lower_of(s@),
{
    s.to_lowercase()
}

/// Relies on str::trim: `s` without leading and trailing whitespace.
#[verifier::external_body]
fn trim(s: &str) -> (r: String)
    ensures
        r@ == trim_of(s@),
{
    s.trim().to_string()
}

/// A segment as it enters the index: case-folded when `fold` is set.
pub open spec fn normalized(seg: Seq<char>, fold: bool) -> Seq<char> {
    if fold {
        lower_of(seg)
    } else {
        seg
    }
}

/// The normalized segments that are neither empty nor whitespace only.
pub open spec fn kept(segs: Seq<Seq<char>>, fold: bool) -> Seq<Seq<char>>
    decreases segs.len(),
{
    if segs.len() == 0 {
        seq![]
    } else {
        let prev = kept(segs.drop_last(), fold);
        let s = normalized(segs.last(), fold);
        if trim_of(s).len() > 0 {
            prev.push(s)
        } else {
            prev
        }
    }
}

/// The terms of `text`.
pub open spec fn tokens_of(text: Seq<char>, fold: bool) -> Seq<Seq<char>> {
    kept(segments_of(text), fold)
}

/// The shared, read-only word segmenter.
pub struct Tokenizer {
    jieba: jieba_rs::Jieba,
}

impl Tokenizer {
    pub fn new() -> (r: Tokenizer) {
        Tokenizer { jieba: jieba_rs::Jieba::new() }
    }

    /// Cuts `text` into terms, lowercasing them when `fold` is set and
    /// dropping empty and whitespace-only ones.
    pub fn tokenize(&self, text: &str, fold: bool) -> (r: Vec<String>)
        ensures
            r@.map_values(|w: String| w@) == tokens_of(text@, fold),
    {
        let segs = cut(&self.jieba, text);
        let ghost sv = segs@.map_values(|w: String| w@);
        let mut out: Vec<String> = Vec::new();
        let mut i: usize = 0;
        proof {
            assert(sv.take(0) =~= seq![]);
            assert(out@.map_values(|w: String| w@) =~= seq![]);
        }
        while i < segs.len()
            invariant
                sv == segs@.map_values(|w: String| w@),
                i <= segs@.len(),
                out@.map_values(|w: String| w@) == kept(sv.take(i as int), fold),
            decreases segs@.len() - i,
        {
            let seg = &segs[i];
            let term = if fold {
                lowercase(seg.as_str())
            } else {
                seg.clone()
            };
            assert(term@ == normalized(sv[i as int], fold));
            let t = trim(term.as_str());
            let ghost before = out@;
            let empty = String::new();
            proof {
                assert(sv.take(i + 1).drop_last() =~= sv.take(i as int));
                assert(sv.take(i + 1).last() == sv[i as int]);
            }
            if t != empty {
                assert(t@.len() > 0) by {
                    if t@.len() == 0 {
                        assert(t@ =~= empty@);
                    }
                }
                out.push(term);
                assert(out@.map_values(|w: String| w@) =~= before.map_values(|w: String| w@).push(term@));
            } else {
                assert(t@.len() == 0);
            }
            i += 1;
        }
        assert(sv.take(segs@.len() as int) =~= sv);
        out
    }
}

} // verus!
