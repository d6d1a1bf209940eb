//! The engine facade: one immutable corpus and the public operations
//! over it — normalize a text, identify the best-matching license,
//! enumerate the known names, and fetch an original text by name.

use vstd::prelude::*;

use crate::canon::{canon_lines, join_lines, normalize};
use crate::corpus::{
    corpus_has, corpus_wf, drawn_from_first, has_duplicate, pair_views, Corpus, EntryModel,
    LicenseError,
};
use crate::matcher::{best_index, best_match, rat_gt, score_den, score_num, MatchModel, MatchResult};

verus! {

/// What a successful identification reports: the entry at the winning
/// index of the corpus, with its score against the normalized query.
pub open spec fn identify_post(c: Seq<EntryModel>, t: Seq<char>, m: MatchModel) -> bool {
    let q = canon_lines(t);
    let b = best_index(c, q);
    &&& 0 <= b < c.len()
    &&& m.name == c[b].name
    &&& m.license_text == c[b].original
    &&& m.score_num == score_num(q, c[b].canonical)
    &&& m.score_den == score_den(q, c[b].canonical)
    &&& forall|j: int|
        0 <= j < c.len() ==> !rat_gt(
            score_num(q, (#[trigger] c[j]).canonical),
            score_den(q, c[j].canonical),
            m.score_num,
            m.score_den,
        )
    &&& forall|j: int|
        0 <= j < b ==> rat_gt(
            m.score_num,
            m.score_den,
            score_num(q, (#[trigger] c[j]).canonical),
            score_den(q, c[j].canonical),
        )
}

/// Reduce a text to its canonical form and hand it back as one string,
/// canonical lines joined by single newlines. Total and deterministic.
pub fn normalize_text(text: &str) -> (r: String)
    ensures
        r@ == join_lines(canon_lines(text@)),
{
    let ct = normalize(text);
    ct.joined()
}

/// The engine: a corpus loaded once, read-only thereafter, and the
/// operations that serve identification requests against it.
pub struct Engine {
    corpus: Corpus,
}

impl View for Engine {
    type V = Seq<EntryModel>;

    closed spec fn view(&self) -> Seq<EntryModel> {
        self.corpus@
    }
}

impl Engine {
    /// Build an engine over the given (name, original text) pairs.
    /// Fails exactly when two pairs share a name.
    pub fn new(pairs: &Vec<(String, String)>) -> (r: Result<Engine, LicenseError>)
        ensures
            r.is_err() <==> has_duplicate(pair_views(pairs@)),
            r matches Err(e) ==> e == LicenseError::DuplicateName,
            r matches Ok(g) ==> {
                &&& corpus_wf(g@)
                &&& g@.len() == pairs@.len()
                &&& forall|j: int|
                    #![trigger pair_views(pairs@)[j]]
                    0 <= j < pairs@.len() ==> corpus_has(
                        g@,
                        pair_views(pairs@)[j].0,
                        pair_views(pairs@)[j].1,
                    )
                &&& forall|k: int|
                    0 <= k < g@.len() ==> #[trigger] drawn_from_first(
                        g@,
                        pair_views(pairs@),
                        k,
                        pairs@.len() as int,
                    )
            },
    {
        match Corpus::build(pairs) {
            Ok(corpus) => Ok(Engine { corpus }),
            Err(e) => Err(e),
        }
    }

    /// Identify the license a text most closely matches: normalize it,
    /// score it against every entry, return the best (name, score) with
    /// that entry's original text. Fails only on an empty corpus.
    pub fn identify(&self, text: &str) -> (r: Result<MatchResult, LicenseError>)
        ensures
            r.is_err() <==> self@.len() == 0,
            r matches Err(e) ==> e == LicenseError::EmptyCorpus,
            r matches Ok(m) ==> identify_post(self@, text@, m@),
    {
        let q = normalize(text);
        best_match(&q, &self.corpus)
    }

    /// The known license names, in their stable lexicographic order.
    pub fn licenses(&self) -> (r: Vec<String>)
        ensures
            r@.len() == self@.len(),
            forall|k: int| 0 <= k < r@.len() ==> #[trigger] r@[k]@ == self@[k].name,
    {
        self.corpus.names()
    }

    /// The stored original text for a known name; nothing for an
    /// unknown one — absence is an expected outcome, never an error.
    pub fn get_original(&self, name: &str) -> (r: Option<String>)
        ensures
            match r {
                Some(t) => exists|k: int|
                    0 <= k < self@.len() && (#[trigger] self@[k]).name == name@ && self@[k].original
                        == t@,
                None => forall|k: int| 0 <= k < self@.len() ==> (#[trigger] self@[k]).name != name@,
            },
    {
        match self.corpus.lookup(name) {
            Some(entry) => {
                let ghost e = entry@;
                let t = entry.original_text().clone();
                proof {
                    let k = choose|k: int| 0 <= k < self@.len() && self@[k] == e && e.name == name@;
                    assert(self@[k].name == name@ && self@[k].original == t@);
                }
                Some(t)
            },
            None => None,
        }
    }
}

} // verus!
