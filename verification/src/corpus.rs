//! The corpus store: a registry of named reference licenses, each held
//! as its untouched original text together with its precomputed
//! canonical line sequence. Entries are kept strictly sorted by name,
//! so names are unique and enumeration order is stable.

use vstd::prelude::*;

use crate::canon::{canon_lines, normalize, CanonicalText};

verus! {

/// Strict lexicographic order on character sequences, by code point.
pub open spec fn lex_lt(a: Seq<char>, b: Seq<char>) -> bool
    decreases a.len(),
{
    if b.len() == 0 {
        false
    } else if a.len() == 0 {
        true
    } else if a[0] != b[0] {
        a[0] < b[0]
    } else {
        lex_lt(a.drop_first(), b.drop_first())
    }
}

/// Lexicographic order is irreflexive.
pub proof fn lemma_lex_lt_irrefl(a: Seq<char>)
    ensures
        !lex_lt(a, a),
    decreases a.len(),
{
    if a.len() > 0 {
        lemma_lex_lt_irrefl(a.drop_first());
    }
}

/// Lexicographic order is transitive.
pub proof fn lemma_lex_lt_trans(a: Seq<char>, b: Seq<char>, c: Seq<char>)
    requires
        lex_lt(a, b),
        lex_lt(b, c),
    ensures
        lex_lt(a, c),
    decreases a.len(),
{
    if a.len() > 0 && b.len() > 0 && c.len() > 0 && a[0] == b[0] && b[0] == c[0] {
        lemma_lex_lt_trans(a.drop_first(), b.drop_first(), c.drop_first());
    }
}

/// Two sequences neither of which precedes the other are equal.
pub proof fn lemma_lex_lt_total(a: Seq<char>, b: Seq<char>)
    requires
        !lex_lt(a, b),
        !lex_lt(b, a),
    ensures
        a == b,
    decreases a.len(),
{
    if a.len() == 0 || b.len() == 0 {
        assert(a =~= b);
    } else {
        assert(a[0] == b[0]);
        lemma_lex_lt_total(a.drop_first(), b.drop_first());
        assert forall|i: int| 0 <= i < a.len() implies a[i] == b[i] by {
            if i > 0 {
                assert(a.drop_first()[i - 1] == b.drop_first()[i - 1]);
            }
        }
        assert(a =~= b);
    }
}

/// Compare two strings lexicographically by code point.
pub fn str_lt(a: &str, b: &str) -> (r: bool)
    ensures
        r == lex_lt(a@, b@),
{
    let na: usize = a.unicode_len();
    let nb: usize = b.unicode_len();
    let mut i: usize = 0;
    proof {
        assert(a@.skip(0) =~= a@);
        assert(b@.skip(0) =~= b@);
    }
    loop
        invariant
            i <= na,
            i <= nb,
            na == a@.len(),
            nb == b@.len(),
            lex_lt(a@, b@) == lex_lt(a@.skip(i as int), b@.skip(i as int)),
        decreases na - i,
    {
        if i == nb {
            proof {
                assert(b@.skip(i as int) =~= Seq::<char>::empty());
            }
            return false;
        }
        if i == na {
            proof {
                assert(a@.skip(i as int) =~= Seq::<char>::empty());
            }
            return true;
        }
        let ca = a.get_char(i);
        let cb = b.get_char(i);
        proof {
            assert(a@.skip(i as int)[0] == a@[i as int]);
            assert(b@.skip(i as int)[0] == b@[i as int]);
            assert(a@.skip(i as int).drop_first() =~= a@.skip(i as int + 1));
            assert(b@.skip(i as int).drop_first() =~= b@.skip(i as int + 1));
        }
        if ca != cb {
            return ca < cb;
        }
        i = i + 1;
    }
}

/// Equality of two strings, decided through the lexicographic order.
pub fn str_eq(a: &str, b: &str) -> (r: bool)
    ensures
        r == (a@ == b@),
{
    let lt = str_lt(a, b);
    let gt = str_lt(b, a);
    proof {
        if !lex_lt(a@, b@) && !lex_lt(b@, a@) {
            lemma_lex_lt_total(a@, b@);
        }
        if a@ == b@ {
            lemma_lex_lt_irrefl(a@);
        }
    }
    !lt && !gt
}

/// The errors of the engine: a corpus build refuses two entries with
/// one name, and the matcher refuses an empty corpus.
#[derive(Clone, Copy, Debug, PartialEq, Eq, Structural)]
pub enum LicenseError {
    DuplicateName,
    EmptyCorpus,
}

/// The mathematical model of one corpus entry.
pub ghost struct EntryModel {
    pub name: Seq<char>,
    pub original: Seq<char>,
    pub canonical: Seq<Seq<char>>,
}

/// A corpus entry is well formed when its canonical line sequence is
/// exactly the normalization of its original text.
pub open spec fn entry_wf(m: EntryModel) -> bool {
    m.canonical == canon_lines(m.original)
}

/// A corpus model is well formed when every entry is well formed and
/// the entries are strictly sorted by name (so names are unique).
pub open spec fn corpus_wf(s: Seq<EntryModel>) -> bool {
    &&& forall|k: int| 0 <= k < s.len() ==> entry_wf(#[trigger] s[k])
    &&& forall|a: int, b: int| 0 <= a < b < s.len() ==> lex_lt(s[a].name, s[b].name)
}

/// One named reference license: its name, its untouched original text,
/// and the canonical form the matcher compares against.
pub struct LicenseEntry {
    name: String,
    original: String,
    canonical: CanonicalText,
}

impl View for LicenseEntry {
    type V = EntryModel;

    closed spec fn view(&self) -> EntryModel {
        EntryModel { name: self.name@, original: self.original@, canonical: self.canonical@ }
    }
}

impl LicenseEntry {
    /// The entry's name.
    pub fn name(&self) -> (r: &String)
        ensures
            r@ == self@.name,
    {
        &self.name
    }

    /// The entry's original text, untouched.
    pub fn original_text(&self) -> (r: &String)
        ensures
            r@ == self@.original,
    {
        &self.original
    }

    /// The entry's canonical line sequence.
    pub fn canonical(&self) -> (r: &CanonicalText)
        ensures
            r@ == self@.canonical,
    {
        &self.canonical
    }
}

/// The views of a sequence of entries.
pub open spec fn entry_views(v: Seq<LicenseEntry>) -> Seq<EntryModel> {
    v.map_values(|e: LicenseEntry| e@)
}

/// The views of a sequence of name/text pairs.
pub open spec fn pair_views(s: Seq<(String, String)>) -> Seq<(Seq<char>, Seq<char>)> {
    s.map_values(|p: (String, String)| (p.0@, p.1@))
}

/// Whether two pairs of the input share a name.
pub open spec fn has_duplicate(s: Seq<(Seq<char>, Seq<char>)>) -> bool {
    exists|i: int, j: int| 0 <= i < j < s.len() && s[i].0 == s[j].0
}

/// Whether the corpus holds an entry with this name and original text.
pub open spec fn corpus_has(s: Seq<EntryModel>, name: Seq<char>, original: Seq<char>) -> bool {
    exists|k: int| 0 <= k < s.len() && s[k].name == name && s[k].original == original
}

/// Whether entry `k` of the corpus carries the name and original text of
/// one of the first `n` input pairs.
pub open spec fn drawn_from_first(
    c: Seq<EntryModel>,
    pv: Seq<(Seq<char>, Seq<char>)>,
    k: int,
    n: int,
) -> bool {
    exists|j: int| 0 <= j < n && (#[trigger] pv[j]).0 == c[k].name && pv[j].1 == c[k].original
}

/// The fixed registry of reference licenses, strictly sorted by name,
/// immutable once built.
pub struct Corpus {
    entries: Vec<LicenseEntry>,
}

impl View for Corpus {
    type V = Seq<EntryModel>;

    closed spec fn view(&self) -> Seq<EntryModel> {
        entry_views(self.entries@)
    }
}

impl Corpus {
    #[verifier::type_invariant]
    closed spec fn inv(&self) -> bool {
        corpus_wf(self@)
    }

    /// How many entries the corpus holds.
    pub fn len(&self) -> (r: usize)
        ensures
            r == self@.len(),
    {
        self.entries.len()
    }

    /// The entry at index `i`, in name order.
    pub fn entry_at(&self, i: usize) -> (r: &LicenseEntry)
        requires
            i < self@.len(),
        ensures
            r@ == self@[i as int],
    {
        &self.entries[i]
    }

    /// Build a corpus from raw (name, original text) pairs, normalizing
    /// each text. Fails exactly when two pairs share a name; an empty
    /// input builds an empty corpus.
    pub fn build(pairs: &Vec<(String, String)>) -> (r: Result<Corpus, LicenseError>)
        ensures
            r.is_err() <==> has_duplicate(pair_views(pairs@)),
            r matches Err(e) ==> e == LicenseError::DuplicateName,
            r matches Ok(c) ==> {
                &&& corpus_wf(c@)
                &&& c@.len() == pairs@.len()
                &&& forall|j: int|
                    #![trigger pair_views(pairs@)[j]]
                    0 <= j < pairs@.len() ==> corpus_has(
                        c@,
                        pair_views(pairs@)[j].0,
                        pair_views(pairs@)[j].1,
                    )
                &&& forall|k: int|
                    0 <= k < c@.len() ==> #[trigger] drawn_from_first(
                        c@,
                        pair_views(pairs@),
                        k,
                        pairs@.len() as int,
                    )
            },
    {
        let ghost pv = pair_views(pairs@);
        let mut entries: Vec<LicenseEntry> = Vec::new();
        let mut i: usize = 0;
        proof {
            assert(entry_views(entries@) =~= Seq::<EntryModel>::empty());
        }
        while i < pairs.len()
            invariant
                i <= pairs@.len(),
                pv == pair_views(pairs@),
                entries@.len() == i,
                corpus_wf(entry_views(entries@)),
                forall|j: int|
                    #![trigger pv[j]]
                    0 <= j < i ==> corpus_has(entry_views(entries@), pv[j].0, pv[j].1),
                forall|k: int|
                    #![trigger entry_views(entries@)[k]]
                    0 <= k < entries@.len() ==> drawn_from_first(
                        entry_views(entries@),
                        pv,
                        k,
                        i as int,
                    ),
                forall|j1: int, j2: int| 0 <= j1 < j2 < i ==> pv[j1].0 != pv[j2].0,
            decreases pairs@.len() - i,
        {
            let ghost cm = entry_views(entries@);
            let name = pairs[i].0.clone();
            let orig = pairs[i].1.clone();
            proof {
                assert(pv[i as int] == (pairs@[i as int].0@, pairs@[i as int].1@));
            }
            // Find the insertion position in the sorted entry list.
            let mut pos: usize = 0;
            while pos < entries.len() && str_lt(entries[pos].name.as_str(), name.as_str())
                invariant
                    pos <= entries@.len(),
                    cm == entry_views(entries@),
                    cm.len() == entries@.len(),
                    name@ == pv[i as int].0,
                    i < pairs@.len(),
                    pv == pair_views(pairs@),
                    forall|j: int| 0 <= j < pos ==> lex_lt(#[trigger] cm[j].name, name@),
                decreases entries@.len() - pos,
            {
                proof {
                    assert(cm[pos as int] == entries@[pos as int]@);
                }
                pos = pos + 1;
            }
            if pos < entries.len() && !str_lt(name.as_str(), entries[pos].name.as_str()) {
                // Neither order holds, so this name is already present.
                proof {
                    assert(cm[pos as int] == entries@[pos as int]@);
                    lemma_lex_lt_total(cm[pos as int].name, name@);
                    assert(drawn_from_first(cm, pv, pos as int, i as int));
                    let j = choose|j: int|
                        0 <= j < i && (#[trigger] pv[j]).0 == cm[pos as int].name && pv[j].1
                            == cm[pos as int].original;
                    assert(pv[j].0 == pv[i as int].0);
                    assert(has_duplicate(pv));
                }
                return Err(LicenseError::DuplicateName);
            }
            proof {
                // No existing entry carries this name.
                if pos < cm.len() {
                    assert(cm[pos as int] == entries@[pos as int]@);
                }
                assert forall|k: int| 0 <= k < cm.len() implies cm[k].name != name@ by {
                    lemma_lex_lt_irrefl(cm[k].name);
                    if k >= pos && pos < cm.len() {
                        if cm[k].name == name@ {
                            if k > pos {
                                assert(lex_lt(cm[pos as int].name, cm[k].name));
                                lemma_lex_lt_trans(name@, cm[pos as int].name, cm[k].name);
                                lemma_lex_lt_irrefl(name@);
                            }
                        }
                    }
                }
            }
            let canonical = normalize(orig.as_str());
            let entry = LicenseEntry { name, original: orig, canonical };
            let ghost m = entry@;
            entries.insert(pos, entry);
            proof {
                let dm = entry_views(entries@);
                assert(dm =~= cm.insert(pos as int, m));
                assert(m.name == pv[i as int].0 && m.original == pv[i as int].1);
                // Sortedness is preserved by the insertion.
                assert forall|a: int, b: int| 0 <= a < b < dm.len() implies lex_lt(
                    dm[a].name,
                    dm[b].name,
                ) by {
                    if b == pos {
                        assert(dm[a] == cm[a]);
                    } else if a == pos && b > pos {
                        assert(dm[b] == cm[b - 1]);
                        if b - 1 > pos {
                            lemma_lex_lt_trans(m.name, cm[pos as int].name, cm[b - 1].name);
                        }
                    } else if a < pos && b > pos {
                        assert(dm[a] == cm[a]);
                        assert(dm[b] == cm[b - 1]);
                        if b - 1 > pos {
                            if pos < cm.len() {
                                lemma_lex_lt_trans(cm[a].name, cm[pos as int].name, cm[b - 1].name);
                            }
                        }
                    }
                }
                // Every earlier pair still has its entry.
                assert forall|j: int| #![trigger pv[j]] 0 <= j < i + 1 implies corpus_has(
                    dm,
                    pv[j].0,
                    pv[j].1,
                ) by {
                    if j == i {
                        assert(dm[pos as int] == m);
                    } else {
                        let k = choose|k: int|
                            0 <= k < cm.len() && cm[k].name == pv[j].0 && cm[k].original
                                == pv[j].1;
                        if k < pos {
                            assert(dm[k] == cm[k]);
                        } else {
                            assert(dm[k + 1] == cm[k]);
                        }
                    }
                }
                // Every entry still comes from one of the pairs seen so far.
                assert forall|k: int| #![trigger dm[k]] 0 <= k < dm.len() implies drawn_from_first(
                    dm,
                    pv,
                    k,
                    i + 1,
                ) by {
                    if k == pos {
                        assert(pv[i as int].0 == dm[k].name && pv[i as int].1 == dm[k].original);
                    } else if k < pos {
                        assert(dm[k] == cm[k]);
                        assert(drawn_from_first(cm, pv, k, i as int));
                        let j = choose|j: int|
                            0 <= j < i && (#[trigger] pv[j]).0 == cm[k].name && pv[j].1
                                == cm[k].original;
                        assert(pv[j].0 == dm[k].name && pv[j].1 == dm[k].original);
                    } else {
                        assert(dm[k] == cm[k - 1]);
                        assert(drawn_from_first(cm, pv, k - 1, i as int));
                        let j = choose|j: int|
                            0 <= j < i && (#[trigger] pv[j]).0 == cm[k - 1].name && pv[j].1
                                == cm[k - 1].original;
                        assert(pv[j].0 == dm[k].name && pv[j].1 == dm[k].original);
                    }
                }
                // The pairs seen so far carry distinct names.
                assert forall|j1: int, j2: int| 0 <= j1 < j2 < i + 1 implies pv[j1].0
                    != pv[j2].0 by {
                    if j2 == i {
                        assert(corpus_has(cm, pv[j1].0, pv[j1].1));
                        let k = choose|k: int|
                            0 <= k < cm.len() && cm[k].name == pv[j1].0 && cm[k].original
                                == pv[j1].1;
                        assert(cm[k].name != name@);
                    }
                }
            }
            i = i + 1;
        }
        let ghost fm = entry_views(entries@);
        proof {
            assert forall|k: int| #![trigger fm[k]] 0 <= k < fm.len() implies drawn_from_first(
                fm,
                pv,
                k,
                pairs@.len() as int,
            ) by {
                assert(fm[k] == entry_views(entries@)[k]);
            }
        }
        let c = Corpus { entries };
        proof {
            assert(c@ == fm);
            assert forall|k: int| 0 <= k < c@.len() implies #[trigger] drawn_from_first(
                c@,
                pv,
                k,
                pairs@.len() as int,
            ) by {
                assert(c@[k] == fm[k]);
                assert(drawn_from_first(fm, pv, k, pairs@.len() as int));
            }
            if has_duplicate(pv) {
                let (j1, j2) = choose|j1: int, j2: int|
                    0 <= j1 < j2 < pv.len() && pv[j1].0 == pv[j2].0;
                assert(pv[j1].0 != pv[j2].0);
            }
        }
        Ok(c)
    }

    /// The names of all entries, in their stable lexicographic order.
    pub fn names(&self) -> (r: Vec<String>)
        ensures
            r@.len() == self@.len(),
            forall|k: int| 0 <= k < r@.len() ==> #[trigger] r@[k]@ == self@[k].name,
    {
        let mut out: Vec<String> = Vec::new();
        let mut i: usize = 0;
        while i < self.entries.len()
            invariant
                i <= self@.len(),
                self@.len() == self.entries@.len(),
                out@.len() == i,
                forall|k: int| 0 <= k < i ==> #[trigger] out@[k]@ == self@[k].name,
            decreases self@.len() - i,
        {
            let n = self.entries[i].name.clone();
            proof {
                assert(self@[i as int] == self.entries@[i as int]@);
            }
            out.push(n);
            i = i + 1;
        }
        out
    }

    /// Look an entry up by name. Absence is an expected outcome, not an
    /// error: an unknown name returns nothing.
    pub fn lookup(&self, name: &str) -> (r: Option<&LicenseEntry>)
        ensures
            match r {
                Some(e) => exists|k: int|
                    0 <= k < self@.len() && #[trigger] self@[k] == e@ && e@.name == name@,
                None => forall|k: int| 0 <= k < self@.len() ==> #[trigger] self@[k].name != name@,
            },
    {
        let mut i: usize = 0;
        while i < self.entries.len()
            invariant
                i <= self@.len(),
                self@.len() == self.entries@.len(),
                forall|k: int| 0 <= k < i ==> #[trigger] self@[k].name != name@,
            decreases self@.len() - i,
        {
            proof {
                assert(self@[i as int] == self.entries@[i as int]@);
            }
            if str_eq(self.entries[i].name.as_str(), name) {
                return Some(&self.entries[i]);
            }
            i = i + 1;
        }
        None
    }
}

} // verus!
