//! The matcher: scores a canonical query text against every corpus
//! entry and returns the best match.
//!
//! The score of a query against one entry is a rational in [0, 1]: the
//! weight of the lines the two texts share (as multisets, each line
//! weighted by its length so that long, distinctive lines count for
//! more than short common ones), doubled, over the sum of the two
//! texts' total weights. Equal canonical texts score exactly 1. All
//! weights saturate at a fixed cap, so the arithmetic is total; the cap
//! is far beyond any realistic text.

use vstd::prelude::*;

use crate::canon::CanonicalText;
use crate::corpus::{Corpus, EntryModel, LicenseError};

verus! {

/// The cap at which all weight arithmetic saturates.
pub const WEIGHT_CAP: u64 = 0xffff_ffff_ffff_ffff;

/// Saturating addition of line weights.
pub open spec fn sat_add(a: nat, b: nat) -> nat {
    if a + b >= WEIGHT_CAP { WEIGHT_CAP as nat } else { a + b }
}

/// The weight of one canonical line: its length plus one, so that even
/// a blank line carries a little signal.
pub open spec fn line_weight(l: Seq<char>) -> nat {
    sat_add(l.len(), 1)
}

/// The total weight of a canonical text.
pub open spec fn weight_sum(ls: Seq<Seq<char>>) -> nat
    decreases ls.len(),
{
    if ls.len() == 0 {
        0
    } else {
        sat_add(line_weight(ls[0]), weight_sum(ls.drop_first()))
    }
}

/// The first position of line `l` in `ls` (meaningful when present).
pub open spec fn first_index(ls: Seq<Seq<char>>, l: Seq<char>) -> int
    decreases ls.len(),
{
    if ls.len() == 0 {
        0
    } else if ls[0] == l {
        0
    } else {
        1 + first_index(ls.drop_first(), l)
    }
}

/// The weight of the lines shared by `q` and `e` as multisets: each
/// line of `q` consumes at most one equal line of `e`, and contributes
/// its weight when it finds one.
pub open spec fn overlap_weight(q: Seq<Seq<char>>, e: Seq<Seq<char>>) -> nat
    decreases q.len(),
{
    if q.len() == 0 {
        0
    } else if e.contains(q[0]) {
        sat_add(
            line_weight(q[0]),
            overlap_weight(q.drop_first(), e.remove(first_index(e, q[0]))),
        )
    } else {
        overlap_weight(q.drop_first(), e)
    }
}

/// The numerator of the score of query `q` against entry text `e`.
/// Two empty texts are identical, and score 1.
pub open spec fn score_num(q: Seq<Seq<char>>, e: Seq<Seq<char>>) -> nat {
    if weight_sum(q) + weight_sum(e) == 0 {
        1
    } else {
        sat_add(overlap_weight(q, e), overlap_weight(q, e))
    }
}

/// The denominator of the score of query `q` against entry text `e`.
pub open spec fn score_den(q: Seq<Seq<char>>, e: Seq<Seq<char>>) -> nat {
    if weight_sum(q) + weight_sum(e) == 0 {
        1
    } else {
        sat_add(weight_sum(q), weight_sum(e))
    }
}

/// Strict comparison of two scores as rationals: a/b > c/d.
pub open spec fn rat_gt(an: nat, ad: nat, bn: nat, bd: nat) -> bool {
    an * bd > bn * ad
}

proof fn lemma_first_index(ls: Seq<Seq<char>>, l: Seq<char>)
    requires
        ls.contains(l),
    ensures
        0 <= first_index(ls, l) < ls.len(),
        ls[first_index(ls, l)] == l,
    decreases ls.len(),
{
    if ls[0] != l {
        assert(ls.drop_first().contains(l)) by {
            let k = choose|k: int| 0 <= k < ls.len() && ls[k] == l;
            assert(ls.drop_first()[k - 1] == l);
        }
        lemma_first_index(ls.drop_first(), l);
    }
}

/// Removing one line lowers the total weight by that line's weight,
/// up to saturation.
proof fn lemma_weight_sum_remove(ls: Seq<Seq<char>>, i: int)
    requires
        0 <= i < ls.len(),
    ensures
        weight_sum(ls) == sat_add(line_weight(ls[i]), weight_sum(ls.remove(i))),
    decreases ls.len(),
{
    if i == 0 {
        assert(ls.remove(0) =~= ls.drop_first());
    } else {
        lemma_weight_sum_remove(ls.drop_first(), i - 1);
        assert(ls.remove(i).drop_first() =~= ls.drop_first().remove(i - 1));
        assert(ls.remove(i)[0] == ls[0]);
        assert(weight_sum(ls.remove(i)) == sat_add(
            line_weight(ls[0]),
            weight_sum(ls.drop_first().remove(i - 1)),
        ));
    }
}

/// The shared weight never exceeds the query's own weight.
pub proof fn lemma_overlap_le_query(q: Seq<Seq<char>>, e: Seq<Seq<char>>)
    ensures
        overlap_weight(q, e) <= weight_sum(q),
    decreases q.len(),
{
    if q.len() > 0 {
        if e.contains(q[0]) {
            lemma_overlap_le_query(q.drop_first(), e.remove(first_index(e, q[0])));
        } else {
            lemma_overlap_le_query(q.drop_first(), e);
        }
    }
}

/// No shared weight exceeds the saturation cap.
proof fn lemma_overlap_le_cap(q: Seq<Seq<char>>, e: Seq<Seq<char>>)
    ensures
        overlap_weight(q, e) <= WEIGHT_CAP,
    decreases q.len(),
{
    if q.len() > 0 && !e.contains(q[0]) {
        lemma_overlap_le_cap(q.drop_first(), e);
    }
}

/// The shared weight never exceeds the entry's own weight.
pub proof fn lemma_overlap_le_entry(q: Seq<Seq<char>>, e: Seq<Seq<char>>)
    ensures
        overlap_weight(q, e) <= weight_sum(e),
    decreases q.len(),
{
    if q.len() > 0 {
        if e.contains(q[0]) {
            let i = first_index(e, q[0]);
            lemma_first_index(e, q[0]);
            lemma_weight_sum_remove(e, i);
            lemma_overlap_le_entry(q.drop_first(), e.remove(i));
        } else {
            lemma_overlap_le_entry(q.drop_first(), e);
        }
    }
}

/// A text shares all of its weight with itself.
pub proof fn lemma_overlap_self(q: Seq<Seq<char>>)
    ensures
        overlap_weight(q, q) == weight_sum(q),
    decreases q.len(),
{
    if q.len() > 0 {
        assert(q.contains(q[0]));
        assert(first_index(q, q[0]) == 0);
        assert(q.remove(0) =~= q.drop_first());
        lemma_overlap_self(q.drop_first());
    }
}

/// Every score is at most 1: the numerator never exceeds the
/// denominator.
pub proof fn lemma_score_le_one(q: Seq<Seq<char>>, e: Seq<Seq<char>>)
    ensures
        score_num(q, e) <= score_den(q, e),
        score_den(q, e) >= 1,
{
    lemma_overlap_le_query(q, e);
    lemma_overlap_le_entry(q, e);
}

/// A query scores exactly 1 against an entry with the same canonical
/// text.
pub proof fn lemma_score_self(q: Seq<Seq<char>>)
    ensures
        score_num(q, q) == score_den(q, q),
{
    lemma_overlap_self(q);
}

/// The index of the winning entry: the highest score, and among equal
/// scores the earliest entry. Entries are sorted by name, so the
/// earliest is the lexicographically first.
pub open spec fn best_index(c: Seq<EntryModel>, q: Seq<Seq<char>>) -> int
    decreases c.len(),
{
    if c.len() <= 1 {
        0
    } else {
        let b = best_index(c.drop_last(), q);
        if rat_gt(
            score_num(q, c.last().canonical),
            score_den(q, c.last().canonical),
            score_num(q, c[b].canonical),
            score_den(q, c[b].canonical),
        ) {
            c.len() - 1
        } else {
            b
        }
    }
}

/// Rational cross-multiplication ordering: if a1/d1 beats a2/d2 and
/// a3/d3 does not, then a1/d1 strictly beats a3/d3.
proof fn lemma_rat_ord(a1: nat, d1: nat, a2: nat, d2: nat, a3: nat, d3: nat)
    by (nonlinear_arith)
    requires
        d1 >= 1,
        d2 >= 1,
        d3 >= 1,
        a1 * d2 > a2 * d1,
        a3 * d2 <= a2 * d3,
    ensures
        a3 * d1 < a1 * d3,
{
}

/// The winning entry scores at least as high as every entry, and
/// strictly higher than every earlier entry.
pub proof fn lemma_best_index(c: Seq<EntryModel>, q: Seq<Seq<char>>)
    requires
        c.len() > 0,
    ensures
        0 <= best_index(c, q) < c.len(),
        forall|j: int|
            0 <= j < c.len() ==> !rat_gt(
                score_num(q, (#[trigger] c[j]).canonical),
                score_den(q, c[j].canonical),
                score_num(q, c[best_index(c, q)].canonical),
                score_den(q, c[best_index(c, q)].canonical),
            ),
        forall|j: int|
            0 <= j < best_index(c, q) ==> rat_gt(
                score_num(q, c[best_index(c, q)].canonical),
                score_den(q, c[best_index(c, q)].canonical),
                score_num(q, (#[trigger] c[j]).canonical),
                score_den(q, c[j].canonical),
            ),
    decreases c.len(),
{
    if c.len() > 1 {
        let pre = c.drop_last();
        lemma_best_index(pre, q);
        let b = best_index(pre, q);
        let bi = best_index(c, q);
        assert forall|j: int| 0 <= j < c.len() - 1 implies pre[j] == c[j] by {}
        assert(c.last() == c[c.len() - 1]);
        let lastn = score_num(q, c[c.len() - 1].canonical);
        let lastd = score_den(q, c[c.len() - 1].canonical);
        let bestn = score_num(q, c[b].canonical);
        let bestd = score_den(q, c[b].canonical);
        lemma_score_le_one(q, c[c.len() - 1].canonical);
        lemma_score_le_one(q, c[b].canonical);
        if rat_gt(lastn, lastd, bestn, bestd) {
            assert(bi == c.len() - 1);
            assert forall|j: int| 0 <= j < c.len() - 1 implies rat_gt(
                score_num(q, c[bi].canonical),
                score_den(q, c[bi].canonical),
                score_num(q, (#[trigger] c[j]).canonical),
                score_den(q, c[j].canonical),
            ) by {
                lemma_score_le_one(q, c[j].canonical);
                lemma_rat_ord(
                    lastn,
                    lastd,
                    bestn,
                    bestd,
                    score_num(q, c[j].canonical),
                    score_den(q, c[j].canonical),
                );
            }
        } else {
            assert(bi == b);
        }
    }
}

/// The best match against the query: its entry's name and original
/// text, and the score as a rational. `score_den` is never zero.
pub struct MatchResult {
    name: String,
    score_num: u64,
    score_den: u64,
    license_text: String,
}

/// The mathematical model of a match result.
#[verifier::ext_equal]
pub ghost struct MatchModel {
    pub name: Seq<char>,
    pub score_num: nat,
    pub score_den: nat,
    pub license_text: Seq<char>,
}

impl View for MatchResult {
    type V = MatchModel;

    closed spec fn view(&self) -> MatchModel {
        MatchModel {
            name: self.name@,
            score_num: self.score_num as nat,
            score_den: self.score_den as nat,
            license_text: self.license_text@,
        }
    }
}

impl MatchResult {
    /// The matched license's name, as an owned copy.
    pub fn name(&self) -> (r: String)
        ensures
            r@ == self@.name,
    {
        self.name.clone()
    }

    /// The numerator of the confidence score.
    pub fn score_num(&self) -> (r: u64)
        ensures
            r == self@.score_num,
    {
        self.score_num
    }

    /// The denominator of the confidence score; never zero.
    pub fn score_den(&self) -> (r: u64)
        ensures
            r == self@.score_den,
    {
        self.score_den
    }

    /// The matched license's original text, as an owned copy.
    pub fn license_text(&self) -> (r: String)
        ensures
            r@ == self@.license_text,
    {
        self.license_text.clone()
    }
}

/// Saturating addition, executable form.
fn sat_add_exec(a: u64, b: u64) -> (r: u64)
    ensures
        r as nat == sat_add(a as nat, b as nat),
{
    if b >= WEIGHT_CAP - a {
        WEIGHT_CAP
    } else {
        a + b
    }
}

/// The weight of one line, executable form.
fn line_weight_exec(l: &String) -> (r: u64)
    ensures
        r as nat == line_weight(l@),
{
    let n: usize = l.as_str().unicode_len();
    sat_add_exec(n as u64, 1)
}

/// The total weight of a canonical text, executable form.
fn weight_sum_exec(t: &CanonicalText) -> (r: u64)
    ensures
        r as nat == weight_sum(t@),
{
    let mut i: usize = t.len();
    let mut acc: u64 = 0;
    proof {
        assert(t@.skip(t@.len() as int) =~= Seq::<Seq<char>>::empty());
    }
    while i > 0
        invariant
            i <= t@.len(),
            acc as nat == weight_sum(t@.skip(i as int)),
        decreases i,
    {
        i = i - 1;
        let w = line_weight_exec(t.line(i));
        proof {
            assert(t@.skip(i as int)[0] == t@[i as int]);
            assert(t@.skip(i as int).drop_first() =~= t@.skip(i as int + 1));
        }
        acc = sat_add_exec(w, acc);
    }
    proof {
        assert(t@.skip(0) =~= t@);
    }
    acc
}

/// The first remaining entry line equal to `line`, if any.
fn find_first(rem: &Vec<String>, line: &String) -> (r: Option<usize>)
    ensures
        match r {
            Some(k) => k < rem@.len() && rem@[k as int]@ == line@ && forall|k2: int|
                0 <= k2 < k ==> #[trigger] rem@[k2]@ != line@,
            None => forall|k2: int| 0 <= k2 < rem@.len() ==> #[trigger] rem@[k2]@ != line@,
        },
{
    let mut k: usize = 0;
    while k < rem.len()
        invariant
            k <= rem@.len(),
            forall|k2: int| 0 <= k2 < k ==> #[trigger] rem@[k2]@ != line@,
        decreases rem@.len() - k,
    {
        if crate::corpus::str_eq(rem[k].as_str(), line.as_str()) {
            return Some(k);
        }
        k = k + 1;
    }
    None
}

/// The shared weight of the query and one entry text, executable form:
/// each query line consumes the first remaining equal entry line.
fn overlap_weight_exec(q: &CanonicalText, e: &CanonicalText) -> (r: u64)
    ensures
        r as nat == overlap_weight(q@, e@),
{
    let mut rem: Vec<String> = Vec::new();
    let mut i: usize = 0;
    while i < e.len()
        invariant
            i <= e@.len(),
            rem@.len() == i,
            forall|k: int| 0 <= k < i ==> #[trigger] rem@[k]@ == e@[k],
        decreases e@.len() - i,
    {
        rem.push(e.line(i).clone());
        i = i + 1;
    }
    let ghost evs = crate::canon::views_of(rem@);
    proof {
        assert(evs =~= e@);
    }
    let mut acc: u64 = 0;
    let mut j: usize = 0;
    proof {
        assert(q@.skip(0) =~= q@);
        lemma_overlap_le_cap(q@, e@);
    }
    while j < q.len()
        invariant
            j <= q@.len(),
            overlap_weight(q@, e@) == sat_add(
                acc as nat,
                overlap_weight(q@.skip(j as int), crate::canon::views_of(rem@)),
            ),
        decreases q@.len() - j,
    {
        let ghost rvs = crate::canon::views_of(rem@);
        let line = q.line(j);
        proof {
            assert(q@.skip(j as int)[0] == q@[j as int]);
            assert(q@.skip(j as int).drop_first() =~= q@.skip(j as int + 1));
        }
        let hit = find_first(&rem, line);
        match hit {
            Some(k) => {
                proof {
                    assert(rvs[k as int] == rem@[k as int]@);
                    assert(rvs.contains(q@[j as int]));
                    assert forall|k2: int| 0 <= k2 < k implies #[trigger] rvs[k2] != q@[
                        j as int
                    ] by {
                        assert(rvs[k2] == rem@[k2]@);
                    }
                    lemma_first_index_is_first(rvs, q@[j as int], k as int);
                }
                let w = line_weight_exec(&rem[k]);
                rem.remove(k);
                proof {
                    assert(crate::canon::views_of(rem@) =~= rvs.remove(k as int));
                    lemma_sat_add_assoc(
                        acc as nat,
                        w as nat,
                        overlap_weight(q@.skip(j as int + 1), rvs.remove(k as int)),
                    );
                }
                acc = sat_add_exec(acc, w);
            },
            None => {
                proof {
                    if rvs.contains(q@[j as int]) {
                        let k2 = choose|k2: int| 0 <= k2 < rvs.len() && rvs[k2] == q@[j as int];
                        assert(rvs[k2] == rem@[k2]@);
                        assert(rvs[k2] != q@[j as int]);
                    }
                }
            },
        }
        j = j + 1;
    }
    proof {
        assert(q@.skip(q@.len() as int) =~= Seq::<Seq<char>>::empty());
    }
    acc
}

/// Where the first equal line is known, the spec's first position is
/// that line.
proof fn lemma_first_index_is_first(ls: Seq<Seq<char>>, l: Seq<char>, k: int)
    requires
        0 <= k < ls.len(),
        ls[k] == l,
        forall|k2: int| 0 <= k2 < k ==> #[trigger] ls[k2] != l,
    ensures
        first_index(ls, l) == k,
    decreases k,
{
    if k > 0 {
        assert(ls[0] != l);
        assert forall|k2: int| 0 <= k2 < k - 1 implies #[trigger] ls.drop_first()[k2] != l by {
            assert(ls.drop_first()[k2] == ls[k2 + 1]);
        }
        assert(ls.drop_first()[k - 1] == ls[k]);
        lemma_first_index_is_first(ls.drop_first(), l, k - 1);
    }
}

/// Saturating addition is associative.
proof fn lemma_sat_add_assoc(a: nat, b: nat, c: nat)
    ensures
        sat_add(a, sat_add(b, c)) == sat_add(sat_add(a, b), c),
{
}

/// The score of a query against one entry text, as a rational.
fn score_exec(q: &CanonicalText, e: &CanonicalText) -> (r: (u64, u64))
    ensures
        r.0 as nat == score_num(q@, e@),
        r.1 as nat == score_den(q@, e@),
{
    let wq = weight_sum_exec(q);
    let we = weight_sum_exec(e);
    if wq == 0 && we == 0 {
        (1, 1)
    } else {
        let ov = overlap_weight_exec(q, e);
        (sat_add_exec(ov, ov), sat_add_exec(wq, we))
    }
}

/// Strict rational comparison, executable form.
fn rat_gt_exec(an: u64, ad: u64, bn: u64, bd: u64) -> (r: bool)
    ensures
        r == rat_gt(an as nat, ad as nat, bn as nat, bd as nat),
{
    let x = an as u128;
    let y = bd as u128;
    let z = bn as u128;
    let w = ad as u128;
    proof {
        assert(x * y < 0xffff_ffff_ffff_ffff_ffff_ffff_ffff_ffffu128) by (nonlinear_arith)
            requires
                x < 0x1_0000_0000_0000_0000u128,
                y < 0x1_0000_0000_0000_0000u128,
        ;
        assert(z * w < 0xffff_ffff_ffff_ffff_ffff_ffff_ffff_ffffu128) by (nonlinear_arith)
            requires
                z < 0x1_0000_0000_0000_0000u128,
                w < 0x1_0000_0000_0000_0000u128,
        ;
    }
    x * y > z * w
}

/// Score the query against every entry and return the best match. The
/// winner is the entry with the highest score; equal scores go to the
/// entry whose name sorts first. Fails exactly when the corpus is
/// empty.
pub fn best_match(q: &CanonicalText, c: &Corpus) -> (r: Result<MatchResult, LicenseError>)
    ensures
        r.is_err() <==> c@.len() == 0,
        r matches Err(e) ==> e == LicenseError::EmptyCorpus,
        r matches Ok(m) ==> {
            let b = best_index(c@, q@);
            &&& 0 <= b < c@.len()
            &&& m@.name == c@[b].name
            &&& m@.license_text == c@[b].original
            &&& m@.score_num == score_num(q@, c@[b].canonical)
            &&& m@.score_den == score_den(q@, c@[b].canonical)
            &&& forall|j: int|
                0 <= j < c@.len() ==> !rat_gt(
                    score_num(q@, (#[trigger] c@[j]).canonical),
                    score_den(q@, c@[j].canonical),
                    m@.score_num,
                    m@.score_den,
                )
            &&& forall|j: int|
                0 <= j < b ==> rat_gt(
                    m@.score_num,
                    m@.score_den,
                    score_num(q@, (#[trigger] c@[j]).canonical),
                    score_den(q@, c@[j].canonical),
                )
        },
{
    let n = c.len();
    if n == 0 {
        return Err(LicenseError::EmptyCorpus);
    }
    proof {
        lemma_best_index(c@, q@);
    }
    let first = c.entry_at(0);
    let (mut bn, mut bd) = score_exec(q, first.canonical());
    let mut bi: usize = 0;
    let mut i: usize = 1;
    proof {
        assert(c@.subrange(0, 1).len() == 1);
        assert(best_index(c@.subrange(0, 1), q@) == 0);
        assert(c@.subrange(0, 1)[0] == c@[0]);
    }
    while i < n
        invariant
            1 <= i <= n,
            n == c@.len(),
            bi < i,
            bi as int == best_index(c@.subrange(0, i as int), q@),
            bn as nat == score_num(q@, c@[bi as int].canonical),
            bd as nat == score_den(q@, c@[bi as int].canonical),
        decreases n - i,
    {
        let entry = c.entry_at(i);
        let (sn, sd) = score_exec(q, entry.canonical());
        let ghost pre = c@.subrange(0, i as int);
        let ghost cur = c@.subrange(0, i as int + 1);
        proof {
            assert(cur.drop_last() =~= pre);
            assert(cur.last() == c@[i as int]);
            assert(cur[bi as int] == c@[bi as int]);
        }
        if rat_gt_exec(sn, sd, bn, bd) {
            bi = i;
            bn = sn;
            bd = sd;
            proof {
                assert(best_index(cur, q@) == cur.len() - 1);
            }
        } else {
            proof {
                assert(best_index(cur, q@) == best_index(pre, q@));
            }
        }
        i = i + 1;
    }
    proof {
        assert(c@.subrange(0, n as int) =~= c@);
    }
    let winner = c.entry_at(bi);
    let name = winner.name().clone();
    let license_text = winner.original_text().clone();
    Ok(MatchResult { name, score_num: bn, score_den: bd, license_text })
}

} // verus!
