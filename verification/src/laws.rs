//! The engine's general properties, each stated over all inputs and
//! proved once: normalization is idempotent, identification is a pure
//! function of corpus and query, every corpus entry matches its own
//! text with the maximum score, appending noise to an entry's text
//! never raises its score against that entry, and a query sharing no
//! canonical line with an entry scores zero against it.

use vstd::prelude::*;

use crate::canon::{
    canon_lines, is_space, join_lines, leading_blanks, lemma_leading_blanks_bounds,
    lemma_trailing_blanks_bounds, lower_of, norm_line, normed_lines, split_from, split_lines,
    trailing_blanks, trim_blank_ends, ws_from, ws_line,
};
use crate::corpus::{corpus_wf, entry_wf, EntryModel};
use crate::engine::identify_post;
use crate::matcher::{
    best_index, lemma_best_index, lemma_score_le_one, lemma_score_self, overlap_weight,
    score_den, score_num, weight_sum, MatchModel,
};

verus! {

/// A line whose whitespace is already normal: no whitespace but single
/// internal spaces, no space at either end.
pub open spec fn is_canonical_line(l: Seq<char>) -> bool {
    &&& forall|i: int| 0 <= i < l.len() ==> (is_space(#[trigger] l[i]) ==> l[i] == ' ')
    &&& l.len() > 0 ==> l[0] != ' '
    &&& l.len() > 0 ==> l[l.len() - 1] != ' '
    &&& forall|i: int| 0 <= i < l.len() - 1 ==> !((#[trigger] l[i]) == ' ' && l[i + 1] == ' ')
}

proof fn lemma_nl_canon(l: Seq<char>, pend: bool, acc: Seq<char>)
    requires
        is_canonical_line(acc),
    ensures
        is_canonical_line(ws_from(l, pend, acc)),
    decreases l.len(),
{
    if l.len() == 0 {
    } else if is_space(l[0]) {
        lemma_nl_canon(l.drop_first(), true, acc);
    } else {
        let lw = l[0];
        assert(!is_space(lw));
        if pend && acc.len() > 0 {
            let acc2 = acc.push(' ').push(lw);
            assert(is_canonical_line(acc2)) by {
                assert forall|i: int| 0 <= i < acc2.len() implies (is_space(#[trigger] acc2[i])
                    ==> acc2[i] == ' ') by {
                    if i < acc.len() {
                        assert(acc2[i] == acc[i]);
                    } else if i == acc.len() {
                        assert(acc2[i] == ' ');
                    } else {
                        assert(acc2[i] == lw);
                    }
                }
                assert(acc2[0] == acc[0]);
                assert(acc2[acc2.len() - 1] == lw);
                assert forall|i: int| 0 <= i < acc2.len() - 1 implies !((#[trigger] acc2[i]) == ' '
                    && acc2[i + 1] == ' ') by {
                    if i < acc.len() - 1 {
                        assert(acc2[i] == acc[i] && acc2[i + 1] == acc[i + 1]);
                    } else if i == acc.len() - 1 {
                        assert(acc2[i] == acc[acc.len() - 1] && acc[acc.len() - 1] != ' ');
                    } else {
                        assert(acc2[i + 1] == lw && lw != ' ');
                    }
                }
            }
            lemma_nl_canon(l.drop_first(), false, acc2);
        } else {
            let acc2 = acc.push(lw);
            assert(is_canonical_line(acc2)) by {
                assert forall|i: int| 0 <= i < acc2.len() implies (is_space(#[trigger] acc2[i])
                    ==> acc2[i] == ' ') by {
                    if i < acc.len() {
                        assert(acc2[i] == acc[i]);
                    } else {
                        assert(acc2[i] == lw);
                    }
                }
                if acc.len() > 0 {
                    assert(acc2[0] == acc[0]);
                } else {
                    assert(acc2[0] == lw);
                }
                assert(acc2[acc2.len() - 1] == lw);
                assert forall|i: int| 0 <= i < acc2.len() - 1 implies !((#[trigger] acc2[i]) == ' '
                    && acc2[i + 1] == ' ') by {
                    if i < acc.len() - 1 {
                        assert(acc2[i] == acc[i] && acc2[i + 1] == acc[i + 1]);
                    } else {
                        assert(acc2[i + 1] == lw && lw != ' ');
                    }
                }
            }
            lemma_nl_canon(l.drop_first(), false, acc2);
        }
    }
}

/// The canonical form of any line is itself a canonical line: whatever
/// the case fold returns, the whitespace pass leaves it trimmed and
/// singly spaced.
pub proof fn lemma_norm_line_canonical(l: Seq<char>)
    ensures
        is_canonical_line(norm_line(l)),
{
    assert(is_canonical_line(Seq::<char>::empty()));
    lemma_nl_canon(lower_of(l), false, Seq::empty());
}

proof fn lemma_nl_fixed(l: Seq<char>, acc: Seq<char>)
    requires
        is_canonical_line(l),
    ensures
        ws_from(l, false, acc) == acc + l,
        acc.len() > 0 && l.len() > 0 ==> ws_from(l, true, acc) == acc + seq![' '] + l,
    decreases l.len(),
{
    if l.len() == 0 {
        assert(acc + l =~= acc);
    } else {
        let c0 = l[0];
        assert(c0 != ' ');
        assert(!is_space(c0));
        let tail = l.drop_first();
        if l.len() == 1 {
            assert(tail.len() == 0);
            assert(ws_from(l, false, acc) == ws_from(tail, false, acc.push(c0)));
            assert(ws_from(tail, false, acc.push(c0)) == acc.push(c0));
            assert(acc.push(c0) =~= acc + l);
            if acc.len() > 0 {
                assert(ws_from(l, true, acc) == ws_from(
                    tail,
                    false,
                    acc.push(' ').push(c0),
                ));
                assert(ws_from(tail, false, acc.push(' ').push(c0)) == acc.push(' ').push(
                    c0,
                ));
                assert(acc.push(' ').push(c0) =~= acc + seq![' '] + l);
            }
        } else if l[1] != ' ' {
            assert(is_canonical_line(tail)) by {
                assert forall|i: int| 0 <= i < tail.len() implies tail[i] == l[i + 1] by {}
                assert(tail[0] == l[1]);
                assert(is_space(l[1]) ==> l[1] == ' ');
                assert(tail[tail.len() - 1] == l[l.len() - 1]);
            }
            lemma_nl_fixed(tail, acc.push(c0));
            assert(ws_from(l, false, acc) == ws_from(tail, false, acc.push(c0)));
            assert(acc.push(c0) + tail =~= acc + l);
            if acc.len() > 0 {
                lemma_nl_fixed(tail, acc.push(' ').push(c0));
                assert(ws_from(l, true, acc) == ws_from(
                    tail,
                    false,
                    acc.push(' ').push(c0),
                ));
                assert(acc.push(' ').push(c0) + tail =~= acc + seq![' '] + l);
            }
        } else {
            // The second character is a space, so a third follows and is
            // not one: a canonical line neither ends in a space nor holds
            // two in a row.
            assert(l.len() >= 3) by {
                if l.len() == 2 {
                    assert(l[l.len() - 1] == ' ');
                }
            }
            assert(!(l[1] == ' ' && l[2] == ' '));
            let tail2 = l.skip(2);
            assert(is_canonical_line(tail2)) by {
                assert forall|i: int| 0 <= i < tail2.len() implies tail2[i] == l[i + 2] by {}
                assert(tail2[0] == l[2]);
                assert(is_space(l[2]) ==> l[2] == ' ');
                assert(tail2[tail2.len() - 1] == l[l.len() - 1]);
            }
            assert(tail[0] == l[1] && is_space(l[1]));
            assert(tail.drop_first() =~= tail2);
            assert(ws_from(l, false, acc) == ws_from(tail, false, acc.push(c0)));
            assert(ws_from(tail, false, acc.push(c0)) == ws_from(
                tail2,
                true,
                acc.push(c0),
            ));
            lemma_nl_fixed(tail2, acc.push(c0));
            assert(acc.push(c0) + seq![' '] + tail2 =~= acc + l);
            if acc.len() > 0 {
                assert(ws_from(l, true, acc) == ws_from(
                    tail,
                    false,
                    acc.push(' ').push(c0),
                ));
                assert(ws_from(tail, false, acc.push(' ').push(c0)) == ws_from(
                    tail2,
                    true,
                    acc.push(' ').push(c0),
                ));
                lemma_nl_fixed(tail2, acc.push(' ').push(c0));
                assert(acc.push(' ').push(c0) + seq![' '] + tail2 =~= acc + seq![' '] + l);
            }
        }
    }
}

/// The whitespace pass changes nothing on a line already in canonical
/// form.
pub proof fn lemma_ws_line_fixed(l: Seq<char>)
    requires
        is_canonical_line(l),
    ensures
        ws_line(l) == l,
{
    lemma_nl_fixed(l, Seq::empty());
    assert(Seq::<char>::empty() + l =~= l);
}

/// A line without newline characters.
pub open spec fn no_newline(l: Seq<char>) -> bool {
    forall|i: int| 0 <= i < l.len() ==> (#[trigger] l[i]) != '\n'
}

proof fn lemma_split_no_newline(l: Seq<char>, rest: Seq<char>, cur: Seq<char>, acc: Seq<Seq<char>>)
    requires
        no_newline(l),
    ensures
        split_from(l + rest, cur, acc) == split_from(rest, cur + l, acc),
    decreases l.len(),
{
    if l.len() == 0 {
        assert(l + rest =~= rest);
        assert(cur + l =~= cur);
    } else {
        assert((l + rest)[0] == l[0]);
        assert(l[0] != '\n');
        assert((l + rest).drop_first() =~= l.drop_first() + rest);
        assert(no_newline(l.drop_first())) by {
            let dl = l.drop_first();
            assert forall|i: int| 0 <= i < dl.len() implies (#[trigger] dl[i]) != '\n' by {
                assert(dl[i] == l[i + 1]);
            }
        }
        lemma_split_no_newline(l.drop_first(), rest, cur.push(l[0]), acc);
        assert(cur.push(l[0]) + l.drop_first() =~= cur + l);
    }
}

proof fn lemma_split_append(s1: Seq<char>, s2: Seq<char>, cur: Seq<char>, acc: Seq<Seq<char>>)
    ensures
        split_from(s1 + s2, cur, acc) == split_from(
            s2,
            split_from(s1, cur, acc).last(),
            split_from(s1, cur, acc).drop_last(),
        ),
    decreases s1.len(),
{
    if s1.len() == 0 {
        assert(s1 + s2 =~= s2);
        assert(split_from(s1, cur, acc) == acc.push(cur));
        assert(acc.push(cur).last() == cur);
        assert(acc.push(cur).drop_last() =~= acc);
    } else {
        assert((s1 + s2)[0] == s1[0]);
        assert((s1 + s2).drop_first() =~= s1.drop_first() + s2);
        if s1[0] == '\n' {
            lemma_split_append(s1.drop_first(), s2, Seq::empty(), acc.push(cur));
        } else {
            lemma_split_append(s1.drop_first(), s2, cur.push(s1[0]), acc);
        }
    }
}

/// Splitting a joined line sequence on newlines recovers the lines,
/// provided none of them holds a newline itself.
proof fn lemma_split_join(ls: Seq<Seq<char>>)
    requires
        ls.len() > 0,
        forall|j: int| 0 <= j < ls.len() ==> no_newline(#[trigger] ls[j]),
    ensures
        split_lines(join_lines(ls)) == ls,
    decreases ls.len(),
{
    if ls.len() == 1 {
        assert(Seq::<char>::empty() + ls[0] =~= ls[0]);
        lemma_split_no_newline(ls[0], Seq::empty(), Seq::empty(), Seq::empty());
        assert(ls[0] + Seq::<char>::empty() =~= ls[0]);
        assert(split_lines(join_lines(ls)) == split_from(
            Seq::<char>::empty(),
            Seq::<char>::empty() + ls[0],
            Seq::empty(),
        ));
        assert(Seq::<Seq<char>>::empty().push(Seq::<char>::empty() + ls[0]) =~= ls);
    } else {
        let pre = ls.drop_last();
        let lastl = ls.last();
        assert(forall|j: int| 0 <= j < pre.len() ==> pre[j] == ls[j]);
        assert forall|j: int| 0 <= j < pre.len() implies no_newline(#[trigger] pre[j]) by {
            assert(pre[j] == ls[j]);
        }
        lemma_split_join(pre);
        let tailpart = seq!['\n'] + lastl;
        assert(join_lines(ls) =~= join_lines(pre) + tailpart);
        lemma_split_append(join_lines(pre), tailpart, Seq::empty(), Seq::empty());
        assert(split_lines(join_lines(ls)) == split_from(
            tailpart,
            pre.last(),
            pre.drop_last(),
        ));
        assert(tailpart[0] == '\n');
        assert(tailpart.drop_first() =~= lastl);
        assert(split_from(tailpart, pre.last(), pre.drop_last()) == split_from(
            lastl,
            Seq::empty(),
            pre.drop_last().push(pre.last()),
        ));
        assert(pre.drop_last().push(pre.last()) =~= pre);
        lemma_split_no_newline(lastl, Seq::empty(), Seq::empty(), pre);
        assert(lastl + Seq::<char>::empty() =~= lastl);
        assert(split_from(lastl, Seq::empty(), pre) == pre.push(
            Seq::<char>::empty() + lastl,
        ));
        assert(pre.push(Seq::<char>::empty() + lastl) =~= ls);
    }
}

/// A sequence of lines whose first and last lines are nonblank is not
/// changed by trimming blank ends.
proof fn lemma_trim_fixed(ls: Seq<Seq<char>>)
    requires
        ls.len() > 0 ==> ls[0].len() > 0 && ls[ls.len() - 1].len() > 0,
    ensures
        trim_blank_ends(ls) == ls,
{
    if ls.len() == 0 {
        assert(trim_blank_ends(ls) =~= ls);
    } else {
        assert(leading_blanks(ls) == 0);
        assert(trailing_blanks(ls) == 0);
        assert(ls.subrange(0, ls.len() as int) =~= ls);
    }
}

/// Every line of a canonical text is a canonical line, and the first
/// and last are nonblank.
pub proof fn lemma_canon_lines_shape(t: Seq<char>)
    ensures
        forall|j: int|
            0 <= j < canon_lines(t).len() ==> is_canonical_line(#[trigger] canon_lines(t)[j]),
        canon_lines(t).len() > 0 ==> canon_lines(t)[0].len() > 0,
        canon_lines(t).len() > 0 ==> canon_lines(t)[canon_lines(t).len() - 1].len() > 0,
{
    let nl = normed_lines(t);
    lemma_leading_blanks_bounds(nl);
    lemma_trailing_blanks_bounds(nl);
    let lead = leading_blanks(nl);
    let trail = trailing_blanks(nl);
    assert forall|j: int| 0 <= j < nl.len() implies is_canonical_line(#[trigger] nl[j]) by {
        assert(nl[j] == norm_line(split_lines(t)[j]));
        lemma_norm_line_canonical(split_lines(t)[j]);
    }
    if lead < nl.len() {
        let c = canon_lines(t);
        assert(c == nl.subrange(lead, nl.len() - trail));
        assert forall|j: int| 0 <= j < c.len() implies is_canonical_line(#[trigger] c[j]) by {
            assert(c[j] == nl[lead + j]);
        }
        if c.len() > 0 {
            assert(c[0] == nl[lead]);
            assert(c[c.len() - 1] == nl[nl.len() - trail - 1]);
            if trail >= nl.len() {
                assert(nl[lead].len() == 0);
            }
        }
    }
}

/// Normalization is idempotent: joining a text's canonical lines with
/// newlines and normalizing again yields the same canonical lines.
/// The whitespace and line structure is proved outright; the case fold
/// is a trusted mapping, so the law carries as hypotheses the two facts
/// about it that make re-folding a no-op — it fixes the already folded
/// canonical lines and maps the empty line to itself — which hold of
/// the Unicode lowercase mapping and are exercised by the tests.
pub proof fn lemma_normalize_idempotent(t: Seq<char>)
    ensures
        (lower_of(Seq::<char>::empty()) == Seq::<char>::empty() && (forall|j: int|
            0 <= j < canon_lines(t).len() ==> lower_of(#[trigger] canon_lines(t)[j])
                == canon_lines(t)[j])) ==> canon_lines(join_lines(canon_lines(t)))
            == canon_lines(t),
{
    let c = canon_lines(t);
    lemma_canon_lines_shape(t);
    if lower_of(Seq::<char>::empty()) == Seq::<char>::empty() && (forall|j: int|
        0 <= j < c.len() ==> lower_of(#[trigger] c[j]) == c[j]) {
        if c.len() == 0 {
            let e = Seq::<char>::empty();
            assert(join_lines(c) == e);
            assert(split_lines(e) =~= seq![e]);
            assert(norm_line(e) == ws_line(lower_of(e)));
            assert(norm_line(e) == e);
            assert(normed_lines(e) =~= seq![e]);
            let one = seq![e];
            assert(one.drop_first() =~= Seq::<Seq<char>>::empty());
            assert(leading_blanks(Seq::<Seq<char>>::empty()) == 0);
            assert(one[0].len() == 0);
            assert(leading_blanks(one) == 1);
            assert(leading_blanks(normed_lines(e)) == 1);
            assert(canon_lines(e) =~= c);
        } else {
            assert forall|j: int| 0 <= j < c.len() implies no_newline(#[trigger] c[j]) by {
                assert(is_canonical_line(c[j]));
                assert forall|i: int| 0 <= i < c[j].len() implies (#[trigger] c[j][i]) != '\n' by {
                    assert(is_space(c[j][i]) ==> c[j][i] == ' ');
                    assert(is_space('\n'));
                }
            }
            lemma_split_join(c);
            let again = normed_lines(join_lines(c));
            assert forall|j: int| 0 <= j < again.len() implies #[trigger] again[j] == c[j] by {
                assert(again[j] == norm_line(split_lines(join_lines(c))[j]));
                assert(split_lines(join_lines(c))[j] == c[j]);
                assert(lower_of(c[j]) == c[j]);
                lemma_ws_line_fixed(c[j]);
            }
            assert(again =~= c);
            lemma_trim_fixed(c);
            assert(canon_lines(join_lines(c)) == trim_blank_ends(again));
        }
    }
}

/// Identification is deterministic: any two results that the identify
/// contract allows for one corpus and one text are equal.
pub proof fn lemma_identify_deterministic(
    c: Seq<EntryModel>,
    t: Seq<char>,
    m1: MatchModel,
    m2: MatchModel,
)
    requires
        identify_post(c, t, m1),
        identify_post(c, t, m2),
    ensures
        m1 == m2,
{
    assert(m1 =~= m2);
}

proof fn lemma_mul_le_cancel(d: nat, x: nat, y: nat)
    by (nonlinear_arith)
    requires
        d >= 1,
        d * x <= d * y,
    ensures
        x <= y,
{
}

proof fn lemma_mul_le_mono(x: nat, y: nat, d: nat)
    by (nonlinear_arith)
    requires
        x <= y,
    ensures
        x * d <= y * d,
{
}

/// Self-match: identifying an entry's own original text always reports
/// the maximum score, 1; and where no other entry also scores 1, it
/// reports that entry's own name.
pub proof fn lemma_self_match(c: Seq<EntryModel>, i: int, m: MatchModel)
    requires
        corpus_wf(c),
        0 <= i < c.len(),
        identify_post(c, c[i].original, m),
    ensures
        m.score_num == m.score_den,
        (forall|j: int|
            0 <= j < c.len() && j != i ==> score_num(
                canon_lines(c[i].original),
                (#[trigger] c[j]).canonical,
            ) != score_den(canon_lines(c[i].original), c[j].canonical)) ==> m.name == c[i].name,
{
    let q = canon_lines(c[i].original);
    assert(entry_wf(c[i]));
    assert(c[i].canonical == q);
    lemma_score_self(q);
    lemma_score_le_one(q, c[i].canonical);
    let b = best_index(c, q);
    lemma_best_index(c, q);
    lemma_score_le_one(q, c[b].canonical);
    assert(!crate::matcher::rat_gt(
        score_num(q, c[i].canonical),
        score_den(q, c[i].canonical),
        score_num(q, c[b].canonical),
        score_den(q, c[b].canonical),
    ));
    let sn = score_num(q, c[b].canonical);
    let sd = score_den(q, c[b].canonical);
    let di = score_den(q, c[i].canonical);
    assert(di * sd <= sn * di);
    assert(di * sd == sd * di) by (nonlinear_arith);
    assert(sn * di == di * sn) by (nonlinear_arith);
    lemma_mul_le_cancel(di, sd, sn);
    assert(sn == sd);
    assert(m.score_num == sn && m.score_den == sd);
    if (forall|j: int|
        0 <= j < c.len() && j != i ==> score_num(
            canon_lines(c[i].original),
            (#[trigger] c[j]).canonical,
        ) != score_den(canon_lines(c[i].original), c[j].canonical)) {
        if b != i {
            assert(score_num(q, c[b].canonical) != score_den(q, c[b].canonical));
            assert(false);
        }
        assert(m.name == c[i].name);
    }
}

proof fn lemma_overlap_disjoint(q: Seq<Seq<char>>, e: Seq<Seq<char>>)
    requires
        forall|i: int| 0 <= i < q.len() ==> !e.contains(#[trigger] q[i]),
    ensures
        overlap_weight(q, e) == 0,
    decreases q.len(),
{
    if q.len() > 0 {
        assert(!e.contains(q[0]));
        let tail = q.drop_first();
        assert forall|i: int| 0 <= i < tail.len() implies !e.contains(#[trigger] tail[i]) by {
            assert(tail[i] == q[i + 1]);
        }
        lemma_overlap_disjoint(tail, e);
    }
}

/// A best-of-a-bad-lot result is still low: a query whose canonical
/// lines share no line with an entry's scores exactly zero against it,
/// as long as the two texts are not both empty.
pub proof fn lemma_disjoint_score_zero(q: Seq<Seq<char>>, e: Seq<Seq<char>>)
    requires
        forall|i: int| 0 <= i < q.len() ==> !e.contains(#[trigger] q[i]),
        q.len() + e.len() > 0,
    ensures
        score_num(q, e) == 0,
        score_den(q, e) >= 1,
{
    lemma_overlap_disjoint(q, e);
    lemma_score_le_one(q, e);
    if q.len() > 0 {
        assert(weight_sum(q) >= 1);
    } else {
        assert(weight_sum(e) >= 1);
    }
}

/// Monotonic degradation: against a given entry, a query made of the
/// entry's own text with anything appended scores no higher than the
/// entry's own text, compared as rationals by cross-multiplication.
pub proof fn lemma_monotonic_degradation(t: Seq<char>, noise: Seq<char>, e: EntryModel)
    requires
        entry_wf(e),
        e.original == t,
    ensures
        score_num(canon_lines(t + noise), e.canonical) * score_den(canon_lines(t), e.canonical)
            <= score_num(canon_lines(t), e.canonical) * score_den(
            canon_lines(t + noise),
            e.canonical,
        ),
{
    let q1 = canon_lines(t);
    let q2 = canon_lines(t + noise);
    assert(e.canonical == q1);
    lemma_score_self(q1);
    lemma_score_le_one(q2, q1);
    let n1 = score_num(q1, q1);
    let d1 = score_den(q1, q1);
    let n2 = score_num(q2, q1);
    let d2 = score_den(q2, q1);
    lemma_mul_le_mono(n2, d2, d1);
    assert(n2 * d1 <= d2 * d1);
    assert(d2 * d1 == d1 * d2) by (nonlinear_arith);
    assert(n1 * d2 == d1 * d2) by (nonlinear_arith)
        requires
            n1 == d1,
    ;
}

} // verus!
