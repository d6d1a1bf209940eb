//! The normalizer: reduces arbitrary text to a canonical, comparable
//! sequence of lines.
//!
//! A canonical line is the Unicode lowercase of the raw line, trimmed,
//! with every internal run of whitespace collapsed to a single space.
//! A canonical text is the sequence of canonical lines with the blank
//! lines at the very start and end stripped; internal blank lines are
//! kept, as paragraph breaks carry structural signal.

use vstd::prelude::*;

verus! {

/// The characters treated as whitespace by the normalizer: the
/// Unicode `White_Space` code points, the same set that
/// `char::is_whitespace` recognizes.
pub open spec fn is_space(c: char) -> bool {
    ('\u{9}' <= c && c <= '\u{d}') || c == ' ' || c == '\u{85}' || c == '\u{a0}'
        || c == '\u{1680}' || ('\u{2000}' <= c && c <= '\u{200a}') || c == '\u{2028}'
        || c == '\u{2029}' || c == '\u{202f}' || c == '\u{205f}' || c == '\u{3000}'
}

/// Whitespace test, executable form.
pub fn is_space_char(c: char) -> (r: bool)
    ensures
        r == is_space(c),
{
    ('\u{9}' <= c && c <= '\u{d}') || c == ' ' || c == '\u{85}' || c == '\u{a0}'
        || c == '\u{1680}' || ('\u{2000}' <= c && c <= '\u{200a}') || c == '\u{2028}'
        || c == '\u{2029}' || c == '\u{202f}' || c == '\u{205f}' || c == '\u{3000}'
}

/// The Unicode lowercase of a text: what `str::to_lowercase` returns
/// for it, a function of the characters alone.
pub uninterp spec fn lower_of(s: Seq<char>) -> Seq<char>;

/// Whitespace normalization of one line: `ws_from(l, pend, acc)` walks
/// `l` left to right, carrying in `acc` the output built so far and in
/// `pend` whether whitespace was seen since the last emitted character.
/// A run of whitespace becomes a single space, and only between two
/// emitted characters, so the result is trimmed.
pub open spec fn ws_from(l: Seq<char>, pend: bool, acc: Seq<char>) -> Seq<char>
    decreases l.len(),
{
    if l.len() == 0 {
        acc
    } else if is_space(l[0]) {
        ws_from(l.drop_first(), true, acc)
    } else if pend && acc.len() > 0 {
        ws_from(l.drop_first(), false, acc.push(' ').push(l[0]))
    } else {
        ws_from(l.drop_first(), false, acc.push(l[0]))
    }
}

/// Whitespace normalization of one line: trimmed, internal runs of
/// whitespace collapsed to single spaces.
pub open spec fn ws_line(l: Seq<char>) -> Seq<char> {
    ws_from(l, false, Seq::empty())
}

/// The canonical form of one line: its Unicode lowercase, trimmed and
/// whitespace-collapsed.
pub open spec fn norm_line(l: Seq<char>) -> Seq<char> {
    ws_line(lower_of(l))
}

/// Splitting a text on newline characters: `cur` is the line being read,
/// `acc` the lines already complete. A text of n newlines always yields
/// n + 1 lines; in particular the empty text yields one empty line.
pub open spec fn split_from(s: Seq<char>, cur: Seq<char>, acc: Seq<Seq<char>>) -> Seq<Seq<char>>
    decreases s.len(),
{
    if s.len() == 0 {
        acc.push(cur)
    } else if s[0] == '\n' {
        split_from(s.drop_first(), Seq::empty(), acc.push(cur))
    } else {
        split_from(s.drop_first(), cur.push(s[0]), acc)
    }
}

/// The lines of a text.
pub open spec fn split_lines(s: Seq<char>) -> Seq<Seq<char>> {
    split_from(s, Seq::empty(), Seq::empty())
}

/// How many blank lines stand at the start of `ls`.
pub open spec fn leading_blanks(ls: Seq<Seq<char>>) -> int
    decreases ls.len(),
{
    if ls.len() == 0 {
        0
    } else if ls[0].len() == 0 {
        1 + leading_blanks(ls.drop_first())
    } else {
        0
    }
}

/// How many blank lines stand at the end of `ls`.
pub open spec fn trailing_blanks(ls: Seq<Seq<char>>) -> int
    decreases ls.len(),
{
    if ls.len() == 0 {
        0
    } else if ls.last().len() == 0 {
        1 + trailing_blanks(ls.drop_last())
    } else {
        0
    }
}

/// `ls` without its leading and trailing blank lines. A sequence of
/// blank lines only is trimmed to nothing.
pub open spec fn trim_blank_ends(ls: Seq<Seq<char>>) -> Seq<Seq<char>> {
    if leading_blanks(ls) == ls.len() {
        Seq::empty()
    } else {
        ls.subrange(leading_blanks(ls), ls.len() - trailing_blanks(ls))
    }
}

/// The views of a vector of lines.
pub open spec fn views_of(v: Seq<String>) -> Seq<Seq<char>> {
    v.map_values(|l: String| l@)
}

/// Every line of a text, normalized, blank ends not yet stripped.
pub open spec fn normed_lines(s: Seq<char>) -> Seq<Seq<char>> {
    split_lines(s).map_values(|l: Seq<char>| norm_line(l))
}

/// The canonical line sequence of a text: split on newlines, normalize
/// each line, strip the blank lines at both ends.
pub open spec fn canon_lines(s: Seq<char>) -> Seq<Seq<char>> {
    trim_blank_ends(normed_lines(s))
}

/// The canonical lines joined back into one text, a single newline
/// between each pair of adjacent lines.
pub open spec fn join_lines(ls: Seq<Seq<char>>) -> Seq<char>
    decreases ls.len(),
{
    if ls.len() == 0 {
        Seq::empty()
    } else if ls.len() == 1 {
        ls[0]
    } else {
        join_lines(ls.drop_last()).push('\n') + ls.last()
    }
}

pub proof fn lemma_leading_blanks_bounds(ls: Seq<Seq<char>>)
    ensures
        0 <= leading_blanks(ls) <= ls.len(),
        forall|j: int| 0 <= j < leading_blanks(ls) ==> #[trigger] ls[j].len() == 0,
        leading_blanks(ls) < ls.len() ==> ls[leading_blanks(ls)].len() > 0,
    decreases ls.len(),
{
    if ls.len() > 0 && ls[0].len() == 0 {
        lemma_leading_blanks_bounds(ls.drop_first());
        assert forall|j: int| 0 <= j < leading_blanks(ls) implies #[trigger] ls[j].len() == 0 by {
            if j > 0 {
                assert(ls.drop_first()[j - 1].len() == 0);
            }
        }
    }
}

pub proof fn lemma_trailing_blanks_bounds(ls: Seq<Seq<char>>)
    ensures
        0 <= trailing_blanks(ls) <= ls.len(),
        forall|j: int|
            ls.len() - trailing_blanks(ls) <= j < ls.len() ==> #[trigger] ls[j].len() == 0,
        trailing_blanks(ls) < ls.len() ==> ls[ls.len() - trailing_blanks(ls) - 1].len() > 0,
    decreases ls.len(),
{
    if ls.len() > 0 && ls.last().len() == 0 {
        lemma_trailing_blanks_bounds(ls.drop_last());
        assert forall|j: int|
            ls.len() - trailing_blanks(ls) <= j < ls.len() implies #[trigger] ls[j].len() == 0 by {
            if j < ls.len() - 1 {
                assert(ls.drop_last()[j].len() == 0);
            }
        }
    }
}

/// Trusted: relies on `String::push`, which appends the given character
/// to the end of the string.
#[verifier::external_body]
fn push_char(s: &mut String, c: char)
    ensures
        final(s)@ == old(s)@.push(c),
{
    s.push(c);
}

/// Relies on `str::to_lowercase`: the lowercase of the text by the
/// Unicode Character Database mappings, depending on the characters
/// alone; the lowercase of the empty string is empty.
#[verifier::external_body]
fn lowercase(s: &str) -> (r: String)
    ensures
        r@ == lower_of(s@),
        s@.len() == 0 ==> r@.len() == 0,
{
    s.to_lowercase()
}

/// Normalize one line: case fold, trim, collapse internal whitespace.
fn norm_line_exec(line: &str) -> (r: String)
    ensures
        r@ == norm_line(line@),
{
    let folded = lowercase(line);
    let ghost l = folded@;
    let n: usize = folded.as_str().unicode_len();
    let mut acc = String::new();
    let mut pend = false;
    let mut i: usize = 0;
    proof {
        assert(l.skip(0) =~= l);
    }
    while i < n
        invariant
            n == l.len(),
            i <= n,
            l == lower_of(line@),
            folded@ == l,
            norm_line(line@) == ws_from(l.skip(i as int), pend, acc@),
        decreases n - i,
    {
        let c = folded.as_str().get_char(i);
        proof {
            assert(l.skip(i as int)[0] == l[i as int]);
            assert(l.skip(i as int).drop_first() =~= l.skip(i as int + 1));
        }
        if is_space_char(c) {
            pend = true;
        } else {
            if pend && !acc.as_str().is_empty() {
                push_char(&mut acc, ' ');
            }
            push_char(&mut acc, c);
            pend = false;
        }
        i = i + 1;
    }
    proof {
        assert(l.skip(n as int) =~= Seq::<char>::empty());
    }
    acc
}

/// Split a text into its lines, one per newline boundary.
fn split_lines_exec(text: &str) -> (r: Vec<String>)
    ensures
        views_of(r@) == split_lines(text@),
{
    let ghost s = text@;
    let n: usize = text.unicode_len();
    let mut out: Vec<String> = Vec::new();
    let mut cur = String::new();
    let mut i: usize = 0;
    proof {
        assert(s.skip(0) =~= s);
        assert(views_of(out@) =~= Seq::<Seq<char>>::empty());
    }
    while i < n
        invariant
            n == s.len(),
            i <= n,
            s == text@,
            split_lines(s) == split_from(s.skip(i as int), cur@, views_of(out@)),
        decreases n - i,
    {
        let c = text.get_char(i);
        proof {
            assert(s.skip(i as int)[0] == s[i as int]);
            assert(s.skip(i as int).drop_first() =~= s.skip(i as int + 1));
        }
        if c == '\n' {
            let ghost prev = views_of(out@);
            out.push(cur);
            cur = String::new();
            proof {
                assert(views_of(out@) =~= prev.push(out@.last()@));
            }
        } else {
            push_char(&mut cur, c);
        }
        i = i + 1;
    }
    proof {
        assert(s.skip(n as int) =~= Seq::<char>::empty());
    }
    let ghost prev = views_of(out@);
    out.push(cur);
    proof {
        assert(views_of(out@) =~= prev.push(out@.last()@));
    }
    out
}

/// A canonical text: the normalized line sequence of one document.
pub struct CanonicalText {
    lines: Vec<String>,
}

impl View for CanonicalText {
    type V = Seq<Seq<char>>;

    closed spec fn view(&self) -> Seq<Seq<char>> {
        views_of(self.lines@)
    }
}

impl CanonicalText {
    /// How many lines the canonical text holds.
    pub fn len(&self) -> (r: usize)
        ensures
            r == self@.len(),
    {
        self.lines.len()
    }

    /// The canonical line at index `i`.
    pub fn line(&self, i: usize) -> (r: &String)
        requires
            i < self@.len(),
        ensures
            r@ == self@[i as int],
    {
        &self.lines[i]
    }

    /// The canonical lines joined with single newlines, for external
    /// consumption.
    pub fn joined(&self) -> (r: String)
        ensures
            r@ == join_lines(self@),
    {
        let mut out = String::new();
        let mut i: usize = 0;
        let n = self.lines.len();
        proof {
            assert(self@.take(0) =~= Seq::<Seq<char>>::empty());
        }
        while i < n
            invariant
                i <= n,
                n == self@.len(),
                out@ == join_lines(self@.take(i as int)),
            decreases n - i,
        {
            let ghost pre = self@.take(i as int);
            let ghost cur = self@.take(i as int + 1);
            proof {
                assert(cur.drop_last() =~= pre);
                assert(cur.last() == self@[i as int]);
            }
            if i > 0 {
                push_char(&mut out, '\n');
            }
            out.append(self.lines[i].as_str());
            proof {
                if i == 0 {
                    assert(out@ =~= cur[0]);
                } else {
                    assert(out@ =~= join_lines(pre).push('\n') + cur.last());
                }
            }
            i = i + 1;
        }
        proof {
            assert(self@.take(n as int) =~= self@);
        }
        out
    }
}

/// Normalize a whole document into its canonical line sequence.
pub fn normalize(text: &str) -> (r: CanonicalText)
    ensures
        r@ == canon_lines(text@),
{
    let raw = split_lines_exec(text);
    let mut normed: Vec<String> = Vec::new();
    let mut i: usize = 0;
    while i < raw.len()
        invariant
            i <= raw@.len(),
            normed@.len() == i,
            views_of(raw@) == split_lines(text@),
            forall|j: int|
                0 <= j < i ==> #[trigger] normed@[j]@ == norm_line(split_lines(text@)[j]),
        decreases raw@.len() - i,
    {
        let nl = norm_line_exec(raw[i].as_str());
        normed.push(nl);
        i = i + 1;
    }
    let ghost all = normed_lines(text@);
    proof {
        assert(views_of(normed@) =~= all);
    }
    // Strip blank lines at both ends.
    let total = normed.len();
    let mut lead: usize = 0;
    while lead < total && normed[lead].as_str().is_empty()
        invariant
            lead <= total,
            total == all.len(),
            views_of(normed@) == all,
            normed@.len() == total,
            forall|j: int| 0 <= j < lead ==> #[trigger] all[j].len() == 0,
        decreases total - lead,
    {
        proof {
            assert(all[lead as int] == normed@[lead as int]@);
        }
        lead = lead + 1;
    }
    if lead == total {
        let empty = CanonicalText { lines: Vec::new() };
        proof {
            lemma_leading_blanks_bounds(all);
            if leading_blanks(all) < all.len() {
                assert(all[leading_blanks(all)].len() == 0);
            }
            assert(empty@ =~= canon_lines(text@));
        }
        return empty;
    }
    proof {
        assert(all[lead as int] == normed@[lead as int]@);
        lemma_leading_blanks_bounds(all);
        if leading_blanks(all) < lead {
            assert(all[leading_blanks(all)].len() == 0);
        }
        assert(leading_blanks(all) == lead);
    }
    let mut trail: usize = 0;
    while normed[total - 1 - trail].as_str().is_empty()
        invariant
            trail < total,
            total == all.len(),
            views_of(normed@) == all,
            normed@.len() == total,
            lead < total,
            all[lead as int].len() > 0,
            forall|j: int| total - trail <= j < total ==> #[trigger] all[j].len() == 0,
        decreases total - trail,
    {
        proof {
            assert(all[(total - 1 - trail) as int] == normed@[(total - 1 - trail) as int]@);
            if total - 1 - trail <= lead {
                assert(all[lead as int].len() == 0);
            }
        }
        trail = trail + 1;
    }
    proof {
        assert(all[(total - 1 - trail) as int] == normed@[(total - 1 - trail) as int]@);
        lemma_trailing_blanks_bounds(all);
        if trailing_blanks(all) < trail {
            assert(all[all.len() - trailing_blanks(all) - 1].len() == 0);
        }
        if trailing_blanks(all) > trail {
            assert(all[all.len() - trail - 1].len() == 0);
        }
        assert(trailing_blanks(all) == trail);
    }
    let stop = total - trail;
    let mut kept: Vec<String> = Vec::new();
    let mut k: usize = lead;
    while k < stop
        invariant
            lead <= k <= stop <= total,
            total == all.len(),
            views_of(normed@) == all,
            normed@.len() == total,
            kept@.len() == k - lead,
            forall|j: int|
                0 <= j < kept@.len() ==> #[trigger] kept@[j]@ == all[lead + j],
        decreases stop - k,
    {
        let cl = normed[k].clone();
        proof {
            assert(all[k as int] == normed@[k as int]@);
        }
        kept.push(cl);
        k = k + 1;
    }
    let r = CanonicalText { lines: kept };
    proof {
        assert(r@ =~= canon_lines(text@));
    }
    r
}

} // verus!
