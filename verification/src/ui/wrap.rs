//! Greedy word wrapping: paragraphs, words and over-long words broken char
//! by char, against a caller's test of whether a line fits.

use vstd::prelude::*;

use crate::persistence::texts;
use crate::text::{push_char, push_str};

verus! {

// ---------------------------------------------------------------------------
// Splitting text
// ---------------------------------------------------------------------------

/// `c` has the Unicode White_Space property, the test `char::is_whitespace`
/// makes: tab through carriage return, space, next line, no-break space,
/// ogham space mark, the spaces from en quad to hair space, the line and
/// paragraph separators, narrow no-break space, medium mathematical space
/// and ideographic space.
pub open spec fn white_space(c: char) -> bool {
    ||| '\u{9}' <= c <= '\u{d}'
    ||| c == '\u{20}'
    ||| c == '\u{85}'
    ||| c == '\u{a0}'
    ||| c == '\u{1680}'
    ||| '\u{2000}' <= c <= '\u{200a}'
    ||| c == '\u{2028}'
    ||| c == '\u{2029}'
    ||| c == '\u{202f}'
    ||| c == '\u{205f}'
    ||| c == '\u{3000}'
}

/// Whether `c` is white space, as `white_space` lists it.
pub fn is_white_space(c: char) -> (r: bool)
    ensures
        r == white_space(c),
{
    ('\u{9}' <= c && c <= '\u{d}') || c == '\u{20}' || c == '\u{85}' || c == '\u{a0}' || c == '\u{1680}'
        || ('\u{2000}' <= c && c <= '\u{200a}') || c == '\u{2028}' || c == '\u{2029}' || c == '\u{202f}'
        || c == '\u{205f}' || c == '\u{3000}'
}

/// The paragraphs of `t`: the pieces between its `'\n'` characters, in
/// order; a text without one is a single paragraph.
pub open spec fn paragraphs(t: Seq<char>) -> Seq<Seq<char>>
    decreases t.len(),
{
    if t.len() == 0 {
        seq![Seq::empty()]
    } else {
        let ps = paragraphs(t.drop_last());
        if t.last() == '\n' {
            ps.push(Seq::empty())
        } else {
            ps.update(ps.len() - 1, ps.last().push(t.last()))
        }
    }
}

/// The words of `p`: its maximal runs of characters that are not white
/// space, in order.
pub open spec fn words(p: Seq<char>) -> Seq<Seq<char>>
    decreases p.len(),
{
    if p.len() == 0 {
        seq![]
    } else {
        let ws = words(p.drop_last());
        let c = p.last();
        if white_space(c) {
            ws
        } else if p.len() >= 2 && !white_space(p[p.len() - 2]) {
            ws.update(ws.len() - 1, ws.last().push(c))
        } else {
            ws.push(seq![c])
        }
    }
}

/// A text always has at least one paragraph.
proof fn lemma_paragraphs_nonempty(t: Seq<char>)
    ensures
        paragraphs(t).len() >= 1,
    decreases t.len(),
{
    if t.len() > 0 {
        lemma_paragraphs_nonempty(t.drop_last());
    }
}

/// Every word has a character, and a text that ends in a character that is
/// not white space has a word.
proof fn lemma_words_shape(p: Seq<char>)
    ensures
        forall|i: int| 0 <= i < words(p).len() ==> (#[trigger] words(p)[i]).len() > 0,
        p.len() > 0 && !white_space(p.last()) ==> words(p).len() > 0,
    decreases p.len(),
{
    if p.len() > 0 {
        let ws = words(p.drop_last());
        lemma_words_shape(p.drop_last());
        if p.len() >= 2 {
            assert(p.drop_last().last() == p[p.len() - 2]);
        }
        assert forall|i: int| 0 <= i < words(p).len() implies (#[trigger] words(p)[i]).len() > 0 by {
            if i < ws.len() {
                assert(ws[i].len() > 0);
            }
        }
    }
}

// ---------------------------------------------------------------------------
// Placing words on lines
// ---------------------------------------------------------------------------

/// One char of an over-long word: it joins the current chunk when the
/// chunk with it fits, or when the chunk is empty; otherwise the chunk
/// becomes a line and the char starts a new chunk.
pub open spec fn chunk_step(
    fits: spec_fn(Seq<char>) -> bool,
    st: (Seq<Seq<char>>, Seq<char>),
    c: char,
) -> (Seq<Seq<char>>, Seq<char>) {
    let cand = st.1.push(c);
    if !fits(cand) && st.1.len() > 0 {
        (st.0.push(st.1), seq![c])
    } else {
        (st.0, cand)
    }
}

/// Breaking word `w` char by char after `lines`: the lines then, and the
/// chunk left over.
pub open spec fn break_word(
    fits: spec_fn(Seq<char>) -> bool,
    lines: Seq<Seq<char>>,
    w: Seq<char>,
) -> (Seq<Seq<char>>, Seq<char>)
    decreases w.len(),
{
    if w.len() == 0 {
        (lines, Seq::empty())
    } else {
        chunk_step(fits, break_word(fits, lines, w.drop_last()), w.last())
    }
}

/// One word: it joins the current line after a space when that fits;
/// otherwise the current line (if any) is finished, and the word starts the
/// next line when it fits alone, or is broken char by char when it does
/// not.
pub open spec fn word_step(
    fits: spec_fn(Seq<char>) -> bool,
    st: (Seq<Seq<char>>, Seq<char>),
    w: Seq<char>,
) -> (Seq<Seq<char>>, Seq<char>) {
    let cur = st.1;
    let cand = if cur.len() == 0 {
        w
    } else {
        cur + seq![' '] + w
    };
    if fits(cand) {
        (st.0, cand)
    } else {
        let lines = if cur.len() > 0 {
            st.0.push(cur)
        } else {
            st.0
        };
        if fits(w) {
            (lines, w)
        } else {
            break_word(fits, lines, w)
        }
    }
}

/// Placing the words `ws` in order: the finished lines and the current one.
pub open spec fn place_words(fits: spec_fn(Seq<char>) -> bool, ws: Seq<Seq<char>>) -> (
    Seq<Seq<char>>,
    Seq<char>,
)
    decreases ws.len(),
{
    if ws.len() == 0 {
        (seq![], seq![])
    } else {
        word_step(fits, place_words(fits, ws.drop_last()), ws.last())
    }
}

/// The lines of one paragraph: a single empty line when it has no words,
/// otherwise its words placed greedily.
pub open spec fn paragraph_lines(fits: spec_fn(Seq<char>) -> bool, p: Seq<char>) -> Seq<Seq<char>> {
    let ws = words(p);
    if ws.len() == 0 {
        seq![Seq::empty()]
    } else {
        let st = place_words(fits, ws);
        if st.1.len() > 0 {
            st.0.push(st.1)
        } else {
            st.0
        }
    }
}

/// The lines of the paragraphs `ps`, one paragraph after the other.
pub open spec fn wrap_paragraphs(fits: spec_fn(Seq<char>) -> bool, ps: Seq<Seq<char>>) -> Seq<Seq<char>>
    decreases ps.len(),
{
    if ps.len() == 0 {
        seq![]
    } else {
        wrap_paragraphs(fits, ps.drop_last()) + paragraph_lines(fits, ps.last())
    }
}

/// `text` wrapped greedily with `fits` deciding whether a line fits; at
/// least one line.
pub open spec fn greedy_wrap(fits: spec_fn(Seq<char>) -> bool, text: Seq<char>) -> Seq<Seq<char>> {
    let lines = wrap_paragraphs(fits, paragraphs(text));
    if lines.len() == 0 {
        seq![Seq::empty()]
    } else {
        lines
    }
}

// ---------------------------------------------------------------------------
// Lines that join words were tested with their spaces
// ---------------------------------------------------------------------------

/// Every line that holds a space, that is, more than one word, is one that
/// `fits` accepted.
pub open spec fn spaced_lines_fit(fits: spec_fn(Seq<char>) -> bool, lines: Seq<Seq<char>>) -> bool {
    forall|i: int| 0 <= i < lines.len() && (#[trigger] lines[i]).contains(' ') ==> fits(lines[i])
}

/// Appending a char other than a space to a text without one gives a text
/// without one.
proof fn lemma_push_no_space(t: Seq<char>, c: char)
    requires
        !t.contains(' '),
        c != ' ',
    ensures
        !t.push(c).contains(' '),
{
    if t.push(c).contains(' ') {
        let k = choose|k: int| 0 <= k < t.push(c).len() && t.push(c)[k] == ' ';
        if k < t.len() {
            assert(t[k] == ' ');
        }
    }
}

proof fn lemma_words_have_no_space(p: Seq<char>)
    ensures
        forall|i: int| 0 <= i < words(p).len() ==> !(#[trigger] words(p)[i]).contains(' '),
    decreases p.len(),
{
    if p.len() > 0 {
        let p1 = p.drop_last();
        let ws = words(p1);
        lemma_words_have_no_space(p1);
        let c = p.last();
        if !white_space(c) {
            assert(c != ' ');
            lemma_push_no_space(Seq::<char>::empty(), c);
            assert(Seq::<char>::empty().push(c) =~= seq![c]);
            if p.len() >= 2 && !white_space(p[p.len() - 2]) {
                assert(p1.last() == p[p.len() - 2]);
                lemma_words_shape(p1);
                lemma_push_no_space(ws.last(), c);
                assert forall|i: int| 0 <= i < words(p).len() implies !(#[trigger] words(p)[i]).contains(' ') by {
                    if i < ws.len() - 1 {
                        assert(words(p)[i] == ws[i]);
                    }
                }
            } else {
                assert forall|i: int| 0 <= i < words(p).len() implies !(#[trigger] words(p)[i]).contains(' ') by {
                    if i < ws.len() {
                        assert(words(p)[i] == ws[i]);
                    }
                }
            }
        }
    }
}

proof fn lemma_break_word_fits(fits: spec_fn(Seq<char>) -> bool, lines: Seq<Seq<char>>, w: Seq<char>)
    requires
        spaced_lines_fit(fits, lines),
        !w.contains(' '),
    ensures
        spaced_lines_fit(fits, break_word(fits, lines, w).0),
        !break_word(fits, lines, w).1.contains(' '),
    decreases w.len(),
{
    if w.len() > 0 {
        let w1 = w.drop_last();
        assert(!w1.contains(' ')) by {
            if w1.contains(' ') {
                let k = choose|k: int| 0 <= k < w1.len() && w1[k] == ' ';
                assert(w[k] == ' ');
            }
        }
        lemma_break_word_fits(fits, lines, w1);
        let st = break_word(fits, lines, w1);
        let c = w.last();
        assert(c != ' ') by {
            assert(w[w.len() - 1] == c);
        }
        let cand = st.1.push(c);
        assert(!cand.contains(' ')) by {
            if cand.contains(' ') {
                let k = choose|k: int| 0 <= k < cand.len() && cand[k] == ' ';
                if k < st.1.len() {
                    assert(st.1[k] == ' ');
                }
            }
        }
        assert(!seq![c].contains(' ')) by {
            if seq![c].contains(' ') {
                let k = choose|k: int| 0 <= k < 1 && seq![c][k] == ' ';
            }
        }
        let l2 = st.0.push(st.1);
        assert(spaced_lines_fit(fits, l2)) by {
            assert forall|i: int| 0 <= i < l2.len() && (#[trigger] l2[i]).contains(' ') implies fits(l2[i]) by {
                if i < st.0.len() {
                    assert(l2[i] == st.0[i]);
                }
            }
        }
    }
}

proof fn lemma_place_words_fit(fits: spec_fn(Seq<char>) -> bool, ws: Seq<Seq<char>>)
    requires
        forall|i: int| 0 <= i < ws.len() ==> !(#[trigger] ws[i]).contains(' '),
    ensures
        spaced_lines_fit(fits, place_words(fits, ws).0),
        place_words(fits, ws).1.contains(' ') ==> fits(place_words(fits, ws).1),
    decreases ws.len(),
{
    if ws.len() > 0 {
        let ws1 = ws.drop_last();
        assert forall|i: int| 0 <= i < ws1.len() implies !(#[trigger] ws1[i]).contains(' ') by {
            assert(ws1[i] == ws[i]);
        }
        lemma_place_words_fit(fits, ws1);
        let st = place_words(fits, ws1);
        let w = ws.last();
        assert(!w.contains(' ')) by {
            assert(ws[ws.len() - 1] == w);
        }
        let cur = st.1;
        let cand = if cur.len() == 0 {
            w
        } else {
            cur + seq![' '] + w
        };
        if !fits(cand) {
            let lines = if cur.len() > 0 {
                st.0.push(cur)
            } else {
                st.0
            };
            assert(spaced_lines_fit(fits, lines)) by {
                assert forall|i: int| 0 <= i < lines.len() && (#[trigger] lines[i]).contains(' ') implies fits(
                    lines[i],
                ) by {
                    if i < st.0.len() {
                        assert(lines[i] == st.0[i]);
                    }
                }
            }
            if !fits(w) {
                lemma_break_word_fits(fits, lines, w);
            }
        }
    }
}

proof fn lemma_paragraph_lines_fit(fits: spec_fn(Seq<char>) -> bool, p: Seq<char>)
    ensures
        spaced_lines_fit(fits, paragraph_lines(fits, p)),
{
    lemma_words_have_no_space(p);
    let ws = words(p);
    if ws.len() == 0 {
        let e = Seq::<char>::empty();
        assert(!e.contains(' '));
        assert(paragraph_lines(fits, p) == seq![e]);
        assert forall|i: int| 0 <= i < 1 && (#[trigger] seq![e][i]).contains(' ') implies fits(seq![e][i]) by {
            assert(seq![e][i] == e);
        }
    } else {
        lemma_place_words_fit(fits, ws);
        let st = place_words(fits, ws);
        if st.1.len() > 0 {
            let l = st.0.push(st.1);
            assert forall|i: int| 0 <= i < l.len() && (#[trigger] l[i]).contains(' ') implies fits(l[i]) by {
                if i < st.0.len() {
                    assert(l[i] == st.0[i]);
                }
            }
        }
    }
}

proof fn lemma_wrap_paragraphs_fit(fits: spec_fn(Seq<char>) -> bool, ps: Seq<Seq<char>>)
    ensures
        spaced_lines_fit(fits, wrap_paragraphs(fits, ps)),
    decreases ps.len(),
{
    if ps.len() > 0 {
        lemma_wrap_paragraphs_fit(fits, ps.drop_last());
        lemma_paragraph_lines_fit(fits, ps.last());
        let a = wrap_paragraphs(fits, ps.drop_last());
        let b = paragraph_lines(fits, ps.last());
        let l = a + b;
        assert forall|i: int| 0 <= i < l.len() && (#[trigger] l[i]).contains(' ') implies fits(l[i]) by {
            if i < a.len() {
                assert(l[i] == a[i]);
            } else {
                assert(l[i] == b[i - a.len()]);
            }
        }
    }
}

/// Lines are joined only when the joined text fits: whatever `fits` decides,
/// every wrapped line that holds a space, that is, more than one word, is
/// one `fits` accepted with its joining spaces. Single words and pieces of a
/// broken word hold no space.
pub proof fn law_joined_lines_fit(fits: spec_fn(Seq<char>) -> bool, text: Seq<char>)
    ensures
        spaced_lines_fit(fits, greedy_wrap(fits, text)),
{
    lemma_wrap_paragraphs_fit(fits, paragraphs(text));
    let lines = wrap_paragraphs(fits, paragraphs(text));
    if lines.len() == 0 {
        let e = Seq::<char>::empty();
        assert forall|i: int| 0 <= i < 1 && (#[trigger] seq![e][i]).contains(' ') implies fits(seq![e][i]) by {
            assert(seq![e][i] == e);
        }
    }
}

/// Words joined by single spaces.
pub open spec fn joined(ws: Seq<Seq<char>>) -> Seq<char>
    decreases ws.len(),
{
    if ws.len() == 0 {
        seq![]
    } else if ws.len() == 1 {
        ws[0]
    } else {
        joined(ws.drop_last()) + seq![' '] + ws.last()
    }
}

proof fn lemma_place_joined(fits: spec_fn(Seq<char>) -> bool, ws: Seq<Seq<char>>, k: int)
    requires
        1 <= k <= ws.len(),
        forall|i: int| 0 <= i < ws.len() ==> (#[trigger] ws[i]).len() > 0,
        forall|j: int| 1 <= j <= ws.len() ==> fits(#[trigger] joined(ws.take(j))),
    ensures
        place_words(fits, ws.take(k)) == (Seq::<Seq<char>>::empty(), joined(ws.take(k))),
        joined(ws.take(k)).len() > 0,
    decreases k,
{
    let t = ws.take(k);
    assert(t.drop_last() =~= ws.take(k - 1));
    assert(t.last() == ws[k - 1]);
    assert(fits(joined(ws.take(k))));
    if k == 1 {
        assert(ws.take(0) =~= Seq::<Seq<char>>::empty());
        assert(place_words(fits, ws.take(0)) == (Seq::<Seq<char>>::empty(), Seq::<char>::empty()));
        assert(joined(t) == ws[0]);
    } else {
        lemma_place_joined(fits, ws, k - 1);
        assert(joined(t) == joined(ws.take(k - 1)) + seq![' '] + ws[k - 1]);
    }
}

/// A paragraph whose words, joined with single spaces, fit at every step
/// stays on one line: when `fits` accepts the first word and every longer
/// run of its words joined by spaces, the paragraph gives exactly that one
/// joined line.
pub proof fn law_fitting_paragraph_is_one_line(fits: spec_fn(Seq<char>) -> bool, p: Seq<char>)
    requires
        words(p).len() > 0,
        forall|j: int| 1 <= j <= words(p).len() ==> fits(#[trigger] joined(words(p).take(j))),
    ensures
        paragraph_lines(fits, p) == seq![joined(words(p))],
{
    let ws = words(p);
    lemma_words_shape(p);
    lemma_place_joined(fits, ws, ws.len() as int);
    assert(ws.take(ws.len() as int) =~= ws);
    assert(Seq::<Seq<char>>::empty().push(joined(ws)) =~= seq![joined(ws)]);
}

// ---------------------------------------------------------------------------
// Wrapping keeps every visible character, in order
// ---------------------------------------------------------------------------

/// `l` without its spaces.
pub open spec fn without_spaces(l: Seq<char>) -> Seq<char>
    decreases l.len(),
{
    if l.len() == 0 {
        seq![]
    } else if l.last() == ' ' {
        without_spaces(l.drop_last())
    } else {
        without_spaces(l.drop_last()).push(l.last())
    }
}

/// The characters of `t` that are not white space, in order.
pub open spec fn visible_chars(t: Seq<char>) -> Seq<char>
    decreases t.len(),
{
    if t.len() == 0 {
        seq![]
    } else if white_space(t.last()) {
        visible_chars(t.drop_last())
    } else {
        visible_chars(t.drop_last()).push(t.last())
    }
}

/// The lines one after the other, with their spaces left out.
pub open spec fn line_chars(lines: Seq<Seq<char>>) -> Seq<char>
    decreases lines.len(),
{
    if lines.len() == 0 {
        seq![]
    } else {
        line_chars(lines.drop_last()) + without_spaces(lines.last())
    }
}

/// The pieces one after the other.
spec fn concat_all(ws: Seq<Seq<char>>) -> Seq<char>
    decreases ws.len(),
{
    if ws.len() == 0 {
        seq![]
    } else {
        concat_all(ws.drop_last()) + ws.last()
    }
}

/// The visible characters of the paragraphs, one paragraph after the other.
spec fn paragraphs_visible(ps: Seq<Seq<char>>) -> Seq<char>
    decreases ps.len(),
{
    if ps.len() == 0 {
        seq![]
    } else {
        paragraphs_visible(ps.drop_last()) + visible_chars(ps.last())
    }
}

proof fn lemma_short_texts(c: char)
    ensures
        without_spaces(Seq::<char>::empty()) == Seq::<char>::empty(),
        without_spaces(seq![c]) == (if c == ' ' { Seq::<char>::empty() } else { seq![c] }),
        line_chars(seq![Seq::<char>::empty()]) == Seq::<char>::empty(),
        visible_chars(Seq::<char>::empty()) == Seq::<char>::empty(),
{
    let e = Seq::<char>::empty();
    assert(seq![c].drop_last() =~= e);
    assert(seq![c].last() == c);
    assert(e.push(c) =~= seq![c]);
    assert(seq![e].drop_last() =~= Seq::<Seq<char>>::empty());
    assert(seq![e].last() == e);
    assert(line_chars(Seq::<Seq<char>>::empty()) + without_spaces(e) =~= e);
}

proof fn lemma_without_spaces_add(a: Seq<char>, b: Seq<char>)
    ensures
        without_spaces(a + b) == without_spaces(a) + without_spaces(b),
    decreases b.len(),
{
    if b.len() == 0 {
        assert(a + b =~= a);
        assert(without_spaces(a) + without_spaces(b) =~= without_spaces(a));
    } else {
        lemma_without_spaces_add(a, b.drop_last());
        assert((a + b).drop_last() =~= a + b.drop_last());
        assert((a + b).last() == b.last());
        if b.last() != ' ' {
            assert(without_spaces(a) + without_spaces(b.drop_last()).push(b.last()) =~= (without_spaces(a)
                + without_spaces(b.drop_last())).push(b.last()));
        }
    }
}

proof fn lemma_without_spaces_none(l: Seq<char>)
    requires
        !l.contains(' '),
    ensures
        without_spaces(l) == l,
    decreases l.len(),
{
    if l.len() > 0 {
        let l1 = l.drop_last();
        assert(!l1.contains(' ')) by {
            if l1.contains(' ') {
                let k = choose|k: int| 0 <= k < l1.len() && l1[k] == ' ';
                assert(l[k] == ' ');
            }
        }
        lemma_without_spaces_none(l1);
        assert(l[l.len() - 1] == l.last());
        assert(l1.push(l.last()) =~= l);
    }
}

proof fn lemma_line_chars_add(a: Seq<Seq<char>>, b: Seq<Seq<char>>)
    ensures
        line_chars(a + b) == line_chars(a) + line_chars(b),
    decreases b.len(),
{
    if b.len() == 0 {
        assert(a + b =~= a);
        assert(line_chars(a) + line_chars(b) =~= line_chars(a));
    } else {
        lemma_line_chars_add(a, b.drop_last());
        assert((a + b).drop_last() =~= a + b.drop_last());
        assert((a + b).last() == b.last());
        assert(line_chars(a) + (line_chars(b.drop_last()) + without_spaces(b.last())) =~= (line_chars(a)
            + line_chars(b.drop_last())) + without_spaces(b.last()));
    }
}

proof fn lemma_words_concat(p: Seq<char>)
    ensures
        concat_all(words(p)) == visible_chars(p),
    decreases p.len(),
{
    if p.len() > 0 {
        let p1 = p.drop_last();
        let ws = words(p1);
        lemma_words_concat(p1);
        let c = p.last();
        if !white_space(c) {
            if p.len() >= 2 && !white_space(p[p.len() - 2]) {
                assert(p1.last() == p[p.len() - 2]);
                lemma_words_shape(p1);
                let nws = ws.update(ws.len() - 1, ws.last().push(c));
                assert(nws.drop_last() =~= ws.drop_last());
                assert(concat_all(nws) == concat_all(ws.drop_last()) + ws.last().push(c));
                assert(concat_all(ws.drop_last()) + ws.last().push(c) =~= (concat_all(ws.drop_last()) + ws.last()).push(
                    c,
                ));
            } else {
                let nws = ws.push(seq![c]);
                assert(nws.drop_last() =~= ws);
                assert(concat_all(ws) + seq![c] =~= concat_all(ws).push(c));
            }
        }
    }
}

proof fn lemma_break_word_chars(fits: spec_fn(Seq<char>) -> bool, lines: Seq<Seq<char>>, w: Seq<char>)
    requires
        !w.contains(' '),
    ensures
        line_chars(break_word(fits, lines, w).0) + without_spaces(break_word(fits, lines, w).1) == line_chars(lines)
            + w,
    decreases w.len(),
{
    if w.len() == 0 {
        assert(line_chars(lines) + without_spaces(Seq::<char>::empty()) =~= line_chars(lines) + w);
    } else {
        let w1 = w.drop_last();
        assert(!w1.contains(' ')) by {
            if w1.contains(' ') {
                let k = choose|k: int| 0 <= k < w1.len() && w1[k] == ' ';
                assert(w[k] == ' ');
            }
        }
        lemma_break_word_chars(fits, lines, w1);
        let st = break_word(fits, lines, w1);
        let c = w.last();
        assert(c != ' ') by {
            assert(w[w.len() - 1] == c);
        }
        let cand = st.1.push(c);
        assert(cand.drop_last() =~= st.1);
        assert(without_spaces(cand) == without_spaces(st.1).push(c));
        lemma_short_texts(c);
        assert(w1.push(c) =~= w);
        if !fits(cand) && st.1.len() > 0 {
            let l2 = st.0.push(st.1);
            assert(l2.drop_last() =~= st.0);
            assert(line_chars(l2) + seq![c] =~= line_chars(lines) + w);
        } else {
            assert(line_chars(st.0) + without_spaces(st.1).push(c) =~= (line_chars(st.0) + without_spaces(st.1)).push(
                c,
            ));
            assert((line_chars(lines) + w1).push(c) =~= line_chars(lines) + w);
        }
    }
}

proof fn lemma_place_words_chars(fits: spec_fn(Seq<char>) -> bool, ws: Seq<Seq<char>>)
    requires
        forall|i: int| 0 <= i < ws.len() ==> !(#[trigger] ws[i]).contains(' '),
    ensures
        line_chars(place_words(fits, ws).0) + without_spaces(place_words(fits, ws).1) == concat_all(ws),
    decreases ws.len(),
{
    if ws.len() == 0 {
        assert(line_chars(Seq::<Seq<char>>::empty()) + without_spaces(Seq::<char>::empty()) =~= Seq::<char>::empty());
    } else {
        let ws1 = ws.drop_last();
        assert forall|i: int| 0 <= i < ws1.len() implies !(#[trigger] ws1[i]).contains(' ') by {
            assert(ws1[i] == ws[i]);
        }
        lemma_place_words_chars(fits, ws1);
        let st = place_words(fits, ws1);
        let w = ws.last();
        assert(!w.contains(' ')) by {
            assert(ws[ws.len() - 1] == w);
        }
        lemma_without_spaces_none(w);
        let cur = st.1;
        if cur.len() == 0 {
            assert(without_spaces(cur) == Seq::<char>::empty());
        } else {
            lemma_without_spaces_add(cur + seq![' '], w);
            lemma_without_spaces_add(cur, seq![' ']);
            lemma_short_texts(' ');
        }
        let cand = if cur.len() == 0 {
            w
        } else {
            cur + seq![' '] + w
        };
        assert(without_spaces(cand) =~= without_spaces(cur) + w);
        if !fits(cand) {
            let lines = if cur.len() > 0 {
                st.0.push(cur)
            } else {
                st.0
            };
            assert(line_chars(lines) =~= line_chars(st.0) + without_spaces(cur)) by {
                if cur.len() > 0 {
                    assert(st.0.push(cur).drop_last() =~= st.0);
                }
            }
            if !fits(w) {
                lemma_break_word_chars(fits, lines, w);
            }
            assert(line_chars(lines) + w =~= concat_all(ws1) + w);
        } else {
            assert(line_chars(st.0) + (without_spaces(cur) + w) =~= concat_all(ws1) + w);
        }
    }
}

proof fn lemma_paragraph_chars(fits: spec_fn(Seq<char>) -> bool, p: Seq<char>)
    ensures
        line_chars(paragraph_lines(fits, p)) == visible_chars(p),
{
    lemma_words_concat(p);
    lemma_words_have_no_space(p);
    let ws = words(p);
    let e = Seq::<char>::empty();
    lemma_short_texts(' ');
    if ws.len() == 0 {
    } else {
        lemma_place_words_chars(fits, ws);
        let st = place_words(fits, ws);
        if st.1.len() > 0 {
            assert(st.0.push(st.1).drop_last() =~= st.0);
        } else {
            assert(line_chars(st.0) + without_spaces(st.1) =~= line_chars(st.0));
        }
    }
}

proof fn lemma_wrap_paragraphs_chars(fits: spec_fn(Seq<char>) -> bool, ps: Seq<Seq<char>>)
    ensures
        line_chars(wrap_paragraphs(fits, ps)) == paragraphs_visible(ps),
    decreases ps.len(),
{
    if ps.len() > 0 {
        lemma_wrap_paragraphs_chars(fits, ps.drop_last());
        lemma_paragraph_chars(fits, ps.last());
        lemma_line_chars_add(wrap_paragraphs(fits, ps.drop_last()), paragraph_lines(fits, ps.last()));
    }
}

proof fn lemma_paragraphs_visible(t: Seq<char>)
    ensures
        paragraphs_visible(paragraphs(t)) == visible_chars(t),
    decreases t.len(),
{
    if t.len() > 0 {
        let t1 = t.drop_last();
        lemma_paragraphs_visible(t1);
        lemma_paragraphs_nonempty(t1);
        let ps = paragraphs(t1);
        let c = t.last();
        let e = Seq::<char>::empty();
        lemma_short_texts(c);
        if c == '\n' {
            assert(white_space(c));
            assert(paragraphs(t) == ps.push(e));
            assert(visible_chars(t) == visible_chars(t1));
            assert(ps.push(e).drop_last() =~= ps);
            assert(ps.push(e).last() == e);
            assert(paragraphs_visible(ps.push(e)) == paragraphs_visible(ps) + visible_chars(e));
            assert(paragraphs_visible(ps) + e =~= paragraphs_visible(ps));
        } else {
            let last = ps.last();
            let nps = ps.update(ps.len() - 1, last.push(c));
            assert(paragraphs(t) == nps);
            assert(nps.drop_last() =~= ps.drop_last());
            assert(nps.last() == last.push(c));
            assert(paragraphs_visible(ps) == paragraphs_visible(ps.drop_last()) + visible_chars(last));
            assert(last.push(c).drop_last() =~= last);
            assert(last.push(c).last() == c);
            assert(paragraphs_visible(nps) == paragraphs_visible(ps.drop_last()) + visible_chars(last.push(c)));
            if white_space(c) {
                assert(visible_chars(last.push(c)) == visible_chars(last));
                assert(visible_chars(t) == visible_chars(t1));
            } else {
                assert(visible_chars(last.push(c)) == visible_chars(last).push(c));
                assert(visible_chars(t) == visible_chars(t1).push(c));
                assert(paragraphs_visible(ps.drop_last()) + visible_chars(last).push(c) =~= (paragraphs_visible(
                    ps.drop_last(),
                ) + visible_chars(last)).push(c));
            }
        }
    } else {
        let e = Seq::<char>::empty();
        lemma_short_texts(' ');
        assert(paragraphs(t) == seq![e]);
        assert(seq![e].drop_last() =~= Seq::<Seq<char>>::empty());
        assert(seq![e].last() == e);
        assert(paragraphs_visible(seq![e]) == paragraphs_visible(Seq::<Seq<char>>::empty()) + visible_chars(e));
        assert(Seq::<char>::empty() + e =~= e);
    }
}

/// Wrapping loses, adds and reorders nothing: whatever `fits` decides, the
/// wrapped lines with their joining spaces left out, one after the other,
/// are exactly the characters of `text` that are not white space.
pub proof fn law_wrap_keeps_the_text(fits: spec_fn(Seq<char>) -> bool, text: Seq<char>)
    ensures
        line_chars(greedy_wrap(fits, text)) == visible_chars(text),
{
    lemma_wrap_paragraphs_chars(fits, paragraphs(text));
    lemma_paragraphs_visible(text);
    let lines = wrap_paragraphs(fits, paragraphs(text));
    lemma_short_texts(' ');
}

// ---------------------------------------------------------------------------
// The closure
// ---------------------------------------------------------------------------

/// `fits` answers as `m` says: whatever it returns for a text is `m` of
/// that text.
pub open spec fn answers<F: Fn(&str) -> bool>(fits: F, m: spec_fn(Seq<char>) -> bool) -> bool {
    forall|s: &str, r: bool| #[trigger] call_ensures(fits, (s,), r) ==> r == m(s@)
}

/// `fits` may be called on any text.
pub open spec fn callable<F: Fn(&str) -> bool>(fits: F) -> bool {
    forall|s: &str| call_requires(fits, (s,))
}

fn ask<F: Fn(&str) -> bool>(fits: &F, t: &String) -> (b: bool)
    requires
        callable(*fits),
    ensures
        forall|m: spec_fn(Seq<char>) -> bool| answers(*fits, m) ==> b == m(t@),
{
    let s = t.as_str();
    let b = fits(s);
    b
}

/// The chars of `text`, in order.
fn chars_of(text: &str) -> (cs: Vec<char>)
    ensures
        cs@ == text@,
{
    let n = text.unicode_len();
    let mut cs: Vec<char> = Vec::new();
    let mut i: usize = 0;
    while i < n
        invariant
            n == text@.len(),
            i <= n,
            cs@ == text@.take(i as int),
        decreases n - i,
    {
        let c = text.get_char(i);
        cs.push(c);
        i += 1;
        assert(cs@ =~= text@.take(i as int));
    }
    assert(text@.take(n as int) =~= text@);
    cs
}

/// A `String` holding the chars `cs`.
fn string_from(cs: &Vec<char>) -> (res: String)
    ensures
        res@ == cs@,
{
    let mut res = String::new();
    let mut i: usize = 0;
    while i < cs.len()
        invariant
            i <= cs@.len(),
            res@ == cs@.take(i as int),
        decreases cs.len() - i,
    {
        push_char(&mut res, cs[i]);
        i += 1;
        assert(res@ =~= cs@.take(i as int));
    }
    assert(cs@.take(cs@.len() as int) =~= cs@);
    res
}

/// Breaks the word `w` char by char after the lines already in `lines`,
/// and returns the chunk left over.
fn break_into_chunks<F: Fn(&str) -> bool>(fits: &F, lines: &mut Vec<String>, w: &Vec<char>) -> (chunk: String)
    requires
        callable(*fits),
    ensures
        forall|m: spec_fn(Seq<char>) -> bool|
            answers(*fits, m) ==> (texts(final(lines)@), chunk@) == break_word(m, texts(old(lines)@), w@),
        w@.len() > 0 ==> chunk@.len() > 0,
{
    let ghost start = texts(lines@);
    let mut chunk = String::new();
    let mut i: usize = 0;
    while i < w.len()
        invariant
            callable(*fits),
            i <= w@.len(),
            i > 0 ==> chunk@.len() > 0,
            forall|m: spec_fn(Seq<char>) -> bool|
                answers(*fits, m) ==> (texts(lines@), chunk@) == break_word(m, start, w@.take(i as int)),
        decreases w.len() - i,
    {
        let c = w[i];
        let mut cand = chunk.clone();
        push_char(&mut cand, c);
        let b = ask(fits, &cand);
        let ghost old_lines = lines@;
        let ghost old_chunk = chunk@;
        if !b && !chunk.as_str().is_empty() {
            lines.push(chunk);
            chunk = String::new();
            push_char(&mut chunk, c);
            proof {
                assert(texts(lines@) =~= texts(old_lines).push(old_chunk));
                assert(chunk@ =~= seq![c]);
            }
        } else {
            chunk = cand;
        }
        proof {
            assert(w@.take(i + 1).drop_last() =~= w@.take(i as int));
            assert(w@.take(i + 1).last() == c);
        }
        i += 1;
    }
    proof {
        assert(w@.take(w@.len() as int) =~= w@);
    }
    chunk
}

/// The char sequences of a sequence of vectors.
pub open spec fn char_seqs(s: Seq<Vec<char>>) -> Seq<Seq<char>> {
    s.map_values(|v: Vec<char>| v@)
}

/// The words of `p`, each as its chars.
fn split_words(p: &Vec<char>) -> (ws: Vec<Vec<char>>)
    ensures
        char_seqs(ws@) == words(p@),
{
    let mut ws: Vec<Vec<char>> = Vec::new();
    let mut i: usize = 0;
    while i < p.len()
        invariant
            i <= p@.len(),
            char_seqs(ws@) == words(p@.take(i as int)),
        decreases p.len() - i,
    {
        let c = p[i];
        let ghost before = ws@;
        proof {
            assert(p@.take(i + 1).drop_last() =~= p@.take(i as int));
            assert(p@.take(i + 1).last() == c);
        }
        if is_white_space(c) {
        } else if i >= 1 && !is_white_space(p[i - 1]) {
            proof {
                let t = p@.take(i as int);
                assert(t.last() == p@[i - 1]);
                lemma_words_shape(t);
                assert(p@.take(i + 1)[i - 1] == p@[i - 1]);
            }
            let mut last = ws.pop().unwrap();
            last.push(c);
            ws.push(last);
            proof {
                assert(char_seqs(ws@) =~= char_seqs(before).update(before.len() - 1, before.last()@.push(c)));
            }
        } else {
            let mut w: Vec<char> = Vec::new();
            w.push(c);
            ws.push(w);
            proof {
                assert(w@ =~= seq![c]);
                assert(char_seqs(ws@) =~= char_seqs(before).push(seq![c]));
                if i >= 1 {
                    assert(p@.take(i + 1)[i - 1] == p@[i - 1]);
                }
            }
        }
        i += 1;
    }
    proof {
        assert(p@.take(p@.len() as int) =~= p@);
    }
    ws
}

/// The lines of the paragraph `p`.
fn wrap_paragraph<F: Fn(&str) -> bool>(fits: &F, p: &Vec<char>) -> (res: Vec<String>)
    requires
        callable(*fits),
    ensures
        res@.len() >= 1,
        forall|m: spec_fn(Seq<char>) -> bool| answers(*fits, m) ==> texts(res@) == paragraph_lines(m, p@),
{
    let ws = split_words(p);
    proof {
        lemma_words_shape(p@);
    }
    if ws.len() == 0 {
        let mut res: Vec<String> = Vec::new();
        res.push(String::new());
        proof {
            assert(texts(res@) =~= seq![Seq::<char>::empty()]);
        }
        return res;
    }
    let ghost wseq = char_seqs(ws@);
    let mut lines: Vec<String> = Vec::new();
    let mut cur = String::new();
    let mut k: usize = 0;
    proof {
        assert(texts(lines@) =~= Seq::<Seq<char>>::empty());
        assert(wseq.take(0) =~= Seq::<Seq<char>>::empty());
    }
    while k < ws.len()
        invariant
            callable(*fits),
            k <= ws@.len(),
            wseq == char_seqs(ws@),
            wseq == words(p@),
            wseq.len() > 0,
            forall|j: int| 0 <= j < wseq.len() ==> (#[trigger] wseq[j]).len() > 0,
            k > 0 ==> cur@.len() > 0,
            forall|m: spec_fn(Seq<char>) -> bool|
                answers(*fits, m) ==> (texts(lines@), cur@) == place_words(m, wseq.take(k as int)),
        decreases ws.len() - k,
    {
        let w = &ws[k];
        let ghost wv = w@;
        let ghost old_lines = texts(lines@);
        let ghost old_cur = cur@;
        proof {
            assert(wseq[k as int] == wv);
            assert(wseq.take(k + 1).drop_last() =~= wseq.take(k as int));
            assert(wseq.take(k + 1).last() == wv);
        }
        let wstr = string_from(w);
        let cand = if cur.as_str().is_empty() {
            wstr.clone()
        } else {
            let mut c = cur.clone();
            push_char(&mut c, ' ');
            push_str(&mut c, wstr.as_str());
            c
        };
        proof {
            if old_cur.len() > 0 {
                assert(cand@ =~= old_cur + seq![' '] + wv);
            }
        }
        if ask(fits, &cand) {
            cur = cand;
        } else {
            let had_line = !cur.as_str().is_empty();
            if had_line {
                lines.push(cur);
                cur = String::new();
                proof {
                    assert(texts(lines@) =~= old_lines.push(old_cur));
                }
            }
            let ghost mid_lines = texts(lines@);
            if ask(fits, &wstr) {
                cur = wstr;
            } else {
                cur = break_into_chunks(fits, &mut lines, w);
            }
        }
        k += 1;
    }
    proof {
        assert(wseq.take(wseq.len() as int) =~= wseq);
    }
    if !cur.as_str().is_empty() {
        let ghost before = texts(lines@);
        lines.push(cur);
        proof {
            assert(texts(lines@) =~= before.push(cur@));
        }
    }
    lines
}

/// Wrap `text` into lines greedily, with `fits` deciding whether a line
/// fits: the text is split into paragraphs at `'\n'`; a paragraph without
/// words gives one empty line; words join the current line after a single
/// space while it fits; a word that does not fit on a new line by itself is
/// broken char by char. Returns at least one line.
pub fn wrap_lines<F: Fn(&str) -> bool>(text: &str, fits: F) -> (res: Vec<String>)
    requires
        callable(fits),
    ensures
        res@.len() >= 1,
        forall|m: spec_fn(Seq<char>) -> bool| answers(fits, m) ==> texts(res@) == greedy_wrap(m, text@),
        forall|m: spec_fn(Seq<char>) -> bool| answers(fits, m) ==> spaced_lines_fit(m, texts(res@)),
        forall|m: spec_fn(Seq<char>) -> bool| answers(fits, m) ==> line_chars(texts(res@)) == visible_chars(text@),
{
    let cs = chars_of(text);
    let mut lines: Vec<String> = Vec::new();
    let mut para: Vec<char> = Vec::new();
    let mut i: usize = 0;
    proof {
        assert(text@.take(0) =~= Seq::<char>::empty());
        assert(paragraphs(text@.take(0)).drop_last() =~= Seq::<Seq<char>>::empty());
        assert(para@ =~= Seq::<char>::empty());
        assert(texts(lines@) =~= Seq::<Seq<char>>::empty());
    }
    while i < cs.len()
        invariant
            callable(fits),
            cs@ == text@,
            i <= cs@.len(),
            para@ == paragraphs(text@.take(i as int)).last(),
            forall|m: spec_fn(Seq<char>) -> bool|
                answers(fits, m) ==> texts(lines@) == wrap_paragraphs(m, paragraphs(text@.take(i as int)).drop_last()),
        decreases cs.len() - i,
    {
        let c = cs[i];
        let ghost ps = paragraphs(text@.take(i as int));
        let ghost old_lines = texts(lines@);
        proof {
            lemma_paragraphs_nonempty(text@.take(i as int));
            assert(text@.take(i + 1).drop_last() =~= text@.take(i as int));
            assert(text@.take(i + 1).last() == c);
        }
        if c == '\n' {
            let mut block = wrap_paragraph(&fits, &para);
            let ghost bt = texts(block@);
            lines.append(&mut block);
            para = Vec::new();
            proof {
                assert(texts(lines@) =~= old_lines + bt);
                assert(paragraphs(text@.take(i + 1)).drop_last() =~= ps);
                assert(ps =~= ps.drop_last().push(ps.last()));
                assert(para@ =~= Seq::<char>::empty());
            }
        } else {
            para.push(c);
            proof {
                assert(paragraphs(text@.take(i + 1)).drop_last() =~= ps.drop_last());
            }
        }
        i += 1;
    }
    proof {
        assert(text@.take(cs@.len() as int) =~= text@);
        lemma_paragraphs_nonempty(text@);
    }
    let ghost ps = paragraphs(text@);
    let ghost old_lines = texts(lines@);
    let mut block = wrap_paragraph(&fits, &para);
    let ghost bt = texts(block@);
    lines.append(&mut block);
    proof {
        assert(texts(lines@) =~= old_lines + bt);
        assert(ps =~= ps.drop_last().push(ps.last()));
    }
    if lines.len() == 0 {
        lines.push(String::new());
    }
    proof {
        assert forall|m: spec_fn(Seq<char>) -> bool| answers(fits, m) implies spaced_lines_fit(m, texts(lines@)) by {
            law_joined_lines_fit(m, text@);
        }
        assert forall|m: spec_fn(Seq<char>) -> bool| answers(fits, m) implies line_chars(texts(lines@))
            == visible_chars(text@) by {
            law_wrap_keeps_the_text(m, text@);
        }
    }
    lines
}

} // verus!
