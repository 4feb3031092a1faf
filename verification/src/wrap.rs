//! Whitespace-aware word splitting and line wrapping.
//!
//! Wrapping is by whitespace everywhere: text is cut into words at
//! whitespace, and words are laid on lines without ever being broken.

use crate::deck::{Span, SpanV, Style};
use crate::strings::{char_is_whitespace, is_white_space, push_char};
use vstd::prelude::*;
use vstd::string::*;

verus! {

broadcast use vstd::string::group_string_axioms;

// ---------------------------------------------------------------------------
// Words.
// ---------------------------------------------------------------------------

/// The characters of `t`, each paired with `style`.
pub open spec fn with_style(t: Seq<char>, style: Style) -> Seq<(char, Style)> {
    Seq::new(t.len(), |i: int| (t[i], style))
}

/// The characters of all spans, in order, each with its span's style.
pub open spec fn styled_chars(spans: Seq<SpanV>) -> Seq<(char, Style)>
    decreases spans.len(),
{
    if spans.len() == 0 {
        seq![]
    } else {
        styled_chars(spans.drop_last()) + with_style(spans.last().0, spans.last().1)
    }
}

/// The state of the word splitter: the words found, the word being read,
/// its style (that of its first character), and whether one is being read.
pub struct WordState {
    pub words: Seq<SpanV>,
    pub cur: Seq<char>,
    pub cur_style: Style,
    pub started: bool,
}

/// The splitter's state after one styled character.
pub open spec fn word_step(ws: WordState, c: (char, Style)) -> WordState {
    if is_white_space(c.0) {
        if ws.started {
            WordState { words: ws.words.push((ws.cur, ws.cur_style)), cur: seq![], started: false, ..ws }
        } else {
            ws
        }
    } else if ws.started {
        WordState { cur: ws.cur.push(c.0), ..ws }
    } else {
        WordState { cur: ws.cur.push(c.0), cur_style: c.1, started: true, ..ws }
    }
}

/// The splitter's state after the characters `cs`.
pub open spec fn word_fold(cs: Seq<(char, Style)>) -> WordState
    decreases cs.len(),
{
    if cs.len() == 0 {
        WordState { words: seq![], cur: seq![], cur_style: Style::plain(), started: false }
    } else {
        word_step(word_fold(cs.drop_last()), cs.last())
    }
}

/// The words of a run of spans: the maximal runs of non-whitespace
/// characters, each with the style of its first character.
pub open spec fn words_of(spans: Seq<SpanV>) -> Seq<SpanV> {
    let ws = word_fold(styled_chars(spans));
    if ws.started {
        ws.words.push((ws.cur, ws.cur_style))
    } else {
        ws.words
    }
}

/// Splits spans into words at whitespace; a word takes the style of its
/// first character.
pub fn to_words(spans: &[Span]) -> (r: Vec<(String, Style)>)
    ensures
        r.deep_view() == words_of(spans.deep_view()),
{
    let ghost sv = spans.deep_view();
    let mut words: Vec<(String, Style)> = Vec::new();
    let mut cur = String::new();
    let mut cur_style = Style::default();
    let mut started = false;
    let mut i: usize = 0;
    assert(sv.take(0) =~= Seq::<SpanV>::empty());
    assert(words.deep_view() =~= Seq::<SpanV>::empty());
    while i < spans.len()
        invariant
            i <= spans.len(),
            sv == spans.deep_view(),
            word_fold(styled_chars(sv.take(i as int))) == (WordState {
                words: words.deep_view(),
                cur: cur@,
                cur_style,
                started,
            }),
        decreases spans.len() - i,
    {
        let ghost before = styled_chars(sv.take(i as int));
        let style = spans[i].style;
        let text: &str = spans[i].text.as_str();
        let ghost mut seen: Seq<char> = seq![];
        for c in it: text.chars()
            invariant
                seen == it.seq().take(it.index() as int),
                word_fold(before + with_style(seen, style)) == (WordState {
                    words: words.deep_view(),
                    cur: cur@,
                    cur_style,
                    started,
                }),
        {
            let ghost next = seen.push(c);
            assert(it.seq().take(it.index() + 1) =~= next);
            assert((before + with_style(next, style)).drop_last() =~= before + with_style(seen, style));
            assert((before + with_style(next, style)).last() == (c, style));
            if char_is_whitespace(c) {
                if started {
                    let ghost wv = words.deep_view();
                    let w = (cur, cur_style);
                    words.push(w);
                    assert(words.deep_view() =~= wv.push(w.deep_view()));
                    cur = String::new();
                    started = false;
                }
            } else {
                if !started {
                    cur_style = style;
                    started = true;
                }
                push_char(&mut cur, c);
            }
            proof {
                seen = next;
            }
        }
        assert(seen =~= spans[i as int].text@);
        assert(sv.take(i + 1).drop_last() =~= sv.take(i as int));
        assert(sv[i as int] == (spans[i as int].text@, style));
        i = i + 1;
    }
    assert(sv.take(i as int) =~= sv);
    if started {
        let ghost wv = words.deep_view();
        let w = (cur, cur_style);
        words.push(w);
        assert(words.deep_view() =~= wv.push(w.deep_view()));
    }
    words
}

// ---------------------------------------------------------------------------
// Lines.
// ---------------------------------------------------------------------------

/// The total number of characters in the words.
pub open spec fn sum_lens(ws: Seq<SpanV>) -> int
    decreases ws.len(),
{
    if ws.len() == 0 {
        0
    } else {
        sum_lens(ws.drop_last()) + ws.last().0.len()
    }
}

/// The width of a line: its prefix, its words, and one space between each
/// two words.
pub open spec fn line_width(prefix: Seq<char>, ws: Seq<SpanV>) -> int {
    prefix.len() + sum_lens(ws) + if ws.len() > 0 {
        ws.len() - 1
    } else {
        0
    }
}

/// The words with a one-space span before each word but the first; the
/// space takes the style of the word after it.
pub open spec fn interleave(ws: Seq<SpanV>) -> Seq<SpanV>
    decreases ws.len(),
{
    if ws.len() == 0 {
        seq![]
    } else if ws.len() == 1 {
        seq![ws[0]]
    } else {
        interleave(ws.drop_last()) + seq![(seq![' '], ws.last().1), ws.last()]
    }
}

/// A line as it is drawn: the unstyled prefix, then the spaced words.
pub open spec fn render_line(prefix: Seq<char>, ws: Seq<SpanV>) -> Seq<SpanV> {
    seq![(prefix, Style::plain())] + interleave(ws)
}

/// The state of the wrapper: the lines already closed (each a prefix and
/// its words), the words of the open line, and the open line's prefix.
pub struct WrapState {
    pub groups: Seq<(Seq<char>, Seq<SpanV>)>,
    pub cur: Seq<SpanV>,
    pub prefix: Seq<char>,
}

/// Whether the word `w` goes on a new line: the open line has a word and
/// adding a space and `w` would make it wider than `width`.
pub open spec fn breaks_before(ws: WrapState, w: SpanV, width: int) -> bool {
    ws.cur.len() > 0 && line_width(ws.prefix, ws.cur) + 1 + w.0.len() > width
}

/// The wrapper's state after one more word.
pub open spec fn wrap_step(ws: WrapState, w: SpanV, cont: Seq<char>, width: int) -> WrapState {
    let ws1 = if breaks_before(ws, w, width) {
        WrapState { groups: ws.groups.push((ws.prefix, ws.cur)), cur: seq![], prefix: cont }
    } else {
        ws
    };
    WrapState { cur: ws1.cur.push(w), ..ws1 }
}

/// The wrapper's state after the words.
pub open spec fn wrap_fold(words: Seq<SpanV>, first: Seq<char>, cont: Seq<char>, width: int) -> WrapState
    decreases words.len(),
{
    if words.len() == 0 {
        WrapState { groups: seq![], cur: seq![], prefix: first }
    } else {
        wrap_step(wrap_fold(words.drop_last(), first, cont, width), words.last(), cont, width)
    }
}

/// The lines, each as its prefix and its words, that the words wrap into:
/// the first line starts with `first`, the others with `cont`; a line that
/// has neither words nor prefix is not kept.
pub open spec fn wrap_groups(words: Seq<SpanV>, first: Seq<char>, cont: Seq<char>, width: int) -> Seq<
    (Seq<char>, Seq<SpanV>),
> {
    let ws = wrap_fold(words, first, cont, width);
    if ws.cur.len() > 0 || ws.prefix.len() > 0 {
        ws.groups.push((ws.prefix, ws.cur))
    } else {
        ws.groups
    }
}

/// Each line, given as its prefix and its words, as it is drawn.
pub open spec fn render_groups(gs: Seq<(Seq<char>, Seq<SpanV>)>) -> Seq<Seq<SpanV>>
    decreases gs.len(),
{
    if gs.len() == 0 {
        seq![]
    } else {
        render_groups(gs.drop_last()).push(render_line(gs.last().0, gs.last().1))
    }
}

/// The wrapped lines as they are drawn.
pub open spec fn wrap_lines(words: Seq<SpanV>, first: Seq<char>, cont: Seq<char>, width: int) -> Seq<
    Seq<SpanV>,
> {
    render_groups(wrap_groups(words, first, cont, width))
}

/// `interleave` grows by a space and the word at its end.
pub proof fn lemma_interleave_push(ws: Seq<SpanV>, w: SpanV)
    ensures
        interleave(ws.push(w)) == interleave(ws) + if ws.len() > 0 {
            seq![(seq![' '], w.1), w]
        } else {
            seq![w]
        },
{
    assert(ws.push(w).drop_last() =~= ws);
    if ws.len() == 0 {
        assert(interleave(ws.push(w)) =~= seq![w]);
        assert(interleave(ws) =~= Seq::<SpanV>::empty());
    }
}

/// Lays words on lines no wider than `width` where it can: a word goes on
/// the open line unless a space and the word would overflow it; a word
/// wider than the line gets a line of its own. Words are never broken.
pub fn wrap_words(words: &[(String, Style)], first: &str, cont: &str, width: usize) -> (r: Vec<
    Vec<(String, Style)>,
>)
    ensures
        r.deep_view() == wrap_lines(words.deep_view(), first@, cont@, width as int),
{
    let ghost wv = words.deep_view();
    let mut out: Vec<Vec<(String, Style)>> = Vec::new();
    let mut cur: Vec<(String, Style)> = Vec::new();
    let mut prefix = String::from_str(first);
    let mut cur_w: usize = first.unicode_len();
    let ghost mut gs = WrapState { groups: seq![], cur: seq![], prefix: first@ };
    let mut i: usize = 0;
    assert(wv.take(0) =~= Seq::<SpanV>::empty());
    assert(out.deep_view() =~= render_groups(gs.groups));
    assert(cur.deep_view() =~= interleave(gs.cur));
    while i < words.len()
        invariant
            i <= words.len(),
            wv == words.deep_view(),
            gs == wrap_fold(wv.take(i as int), first@, cont@, width as int),
            out.deep_view() == render_groups(gs.groups),
            cur.deep_view() == interleave(gs.cur),
            prefix@ == gs.prefix,
            cur_w as int == if line_width(gs.prefix, gs.cur) <= usize::MAX {
                line_width(gs.prefix, gs.cur)
            } else {
                usize::MAX as int
            },
        decreases words.len() - i,
    {
        let ghost w = wv[i as int];
        assert(wv.take(i + 1).drop_last() =~= wv.take(i as int));
        assert(wv.take(i + 1).last() == w);
        let ww = words[i].0.as_str().unicode_len();
        let st = words[i].1;
        proof {
            if gs.cur.len() > 0 {
                assert(interleave(gs.cur).len() > 0) by {
                    if gs.cur.len() > 1 {
                        assert(gs.cur.drop_last().len() > 0);
                    }
                }
            } else {
                assert(interleave(gs.cur) =~= Seq::<SpanV>::empty());
            }
        }
        let brk = cur.len() > 0 && (cur_w >= width || ww > width - cur_w - 1);
        assert(brk == breaks_before(gs, w, width as int));
        let ghost gs1 = if brk {
            WrapState { groups: gs.groups.push((gs.prefix, gs.cur)), cur: seq![], prefix: cont@ }
        } else {
            gs
        };
        if brk {
            let ghost cv = cur.deep_view();
            let mut line = vec![(prefix.clone(), Style::default())];
            line.append(&mut cur);
            assert(line.deep_view() =~= render_line(gs.prefix, gs.cur));
            out.push(line);
            assert(gs1.groups.drop_last() =~= gs.groups);
            assert(out.deep_view() =~= render_groups(gs1.groups));
            prefix = String::from_str(cont);
            cur_w = cont.unicode_len();
            assert(cur.deep_view() =~= interleave(gs1.cur));
        }
        proof {
            lemma_interleave_push(gs1.cur, w);
            assert(gs1.cur.push(w).drop_last() =~= gs1.cur);
        }
        let ghost cv = cur.deep_view();
        assert(w == (words[i as int].0@, st));
        assert(sum_lens(gs1.cur.push(w)) == sum_lens(gs1.cur) + ww);
        if cur.len() > 0 {
            proof {
                reveal_strlit(" ");
            }
            let sp = String::from_str(" ");
            assert(sp@ =~= seq![' ']);
            cur.push((sp, st));
            cur_w = cur_w + 1 + ww;
        } else {
            cur_w = cur_w.saturating_add(ww);
        }
        let wd = words[i].0.clone();
        cur.push((wd, st));
        assert(cur.deep_view() =~= cv + if cv.len() > 0 {
            seq![(seq![' '], st), w]
        } else {
            seq![w]
        });
        proof {
            gs = WrapState { cur: gs1.cur.push(w), ..gs1 };
        }
        assert(cur.deep_view() =~= interleave(gs.cur));
        i = i + 1;
    }
    assert(wv.take(i as int) =~= wv);
    if cur.len() > 0 || prefix.as_str().unicode_len() > 0 {
        let mut line = vec![(prefix, Style::default())];
        line.append(&mut cur);
        assert(line.deep_view() =~= render_line(gs.prefix, gs.cur));
        out.push(line);
        assert(gs.groups.push((gs.prefix, gs.cur)).drop_last() =~= gs.groups);
        assert(out.deep_view() =~= render_groups(gs.groups.push((gs.prefix, gs.cur))));
    } else {
        proof {
            if gs.cur.len() > 0 {
                assert(interleave(gs.cur).len() > 0) by {
                    if gs.cur.len() > 1 {
                        assert(gs.cur.drop_last().len() > 0);
                    }
                }
            }
        }
    }
    out
}

/// Splits spans into words and wraps them.
pub fn wrap_spans(spans: &[Span], first: &str, cont: &str, width: usize) -> (r: Vec<
    Vec<(String, Style)>,
>)
    ensures
        r.deep_view() == wrap_lines(
            words_of(spans.deep_view()),
            first@,
            cont@,
            width as int,
        ),
{
    let words = to_words(spans);
    wrap_words(words.as_slice(), first, cont, width)
}

// ---------------------------------------------------------------------------
// Laws of words and wrapping.
// ---------------------------------------------------------------------------

/// The texts of the words, one after another.
pub open spec fn concat_texts(ws: Seq<SpanV>) -> Seq<char>
    decreases ws.len(),
{
    if ws.len() == 0 {
        seq![]
    } else {
        concat_texts(ws.drop_last()) + ws.last().0
    }
}

/// The characters of the stream that are not whitespace, in order.
pub open spec fn non_white(cs: Seq<(char, Style)>) -> Seq<char>
    decreases cs.len(),
{
    if cs.len() == 0 {
        seq![]
    } else if is_white_space(cs.last().0) {
        non_white(cs.drop_last())
    } else {
        non_white(cs.drop_last()).push(cs.last().0)
    }
}

/// A word: at least one character, none of them whitespace.
pub open spec fn is_word(t: Seq<char>) -> bool {
    t.len() > 0 && forall|j: int| 0 <= j < t.len() ==> !is_white_space(#[trigger] t[j])
}

/// What the word splitter keeps true character by character.
pub open spec fn word_state_ok(ws: WordState, cs: Seq<(char, Style)>) -> bool {
    &&& forall|k: int| 0 <= k < ws.words.len() ==> is_word(#[trigger] ws.words[k].0)
    &&& forall|j: int| 0 <= j < ws.cur.len() ==> !is_white_space(#[trigger] ws.cur[j])
    &&& ws.started <==> ws.cur.len() > 0
    &&& concat_texts(ws.words) + ws.cur == non_white(cs)
}

proof fn lemma_word_fold_ok(cs: Seq<(char, Style)>)
    ensures
        word_state_ok(word_fold(cs), cs),
    decreases cs.len(),
{
    if cs.len() == 0 {
        assert(concat_texts(Seq::<SpanV>::empty()) + Seq::<char>::empty() =~= Seq::<char>::empty());
    } else {
        let d = cs.drop_last();
        lemma_word_fold_ok(d);
        let ws = word_fold(d);
        let c = cs.last();
        let nw = word_fold(cs);
        if is_white_space(c.0) {
            if ws.started {
                let w = (ws.cur, ws.cur_style);
                assert(nw.words.drop_last() =~= ws.words);
                assert(concat_texts(nw.words) == concat_texts(ws.words) + ws.cur);
                assert forall|k: int| 0 <= k < nw.words.len() implies is_word(#[trigger] nw.words[k].0) by {
                    if k < ws.words.len() {
                        assert(nw.words[k] == ws.words[k]);
                    }
                }
                assert(concat_texts(nw.words) + nw.cur =~= non_white(cs));
            }
        } else {
            assert forall|j: int| 0 <= j < nw.cur.len() implies !is_white_space(#[trigger] nw.cur[j]) by {
                if j < ws.cur.len() {
                    assert(nw.cur[j] == ws.cur[j]);
                }
            }
            assert(concat_texts(nw.words) + nw.cur =~= (concat_texts(ws.words) + ws.cur).push(c.0));
        }
    }
}

/// Law: the words of a run of spans are true words (non-empty, without
/// whitespace), and one after another they give back every non-whitespace
/// character of the text, in order: splitting loses nothing but whitespace.
pub proof fn law_words_keep_text(spans: Seq<SpanV>)
    ensures
        forall|k: int| 0 <= k < words_of(spans).len() ==> is_word(#[trigger] words_of(spans)[k].0),
        concat_texts(words_of(spans)) == non_white(styled_chars(spans)),
{
    let cs = styled_chars(spans);
    lemma_word_fold_ok(cs);
    let ws = word_fold(cs);
    if ws.started {
        let r = ws.words.push((ws.cur, ws.cur_style));
        assert(r.drop_last() =~= ws.words);
        assert forall|k: int| 0 <= k < r.len() implies is_word(#[trigger] r[k].0) by {
            if k < ws.words.len() {
                assert(r[k] == ws.words[k]);
            }
        }
    } else {
        assert(ws.cur =~= Seq::<char>::empty());
        assert(concat_texts(ws.words) + ws.cur =~= concat_texts(ws.words));
    }
}

/// The characters of a styled stream, without their styles.
pub open spec fn plain_chars(cs: Seq<(char, Style)>) -> Seq<char> {
    Seq::new(cs.len(), |i: int| cs[i].0)
}

/// Whether every character of `t` is whitespace.
pub open spec fn all_white(t: Seq<char>) -> bool {
    forall|j: int| 0 <= j < t.len() ==> is_white_space(#[trigger] t[j])
}

/// The text that the words make with the runs of whitespace around them:
/// `gaps[0]`, the first word, `gaps[1]`, ..., the last word, the last gap.
pub open spec fn spaced(words: Seq<SpanV>, gaps: Seq<Seq<char>>) -> Seq<char>
    decreases words.len(),
{
    if words.len() == 0 {
        if gaps.len() > 0 {
            gaps[0]
        } else {
            seq![]
        }
    } else {
        spaced(words.drop_last(), gaps.drop_last()) + words.last().0 + gaps.last()
    }
}

/// The runs of whitespace before, between and after the words read so far;
/// the last run is still open while no word is being read.
pub open spec fn gap_fold(cs: Seq<(char, Style)>) -> Seq<Seq<char>>
    decreases cs.len(),
{
    if cs.len() == 0 {
        seq![seq![]]
    } else {
        let g = gap_fold(cs.drop_last());
        let c = cs.last().0;
        if is_white_space(c) {
            if word_fold(cs.drop_last()).started {
                g.push(seq![c])
            } else {
                g.update(g.len() - 1, g.last().push(c))
            }
        } else {
            g
        }
    }
}

/// The runs of whitespace around the words of the spans: before the first,
/// between each two, and after the last.
pub open spec fn word_gaps(spans: Seq<SpanV>) -> Seq<Seq<char>> {
    let cs = styled_chars(spans);
    if word_fold(cs).started {
        gap_fold(cs).push(seq![])
    } else {
        gap_fold(cs)
    }
}

proof fn lemma_gap_fold_ok(cs: Seq<(char, Style)>)
    ensures
        gap_fold(cs).len() == word_fold(cs).words.len() + 1,
        forall|i: int| 0 <= i < gap_fold(cs).len() ==> all_white(#[trigger] gap_fold(cs)[i]),
        forall|i: int| 1 <= i < gap_fold(cs).len() ==> #[trigger] gap_fold(cs)[i].len() > 0,
        plain_chars(cs) == spaced(word_fold(cs).words, gap_fold(cs)) + word_fold(cs).cur,
    decreases cs.len(),
{
    lemma_word_fold_ok(cs);
    if cs.len() == 0 {
        assert(plain_chars(cs) =~= spaced(Seq::<SpanV>::empty(), seq![seq![]]) + Seq::<char>::empty());
    } else {
        let d = cs.drop_last();
        lemma_gap_fold_ok(d);
        lemma_word_fold_ok(d);
        let ws = word_fold(d);
        let g = gap_fold(d);
        let c = cs.last().0;
        let nw = word_fold(cs);
        let ng = gap_fold(cs);
        assert(plain_chars(cs) =~= plain_chars(d).push(c));
        if is_white_space(c) {
            if ws.started {
                assert(ng.drop_last() =~= g);
                assert(nw.words.drop_last() =~= ws.words);
                assert(spaced(nw.words, ng) == spaced(ws.words, g) + ws.cur + seq![c]);
                assert(nw.cur =~= Seq::<char>::empty());
                assert(plain_chars(cs) =~= spaced(nw.words, ng) + nw.cur);
                assert forall|i: int| 0 <= i < ng.len() implies all_white(#[trigger] ng[i]) by {
                    if i < g.len() {
                        assert(ng[i] == g[i]);
                    }
                }
                assert forall|i: int| 1 <= i < ng.len() implies #[trigger] ng[i].len() > 0 by {
                    if i < g.len() {
                        assert(ng[i] == g[i]);
                    }
                }
            } else {
                assert(ws.cur.len() == 0);
                let last = g.last().push(c);
                assert(ng == g.update(g.len() - 1, last));
                if ws.words.len() == 0 {
                    assert(spaced(ws.words, g) == g[0]);
                    assert(spaced(nw.words, ng) == ng[0]);
                } else {
                    assert(ng.drop_last() =~= g.drop_last());
                }
                assert(plain_chars(cs) =~= spaced(nw.words, ng) + nw.cur);
                assert forall|i: int| 0 <= i < ng.len() implies all_white(#[trigger] ng[i]) by {
                    if i < g.len() - 1 {
                        assert(ng[i] == g[i]);
                    } else {
                        assert forall|j: int| 0 <= j < ng[i].len() implies is_white_space(
                            #[trigger] ng[i][j],
                        ) by {
                            if j < g.last().len() {
                                assert(ng[i][j] == g.last()[j]);
                                assert(all_white(g[g.len() - 1]));
                            }
                        }
                    }
                }
                assert forall|i: int| 1 <= i < ng.len() implies #[trigger] ng[i].len() > 0 by {
                    if i < g.len() - 1 {
                        assert(ng[i] == g[i]);
                    }
                }
            }
        } else {
            assert(ng == g);
            assert(nw.words == ws.words);
            assert(nw.cur == ws.cur.push(c));
            assert(plain_chars(cs) =~= spaced(nw.words, ng) + nw.cur);
        }
    }
}

/// Law: the words are exactly the maximal runs of non-whitespace: the text
/// is the words with runs of whitespace before, between and after them,
/// and the run between any two words is not empty, so no two words stand
/// side by side in the text.
pub proof fn law_words_are_maximal_runs(spans: Seq<SpanV>)
    ensures
        word_gaps(spans).len() == words_of(spans).len() + 1,
        forall|i: int| 0 <= i < word_gaps(spans).len() ==> all_white(#[trigger] word_gaps(spans)[i]),
        forall|i: int| 0 < i < words_of(spans).len() ==> #[trigger] word_gaps(spans)[i].len() > 0,
        spaced(words_of(spans), word_gaps(spans)) == plain_chars(styled_chars(spans)),
{
    let cs = styled_chars(spans);
    lemma_gap_fold_ok(cs);
    lemma_word_fold_ok(cs);
    let ws = word_fold(cs);
    let g = gap_fold(cs);
    if ws.started {
        let words = ws.words.push((ws.cur, ws.cur_style));
        let gaps = g.push(seq![]);
        assert(words.drop_last() =~= ws.words);
        assert(gaps.drop_last() =~= g);
        assert(spaced(words, gaps) =~= spaced(ws.words, g) + ws.cur);
        assert forall|i: int| 0 <= i < gaps.len() implies all_white(#[trigger] gaps[i]) by {
            if i < g.len() {
                assert(gaps[i] == g[i]);
            }
        }
        assert forall|i: int| 0 < i < words.len() implies #[trigger] gaps[i].len() > 0 by {
            assert(gaps[i] == g[i]);
        }
    } else {
        assert(ws.cur =~= Seq::<char>::empty());
        assert(spaced(ws.words, g) + ws.cur =~= spaced(ws.words, g));
    }
}

/// Where word `k` starts in the text: after the gaps and words before it.
pub open spec fn word_start(words: Seq<SpanV>, gaps: Seq<Seq<char>>, k: int) -> int {
    spaced(words.take(k), gaps.take(k + 1)).len() as int
}

proof fn lemma_word_start_stable(
    words: Seq<SpanV>,
    gaps: Seq<Seq<char>>,
    words2: Seq<SpanV>,
    gaps2: Seq<Seq<char>>,
    k: int,
)
    requires
        0 <= k <= words.len(),
        k + 1 <= gaps.len(),
        k <= words2.len(),
        k + 1 <= gaps2.len(),
        words2.take(k) == words.take(k),
        gaps2.take(k + 1) == gaps.take(k + 1),
    ensures
        word_start(words2, gaps2, k) == word_start(words, gaps, k),
{
}

proof fn lemma_word_styles(cs: Seq<(char, Style)>)
    ensures
        forall|k: int|
            0 <= k < word_fold(cs).words.len() ==> 0 <= #[trigger] word_start(word_fold(cs).words, gap_fold(cs), k)
                < cs.len() && cs[word_start(word_fold(cs).words, gap_fold(cs), k)].1 == word_fold(cs).words[k].1,
        word_fold(cs).started ==> spaced(word_fold(cs).words, gap_fold(cs)).len() < cs.len() && cs[spaced(
            word_fold(cs).words,
            gap_fold(cs),
        ).len() as int].1 == word_fold(cs).cur_style,
    decreases cs.len(),
{
    lemma_gap_fold_ok(cs);
    lemma_word_fold_ok(cs);
    if cs.len() > 0 {
        let d = cs.drop_last();
        lemma_word_styles(d);
        lemma_gap_fold_ok(d);
        lemma_word_fold_ok(d);
        let ws = word_fold(d);
        let g = gap_fold(d);
        let c = cs.last();
        let nw = word_fold(cs);
        let ng = gap_fold(cs);
        assert(plain_chars(d).len() == d.len());
        assert(spaced(ws.words, g).len() + ws.cur.len() == d.len());
        assert forall|k: int| 0 <= k < ws.words.len() implies #[trigger] word_start(nw.words, ng, k) == word_start(
            ws.words,
            g,
            k,
        ) by {
            if is_white_space(c.0) && ws.started {
                assert(nw.words.take(k) =~= ws.words.take(k));
                assert(ng.take(k + 1) =~= g.take(k + 1));
            } else if is_white_space(c.0) {
                assert(nw.words == ws.words);
                assert(ng.take(k + 1) =~= g.take(k + 1));
            } else {
                assert(nw.words == ws.words && ng == g);
            }
            lemma_word_start_stable(ws.words, g, nw.words, ng, k);
        }
        assert forall|k: int| 0 <= k < ws.words.len() implies cs[word_start(ws.words, g, k)] == d[word_start(
            ws.words,
            g,
            k,
        )] by {
            assert(0 <= word_start(ws.words, g, k) < d.len());
        }
        if is_white_space(c.0) && ws.started {
            let k = ws.words.len() as int;
            assert(nw.words.take(k) =~= ws.words);
            assert(ng.take(k + 1) =~= g);
            assert(word_start(nw.words, ng, k) == spaced(ws.words, g).len());
            assert(nw.words[k].1 == ws.cur_style);
            assert forall|k2: int| 0 <= k2 < nw.words.len() implies 0 <= #[trigger] word_start(nw.words, ng, k2)
                < cs.len() && cs[word_start(nw.words, ng, k2)].1 == nw.words[k2].1 by {
                if k2 < k {
                    assert(nw.words[k2] == ws.words[k2]);
                    assert(word_start(nw.words, ng, k2) == word_start(ws.words, g, k2));
                }
            }
        } else if !is_white_space(c.0) && !ws.started {
            assert(ws.cur.len() == 0);
            assert(spaced(nw.words, ng).len() == d.len());
            assert(cs[d.len() as int] == c);
            assert forall|k2: int| 0 <= k2 < nw.words.len() implies 0 <= #[trigger] word_start(nw.words, ng, k2)
                < cs.len() && cs[word_start(nw.words, ng, k2)].1 == nw.words[k2].1 by {
                assert(word_start(nw.words, ng, k2) == word_start(ws.words, g, k2));
            }
        } else {
            if ws.started {
                assert(spaced(nw.words, ng) == spaced(ws.words, g));
                assert(cs[spaced(ws.words, g).len() as int] == d[spaced(ws.words, g).len() as int]);
            }
            assert forall|k2: int| 0 <= k2 < nw.words.len() implies 0 <= #[trigger] word_start(nw.words, ng, k2)
                < cs.len() && cs[word_start(nw.words, ng, k2)].1 == nw.words[k2].1 by {
                assert(word_start(nw.words, ng, k2) == word_start(ws.words, g, k2));
            }
        }
    }
}

/// Law: each word takes the style of its first character: word `k` starts
/// in the text where the gaps and words before it end (see
/// `law_words_are_maximal_runs`), and the styled character there is the
/// word's first character, with the word's style.
pub proof fn law_word_styles(spans: Seq<SpanV>)
    ensures
        forall|k: int|
            0 <= k < words_of(spans).len() ==> 0 <= #[trigger] word_start(words_of(spans), word_gaps(spans), k)
                < styled_chars(spans).len() && styled_chars(spans)[word_start(
                words_of(spans),
                word_gaps(spans),
                k,
            )] == (words_of(spans)[k].0[0], words_of(spans)[k].1),
{
    let cs = styled_chars(spans);
    law_words_are_maximal_runs(spans);
    law_words_keep_text(spans);
    lemma_word_styles(cs);
    lemma_gap_fold_ok(cs);
    let ws = word_fold(cs);
    let g = gap_fold(cs);
    let words = words_of(spans);
    let gaps = word_gaps(spans);
    assert forall|k: int| 0 <= k < words.len() implies 0 <= #[trigger] word_start(words, gaps, k)
        < cs.len() && cs[word_start(words, gaps, k)] == (words[k].0[0], words[k].1) by {
        let p = word_start(words, gaps, k);
        if k < ws.words.len() {
            assert(words[k] == ws.words[k]);
            assert(words.take(k) =~= ws.words.take(k));
            assert(gaps.take(k + 1) =~= g.take(k + 1));
            assert(p == word_start(ws.words, g, k));
        } else {
            assert(words.take(k) =~= ws.words);
            assert(gaps.take(k + 1) =~= g);
            assert(words[k] == (ws.cur, ws.cur_style));
        }
        // the character: the text before word k, then word k
        lemma_spaced_split(words, gaps, k);
        assert(is_word(words[k].0));
        assert(words[k].0.len() > 0);
        assert(spaced(words, gaps)[p + 0] == words[k].0[0]);
        assert(spaced(words, gaps) == plain_chars(cs));
        assert(plain_chars(cs)[p] == cs[p].0);
        assert(cs[p].0 == words[k].0[0]);
    }
}

/// The text is the part before word `k`, then word `k`, then the rest.
proof fn lemma_spaced_split(words: Seq<SpanV>, gaps: Seq<Seq<char>>, k: int)
    requires
        0 <= k < words.len(),
        gaps.len() == words.len() + 1,
    ensures
        spaced(words, gaps).len() >= word_start(words, gaps, k) + words[k].0.len(),
        forall|j: int|
            0 <= j < words[k].0.len() ==> #[trigger] spaced(words, gaps)[word_start(words, gaps, k) + j]
                == words[k].0[j],
    decreases words.len(),
{
    let d = words.drop_last();
    let gd = gaps.drop_last();
    let p = word_start(words, gaps, k);
    if k == words.len() - 1 {
        assert(words.take(k) =~= d);
        assert(gaps.take(k + 1) =~= gd);
        let a = spaced(d, gd);
        assert(spaced(words, gaps) == a + words.last().0 + gaps.last());
        assert forall|j: int| 0 <= j < words[k].0.len() implies #[trigger] spaced(words, gaps)[p + j]
            == words[k].0[j] by {
            assert((a + words.last().0 + gaps.last())[a.len() + j] == words.last().0[j]);
        }
    } else {
        lemma_spaced_split(d, gd, k);
        assert(d.take(k) =~= words.take(k));
        assert(gd.take(k + 1) =~= gaps.take(k + 1));
        assert(word_start(d, gd, k) == p);
        assert(d[k] == words[k]);
        let a = spaced(d, gd);
        assert(spaced(words, gaps) == a + words.last().0 + gaps.last());
        assert forall|j: int| 0 <= j < words[k].0.len() implies #[trigger] spaced(words, gaps)[p + j]
            == words[k].0[j] by {
            assert(a[p + j] == words[k].0[j]);
            assert((a + words.last().0 + gaps.last())[p + j] == a[p + j]);
        }
    }
}

/// The words of the lines, one line after another.
pub open spec fn concat_groups(gs: Seq<(Seq<char>, Seq<SpanV>)>) -> Seq<SpanV>
    decreases gs.len(),
{
    if gs.len() == 0 {
        seq![]
    } else {
        concat_groups(gs.drop_last()) + gs.last().1
    }
}

/// The shape of wrapped lines: each has a word (but the lone line of an
/// empty text), a line with two or more words fits in `width`, the first
/// line starts with `first` and every other with `cont`.
pub open spec fn groups_ok(
    gs: Seq<(Seq<char>, Seq<SpanV>)>,
    first: Seq<char>,
    cont: Seq<char>,
    width: int,
) -> bool {
    &&& forall|i: int| 0 <= i < gs.len() && #[trigger] gs[i].1.len() >= 2 ==> line_width(gs[i].0, gs[i].1) <= width
    &&& forall|i: int| 0 <= i < gs.len() ==> #[trigger] gs[i].0 == if i == 0 {
        first
    } else {
        cont
    }
}

/// What the wrapper keeps true word by word.
pub open spec fn wrap_state_ok(ws: WrapState, words: Seq<SpanV>, first: Seq<char>, cont: Seq<char>, width: int) -> bool {
    &&& concat_groups(ws.groups) + ws.cur == words
    &&& groups_ok(ws.groups, first, cont, width)
    &&& forall|i: int| 0 <= i < ws.groups.len() ==> #[trigger] ws.groups[i].1.len() > 0
    &&& ws.cur.len() >= 2 ==> line_width(ws.prefix, ws.cur) <= width
    &&& ws.prefix == if ws.groups.len() == 0 {
        first
    } else {
        cont
    }
    &&& words.len() > 0 ==> ws.cur.len() > 0
}

proof fn lemma_wrap_fold_ok(words: Seq<SpanV>, first: Seq<char>, cont: Seq<char>, width: int)
    ensures
        wrap_state_ok(wrap_fold(words, first, cont, width), words, first, cont, width),
    decreases words.len(),
{
    if words.len() == 0 {
        assert(concat_groups(Seq::<(Seq<char>, Seq<SpanV>)>::empty()) + Seq::<SpanV>::empty()
            =~= words);
    } else {
        let d = words.drop_last();
        let w = words.last();
        lemma_wrap_fold_ok(d, first, cont, width);
        let ws = wrap_fold(d, first, cont, width);
        let nw = wrap_fold(words, first, cont, width);
        assert(sum_lens(nw.cur) == sum_lens(nw.cur.drop_last()) + w.0.len()) by {
            assert(nw.cur.last() == w);
        }
        if breaks_before(ws, w, width) {
            let g = (ws.prefix, ws.cur);
            assert(nw.groups.drop_last() =~= ws.groups);
            assert(nw.cur.drop_last() =~= Seq::<SpanV>::empty());
            assert(concat_groups(nw.groups) == concat_groups(ws.groups) + ws.cur);
            assert(concat_groups(nw.groups) + nw.cur =~= words);
            assert forall|i: int| 0 <= i < nw.groups.len() implies #[trigger] nw.groups[i].1.len()
                > 0 by {
                if i < ws.groups.len() {
                    assert(nw.groups[i] == ws.groups[i]);
                }
            }
            assert forall|i: int| 0 <= i < nw.groups.len() && #[trigger] nw.groups[i].1.len() >= 2
                implies line_width(nw.groups[i].0, nw.groups[i].1) <= width by {
                if i < ws.groups.len() {
                    assert(nw.groups[i] == ws.groups[i]);
                }
            }
            assert forall|i: int| 0 <= i < nw.groups.len() implies #[trigger] nw.groups[i].0 == if i == 0 {
                first
            } else {
                cont
            } by {
                if i < ws.groups.len() {
                    assert(nw.groups[i] == ws.groups[i]);
                }
            }
        } else {
            assert(nw.groups == ws.groups);
            assert(nw.cur == ws.cur.push(w));
            assert(nw.cur.drop_last() =~= ws.cur);
            assert(words =~= d.push(w));
            assert(concat_groups(nw.groups) + nw.cur =~= (concat_groups(ws.groups) + ws.cur).push(w));
        }
    }
}

/// Law: wrapping keeps every word whole and in order (the lines' words, one
/// line after another, are the input words), puts `first` before the first
/// line and `cont` before each other line, never leaves a line without a
/// word unless the text has none, and keeps every line of two or more words
/// within `width`; a single word wider than `width` gets a line of its own.
pub proof fn law_wrap(words: Seq<SpanV>, first: Seq<char>, cont: Seq<char>, width: int)
    ensures
        concat_groups(wrap_groups(words, first, cont, width)) == words,
        groups_ok(wrap_groups(words, first, cont, width), first, cont, width),
        words.len() > 0 ==> forall|i: int|
            0 <= i < wrap_groups(words, first, cont, width).len() ==> #[trigger] wrap_groups(
                words,
                first,
                cont,
                width,
            )[i].1.len() > 0,
        words.len() == 0 ==> wrap_groups(words, first, cont, width) == if first.len() > 0 {
            seq![(first, Seq::<SpanV>::empty())]
        } else {
            Seq::<(Seq<char>, Seq<SpanV>)>::empty()
        },
{
    lemma_wrap_fold_ok(words, first, cont, width);
    let ws = wrap_fold(words, first, cont, width);
    let gs = wrap_groups(words, first, cont, width);
    if ws.cur.len() > 0 || ws.prefix.len() > 0 {
        assert(gs.drop_last() =~= ws.groups);
        assert(concat_groups(gs) == concat_groups(ws.groups) + ws.cur);
        assert forall|i: int| 0 <= i < gs.len() && #[trigger] gs[i].1.len() >= 2 implies line_width(
            gs[i].0,
            gs[i].1,
        ) <= width by {
            if i < ws.groups.len() {
                assert(gs[i] == ws.groups[i]);
            }
        }
        assert forall|i: int| 0 <= i < gs.len() implies #[trigger] gs[i].0 == if i == 0 {
            first
        } else {
            cont
        } by {
            if i < ws.groups.len() {
                assert(gs[i] == ws.groups[i]);
            }
        }
        if words.len() > 0 {
            assert forall|i: int| 0 <= i < gs.len() implies #[trigger] gs[i].1.len() > 0 by {
                if i < ws.groups.len() {
                    assert(gs[i] == ws.groups[i]);
                }
            }
        }
        if words.len() == 0 {
            assert(ws.groups.len() == 0) by {
                if ws.groups.len() > 0 {
                    assert(ws.groups[0].1.len() > 0);
                    assert(concat_groups(ws.groups).len() > 0) by {
                        lemma_concat_groups_len(ws.groups);
                    }
                }
            }
            assert(gs =~= seq![(first, Seq::<SpanV>::empty())]);
        }
    } else {
        assert(ws.cur + Seq::<SpanV>::empty() =~= ws.cur);
        assert(concat_groups(ws.groups) =~= concat_groups(ws.groups) + ws.cur);
        if words.len() == 0 {
            assert(ws.groups.len() == 0);
        }
    }
}

/// A line's words count toward the total.
proof fn lemma_concat_groups_len(gs: Seq<(Seq<char>, Seq<SpanV>)>)
    ensures
        forall|i: int| 0 <= i < gs.len() ==> concat_groups(gs).len() >= #[trigger] gs[i].1.len(),
    decreases gs.len(),
{
    if gs.len() > 0 {
        lemma_concat_groups_len(gs.drop_last());
        assert forall|i: int| 0 <= i < gs.len() implies concat_groups(gs).len() >= #[trigger] gs[i].1.len() by {
            if i < gs.len() - 1 {
                assert(gs[i] == gs.drop_last()[i]);
            }
        }
    }
}

/// Words that fit on one line after `first` all stay on that line.
pub proof fn lemma_wrap_one_line(words: Seq<SpanV>, first: Seq<char>, cont: Seq<char>, width: int)
    requires
        line_width(first, words) <= width,
    ensures
        wrap_fold(words, first, cont, width).groups.len() == 0,
        wrap_fold(words, first, cont, width).cur == words,
        wrap_fold(words, first, cont, width).prefix == first,
    decreases words.len(),
{
    if words.len() > 0 {
        let d = words.drop_last();
        let w = words.last();
        assert(sum_lens(words) == sum_lens(d) + w.0.len());
        lemma_wrap_one_line(d, first, cont, width);
        let ws = wrap_fold(d, first, cont, width);
        assert(!breaks_before(ws, w, width));
        assert(d.push(w) =~= words);
    }
}

/// Each closed line was closed only because the next word did not fit on
/// it: the line, a space and that word are wider than `width`.
pub open spec fn closed_when_full(gs: Seq<(Seq<char>, Seq<SpanV>)>, width: int) -> bool {
    forall|i: int|
        0 <= i && i + 1 < gs.len() ==> #[trigger] line_width(gs[i].0, gs[i].1) + 1 + gs[i + 1].1[0].0.len()
            > width
}

proof fn lemma_wrap_fold_greedy(words: Seq<SpanV>, first: Seq<char>, cont: Seq<char>, width: int)
    ensures
        closed_when_full(wrap_fold(words, first, cont, width).groups, width),
        wrap_fold(words, first, cont, width).groups.len() > 0 ==> {
            let ws = wrap_fold(words, first, cont, width);
            &&& ws.cur.len() > 0
            &&& line_width(ws.groups.last().0, ws.groups.last().1) + 1 + ws.cur[0].0.len() > width
        },
    decreases words.len(),
{
    if words.len() > 0 {
        let d = words.drop_last();
        let w = words.last();
        lemma_wrap_fold_greedy(d, first, cont, width);
        let ws = wrap_fold(d, first, cont, width);
        let nw = wrap_fold(words, first, cont, width);
        if breaks_before(ws, w, width) {
            let g = nw.groups;
            assert(g == ws.groups.push((ws.prefix, ws.cur)));
            assert forall|i: int| 0 <= i && i + 1 < g.len() implies #[trigger] line_width(g[i].0, g[i].1) + 1
                + g[i + 1].1[0].0.len() > width by {
                if i + 1 < ws.groups.len() {
                    assert(g[i] == ws.groups[i] && g[i + 1] == ws.groups[i + 1]);
                } else {
                    assert(g[i] == ws.groups.last());
                    assert(g[i + 1] == (ws.prefix, ws.cur));
                }
            }
            assert(nw.cur == seq![w]);
        } else {
            assert(nw.groups == ws.groups);
            assert(nw.cur == ws.cur.push(w));
            if ws.groups.len() > 0 {
                assert(nw.cur[0] == ws.cur[0]);
            }
        }
    }
}

/// Law: wrapping is greedy on every line: a line is closed only when the
/// next word would not fit on it, so every line but the last, followed by
/// a space and the first word of the next line, is wider than `width`.
pub proof fn law_wrap_greedy(words: Seq<SpanV>, first: Seq<char>, cont: Seq<char>, width: int)
    ensures
        closed_when_full(wrap_groups(words, first, cont, width), width),
{
    lemma_wrap_fold_greedy(words, first, cont, width);
    let ws = wrap_fold(words, first, cont, width);
    let gs = wrap_groups(words, first, cont, width);
    if ws.groups.len() > 0 {
        assert(gs == ws.groups.push((ws.prefix, ws.cur)));
        assert forall|i: int| 0 <= i && i + 1 < gs.len() implies #[trigger] line_width(gs[i].0, gs[i].1) + 1
            + gs[i + 1].1[0].0.len() > width by {
            if i + 1 < ws.groups.len() {
                assert(gs[i] == ws.groups[i] && gs[i + 1] == ws.groups[i + 1]);
            } else {
                assert(gs[i] == ws.groups.last());
                assert(gs[i + 1] == (ws.prefix, ws.cur));
            }
        }
    } else {
        assert(gs.len() <= 1);
    }
}

proof fn lemma_interleave_index(ws: Seq<SpanV>)
    ensures
        interleave(ws).len() == if ws.len() > 0 {
            2 * ws.len() - 1
        } else {
            0
        },
        forall|k: int| 0 <= k < ws.len() ==> interleave(ws)[2 * k] == #[trigger] ws[k],
        forall|k: int| 1 <= k < ws.len() ==> interleave(ws)[2 * k - 1] == (seq![' '], #[trigger] ws[k].1),
    decreases ws.len(),
{
    if ws.len() > 1 {
        let d = ws.drop_last();
        lemma_interleave_index(d);
        let i = interleave(ws);
        let a = interleave(d);
        assert(i == a + seq![(seq![' '], ws.last().1), ws.last()]);
        assert forall|k: int| 0 <= k < ws.len() implies interleave(ws)[2 * k] == #[trigger] ws[k] by {
            if k < d.len() {
                assert(ws[k] == d[k]);
                assert(i[2 * k] == a[2 * k]);
            }
        }
        assert forall|k: int| 1 <= k < ws.len() implies interleave(ws)[2 * k - 1] == (
            seq![' '],
            #[trigger] ws[k].1,
        ) by {
            if k < d.len() {
                assert(ws[k] == d[k]);
                assert(i[2 * k - 1] == a[2 * k - 1]);
            }
        }
    }
}

/// Law: a drawn line is its prefix (unstyled), then the words in order,
/// with one space between each two; the space takes the style of the word
/// after it.
pub proof fn law_render_line(prefix: Seq<char>, ws: Seq<SpanV>)
    ensures
        render_line(prefix, ws).len() == 1 + if ws.len() > 0 {
            2 * ws.len() - 1
        } else {
            0
        },
        render_line(prefix, ws)[0] == (prefix, Style::plain()),
        forall|k: int| 0 <= k < ws.len() ==> render_line(prefix, ws)[2 * k + 1] == #[trigger] ws[k],
        forall|k: int| 1 <= k < ws.len() ==> render_line(prefix, ws)[2 * k] == (seq![' '], #[trigger] ws[k].1),
{
    lemma_interleave_index(ws);
    let h = seq![(prefix, Style::plain())];
    let r = render_line(prefix, ws);
    assert(r == h + interleave(ws));
    assert forall|k: int| 0 <= k < ws.len() implies render_line(prefix, ws)[2 * k + 1] == #[trigger] ws[k] by {
        assert(r[2 * k + 1] == interleave(ws)[2 * k]);
    }
    assert forall|k: int| 1 <= k < ws.len() implies render_line(prefix, ws)[2 * k] == (
        seq![' '],
        #[trigger] ws[k].1,
    ) by {
        assert(r[2 * k] == interleave(ws)[2 * k - 1]);
    }
}

/// Law: the wrapped lines are drawn one per line of words, in order: line
/// `i` is the `i`-th line's prefix and words, drawn.
pub proof fn law_wrap_lines_drawn(words: Seq<SpanV>, first: Seq<char>, cont: Seq<char>, width: int)
    ensures
        wrap_lines(words, first, cont, width).len() == wrap_groups(words, first, cont, width).len(),
        forall|i: int|
            0 <= i < wrap_groups(words, first, cont, width).len() ==> #[trigger] wrap_lines(
                words,
                first,
                cont,
                width,
            )[i] == render_line(
                wrap_groups(words, first, cont, width)[i].0,
                wrap_groups(words, first, cont, width)[i].1,
            ),
{
    lemma_render_groups_index(wrap_groups(words, first, cont, width));
}

/// Each drawn line is its line of words, in order.
pub proof fn lemma_render_groups_index(gs: Seq<(Seq<char>, Seq<SpanV>)>)
    ensures
        render_groups(gs).len() == gs.len(),
        forall|i: int| 0 <= i < gs.len() ==> #[trigger] render_groups(gs)[i] == render_line(gs[i].0, gs[i].1),
    decreases gs.len(),
{
    if gs.len() > 0 {
        lemma_render_groups_index(gs.drop_last());
        assert forall|i: int| 0 <= i < gs.len() implies #[trigger] render_groups(gs)[i] == render_line(
            gs[i].0,
            gs[i].1,
        ) by {
            if i < gs.len() - 1 {
                assert(gs[i] == gs.drop_last()[i]);
            }
        }
    }
}

} // verus!
