//! Building the deck from the markdown event stream.
//!
//! Headers form a sticky stack: a header of level `l` drops every title of
//! level `l` or deeper and goes on top. Content under the stack becomes a
//! slide; the next header that has content starts the next slide, headers
//! without content only change the stack.

use crate::deck::{Block, BlockV, Slide, SlideV, Span, SpanV, Style, TitleLine, TitleV, clone_titles};
use crate::markdown::{
    heading_levels_ok, headings_paired, markdown_events, markdown_events_of, Alignment, MdEvent,
};
use crate::strings::push_char;
use vstd::prelude::*;
use vstd::string::*;

verus! {

broadcast use vstd::string::group_string_axioms;

// ---------------------------------------------------------------------------
// The builder's state as a value, and one step of it per event.
// ---------------------------------------------------------------------------

/// Everything the deck builder remembers between two events.
pub struct DeckState {
    /// The sticky title stack, as the headers read so far leave it.
    pub stack: Seq<TitleV>,
    /// Finished slides.
    pub slides: Seq<SlideV>,
    /// The title stack that the blocks being gathered belong to.
    pub cur_stack: Seq<TitleV>,
    /// Blocks gathered for the next slide.
    pub blocks: Seq<BlockV>,
    /// The heading being read: its level and the text read so far.
    pub heading: Option<(usize, Seq<char>)>,
    /// Spans of the paragraph being read.
    pub para: Seq<SpanV>,
    /// Spans of the list items being read, innermost last.
    pub items: Seq<Seq<SpanV>>,
    /// Depth of `**strong**` nesting.
    pub bold: nat,
    /// Depth of `*emphasis*` nesting.
    pub italic: nat,
    /// Whether a fenced code block is being read.
    pub in_code: bool,
    /// Text of the code block being read.
    pub code_buf: Seq<char>,
    /// Column alignments of the table being read.
    pub t_aligns: Seq<Alignment>,
    /// Header cells of the table being read.
    pub t_head: Seq<Seq<SpanV>>,
    /// Body rows of the table being read.
    pub t_rows: Seq<Seq<Seq<SpanV>>>,
    /// Cells of the table row being read.
    pub t_row: Seq<Seq<SpanV>>,
    /// Spans of the table cell being read.
    pub t_cell: Option<Seq<SpanV>>,
}

impl DeckState {
    /// The state before the first event.
    pub open spec fn initial() -> DeckState {
        DeckState {
            stack: seq![],
            slides: seq![],
            cur_stack: seq![],
            blocks: seq![],
            heading: None,
            para: seq![],
            items: seq![],
            bold: 0,
            italic: 0,
            in_code: false,
            code_buf: seq![],
            t_aligns: seq![],
            t_head: seq![],
            t_rows: seq![],
            t_row: seq![],
            t_cell: None,
        }
    }
}

/// The titles of `stack` whose level is below `lvl`, in order.
pub open spec fn keep_below(stack: Seq<TitleV>, lvl: usize) -> Seq<TitleV>
    decreases stack.len(),
{
    if stack.len() == 0 {
        seq![]
    } else {
        let rest = keep_below(stack.drop_last(), lvl);
        if stack.last().0 < lvl {
            rest.push(stack.last())
        } else {
            rest
        }
    }
}

/// The number of leading title lines that `a` and `b` share.
pub open spec fn common_prefix_len(a: Seq<TitleV>, b: Seq<TitleV>) -> nat
    decreases a.len(),
{
    if a.len() == 0 || b.len() == 0 || a[0] != b[0] {
        0
    } else {
        1 + common_prefix_len(a.drop_first(), b.drop_first())
    }
}

/// The indices `lo, lo + 1, ..., hi - 1`.
pub open spec fn index_range(lo: int, hi: int) -> Seq<usize> {
    Seq::new((hi - lo) as nat, |k: int| (lo + k) as usize)
}

/// The title stack of the last slide, or the empty stack before the first.
pub open spec fn last_stack(slides: Seq<SlideV>) -> Seq<TitleV> {
    if slides.len() == 0 {
        seq![]
    } else {
        slides.last().stack
    }
}

/// The slides with one more slide showing `stack` and `blocks`; it animates
/// the title lines that differ from the previous slide's stack.
pub open spec fn push_slide(slides: Seq<SlideV>, stack: Seq<TitleV>, blocks: Seq<BlockV>) -> Seq<
    SlideV,
> {
    let common = common_prefix_len(last_stack(slides), stack);
    slides.push(SlideV { stack, anim: index_range(common as int, stack.len() as int), blocks })
}

/// The text split at each line feed, as `str::split('\n')` does.
pub open spec fn split_lines(s: Seq<char>) -> Seq<Seq<char>>
    decreases s.len(),
{
    if s.len() == 0 {
        seq![seq![]]
    } else {
        let r = split_lines(s.drop_last());
        if s.last() == '\n' {
            r.push(seq![])
        } else {
            r.update(r.len() - 1, r.last().push(s.last()))
        }
    }
}

/// The lines without the empty lines at their end.
pub open spec fn trim_blank_tail(ls: Seq<Seq<char>>) -> Seq<Seq<char>>
    decreases ls.len(),
{
    if ls.len() > 0 && ls.last().len() == 0 {
        trim_blank_tail(ls.drop_last())
    } else {
        ls
    }
}

/// Where a span of text goes: into the open table cell, else into the
/// innermost open list item, else into the paragraph.
pub open spec fn push_span(st: DeckState, span: SpanV) -> DeckState {
    match st.t_cell {
        Some(c) => DeckState { t_cell: Some(c.push(span)), ..st },
        None => if st.items.len() > 0 {
            DeckState { items: st.items.update(st.items.len() - 1, st.items.last().push(span)), ..st }
        } else {
            DeckState { para: st.para.push(span), ..st }
        },
    }
}

/// The state after text is added to the open heading.
pub open spec fn heading_text(st: DeckState, t: Seq<char>) -> DeckState {
    match st.heading {
        Some(h) => DeckState { heading: Some((h.0, h.1 + t)), ..st },
        None => st,
    }
}

/// The style that text read now gets.
pub open spec fn text_style(st: DeckState, code: bool) -> Style {
    Style { bold: st.bold > 0, italic: st.italic > 0, code }
}

/// The state after a heading ends; `None` when no heading was open.
pub open spec fn end_heading(st: DeckState) -> Option<DeckState> {
    match st.heading {
        None => None,
        Some(h) => {
            let stack = keep_below(st.stack, h.0).push((h.0, h.1));
            if st.blocks.len() > 0 {
                Some(
                    DeckState {
                        heading: None,
                        stack,
                        slides: push_slide(st.slides, st.cur_stack, st.blocks),
                        blocks: seq![],
                        cur_stack: stack,
                        ..st
                    },
                )
            } else {
                Some(DeckState { heading: None, stack, cur_stack: stack, ..st })
            }
        },
    }
}

/// The state after a list item starts: the text its parent item has so far
/// becomes the parent's bullet, so that bullets come in document order.
pub open spec fn start_item(st: DeckState) -> DeckState {
    if st.items.len() > 0 && st.items.last().len() > 0 {
        let depth = (st.items.len() - 1) as usize;
        DeckState {
            blocks: st.blocks.push(BlockV::Bullet { depth, spans: st.items.last() }),
            items: st.items.update(st.items.len() - 1, seq![]).push(seq![]),
            ..st
        }
    } else {
        DeckState { items: st.items.push(seq![]), ..st }
    }
}

/// The state after a list item ends.
pub open spec fn end_item(st: DeckState) -> DeckState {
    if st.items.len() == 0 {
        st
    } else {
        let spans = st.items.last();
        let items = st.items.drop_last();
        if spans.len() > 0 {
            DeckState {
                items,
                blocks: st.blocks.push(BlockV::Bullet { depth: items.len() as usize, spans }),
                ..st
            }
        } else {
            DeckState { items, ..st }
        }
    }
}

/// The state after a code block ends.
pub open spec fn end_code(st: DeckState) -> DeckState {
    let lines = trim_blank_tail(split_lines(st.code_buf));
    if lines.len() > 0 {
        DeckState { in_code: false, code_buf: seq![], blocks: st.blocks.push(BlockV::Code(lines)), ..st }
    } else {
        DeckState { in_code: false, code_buf: seq![], ..st }
    }
}

/// The state after one event; `None` where a heading ends that never began.
pub open spec fn step(st: DeckState, ev: MdEvent) -> Option<DeckState> {
    match ev {
        MdEvent::StartHeading(l) => Some(DeckState { heading: Some((l, seq![])), ..st }),
        MdEvent::EndHeading => end_heading(st),
        MdEvent::StartTable(a) => Some(
            DeckState { t_aligns: a@, t_head: seq![], t_rows: seq![], t_row: seq![], ..st },
        ),
        MdEvent::EndTable => Some(
            DeckState {
                blocks: st.blocks.push(
                    BlockV::Table { aligns: st.t_aligns, head: st.t_head, rows: st.t_rows },
                ),
                t_aligns: seq![],
                t_head: seq![],
                t_rows: seq![],
                ..st
            },
        ),
        MdEvent::StartTableHead => Some(DeckState { t_row: seq![], ..st }),
        MdEvent::EndTableHead => Some(DeckState { t_head: st.t_row, t_row: seq![], ..st }),
        MdEvent::StartTableRow => Some(DeckState { t_row: seq![], ..st }),
        MdEvent::EndTableRow => Some(
            DeckState { t_rows: st.t_rows.push(st.t_row), t_row: seq![], ..st },
        ),
        MdEvent::StartTableCell => Some(DeckState { t_cell: Some(seq![]), ..st }),
        MdEvent::EndTableCell => Some(
            DeckState {
                t_row: st.t_row.push(
                    match st.t_cell {
                        Some(c) => c,
                        None => seq![],
                    },
                ),
                t_cell: None,
                ..st
            },
        ),
        MdEvent::StartItem => Some(start_item(st)),
        MdEvent::EndItem => Some(end_item(st)),
        MdEvent::EndParagraph => if st.t_cell is None && st.items.len() == 0 && st.para.len() > 0 {
            Some(DeckState { blocks: st.blocks.push(BlockV::Para(st.para)), para: seq![], ..st })
        } else {
            Some(st)
        },
        MdEvent::StartCodeBlock => Some(DeckState { in_code: true, code_buf: seq![], ..st }),
        MdEvent::EndCodeBlock => Some(end_code(st)),
        MdEvent::StartStrong => Some(DeckState { bold: st.bold + 1, ..st }),
        MdEvent::EndStrong => Some(
            DeckState {
                bold: if st.bold > 0 {
                    (st.bold - 1) as nat
                } else {
                    0
                },
                ..st
            },
        ),
        MdEvent::StartEmphasis => Some(DeckState { italic: st.italic + 1, ..st }),
        MdEvent::EndEmphasis => Some(
            DeckState {
                italic: if st.italic > 0 {
                    (st.italic - 1) as nat
                } else {
                    0
                },
                ..st
            },
        ),
        MdEvent::Text(t) => if st.in_code {
            Some(DeckState { code_buf: st.code_buf + t@, ..st })
        } else {
            match st.heading {
                Some(h) => Some(heading_text(st, t@)),
                None => Some(push_span(st, (t@, text_style(st, false)))),
            }
        },
        MdEvent::Code(t) => match st.heading {
            Some(h) => Some(heading_text(st, t@)),
            None => Some(push_span(st, (t@, text_style(st, true)))),
        },
        MdEvent::SoftBreak => Some(push_span(st, (seq![' '], Style::plain()))),
        MdEvent::HardBreak => Some(push_span(st, (seq![' '], Style::plain()))),
        MdEvent::Rule => Some(DeckState { blocks: st.blocks.push(BlockV::Rule), ..st }),
        MdEvent::Other => Some(st),
    }
}

/// The state after the events, in order; `None` if a step fails.
pub open spec fn run_events(st: DeckState, evs: Seq<MdEvent>) -> Option<DeckState>
    decreases evs.len(),
{
    if evs.len() == 0 {
        Some(st)
    } else {
        match step(st, evs[0]) {
            Some(next) => run_events(next, evs.drop_first()),
            None => None,
        }
    }
}

/// The slides once the events are over: pending blocks make a last slide.
pub open spec fn close_deck(st: DeckState) -> Seq<SlideV> {
    if st.blocks.len() > 0 {
        push_slide(st.slides, st.cur_stack, st.blocks)
    } else {
        st.slides
    }
}

/// The deck that an event stream describes; `None` where a heading ends
/// that never began (the stream is then not one the parser produces).
pub open spec fn deck_of_events(evs: Seq<MdEvent>) -> Option<Seq<SlideV>> {
    match run_events(DeckState::initial(), evs) {
        Some(st) => Some(close_deck(st)),
        None => None,
    }
}

// ---------------------------------------------------------------------------
// Facts about the value-level definitions.
// ---------------------------------------------------------------------------

/// `common_prefix_len` is the first position where the stacks differ (or
/// the end of the shorter one).
pub proof fn lemma_common_prefix_len(a: Seq<TitleV>, b: Seq<TitleV>, k: int)
    requires
        0 <= k <= a.len(),
        k <= b.len(),
        forall|j: int| 0 <= j < k ==> a[j] == b[j],
        k == a.len() || k == b.len() || a[k] != b[k],
    ensures
        common_prefix_len(a, b) == k,
    decreases k,
{
    if k > 0 {
        assert(a[0] == b[0]);
        let a1 = a.drop_first();
        let b1 = b.drop_first();
        assert forall|j: int| 0 <= j < k - 1 implies a1[j] == b1[j] by {
            assert(a[j + 1] == b[j + 1]);
        }
        if k < a.len() && k < b.len() {
            assert(a1[k - 1] == a[k] && b1[k - 1] == b[k]);
        }
        lemma_common_prefix_len(a1, b1, k - 1);
    }
}

/// `split_lines` yields at least one line.
pub proof fn lemma_split_lines_nonempty(s: Seq<char>)
    ensures
        split_lines(s).len() >= 1,
    decreases s.len(),
{
    if s.len() > 0 {
        lemma_split_lines_nonempty(s.drop_last());
    }
}

// ---------------------------------------------------------------------------
// The executable builder.
// ---------------------------------------------------------------------------

/// Moves the contents out of `v`, leaving it empty.
fn take_vec<T: DeepView>(v: &mut Vec<T>) -> (r: Vec<T>)
    ensures
        r@ == old(v)@,
        r.deep_view() == old(v).deep_view(),
        final(v)@ == Seq::<T>::empty(),
        final(v).deep_view() == Seq::<T::V>::empty(),
{
    let mut r: Vec<T> = Vec::new();
    std::mem::swap(&mut r, v);
    assert(r.deep_view() =~= old(v).deep_view());
    assert(v.deep_view() =~= Seq::<T::V>::empty());
    r
}

/// The titles of `stack` below level `lvl`.
fn keep_below_exec(stack: &Vec<TitleLine>, lvl: usize) -> (r: Vec<TitleLine>)
    ensures
        r.deep_view() == keep_below(stack.deep_view(), lvl),
{
    let mut r: Vec<TitleLine> = Vec::new();
    let mut i: usize = 0;
    while i < stack.len()
        invariant
            i <= stack.len(),
            r.deep_view() == keep_below(stack.deep_view().take(i as int), lvl),
        decreases stack.len() - i,
    {
        let ghost sv = stack.deep_view();
        assert(sv.take(i + 1).drop_last() =~= sv.take(i as int));
        assert(sv.take(i + 1).last() == sv[i as int]);
        if stack[i].level < lvl {
            let ghost before = r.deep_view();
            r.push(stack[i].duplicate());
            assert(r.deep_view() =~= before.push(sv[i as int]));
        }
        i = i + 1;
    }
    assert(stack.deep_view().take(stack.len() as int) =~= stack.deep_view());
    r
}

/// The lines of a code block: split at line feeds, trailing empty lines
/// dropped.
fn code_lines(buf: &String) -> (r: Vec<String>)
    ensures
        r.deep_view() == trim_blank_tail(split_lines(buf@)),
{
    let mut lines: Vec<String> = Vec::new();
    let mut cur = String::new();
    let ghost mut seen: Seq<char> = seq![];
    for c in it: buf.as_str().chars()
        invariant
            seen == it.seq().take(it.index() as int),
            lines.deep_view().push(cur@) == split_lines(seen),
    {
        let ghost pre = seen;
        let ghost next = seen.push(c);
        assert(it.seq().take(it.index() + 1) =~= next);
        assert(next.drop_last() =~= pre);
        assert(next.last() == c);
        proof {
            lemma_split_lines_nonempty(pre);
        }
        let ghost before = lines.deep_view();
        if c == '\n' {
            lines.push(cur);
            cur = String::new();
            assert(lines.deep_view() =~= before.push(split_lines(pre).last()));
            assert(lines.deep_view().push(cur@) =~= split_lines(next));
        } else {
            push_char(&mut cur, c);
            assert(lines.deep_view().push(cur@) =~= split_lines(next));
        }
        proof {
            seen = next;
        }
    }
    assert(seen =~= buf@);
    let ghost before = lines.deep_view();
    let ghost last = cur@;
    lines.push(cur);
    assert(lines.deep_view() =~= before.push(last));
    // drop the empty lines at the end
    while lines.len() > 0 && lines[lines.len() - 1].as_str().is_empty()
        invariant
            trim_blank_tail(lines.deep_view()) == trim_blank_tail(split_lines(buf@)),
        decreases lines.len(),
    {
        let ghost before = lines.deep_view();
        lines.pop();
        assert(lines.deep_view() =~= before.drop_last());
    }
    lines
}

/// The title indices that a slide showing `stack` introduces after a slide
/// showing `prev`.
fn anim_indices(prev: &Vec<TitleLine>, stack: &Vec<TitleLine>) -> (r: Vec<usize>)
    ensures
        r@ == index_range(
            common_prefix_len(prev.deep_view(), stack.deep_view()) as int,
            stack.len() as int,
        ),
        common_prefix_len(prev.deep_view(), stack.deep_view()) <= stack.len(),
{
    let mut common: usize = 0;
    while common < prev.len() && common < stack.len() && prev[common].same_as(&stack[common])
        invariant
            common <= prev.len(),
            common <= stack.len(),
            forall|j: int| 0 <= j < common ==> prev.deep_view()[j] == stack.deep_view()[j],
        decreases stack.len() - common,
    {
        common = common + 1;
    }
    proof {
        lemma_common_prefix_len(prev.deep_view(), stack.deep_view(), common as int);
    }
    let mut r: Vec<usize> = Vec::new();
    let mut k: usize = common;
    while k < stack.len()
        invariant
            common <= k <= stack.len(),
            r@ =~= index_range(common as int, k as int),
        decreases stack.len() - k,
    {
        r.push(k);
        k = k + 1;
    }
    r
}

/// Appends a slide showing `stack` and `blocks`.
fn push_slide_exec(slides: &mut Vec<Slide>, stack: Vec<TitleLine>, blocks: Vec<Block>)
    ensures
        final(slides).deep_view() == push_slide(
            old(slides).deep_view(),
            stack.deep_view(),
            blocks.deep_view(),
        ),
{
    let anim = if slides.len() == 0 {
        let empty: Vec<TitleLine> = Vec::new();
        assert(empty.deep_view() =~= Seq::<TitleV>::empty());
        anim_indices(&empty, &stack)
    } else {
        anim_indices(&slides[slides.len() - 1].stack, &stack)
    };
    let ghost before = slides.deep_view();
    let slide = Slide { stack, anim, blocks };
    slides.push(slide);
    assert(slides.deep_view() =~= before.push(slide.deep_view()));
}

/// The executable state of the deck builder; its view is `DeckState`.
struct DeckBuilder {
    stack: Vec<TitleLine>,
    slides: Vec<Slide>,
    cur_stack: Vec<TitleLine>,
    blocks: Vec<Block>,
    heading: Option<(usize, String)>,
    para: Vec<Span>,
    items: Vec<Vec<Span>>,
    bold: usize,
    italic: usize,
    in_code: bool,
    code_buf: String,
    t_aligns: Vec<Alignment>,
    t_head: Vec<Vec<Span>>,
    t_rows: Vec<Vec<Vec<Span>>>,
    t_row: Vec<Vec<Span>>,
    t_cell: Option<Vec<Span>>,
}

impl View for DeckBuilder {
    type V = DeckState;

    closed spec fn view(&self) -> DeckState {
        DeckState {
            stack: self.stack.deep_view(),
            slides: self.slides.deep_view(),
            cur_stack: self.cur_stack.deep_view(),
            blocks: self.blocks.deep_view(),
            heading: self.heading.deep_view(),
            para: self.para.deep_view(),
            items: self.items.deep_view(),
            bold: self.bold as nat,
            italic: self.italic as nat,
            in_code: self.in_code,
            code_buf: self.code_buf@,
            t_aligns: self.t_aligns@,
            t_head: self.t_head.deep_view(),
            t_rows: self.t_rows.deep_view(),
            t_row: self.t_row.deep_view(),
            t_cell: self.t_cell.deep_view(),
        }
    }
}

impl DeckBuilder {
    fn new() -> (b: DeckBuilder)
        ensures
            b@ == DeckState::initial(),
    {
        let b = DeckBuilder {
            stack: Vec::new(),
            slides: Vec::new(),
            cur_stack: Vec::new(),
            blocks: Vec::new(),
            heading: None,
            para: Vec::new(),
            items: Vec::new(),
            bold: 0,
            italic: 0,
            in_code: false,
            code_buf: String::new(),
            t_aligns: Vec::new(),
            t_head: Vec::new(),
            t_rows: Vec::new(),
            t_row: Vec::new(),
            t_cell: None,
        };
        assert(b.stack.deep_view() =~= Seq::<TitleV>::empty());
        assert(b.slides.deep_view() =~= Seq::<SlideV>::empty());
        assert(b.cur_stack.deep_view() =~= Seq::<TitleV>::empty());
        assert(b.blocks.deep_view() =~= Seq::<BlockV>::empty());
        assert(b.para.deep_view() =~= Seq::<SpanV>::empty());
        assert(b.items.deep_view() =~= Seq::<Seq<SpanV>>::empty());
        assert(b.t_head.deep_view() =~= Seq::<Seq<SpanV>>::empty());
        assert(b.t_rows.deep_view() =~= Seq::<Seq<Seq<SpanV>>>::empty());
        assert(b.t_row.deep_view() =~= Seq::<Seq<SpanV>>::empty());
        assert(b@ == DeckState::initial());
        b
    }

    fn push_span(&mut self, span: Span)
        ensures
            final(self)@ == push_span(old(self)@, span.deep_view()),
    {
        let ghost old_items = self.items.deep_view();
        match self.t_cell.take() {
            Some(mut c) => {
                let ghost before = c.deep_view();
                c.push(span);
                assert(c.deep_view() =~= before.push(span.deep_view()));
                self.t_cell = Some(c);
            },
            None => {
                if self.items.len() > 0 {
                    let mut top = self.items.pop().unwrap();
                    let ghost before = top.deep_view();
                    top.push(span);
                    assert(top.deep_view() =~= before.push(span.deep_view()));
                    self.items.push(top);
                    assert(self.items.deep_view() =~= old_items.update(
                        old_items.len() - 1,
                        old_items.last().push(span.deep_view()),
                    ));
                } else {
                    let ghost before = self.para.deep_view();
                    self.para.push(span);
                    assert(self.para.deep_view() =~= before.push(span.deep_view()));
                }
            },
        }
        assert(self@ =~= push_span(old(self)@, span.deep_view()));
    }

    fn end_heading(&mut self) -> (ok: bool)
        ensures
            ok == (end_heading(old(self)@) is Some),
            ok ==> final(self)@ == end_heading(old(self)@)->0,
            final(self).bold == old(self).bold,
            final(self).italic == old(self).italic,
    {
        match self.heading.take() {
            None => false,
            Some((lvl, text)) => {
                let ghost htext = text@;
                let mut stack = keep_below_exec(&self.stack, lvl);
                let ghost kept = stack.deep_view();
                let line = TitleLine { level: lvl, text };
                stack.push(line);
                assert(stack.deep_view() =~= kept.push((lvl, htext)));
                self.stack = stack;
                if self.blocks.len() > 0 {
                    let blocks = take_vec(&mut self.blocks);
                    let cur = take_vec(&mut self.cur_stack);
                    push_slide_exec(&mut self.slides, cur, blocks);
                }
                self.cur_stack = clone_titles(&self.stack);
                assert(self@ =~= end_heading(old(self)@)->0);
                true
            },
        }
    }

    fn start_item(&mut self)
        ensures
            final(self)@ == start_item(old(self)@),
    {
        let ghost old_items = self.items.deep_view();
        let ghost old_blocks = self.blocks.deep_view();
        if self.items.len() > 0 && self.items[self.items.len() - 1].len() > 0 {
            let spans = self.items.pop().unwrap();
            assert(spans.deep_view() == old_items.last());
            let depth = self.items.len();
            let b = Block::Bullet { depth, spans };
            self.blocks.push(b);
            assert(self.blocks.deep_view() =~= old_blocks.push(b.deep_view()));
            let parent: Vec<Span> = Vec::new();
            let child: Vec<Span> = Vec::new();
            assert(parent.deep_view() =~= Seq::<SpanV>::empty());
            assert(child.deep_view() =~= Seq::<SpanV>::empty());
            let ghost mid = self.items.deep_view();
            assert(mid =~= old_items.drop_last());
            self.items.push(parent);
            self.items.push(child);
            assert(self.items.deep_view() =~= old_items.update(old_items.len() - 1, seq![]).push(
                seq![],
            ));
        } else {
            let fresh: Vec<Span> = Vec::new();
            assert(fresh.deep_view() =~= Seq::<SpanV>::empty());
            proof {
                if old_items.len() > 0 {
                    assert(old_items.last() == self.items[self.items.len() - 1].deep_view());
                }
            }
            self.items.push(fresh);
            assert(self.items.deep_view() =~= old_items.push(seq![]));
        }
        assert(self@ =~= start_item(old(self)@));
    }

    fn end_item(&mut self)
        ensures
            final(self)@ == end_item(old(self)@),
    {
        let ghost old_items = self.items.deep_view();
        let ghost old_blocks = self.blocks.deep_view();
        match self.items.pop() {
            None => {},
            Some(spans) => {
                assert(self.items.deep_view() =~= old_items.drop_last());
                if spans.len() > 0 {
                    let depth = self.items.len();
                    let b = Block::Bullet { depth, spans };
                    self.blocks.push(b);
                    assert(self.blocks.deep_view() =~= old_blocks.push(b.deep_view()));
                }
            },
        }
        assert(self@ =~= end_item(old(self)@));
    }

    fn end_code(&mut self)
        ensures
            final(self)@ == end_code(old(self)@),
    {
        self.in_code = false;
        let lines = code_lines(&self.code_buf);
        if lines.len() > 0 {
            let ghost before = self.blocks.deep_view();
            let b = Block::Code(lines);
            self.blocks.push(b);
            assert(self.blocks.deep_view() =~= before.push(b.deep_view()));
        }
        self.code_buf = String::new();
        assert(self@ =~= end_code(old(self)@));
    }

    fn push_block(&mut self, b: Block)
        ensures
            final(self)@ == (DeckState { blocks: old(self)@.blocks.push(b.deep_view()), ..old(self)@ }),
    {
        let ghost before = self.blocks.deep_view();
        self.blocks.push(b);
        assert(self.blocks.deep_view() =~= before.push(b.deep_view()));
        assert(self@ =~= (DeckState { blocks: old(self)@.blocks.push(b.deep_view()), ..old(self)@ }));
    }

    fn add_heading_text(&mut self, t: &str)
        requires
            old(self).heading is Some,
        ensures
            final(self)@ == heading_text(old(self)@, t@),
    {
        match self.heading.take() {
            Some((l, mut h)) => {
                h.append(t);
                self.heading = Some((l, h));
            },
            None => {},
        }
        assert(self@ =~= heading_text(old(self)@, t@));
    }

    fn step(&mut self, ev: &MdEvent) -> (ok: bool)
        requires
            old(self).bold < usize::MAX,
            old(self).italic < usize::MAX,
        ensures
            ok == (step(old(self)@, *ev) is Some),
            ok ==> final(self)@ == step(old(self)@, *ev)->0,
            final(self).bold <= old(self).bold + 1,
            final(self).italic <= old(self).italic + 1,
    {
        let ghost st = self@;
        match ev {
            MdEvent::StartHeading(l) => {
                self.heading = Some((*l, String::new()));
                assert(self@ =~= step(st, *ev)->0);
            },
            MdEvent::EndHeading => {
                return self.end_heading();
            },
            MdEvent::StartTable(a) => {
                let mut aligns: Vec<Alignment> = Vec::new();
                let mut i: usize = 0;
                while i < a.len()
                    invariant
                        i <= a.len(),
                        aligns@ =~= a@.take(i as int),
                    decreases a.len() - i,
                {
                    aligns.push(a[i]);
                    i = i + 1;
                }
                self.t_aligns = aligns;
                self.t_head = Vec::new();
                self.t_rows = Vec::new();
                self.t_row = Vec::new();
                assert(self.t_head.deep_view() =~= Seq::<Seq<SpanV>>::empty());
                assert(self.t_rows.deep_view() =~= Seq::<Seq<Seq<SpanV>>>::empty());
                assert(self.t_row.deep_view() =~= Seq::<Seq<SpanV>>::empty());
                assert(self.t_aligns@ =~= a@);
                assert(self@ == step(st, *ev)->0);
            },
            MdEvent::EndTable => {
                let aligns = take_vec(&mut self.t_aligns);
                let head = take_vec(&mut self.t_head);
                let rows = take_vec(&mut self.t_rows);
                let b = Block::Table { aligns, head, rows };
                assert(b.deep_view() == BlockV::Table { aligns: st.t_aligns, head: st.t_head, rows: st.t_rows });
                self.push_block(b);
                assert(self@ == step(st, *ev)->0);
            },
            MdEvent::StartTableHead => {
                self.t_row = Vec::new();
                assert(self.t_row.deep_view() =~= Seq::<Seq<SpanV>>::empty());
                assert(self@ == step(st, *ev)->0);
            },
            MdEvent::EndTableHead => {
                self.t_head = take_vec(&mut self.t_row);
                assert(self@ =~= step(st, *ev)->0);
            },
            MdEvent::StartTableRow => {
                self.t_row = Vec::new();
                assert(self.t_row.deep_view() =~= Seq::<Seq<SpanV>>::empty());
                assert(self@ == step(st, *ev)->0);
            },
            MdEvent::EndTableRow => {
                let row = take_vec(&mut self.t_row);
                let ghost before = self.t_rows.deep_view();
                self.t_rows.push(row);
                assert(self.t_rows.deep_view() =~= before.push(row.deep_view()));
                assert(self@ =~= step(st, *ev)->0);
            },
            MdEvent::StartTableCell => {
                self.t_cell = Some(Vec::new());
                assert(self.t_cell.deep_view()->0 =~= Seq::<SpanV>::empty());
                assert(self@ == step(st, *ev)->0);
            },
            MdEvent::EndTableCell => {
                let cell = match self.t_cell.take() {
                    Some(c) => c,
                    None => Vec::new(),
                };
                assert(cell.deep_view() =~= match st.t_cell {
                    Some(c) => c,
                    None => seq![],
                });
                let ghost before = self.t_row.deep_view();
                self.t_row.push(cell);
                assert(self.t_row.deep_view() =~= before.push(cell.deep_view()));
                assert(self@ =~= step(st, *ev)->0);
            },
            MdEvent::StartItem => {
                self.start_item();
            },
            MdEvent::EndItem => {
                self.end_item();
            },
            MdEvent::EndParagraph => {
                if self.t_cell.is_none() && self.items.len() == 0 && self.para.len() > 0 {
                    let para = take_vec(&mut self.para);
                    self.push_block(Block::Para(para));
                }
                assert(self@ =~= step(st, *ev)->0);
            },
            MdEvent::StartCodeBlock => {
                self.in_code = true;
                self.code_buf = String::new();
                assert(self@ == step(st, *ev)->0);
            },
            MdEvent::EndCodeBlock => {
                self.end_code();
            },
            MdEvent::StartStrong => {
                self.bold = self.bold + 1;
                assert(self@ =~= step(st, *ev)->0);
            },
            MdEvent::EndStrong => {
                self.bold = self.bold.saturating_sub(1);
                assert(self@ =~= step(st, *ev)->0);
            },
            MdEvent::StartEmphasis => {
                self.italic = self.italic + 1;
                assert(self@ =~= step(st, *ev)->0);
            },
            MdEvent::EndEmphasis => {
                self.italic = self.italic.saturating_sub(1);
                assert(self@ =~= step(st, *ev)->0);
            },
            MdEvent::Text(t) => {
                if self.in_code {
                    self.code_buf.append(t.as_str());
                    assert(self@ =~= step(st, *ev)->0);
                } else if self.heading.is_some() {
                    self.add_heading_text(t.as_str());
                } else {
                    let style = Style { bold: self.bold > 0, italic: self.italic > 0, code: false };
                    self.push_span(Span { text: t.clone(), style });
                }
            },
            MdEvent::Code(t) => {
                if self.heading.is_some() {
                    self.add_heading_text(t.as_str());
                } else {
                    let style = Style { bold: self.bold > 0, italic: self.italic > 0, code: true };
                    self.push_span(Span { text: t.clone(), style });
                }
            },
            MdEvent::SoftBreak | MdEvent::HardBreak => {
                let mut sp = String::new();
                push_char(&mut sp, ' ');
                assert(sp@ =~= seq![' ']);
                self.push_span(Span { text: sp, style: Style::default() });
            },
            MdEvent::Rule => {
                self.push_block(Block::Rule);
            },
            MdEvent::Other => {},
        }
        true
    }
}

/// Builds the deck that an event stream describes: one slide per stack
/// state that has content, in order, each with the title lines it animates.
/// `None` exactly where a heading ends that never began, which cannot happen
/// when headings open and close in turn.
pub fn slides_from_events(events: &Vec<MdEvent>) -> (r: Option<Vec<Slide>>)
    ensures
        r.deep_view() == deck_of_events(events@),
        r matches Some(d) ==> deck_well_formed(d.deep_view()),
        headings_paired(false, events@) ==> r is Some,
        heading_levels_ok(events@) ==> (r matches Some(d) ==> deck_levels_in_range(d.deep_view())),
{
    proof {
        law_deck_well_formed(events@);
        if headings_paired(false, events@) {
            law_paired_headings_build(events@);
        }
        if heading_levels_ok(events@) {
            law_title_levels(events@);
        }
    }
    let mut b = DeckBuilder::new();
    let mut i: usize = 0;
    assert(events@.skip(0) =~= events@);
    while i < events.len()
        invariant
            i <= events.len(),
            b.bold <= i,
            b.italic <= i,
            run_events(DeckState::initial(), events@) == run_events(b@, events@.skip(i as int)),
            headings_paired(false, events@) ==> deck_of_events(events@) is Some,
        decreases events.len() - i,
    {
        let ghost rest = events@.skip(i as int);
        assert(rest[0] == events@[i as int]);
        assert(rest.drop_first() =~= events@.skip(i + 1));
        if !b.step(&events[i]) {
            return None;
        }
        i = i + 1;
    }
    assert(events@.skip(i as int) =~= Seq::<MdEvent>::empty());
    if b.blocks.len() > 0 {
        let blocks = take_vec(&mut b.blocks);
        let cur = take_vec(&mut b.cur_stack);
        push_slide_exec(&mut b.slides, cur, blocks);
    }
    Some(b.slides)
}

/// Parses a markdown deck into slides: one slide per title-stack state that
/// has content, in document order, each with the title lines it animates;
/// every title stack has heading levels from 1 to 6.
pub fn parse(md: &str) -> (r: Vec<Slide>)
    ensures
        deck_of_events(markdown_events_of(md@)) == Some(r.deep_view()),
        deck_well_formed(r.deep_view()),
        deck_levels_in_range(r.deep_view()),
{
    let events = markdown_events(md);
    let r = slides_from_events(&events);
    r.unwrap()
}

// ---------------------------------------------------------------------------
// Laws of the deck.
// ---------------------------------------------------------------------------

/// Heading levels strictly increase down the title stack.
pub open spec fn levels_increasing(s: Seq<TitleV>) -> bool {
    forall|i: int, j: int| 0 <= i < j < s.len() ==> s[i].0 < s[j].0
}

/// A slide shown after a slide with title stack `prev` is well formed: it
/// has content, its stack is a proper stack, the title lines before its
/// first animated line are those of `prev`, the first animated line differs
/// from `prev`'s line there, and it animates every line from there on.
pub open spec fn slide_well_formed(prev: Seq<TitleV>, sl: SlideV) -> bool {
    let c = common_prefix_len(prev, sl.stack);
    &&& sl.blocks.len() > 0
    &&& levels_increasing(sl.stack)
    &&& c <= sl.stack.len()
    &&& c <= prev.len()
    &&& (forall|j: int| 0 <= j < c ==> prev[j] == sl.stack[j])
    &&& (c < sl.stack.len() && c < prev.len() ==> prev[c as int] != sl.stack[c as int])
    &&& sl.anim == index_range(c as int, sl.stack.len() as int)
}

/// Every slide of the deck is well formed with respect to the slide before
/// it (the first one with respect to the empty stack).
pub open spec fn deck_well_formed(slides: Seq<SlideV>) -> bool {
    forall|i: int|
        0 <= i < slides.len() ==> slide_well_formed(
            if i == 0 {
                Seq::<TitleV>::empty()
            } else {
                slides[i - 1].stack
            },
            #[trigger] slides[i],
        )
}

/// What holds of the builder's state between any two events.
pub open spec fn state_invariant(st: DeckState) -> bool {
    &&& deck_well_formed(st.slides)
    &&& levels_increasing(st.stack)
    &&& st.cur_stack == st.stack
}

/// The shared prefix is a prefix of both stacks, and where it stops the
/// stacks differ or one of them ends.
pub proof fn lemma_common_prefix_props(a: Seq<TitleV>, b: Seq<TitleV>)
    ensures
        common_prefix_len(a, b) <= a.len(),
        common_prefix_len(a, b) <= b.len(),
        forall|j: int| 0 <= j < common_prefix_len(a, b) ==> a[j] == b[j],
        common_prefix_len(a, b) < a.len() && common_prefix_len(a, b) < b.len() ==> a[common_prefix_len(
            a,
            b,
        ) as int] != b[common_prefix_len(a, b) as int],
    decreases a.len(),
{
    if !(a.len() == 0 || b.len() == 0 || a[0] != b[0]) {
        let a1 = a.drop_first();
        let b1 = b.drop_first();
        lemma_common_prefix_props(a1, b1);
        let c = common_prefix_len(a, b);
        assert forall|j: int| 0 <= j < c implies a[j] == b[j] by {
            if j > 0 {
                assert(a[j] == a1[j - 1] && b[j] == b1[j - 1]);
            }
        }
        if c < a.len() && c < b.len() {
            assert(a[c as int] == a1[c - 1] && b[c as int] == b1[c - 1]);
        }
    }
}

/// Pushing a slide with content and a proper stack keeps the deck well formed.
pub proof fn lemma_push_slide_well_formed(slides: Seq<SlideV>, stack: Seq<TitleV>, blocks: Seq<BlockV>)
    requires
        deck_well_formed(slides),
        levels_increasing(stack),
        blocks.len() > 0,
    ensures
        deck_well_formed(push_slide(slides, stack, blocks)),
{
    let r = push_slide(slides, stack, blocks);
    lemma_common_prefix_props(last_stack(slides), stack);
    assert forall|i: int| 0 <= i < r.len() implies slide_well_formed(
        if i == 0 {
            Seq::<TitleV>::empty()
        } else {
            r[i - 1].stack
        },
        #[trigger] r[i],
    ) by {
        if i < slides.len() {
            assert(r[i] == slides[i]);
            if i > 0 {
                assert(r[i - 1] == slides[i - 1]);
            }
            assert(slide_well_formed(
                if i == 0 {
                    Seq::<TitleV>::empty()
                } else {
                    slides[i - 1].stack
                },
                slides[i],
            ));
        } else {
            if i > 0 {
                assert(r[i - 1] == slides[i - 1]);
                assert(last_stack(slides) == slides[i - 1].stack);
            } else {
                assert(last_stack(slides) == Seq::<TitleV>::empty());
            }
        }
    }
}

/// Law: the titles that survive a header of level `lvl` are exactly the
/// titles of the stack below `lvl`: every one of them stays, every other
/// goes, and they keep the stack's order.
pub proof fn law_header_replaces_lower_titles(s: Seq<TitleV>, lvl: usize)
    requires
        levels_increasing(s),
    ensures
        levels_increasing(keep_below(s, lvl)),
        forall|k: int|
            0 <= k < keep_below(s, lvl).len() ==> #[trigger] keep_below(s, lvl)[k].0 < lvl
                && s.contains(keep_below(s, lvl)[k]),
        forall|j: int| 0 <= j < s.len() && s[j].0 < lvl ==> keep_below(s, lvl).contains(#[trigger] s[j]),
    decreases s.len(),
{
    if s.len() > 0 {
        let d = s.drop_last();
        assert(levels_increasing(d));
        law_header_replaces_lower_titles(d, lvl);
        let rest = keep_below(d, lvl);
        assert forall|j: int| 0 <= j < s.len() && s[j].0 < lvl implies keep_below(s, lvl).contains(
            #[trigger] s[j],
        ) by {
            if j < s.len() - 1 {
                assert(s[j] == d[j]);
                let k = choose|k: int| 0 <= k < rest.len() && rest[k] == d[j];
                if s.last().0 < lvl {
                    assert(keep_below(s, lvl)[k] == rest[k]);
                }
            } else {
                assert(keep_below(s, lvl).last() == s.last());
            }
        }
        assert forall|k: int| 0 <= k < rest.len() implies s.contains(#[trigger] rest[k]) by {
            let j = choose|j: int| 0 <= j < d.len() && d[j] == rest[k];
            assert(s[j] == rest[k]);
        }
        if s.last().0 < lvl {
            let r = rest.push(s.last());
            assert forall|k: int| 0 <= k < rest.len() implies #[trigger] rest[k].0 < s.last().0 by {
                let j = choose|j: int| 0 <= j < d.len() && d[j] == rest[k];
                assert(s[j] == rest[k]);
            }
            assert forall|k: int| 0 <= k < r.len() implies #[trigger] r[k].0 < lvl && s.contains(r[k]) by {
                if k < rest.len() {
                    assert(r[k] == rest[k]);
                } else {
                    assert(s[s.len() - 1] == r[k]);
                }
            }
            assert(levels_increasing(r)) by {
                assert forall|i: int, j: int| 0 <= i < j < r.len() implies r[i].0 < r[j].0 by {
                    if j < rest.len() {
                        assert(r[i] == rest[i] && r[j] == rest[j]);
                    } else {
                        assert(r[i] == rest[i]);
                    }
                }
            }
        }
    }
}

/// One event keeps the builder's invariant.
pub proof fn lemma_step_invariant(st: DeckState, ev: MdEvent)
    requires
        state_invariant(st),
    ensures
        step(st, ev) matches Some(next) ==> state_invariant(next),
{
    if let MdEvent::EndHeading = ev {
        if let Some(h) = st.heading {
            law_header_replaces_lower_titles(st.stack, h.0);
            let kept = keep_below(st.stack, h.0);
            let stack = kept.push((h.0, h.1));
            assert(levels_increasing(stack)) by {
                assert forall|i: int, j: int| 0 <= i < j < stack.len() implies stack[i].0
                    < stack[j].0 by {
                    assert(stack[i] == kept[i]);
                    if j < kept.len() {
                        assert(stack[j] == kept[j]);
                    }
                }
            }
            if st.blocks.len() > 0 {
                lemma_push_slide_well_formed(st.slides, st.cur_stack, st.blocks);
            }
        }
    }
}

/// The invariant holds after any run of events.
pub proof fn lemma_run_invariant(st: DeckState, evs: Seq<MdEvent>)
    requires
        state_invariant(st),
    ensures
        run_events(st, evs) matches Some(fin) ==> state_invariant(fin),
    decreases evs.len(),
{
    if evs.len() > 0 {
        lemma_step_invariant(st, evs[0]);
        if let Some(next) = step(st, evs[0]) {
            lemma_run_invariant(next, evs.drop_first());
        }
    }
}

/// Law: every slide that a deck built from markdown events holds has content
/// (headers without content make no slide), shows a proper title stack
/// (levels strictly increase, since a header replaces every title of its
/// level or deeper), keeps the title lines it shares with the slide before,
/// and animates exactly the lines from the first one that changed.
pub proof fn law_deck_well_formed(evs: Seq<MdEvent>)
    ensures
        deck_of_events(evs) matches Some(d) ==> deck_well_formed(d),
{
    let init = DeckState::initial();
    assert(deck_well_formed(init.slides));
    lemma_run_invariant(init, evs);
    if let Some(fin) = run_events(init, evs) {
        if fin.blocks.len() > 0 {
            lemma_push_slide_well_formed(fin.slides, fin.cur_stack, fin.blocks);
        }
    }
}

/// Each title of the stack has a heading level from 1 to 6.
pub open spec fn levels_in_range(s: Seq<TitleV>) -> bool {
    forall|j: int| 0 <= j < s.len() ==> 1 <= #[trigger] s[j].0 <= 6
}

/// Every title stack of the deck has heading levels from 1 to 6.
pub open spec fn deck_levels_in_range(d: Seq<SlideV>) -> bool {
    forall|i: int| 0 <= i < d.len() ==> levels_in_range(#[trigger] d[i].stack)
}

/// The builder's titles, finished and pending, have levels from 1 to 6.
pub open spec fn state_levels_ok(st: DeckState) -> bool {
    &&& levels_in_range(st.stack)
    &&& levels_in_range(st.cur_stack)
    &&& deck_levels_in_range(st.slides)
    &&& (st.heading matches Some(h) ==> 1 <= h.0 <= 6)
}

proof fn lemma_keep_below_in_range(s: Seq<TitleV>, lvl: usize)
    requires
        levels_in_range(s),
    ensures
        levels_in_range(keep_below(s, lvl)),
    decreases s.len(),
{
    if s.len() > 0 {
        let d = s.drop_last();
        assert forall|j: int| 0 <= j < d.len() implies 1 <= #[trigger] d[j].0 <= 6 by {
            assert(d[j] == s[j]);
        }
        lemma_keep_below_in_range(d, lvl);
        let rest = keep_below(d, lvl);
        if s.last().0 < lvl {
            let r = rest.push(s.last());
            assert forall|j: int| 0 <= j < r.len() implies 1 <= #[trigger] r[j].0 <= 6 by {
                if j < rest.len() {
                    assert(r[j] == rest[j]);
                }
            }
        }
    }
}

proof fn lemma_push_slide_in_range(slides: Seq<SlideV>, stack: Seq<TitleV>, blocks: Seq<BlockV>)
    requires
        deck_levels_in_range(slides),
        levels_in_range(stack),
    ensures
        deck_levels_in_range(push_slide(slides, stack, blocks)),
{
    let r = push_slide(slides, stack, blocks);
    assert forall|i: int| 0 <= i < r.len() implies levels_in_range(#[trigger] r[i].stack) by {
        if i < slides.len() {
            assert(r[i] == slides[i]);
        }
    }
}

proof fn lemma_step_levels(st: DeckState, ev: MdEvent)
    requires
        state_levels_ok(st),
        ev matches MdEvent::StartHeading(l) ==> 1 <= l <= 6,
    ensures
        step(st, ev) matches Some(next) ==> state_levels_ok(next),
{
    if let MdEvent::EndHeading = ev {
        if let Some(h) = st.heading {
            lemma_keep_below_in_range(st.stack, h.0);
            let kept = keep_below(st.stack, h.0);
            let stack = kept.push((h.0, h.1));
            assert forall|j: int| 0 <= j < stack.len() implies 1 <= #[trigger] stack[j].0 <= 6 by {
                if j < kept.len() {
                    assert(stack[j] == kept[j]);
                }
            }
            if st.blocks.len() > 0 {
                lemma_push_slide_in_range(st.slides, st.cur_stack, st.blocks);
            }
        }
    }
}

proof fn lemma_run_levels(st: DeckState, evs: Seq<MdEvent>)
    requires
        state_levels_ok(st),
        heading_levels_ok(evs),
    ensures
        run_events(st, evs) matches Some(fin) ==> state_levels_ok(fin),
    decreases evs.len(),
{
    if evs.len() > 0 {
        assert(evs[0] matches MdEvent::StartHeading(l) ==> 1 <= l <= 6);
        lemma_step_levels(st, evs[0]);
        let rest = evs.drop_first();
        assert forall|i: int| 0 <= i < rest.len() implies (#[trigger] rest[i] matches MdEvent::StartHeading(
            l,
        ) ==> 1 <= l <= 6) by {
            assert(rest[i] == evs[i + 1]);
        }
        if let Some(next) = step(st, evs[0]) {
            lemma_run_levels(next, rest);
        }
    }
}

/// Law: when every heading of the events has a level from 1 to 6 (as
/// markdown's `#` to `######` give), so does every title of every slide.
pub proof fn law_title_levels(evs: Seq<MdEvent>)
    requires
        heading_levels_ok(evs),
    ensures
        deck_of_events(evs) matches Some(d) ==> deck_levels_in_range(d),
{
    let init = DeckState::initial();
    lemma_run_levels(init, evs);
    if let Some(fin) = run_events(init, evs) {
        if fin.blocks.len() > 0 {
            lemma_push_slide_in_range(fin.slides, fin.cur_stack, fin.blocks);
        }
    }
}

proof fn lemma_run_succeeds(st: DeckState, open: bool, evs: Seq<MdEvent>)
    requires
        (st.heading is Some) == open,
        headings_paired(open, evs),
    ensures
        run_events(st, evs) is Some,
    decreases evs.len(),
{
    if evs.len() > 0 {
        let ev = evs[0];
        let rest = evs.drop_first();
        match ev {
            MdEvent::StartHeading(_) => {
                lemma_run_succeeds(step(st, ev)->0, true, rest);
            },
            MdEvent::EndHeading => {
                lemma_run_succeeds(step(st, ev)->0, false, rest);
            },
            _ => {
                assert(step(st, ev) is Some);
                assert((step(st, ev)->0.heading is Some) == open);
                lemma_run_succeeds(step(st, ev)->0, open, rest);
            },
        }
    }
}

/// Law: a deck is built from any event stream whose headings open and close
/// in turn; no heading then ends without having begun.
pub proof fn law_paired_headings_build(evs: Seq<MdEvent>)
    requires
        headings_paired(false, evs),
    ensures
        deck_of_events(evs) is Some,
{
    lemma_run_succeeds(DeckState::initial(), false, evs);
}

// ---------------------------------------------------------------------------
// Laws of code blocks.
// ---------------------------------------------------------------------------

/// The lines joined with a line feed between each two.
pub open spec fn join_lines(ls: Seq<Seq<char>>) -> Seq<char>
    decreases ls.len(),
{
    if ls.len() == 0 {
        seq![]
    } else if ls.len() == 1 {
        ls[0]
    } else {
        join_lines(ls.drop_last()) + seq!['\n'] + ls.last()
    }
}

/// No line holds a line feed.
pub open spec fn no_line_feed(ls: Seq<Seq<char>>) -> bool {
    forall|i: int, j: int| 0 <= i < ls.len() && 0 <= j < ls[i].len() ==> #[trigger] ls[i][j] != '\n'
}

/// `n` line feeds.
pub open spec fn line_feeds(n: nat) -> Seq<char> {
    Seq::new(n, |i: int| '\n')
}

/// `ls` are the lines of the text `s` of a code block: joined with line
/// feeds they give back `s` less only its trailing line feeds (no inner
/// line, empty or not, is lost), no line holds a line feed, and the last
/// line is not empty.
pub open spec fn lines_of_code_text(ls: Seq<Seq<char>>, s: Seq<char>) -> bool {
    &&& no_line_feed(ls)
    &&& (ls.len() > 0 ==> ls.last().len() > 0)
    &&& join_lines(ls).len() <= s.len()
    &&& s == join_lines(ls) + line_feeds((s.len() - join_lines(ls).len()) as nat)
}

/// Law: splitting at line feeds loses nothing: the pieces, joined with
/// line feeds, give back the text, none holds a line feed, and there is
/// one more piece than the text has line feeds (at least one).
pub proof fn law_split_lines(s: Seq<char>)
    ensures
        split_lines(s).len() >= 1,
        join_lines(split_lines(s)) == s,
        no_line_feed(split_lines(s)),
    decreases s.len(),
{
    if s.len() > 0 {
        let d = s.drop_last();
        law_split_lines(d);
        let r = split_lines(d);
        let c = s.last();
        let n = split_lines(s);
        if c == '\n' {
            assert(n.drop_last() =~= r);
            assert(join_lines(n) =~= s);
            assert forall|i: int, j: int| 0 <= i < n.len() && 0 <= j < n[i].len() implies #[trigger] n[i][j]
                != '\n' by {
                if i < r.len() {
                    assert(n[i] == r[i]);
                }
            }
        } else {
            if r.len() == 1 {
                assert(join_lines(n) =~= s);
            } else {
                assert(n.drop_last() =~= r.drop_last());
                assert(n.last() == r.last().push(c));
                assert(join_lines(r) == join_lines(r.drop_last()) + seq!['\n'] + r.last());
                assert(join_lines(n) == join_lines(r.drop_last()) + seq!['\n'] + r.last().push(c));
                assert(s =~= d.push(c));
                assert(join_lines(n) =~= s);
            }
            assert forall|i: int, j: int| 0 <= i < n.len() && 0 <= j < n[i].len() implies #[trigger] n[i][j]
                != '\n' by {
                if i < r.len() - 1 {
                    assert(n[i] == r[i]);
                } else if j < r.last().len() {
                    assert(n[i][j] == r[i][j]);
                }
            }
        }
    } else {
        assert(join_lines(split_lines(s)) =~= s);
    }
}

proof fn lemma_trim_blank_tail(ls: Seq<Seq<char>>)
    requires
        ls.len() >= 1,
        no_line_feed(ls),
    ensures
        no_line_feed(trim_blank_tail(ls)),
        trim_blank_tail(ls).len() > 0 ==> trim_blank_tail(ls).last().len() > 0,
        join_lines(trim_blank_tail(ls)).len() <= join_lines(ls).len(),
        join_lines(ls) == join_lines(trim_blank_tail(ls)) + line_feeds(
            (join_lines(ls).len() - join_lines(trim_blank_tail(ls)).len()) as nat,
        ),
    decreases ls.len(),
{
    let t = trim_blank_tail(ls);
    if ls.last().len() == 0 {
        let d = ls.drop_last();
        if d.len() == 0 {
            assert(trim_blank_tail(d) == d);
            assert(t.len() == 0);
            assert(join_lines(ls) =~= Seq::<char>::empty());
            assert(join_lines(ls) =~= join_lines(t) + line_feeds(0));
        } else {
            assert forall|i: int, j: int| 0 <= i < d.len() && 0 <= j < d[i].len() implies #[trigger] d[i][j]
                != '\n' by {
                assert(d[i] == ls[i]);
            }
            lemma_trim_blank_tail(d);
            assert(t == trim_blank_tail(d));
            let m = (join_lines(d).len() - join_lines(t).len()) as nat;
            assert(join_lines(ls) =~= join_lines(d) + seq!['\n']);
            assert(join_lines(ls) =~= join_lines(t) + line_feeds(m + 1));
        }
    } else {
        assert(t == ls);
        assert(join_lines(ls) =~= join_lines(t) + line_feeds(0));
    }
}

/// Law: the lines a code block keeps are the lines of its text: joined with
/// line feeds they give back the text less only its trailing line feeds,
/// no line holds a line feed, and the last kept line is not empty.
pub proof fn law_code_lines(s: Seq<char>)
    ensures
        lines_of_code_text(trim_blank_tail(split_lines(s)), s),
{
    law_split_lines(s);
    lemma_trim_blank_tail(split_lines(s));
}

/// Law: a code block ends by adding, after the blocks already there, one
/// code block holding the lines of its text (see `lines_of_code_text`),
/// unless its text is only line feeds, when no block is added.
pub proof fn law_end_code(st: DeckState)
    ensures
        end_code(st).blocks.take(st.blocks.len() as int) == st.blocks,
        (st.code_buf == line_feeds(st.code_buf.len())) ==> end_code(st).blocks == st.blocks,
        (st.code_buf != line_feeds(st.code_buf.len())) ==> end_code(st).blocks.len() == st.blocks.len() + 1
            && (end_code(st).blocks.last() matches BlockV::Code(ls) && lines_of_code_text(ls, st.code_buf)),
{
    let s = st.code_buf;
    let ls = trim_blank_tail(split_lines(s));
    law_code_lines(s);
    if ls.len() == 0 {
        assert(join_lines(ls) =~= Seq::<char>::empty());
        assert(s =~= line_feeds(s.len()));
    } else {
        assert(end_code(st).blocks.take(st.blocks.len() as int) =~= st.blocks);
        // the last line is not empty and holds no line feed, so the text
        // has a character other than a line feed
        let j = join_lines(ls);
        let k = ls.len() - 1;
        lemma_join_ends_with_last(ls);
        assert(j[j.len() - 1] == ls.last()[ls.last().len() - 1]);
        assert(ls[k][ls[k].len() - 1] != '\n');
        assert(s[j.len() - 1] == j[j.len() - 1]);
        if s == line_feeds(s.len()) {
            assert(s[j.len() - 1] == '\n');
        }
    }
    if ls.len() == 0 {
        assert(end_code(st).blocks =~= st.blocks);
    }
}

proof fn lemma_join_ends_with_last(ls: Seq<Seq<char>>)
    requires
        ls.len() > 0,
    ensures
        join_lines(ls).len() >= ls.last().len(),
        forall|i: int|
            0 <= i < ls.last().len() ==> #[trigger] join_lines(ls)[join_lines(ls).len() - ls.last().len() + i]
                == ls.last()[i],
{
    if ls.len() > 1 {
        let a = join_lines(ls.drop_last()) + seq!['\n'];
        assert(join_lines(ls) == a + ls.last());
        assert forall|i: int| 0 <= i < ls.last().len() implies #[trigger] join_lines(ls)[join_lines(ls).len()
            - ls.last().len() + i] == ls.last()[i] by {
            assert((a + ls.last())[a.len() + i] == ls.last()[i]);
        }
    }
}

// ---------------------------------------------------------------------------
// Laws of tables.
// ---------------------------------------------------------------------------

/// Law: a table is read in document order. Ending a cell adds it after the
/// row's cells so far; ending a body row adds it after the table's rows so
/// far; ending the header takes the row read as the header; ending the
/// table adds, after the blocks so far, a table block with the alignments,
/// header and rows read. No other event touches the rows read.
pub proof fn law_table_read_in_order(st: DeckState, ev: MdEvent)
    ensures
        step(st, ev) matches Some(n) ==> {
            &&& ev is EndTableCell ==> n.t_row.len() == st.t_row.len() + 1 && n.t_row.take(
                st.t_row.len() as int,
            ) == st.t_row && n.t_row.last() == (match st.t_cell {
                Some(c) => c,
                None => seq![],
            })
            &&& ev is EndTableRow ==> n.t_rows.len() == st.t_rows.len() + 1 && n.t_rows.take(
                st.t_rows.len() as int,
            ) == st.t_rows && n.t_rows.last() == st.t_row
            &&& ev is EndTableHead ==> n.t_head == st.t_row
            &&& ev is EndTable ==> n.blocks.len() == st.blocks.len() + 1 && n.blocks.take(
                st.blocks.len() as int,
            ) == st.blocks && n.blocks.last() == BlockV::Table {
                aligns: st.t_aligns,
                head: st.t_head,
                rows: st.t_rows,
            }
            &&& !(ev is StartTable || ev is EndTable || ev is EndTableRow) ==> n.t_rows == st.t_rows
        },
{
    if let Some(n) = step(st, ev) {
        if ev is EndTableCell {
            assert(n.t_row.take(st.t_row.len() as int) =~= st.t_row);
        }
        if ev is EndTableRow {
            assert(n.t_rows.take(st.t_rows.len() as int) =~= st.t_rows);
        }
        if ev is EndTable {
            assert(n.blocks.take(st.blocks.len() as int) =~= st.blocks);
        }
        if let MdEvent::EndHeading = ev {
            assert(n.t_rows == st.t_rows);
        }
    }
}

/// The number of body rows that end among the events.
pub open spec fn rows_ended(evs: Seq<MdEvent>) -> nat
    decreases evs.len(),
{
    if evs.len() == 0 {
        0
    } else {
        rows_ended(evs.drop_last()) + if evs.last() is EndTableRow {
            1nat
        } else {
            0
        }
    }
}

/// Whether no table starts or ends among the events.
pub open spec fn inside_one_table(evs: Seq<MdEvent>) -> bool {
    forall|i: int| 0 <= i < evs.len() ==> !(#[trigger] evs[i] is StartTable || evs[i] is EndTable)
}

/// Law: within a table, rows only ever join at the end: after any events
/// that neither start nor end a table, the rows read before are still the
/// first rows, in their order, and one more row follows for each body row
/// that ended.
pub proof fn law_table_rows_kept_in_order(st: DeckState, evs: Seq<MdEvent>)
    requires
        inside_one_table(evs),
    ensures
        run_events(st, evs) matches Some(f) ==> f.t_rows.len() == st.t_rows.len() + rows_ended(evs)
            && f.t_rows.take(st.t_rows.len() as int) == st.t_rows,
    decreases evs.len(),
{
    if evs.len() > 0 {
        let e = evs[0];
        let rest = evs.drop_first();
        assert(!(evs[0] is StartTable || evs[0] is EndTable));
        assert(inside_one_table(rest)) by {
            assert forall|i: int| 0 <= i < rest.len() implies !(#[trigger] rest[i] is StartTable
                || rest[i] is EndTable) by {
                assert(rest[i] == evs[i + 1]);
            }
        }
        law_table_read_in_order(st, e);
        lemma_rows_ended_first(evs);
        if let Some(n) = step(st, e) {
            law_table_rows_kept_in_order(n, rest);
            if let Some(f) = run_events(n, rest) {
                assert(f.t_rows.take(n.t_rows.len() as int) == n.t_rows);
                assert(f.t_rows.take(st.t_rows.len() as int) =~= n.t_rows.take(st.t_rows.len() as int));
            }
        }
    } else {
        assert(st.t_rows.take(st.t_rows.len() as int) =~= st.t_rows);
    }
}

proof fn lemma_rows_ended_first(evs: Seq<MdEvent>)
    requires
        evs.len() > 0,
    ensures
        rows_ended(evs) == rows_ended(evs.drop_first()) + if evs[0] is EndTableRow {
            1nat
        } else {
            0
        },
    decreases evs.len(),
{
    if evs.len() > 1 {
        let d = evs.drop_last();
        lemma_rows_ended_first(d);
        let t = evs.drop_first();
        assert(d.drop_first() =~= t.drop_last());
        assert(d[0] == evs[0]);
        assert(t.last() == evs.last());
        assert(rows_ended(t) == rows_ended(t.drop_last()) + if t.last() is EndTableRow {
            1nat
        } else {
            0
        });
        assert(rows_ended(evs) == rows_ended(d) + if evs.last() is EndTableRow {
            1nat
        } else {
            0
        });
    } else {
        assert(evs.drop_first().len() == 0);
        assert(evs.drop_last().len() == 0);
        assert(rows_ended(evs.drop_first()) == 0);
        assert(rows_ended(evs.drop_last()) == 0);
        assert(evs.last() == evs[0]);
    }
}

// ---------------------------------------------------------------------------
// Laws of document order.
// ---------------------------------------------------------------------------

/// Whether `b` is `a` with at most one more element at its end.
pub open spec fn grows_by_at_most_one<A>(a: Seq<A>, b: Seq<A>) -> bool {
    &&& b.len() == a.len() || b.len() == a.len() + 1
    &&& b.take(a.len() as int) == a
}

/// Whether `b` is `a` with `x` added at its end.
pub open spec fn appended<A>(a: Seq<A>, b: Seq<A>, x: A) -> bool {
    &&& b.len() == a.len() + 1
    &&& b.take(a.len() as int) == a
    &&& b.last() == x
}

/// Law: content is gathered in document order. Every event but the end of
/// a heading keeps the finished slides and adds at most one block, after
/// the blocks gathered so far; a bullet it adds is nested as deep as the
/// list items open around it. The end of a heading makes the blocks
/// gathered so far, if any, the next slide, after the finished ones, under
/// the title stack they were gathered under.
pub proof fn law_blocks_in_order(st: DeckState, ev: MdEvent)
    ensures
        step(st, ev) matches Some(n) ==> {
            &&& !(ev is EndHeading) ==> n.slides == st.slides && grows_by_at_most_one(st.blocks, n.blocks)
            &&& !(ev is EndHeading) && n.blocks.len() == st.blocks.len() + 1 && n.blocks.last() is Bullet
                && st.items.len() <= usize::MAX ==> n.blocks.last()->depth == st.items.len() - 1
            &&& ev is EndHeading && st.blocks.len() > 0 ==> n.blocks.len() == 0 && n.slides.len()
                == st.slides.len() + 1 && n.slides.take(st.slides.len() as int) == st.slides
                && n.slides.last().blocks == st.blocks && n.slides.last().stack == st.cur_stack
            &&& ev is EndHeading && st.blocks.len() == 0 ==> n.slides == st.slides && n.blocks == st.blocks
        },
{
    if let Some(n) = step(st, ev) {
        if !(ev is EndHeading) {
            assert(n.blocks.take(st.blocks.len() as int) =~= st.blocks);
        } else if st.blocks.len() > 0 {
            assert(n.slides.take(st.slides.len() as int) =~= st.slides);
        }
        match ev {
            MdEvent::StartItem => {
                if st.items.len() > 0 && st.items.last().len() > 0 {
                    assert(n.blocks.last() == BlockV::Bullet {
                        depth: (st.items.len() - 1) as usize,
                        spans: st.items.last(),
                    });
                } else {
                    assert(n.blocks == st.blocks);
                }
            },
            MdEvent::EndItem => {
                if st.items.len() > 0 && st.items.last().len() > 0 {
                    assert(n.blocks.last() == BlockV::Bullet {
                        depth: st.items.drop_last().len() as usize,
                        spans: st.items.last(),
                    });
                } else {
                    assert(n.blocks == st.blocks);
                }
            },
            MdEvent::EndHeading => {},
            MdEvent::EndTable => {
                assert(!(n.blocks.last() is Bullet));
            },
            MdEvent::EndParagraph => {
                if n.blocks.len() == st.blocks.len() + 1 {
                    assert(!(n.blocks.last() is Bullet));
                }
            },
            MdEvent::EndCodeBlock => {
                if n.blocks.len() == st.blocks.len() + 1 {
                    assert(!(n.blocks.last() is Bullet));
                }
            },
            MdEvent::Rule => {
                assert(!(n.blocks.last() is Bullet));
            },
            _ => {
                assert(n.blocks == st.blocks);
            },
        }
    }
}

/// Law: the text of a paragraph, list item or table cell is kept in
/// document order: a span of text joins the open table cell if there is
/// one, else the innermost open list item if there is one, else the
/// paragraph, always after the spans it already has, and nothing else
/// changes.
pub proof fn law_spans_in_order(st: DeckState, span: SpanV)
    ensures
        st.t_cell matches Some(c) ==> push_span(st, span) == (DeckState { t_cell: push_span(st, span).t_cell, ..st })
            && (push_span(st, span).t_cell matches Some(c2) && appended(c, c2, span)),
        st.t_cell is None && st.items.len() > 0 ==> push_span(st, span) == (DeckState {
            items: push_span(st, span).items,
            ..st
        }) && push_span(st, span).items.len() == st.items.len() && push_span(st, span).items.drop_last()
            == st.items.drop_last() && appended(st.items.last(), push_span(st, span).items.last(), span),
        st.t_cell is None && st.items.len() == 0 ==> push_span(st, span) == (DeckState {
            para: push_span(st, span).para,
            ..st
        }) && appended(st.para, push_span(st, span).para, span),
{
    let n = push_span(st, span);
    if let Some(c) = st.t_cell {
        assert(c.push(span).take(c.len() as int) =~= c);
    } else if st.items.len() > 0 {
        assert(n.items.drop_last() =~= st.items.drop_last());
        assert(st.items.last().push(span).take(st.items.last().len() as int) =~= st.items.last());
    } else {
        assert(st.para.push(span).take(st.para.len() as int) =~= st.para);
    }
}

/// Law: how headings move the title stack. A heading's text is what its
/// text and code events give, in order; when it ends, it goes on top of
/// the titles of the stack below its level (see
/// `law_header_replaces_lower_titles`), and the stack that follows is the
/// one new content is gathered under.
pub proof fn law_heading_updates_stack(st: DeckState, ev: MdEvent)
    ensures
        ev is StartHeading ==> step(st, ev) is Some && (step(st, ev)->0).heading == Some(
            (ev->StartHeading_0, Seq::<char>::empty()),
        ) && (step(st, ev)->0).stack == st.stack,
        ev is EndHeading && st.heading is Some ==> step(st, ev) is Some && (step(st, ev)->0).heading is None
            && (step(st, ev)->0).stack.len() >= 1 && (step(st, ev)->0).stack.last() == st.heading->0 && (step(
            st,
            ev,
        )->0).stack.drop_last() == keep_below(st.stack, (st.heading->0).0) && (step(st, ev)->0).cur_stack
            == (step(st, ev)->0).stack,
        ev is EndHeading && st.heading is None ==> step(st, ev) is None,
        ev is Text && !st.in_code && st.heading is Some ==> step(st, ev) is Some && (step(st, ev)->0).heading
            == Some(((st.heading->0).0, (st.heading->0).1 + (ev->Text_0)@)) && (step(st, ev)->0).blocks
            == st.blocks,
        ev is Code && st.heading is Some ==> step(st, ev) is Some && (step(st, ev)->0).heading == Some(
            ((st.heading->0).0, (st.heading->0).1 + (ev->Code_0)@),
        ) && (step(st, ev)->0).blocks == st.blocks,
        !(ev is StartHeading || ev is EndHeading) ==> step(st, ev) is Some && (step(st, ev)->0).stack
            == st.stack && (step(st, ev)->0).cur_stack == st.cur_stack,
{
    if ev is EndHeading && st.heading is Some {
        let h = st.heading->0;
        let n = step(st, ev)->0;
        assert(n.stack == keep_below(st.stack, h.0).push((h.0, h.1)));
        assert(n.stack.drop_last() =~= keep_below(st.stack, h.0));
    }
}

/// Law: which block each event adds. A rule adds a rule. A paragraph
/// that ends outside any table cell and list item adds its text, if it has
/// any, as a paragraph, and the next paragraph starts empty; inside a cell
/// or item its text stays where it is. A list item that ends removes itself
/// from the open items and adds its text, if it has any, as a bullet as
/// deep as the items still open around it; a list item that starts inside
/// one with text first adds that text as the enclosing item's bullet.
pub proof fn law_block_added(st: DeckState, ev: MdEvent)
    requires
        st.items.len() <= usize::MAX,
    ensures
        ev is Rule ==> appended(st.blocks, (step(st, ev)->0).blocks, BlockV::Rule),
        ev is EndParagraph && st.t_cell is None && st.items.len() == 0 && st.para.len() > 0 ==> appended(
            st.blocks,
            (step(st, ev)->0).blocks,
            BlockV::Para(st.para),
        ) && (step(st, ev)->0).para.len() == 0,
        ev is EndParagraph && !(st.t_cell is None && st.items.len() == 0 && st.para.len() > 0) ==> step(
            st,
            ev,
        ) == Some(st),
        ev is EndItem && st.items.len() > 0 ==> (step(st, ev)->0).items == st.items.drop_last() && (if st.items.last().len()
            > 0 {
            appended(
                st.blocks,
                (step(st, ev)->0).blocks,
                BlockV::Bullet { depth: (st.items.len() - 1) as usize, spans: st.items.last() },
            )
        } else {
            (step(st, ev)->0).blocks == st.blocks
        }),
        ev is StartItem ==> (step(st, ev)->0).items.len() == st.items.len() + 1 && (step(st, ev)->0).items.last().len()
            == 0 && (if st.items.len() > 0 && st.items.last().len() > 0 {
            appended(
                st.blocks,
                (step(st, ev)->0).blocks,
                BlockV::Bullet { depth: (st.items.len() - 1) as usize, spans: st.items.last() },
            ) && (step(st, ev)->0).items[st.items.len() - 1].len() == 0
        } else {
            (step(st, ev)->0).blocks == st.blocks
        }),
{
    let n = step(st, ev)->0;
    if ev is Rule || ev is EndParagraph || ev is EndItem || ev is StartItem {
        if n.blocks.len() == st.blocks.len() + 1 {
            assert(n.blocks.take(st.blocks.len() as int) =~= st.blocks);
        }
    }
}

} // verus!
