//! Laying a slide out as lines of styled text for a terminal of a given size.

use crate::deck::{Block, BlockV, Slide, SlideV, Span, SpanV, Style};
use crate::strings::{push_char, repeat_seq, repeat_str};
use crate::table::{cell_full, layout_table, row_measurable, table_lines, table_measurable};
use crate::wrap::{styled_chars, sum_lens, to_words, with_style, words_of, wrap_lines, wrap_spans};
use vstd::prelude::*;
use vstd::string::*;

verus! {

broadcast use vstd::string::group_string_axioms;

/// The prefix of a bullet's first line: two spaces per level of nesting,
/// then the bullet.
pub open spec fn bullet_prefix(depth: usize) -> Seq<char> {
    repeat_seq(seq![' ', ' '], depth as nat) + seq!['•', ' ']
}

/// Spaces as wide as `s`.
pub open spec fn blank_as(s: Seq<char>) -> Seq<char> {
    repeat_seq(seq![' '], s.len())
}

/// The lines of one block at a given width: paragraphs and bullets wrap
/// (a bullet's later lines indented under its text), code lines are
/// indented two spaces and kept as they are, a rule is at most 60 wide.
pub open spec fn block_lines(b: BlockV, width: int) -> Seq<Seq<SpanV>> {
    match b {
        BlockV::Para(spans) => wrap_lines(words_of(spans), seq![], seq![], width),
        BlockV::Bullet { depth, spans } => wrap_lines(
            words_of(spans),
            bullet_prefix(depth),
            blank_as(bullet_prefix(depth)),
            width,
        ),
        BlockV::Code(ls) => Seq::new(
            ls.len(),
            |i: int| seq![(seq![' ', ' '] + ls[i], Style { bold: false, italic: false, code: true })],
        ),
        BlockV::Rule => seq![
            seq![(repeat_seq(seq!['─'], if width < 60 { width as nat } else { 60 }), Style::plain())],
        ],
        BlockV::Table { aligns, head, rows } => table_lines(aligns, head, rows, width),
    }
}

/// A block that can be laid out: a table's cells can be measured.
pub open spec fn block_measurable(b: BlockV) -> bool {
    match b {
        BlockV::Table { aligns, head, rows } => table_measurable(head, rows),
        _ => true,
    }
}

/// The lines of the blocks, one after another, a blank line between two.
pub open spec fn join_blocks(bs: Seq<BlockV>, width: int) -> Seq<Seq<SpanV>>
    decreases bs.len(),
{
    if bs.len() == 0 {
        seq![]
    } else {
        join_blocks(bs.drop_last(), width) + (if bs.len() > 1 {
            seq![seq![]]
        } else {
            seq![]
        }) + block_lines(bs.last(), width)
    }
}

/// The number of blocks shown: the first `visible`, at most all.
pub open spec fn shown(blocks: Seq<BlockV>, visible: int) -> int {
    if visible < blocks.len() {
        visible
    } else {
        blocks.len() as int
    }
}

/// Every shown block can be laid out.
pub open spec fn slide_measurable(s: SlideV, visible: int) -> bool {
    forall|i: int| 0 <= i < shown(s.blocks, visible) ==> block_measurable(#[trigger] s.blocks[i])
}

/// Lays one block out at the given width (see `block_lines`).
pub fn layout_block(b: &Block, width: usize) -> (r: Vec<Vec<(String, Style)>>)
    requires
        block_measurable(b.deep_view()),
    ensures
        r.deep_view() == block_lines(b.deep_view(), width as int),
{
    proof {
        reveal_strlit("");
        reveal_strlit(" ");
        reveal_strlit("  ");
        reveal_strlit("• ");
        reveal_strlit("─");
    }
    assert(""@ =~= Seq::<char>::empty());
    assert(" "@ =~= seq![' ']);
    assert("  "@ =~= seq![' ', ' ']);
    assert("• "@ =~= seq!['•', ' ']);
    assert("─"@ =~= seq!['─']);
    match b {
        Block::Para(spans) => {
            let sl = spans.as_slice();
            assert(sl.deep_view() =~= spans.deep_view());
            wrap_spans(sl, "", "", width)
        },
        Block::Bullet { depth, spans } => {
            let mut p = repeat_str("  ", *depth);
            p.append("• ");
            let c = repeat_str(" ", p.as_str().unicode_len());
            assert(p@ =~= bullet_prefix(*depth));
            let sl = spans.as_slice();
            assert(sl.deep_view() =~= spans.deep_view());
            wrap_spans(sl, p.as_str(), c.as_str(), width)
        },
        Block::Code(lines) => {
            let st = Style { bold: false, italic: false, code: true };
            let ghost lv = lines.deep_view();
            let mut out: Vec<Vec<(String, Style)>> = Vec::new();
            let mut i: usize = 0;
            while i < lines.len()
                invariant
                    i <= lines.len(),
                    lv == lines.deep_view(),
                    st == (Style { bold: false, italic: false, code: true }),
                    out.deep_view() =~= Seq::new(
                        i as nat,
                        |k: int| seq![(seq![' ', ' '] + lv[k], st)],
                    ),
                decreases lines.len() - i,
            {
                proof {
                    reveal_strlit("  ");
                }
                assert("  "@ =~= seq![' ', ' ']);
                let mut t = String::from_str("  ");
                t.append(lines[i].as_str());
                let line = vec![(t, st)];
                assert(line.deep_view() =~= seq![(seq![' ', ' '] + lv[i as int], st)]);
                let ghost before = out.deep_view();
                out.push(line);
                assert(out.deep_view() =~= before.push(seq![(seq![' ', ' '] + lv[i as int], st)]));
                i = i + 1;
            }
            out
        },
        Block::Rule => {
            let n = if width < 60 {
                width
            } else {
                60
            };
            let line = vec![(repeat_str("─", n), Style::default())];
            assert(line.deep_view() =~= seq![(repeat_seq(seq!['─'], n as nat), Style::plain())]);
            let ghost lv = line.deep_view();
            let r = vec![line];
            assert(r.deep_view() =~= seq![lv]);
            assert(r.deep_view() =~= block_lines(b.deep_view(), width as int));
            r
        },
        Block::Table { aligns, head, rows } => {
            let hs = head.as_slice();
            let rs = rows.as_slice();
            assert(hs.deep_view() =~= head.deep_view());
            assert(rs.deep_view() =~= rows.deep_view());
            layout_table(aligns.as_slice(), hs, rs, width)
        },
    }
}

/// How far a title line of heading level `level` is indented: one column
/// per level below the first.
pub fn title_indent(level: usize) -> (r: usize)
    ensures
        r == if level > 0 {
            level - 1
        } else {
            0
        },
{
    level.saturating_sub(1)
}

/// A slide laid out for a terminal: rows taken by the title stack and its
/// separator, rows left for content above the footer, and the content lines
/// of the visible blocks, already wrapped.
pub struct Layout {
    pub title_rows: usize,
    pub content_rows: usize,
    pub lines: Vec<Vec<(String, Style)>>,
}

/// Rows the title block takes: one per title and a separator, none without
/// titles.
pub open spec fn title_rows_of(s: SlideV) -> int {
    if s.stack.len() == 0 {
        0
    } else {
        s.stack.len() + 1int
    }
}

/// Rows left for content on a screen `height` rows tall: all but the title
/// block and the footer.
pub open spec fn content_rows_of(s: SlideV, height: int) -> int {
    if height > title_rows_of(s) + 1 {
        height - title_rows_of(s) - 1
    } else {
        0
    }
}

impl Layout {
    /// Lays a slide out for a `width` × `height` terminal, showing its first
    /// `visible` blocks.
    pub fn new(width: u16, height: u16, slide: &Slide, visible: usize) -> (r: Layout)
        requires
            slide.stack.len() < usize::MAX,
            slide_measurable(slide.deep_view(), visible as int),
        ensures
            r.title_rows == title_rows_of(slide.deep_view()),
            r.content_rows == content_rows_of(slide.deep_view(), height as int),
            r.lines.deep_view() == shown_lines(slide.deep_view().blocks, visible as int, width as int),
    {
        let ghost sv = slide.deep_view();
        let w = width as usize;
        let h = height as usize;
        let title_rows = if slide.stack.len() == 0 {
            0
        } else {
            slide.stack.len() + 1
        };
        let content_rows = if title_rows < h && h - title_rows > 1 {
            h - title_rows - 1
        } else {
            0
        };
        let ghost bv = sv.blocks;
        let n = if visible < slide.blocks.len() {
            visible
        } else {
            slide.blocks.len()
        };
        let mut lines: Vec<Vec<(String, Style)>> = Vec::new();
        let mut i: usize = 0;
        assert(bv.take(0) =~= Seq::<BlockV>::empty());
        while i < n
            invariant
                i <= n,
                n == shown(bv, visible as int),
                n <= slide.blocks.len(),
                bv == slide.blocks.deep_view(),
                slide_measurable(sv, visible as int),
                sv.blocks == bv,
                lines.deep_view() =~= join_blocks(bv.take(i as int), w as int),
            decreases n - i,
        {
            assert(bv.take(i + 1).drop_last() =~= bv.take(i as int));
            if i > 0 {
                let blank: Vec<(String, Style)> = Vec::new();
                assert(blank.deep_view() =~= Seq::<SpanV>::empty());
                lines.push(blank);
            }
            assert(block_measurable(bv[i as int]));
            let mut more = layout_block(&slide.blocks[i], w);
            let ghost mid = lines.deep_view();
            let ghost mv = more.deep_view();
            lines.append(&mut more);
            assert(lines.deep_view() =~= mid + mv);
            i = i + 1;
        }
        Layout { title_rows, content_rows, lines }
    }

    /// The content lines shown when scrolled by `scroll`: from the first
    /// line not scrolled past, at most `content_rows` of them.
    pub fn window(&self, scroll: usize) -> (r: (usize, usize))
        ensures
            r.0 == if scroll < self.lines.len() {
                scroll
            } else {
                self.lines.len()
            },
            r.1 == if self.lines.len() - r.0 < self.content_rows {
                self.lines.len() as int
            } else {
                r.0 + self.content_rows
            },
            r.0 <= r.1 <= self.lines.len(),
    {
        let start = if scroll < self.lines.len() {
            scroll
        } else {
            self.lines.len()
        };
        let end = if self.lines.len() - start < self.content_rows {
            self.lines.len()
        } else {
            start + self.content_rows
        };
        (start, end)
    }

    /// How far the content can scroll: the lines that do not fit.
    pub fn max_scroll(&self) -> (r: usize)
        ensures
            r == if self.lines.len() > self.content_rows {
                self.lines.len() - self.content_rows
            } else {
                0
            },
    {
        self.lines.len().saturating_sub(self.content_rows)
    }
}

/// Whether a cell's text fits on one line of `usize` characters.
fn cell_fits(cell: &Vec<Span>) -> (r: bool)
    ensures
        r == (cell_full(cell.deep_view()) <= usize::MAX),
{
    let sl = cell.as_slice();
    assert(sl.deep_view() =~= cell.deep_view());
    let words = to_words(sl);
    let ghost wv = words.deep_view();
    let mut acc: u128 = 0;
    let mut k: usize = 0;
    assert(wv.take(0) =~= Seq::<SpanV>::empty());
    while k < words.len()
        invariant
            k <= words.len(),
            wv == words.deep_view(),
            acc as int == sum_lens(wv.take(k as int)),
            acc <= k * 0xFFFF_FFFF_FFFF_FFFFu128,
        decreases words.len() - k,
    {
        assert(wv.take(k + 1).drop_last() =~= wv.take(k as int));
        let n = words[k].0.as_str().unicode_len();
        assert(n <= 0xFFFF_FFFF_FFFF_FFFFu128);
        acc = acc + n as u128;
        k = k + 1;
    }
    assert(wv.take(k as int) =~= wv);
    let full: u128 = if words.len() > 0 {
        acc + (words.len() as u128 - 1)
    } else {
        acc
    };
    full <= usize::MAX as u128
}

/// Whether every cell of a row can be measured.
fn row_fits(row: &Vec<Vec<Span>>) -> (r: bool)
    ensures
        r == row_measurable(row.deep_view()),
{
    let mut c: usize = 0;
    while c < row.len()
        invariant
            c <= row.len(),
            forall|k: int| 0 <= k < c ==> #[trigger] cell_full(row.deep_view()[k]) <= usize::MAX,
        decreases row.len() - c,
    {
        if !cell_fits(&row[c]) {
            assert(row.deep_view()[c as int] == row[c as int].deep_view());
            return false;
        }
        c = c + 1;
    }
    true
}

/// Whether a block can be laid out: a table's cells all measurable.
fn block_fits(b: &Block) -> (r: bool)
    ensures
        r == block_measurable(b.deep_view()),
{
    match b {
        Block::Table { aligns, head, rows } => {
            assert(b.deep_view() == BlockV::Table {
                aligns: aligns@,
                head: head.deep_view(),
                rows: rows.deep_view(),
            });
            if !row_fits(head) {
                return false;
            }
            let mut r: usize = 0;
            while r < rows.len()
                invariant
                    r <= rows.len(),
                    b.deep_view() == (BlockV::Table {
                        aligns: aligns@,
                        head: head.deep_view(),
                        rows: rows.deep_view(),
                    }),
                    row_measurable(head.deep_view()),
                    forall|k: int| 0 <= k < r ==> row_measurable(#[trigger] rows.deep_view()[k]),
                decreases rows.len() - r,
            {
                if !row_fits(&rows[r]) {
                    assert(rows.deep_view()[r as int] == rows[r as int].deep_view());
                    assert(!row_measurable(rows.deep_view()[r as int]));
                    assert(!table_measurable(head.deep_view(), rows.deep_view()));
                    return false;
                }
                assert(rows.deep_view()[r as int] == rows[r as int].deep_view());
                r = r + 1;
            }
            true
        },
        _ => true,
    }
}

/// Whether the first `visible` blocks of a slide can be laid out: every
/// table cell's text fits on one line of `usize` characters.
pub fn can_lay_out(slide: &Slide, visible: usize) -> (r: bool)
    ensures
        r == slide_measurable(slide.deep_view(), visible as int),
{
    let ghost bv = slide.deep_view().blocks;
    let n = if visible < slide.blocks.len() {
        visible
    } else {
        slide.blocks.len()
    };
    let mut i: usize = 0;
    while i < n
        invariant
            i <= n,
            n == shown(bv, visible as int),
            bv == slide.blocks.deep_view(),
            forall|k: int| 0 <= k < i ==> block_measurable(#[trigger] bv[k]),
        decreases n - i,
    {
        assert(bv[i as int] == slide.blocks[i as int].deep_view());
        if !block_fits(&slide.blocks[i]) {
            assert(!block_measurable(bv[i as int]));
            assert(!block_measurable(slide.deep_view().blocks[i as int]));
            return false;
        }
        i = i + 1;
    }
    true
}

/// The content lines a layout holds when its first `visible` blocks are shown.
pub open spec fn shown_lines(bs: Seq<BlockV>, visible: int, width: int) -> Seq<Seq<SpanV>> {
    join_blocks(bs.take(shown(bs, visible)), width)
}

/// Law: as blocks appear, a slide's layout only grows at the end: the lines
/// with `j` blocks shown are the first lines of those with `k >= j` shown;
/// nothing is shown with no block, and showing more blocks than the slide
/// has shows them all. (The title and content rows do not depend on the
/// blocks shown at all: see `title_rows_of` and `content_rows_of`.)
pub proof fn law_layout_grows(bs: Seq<BlockV>, j: int, k: int, width: int)
    requires
        0 <= j <= k,
    ensures
        shown_lines(bs, j, width).len() <= shown_lines(bs, k, width).len(),
        shown_lines(bs, k, width).take(shown_lines(bs, j, width).len() as int) == shown_lines(
            bs,
            j,
            width,
        ),
        shown_lines(bs, 0, width) == Seq::<Seq<SpanV>>::empty(),
        k >= bs.len() ==> shown_lines(bs, k, width) == join_blocks(bs, width),
    decreases k - j,
{
    assert(bs.take(0) =~= Seq::<BlockV>::empty());
    if bs.len() > 0 {
        assert(shown(bs, 0) == 0);
    }
    assert(bs.take(bs.len() as int) =~= bs);
    if j < k {
        law_layout_grows(bs, j, k - 1, width);
        let a = shown_lines(bs, j, width);
        let m = shown_lines(bs, k - 1, width);
        let z = shown_lines(bs, k, width);
        if k - 1 < bs.len() {
            assert(bs.take(k).drop_last() =~= bs.take(k - 1));
            assert(z.take(m.len() as int) =~= m);
        } else {
            assert(z == m);
        }
        assert(z.take(a.len() as int) =~= m.take(a.len() as int));
    }
}

// ---------------------------------------------------------------------------
// What the screen shows of a line, and the footer.
// ---------------------------------------------------------------------------

/// The first `width` of the characters, or all of them if there are fewer.
pub open spec fn clip(cs: Seq<(char, Style)>, width: int) -> Seq<(char, Style)> {
    if cs.len() <= width {
        cs
    } else {
        cs.take(width)
    }
}

proof fn lemma_clip_push(cs: Seq<(char, Style)>, x: (char, Style), width: int)
    requires
        width >= 0,
    ensures
        clip(cs.push(x), width) == if clip(cs, width).len() < width {
            clip(cs, width).push(x)
        } else {
            clip(cs, width)
        },
{
    if cs.len() >= width {
        assert(cs.push(x).take(width) =~= cs.take(width));
        if cs.len() == width {
            assert(cs.take(width) =~= cs);
        }
    }
}

/// The characters of a content line that a screen `width` columns wide
/// shows, each with its style: the line's characters from the left edge,
/// cut at the right edge.
pub fn clip_line(line: &[(String, Style)], width: usize) -> (r: Vec<(char, Style)>)
    ensures
        r@ == clip(styled_chars(line.deep_view()), width as int),
{
    let ghost lv = line.deep_view();
    let mut r: Vec<(char, Style)> = Vec::new();
    let mut i: usize = 0;
    assert(lv.take(0) =~= Seq::<SpanV>::empty());
    assert(r@ =~= clip(styled_chars(lv.take(0)), width as int));
    while i < line.len()
        invariant
            i <= line.len(),
            lv == line.deep_view(),
            r@ == clip(styled_chars(lv.take(i as int)), width as int),
        decreases line.len() - i,
    {
        let st = line[i].1;
        let txt: &str = line[i].0.as_str();
        let ghost base = styled_chars(lv.take(i as int));
        let ghost text = lv[i as int].0;
        let ghost mut seen: Seq<char> = seq![];
        assert(base + with_style(seen, st) =~= base);
        for c in it: txt.chars()
            invariant
                seen == it.seq().take(it.index() as int),
                r@ == clip(base + with_style(seen, st), width as int),
        {
            let ghost pre = seen;
            let ghost next = seen.push(c);
            assert(it.seq().take(it.index() + 1) =~= next);
            assert(base + with_style(next, st) =~= (base + with_style(pre, st)).push((c, st)));
            proof {
                lemma_clip_push(base + with_style(pre, st), (c, st), width as int);
            }
            if r.len() < width {
                r.push((c, st));
            }
            proof {
                seen = next;
            }
        }
        assert(seen =~= text);
        assert(lv.take(i + 1).drop_last() =~= lv.take(i as int));
        assert(lv[i as int] == (text, st));
        assert(styled_chars(lv.take(i + 1)) == base + with_style(text, st));
        i = i + 1;
    }
    assert(lv.take(i as int) =~= lv);
    r
}

/// The character of a decimal digit.
pub open spec fn digit_char(d: int) -> char {
    if d == 0 {
        '0'
    } else if d == 1 {
        '1'
    } else if d == 2 {
        '2'
    } else if d == 3 {
        '3'
    } else if d == 4 {
        '4'
    } else if d == 5 {
        '5'
    } else if d == 6 {
        '6'
    } else if d == 7 {
        '7'
    } else if d == 8 {
        '8'
    } else {
        '9'
    }
}

/// A number written in decimal, without leading zeros.
pub open spec fn decimal(n: nat) -> Seq<char>
    decreases n,
{
    if n < 10 {
        seq![digit_char(n as int)]
    } else {
        decimal(n / 10).push(digit_char((n % 10) as int))
    }
}

fn digit(d: usize) -> (c: char)
    requires
        d < 10,
    ensures
        c == digit_char(d as int),
{
    if d == 0 {
        '0'
    } else if d == 1 {
        '1'
    } else if d == 2 {
        '2'
    } else if d == 3 {
        '3'
    } else if d == 4 {
        '4'
    } else if d == 5 {
        '5'
    } else if d == 6 {
        '6'
    } else if d == 7 {
        '7'
    } else if d == 8 {
        '8'
    } else {
        '9'
    }
}

/// `n` written in decimal.
pub fn decimal_string(n: usize) -> (r: String)
    ensures
        r@ == decimal(n as nat),
    decreases n,
{
    if n < 10 {
        let mut s = String::new();
        push_char(&mut s, digit(n));
        assert(s@ =~= seq![digit_char(n as int)]);
        s
    } else {
        let mut s = decimal_string(n / 10);
        push_char(&mut s, digit(n % 10));
        s
    }
}

/// The footer's text for slide `idx` (counting from 0) of `total`:
/// ` poorerpoint  3/7 `.
pub open spec fn footer_text(idx: int, total: int) -> Seq<char> {
    " poorerpoint  "@ + decimal((idx + 1) as nat) + seq!['/'] + decimal(total as nat) + seq![' ']
}

/// The footer of slide `idx` of `total`, and the column it starts at so
/// that it ends at `right_edge` (the screen's left edge where it is wider).
pub fn footer(idx: usize, total: usize, right_edge: usize) -> (r: (String, usize))
    requires
        idx < usize::MAX,
    ensures
        r.0@ == footer_text(idx as int, total as int),
        r.1 == if right_edge > footer_text(idx as int, total as int).len() {
            right_edge - footer_text(idx as int, total as int).len()
        } else {
            0
        },
{
    let mut s = String::from_str(" poorerpoint  ");
    let a = decimal_string(idx + 1);
    s.append(a.as_str());
    push_char(&mut s, '/');
    let b = decimal_string(total);
    s.append(b.as_str());
    push_char(&mut s, ' ');
    assert(s@ =~= footer_text(idx as int, total as int));
    let len = s.as_str().unicode_len();
    let col = right_edge.saturating_sub(len);
    (s, col)
}

// ---------------------------------------------------------------------------
// Laws of the layout.
// ---------------------------------------------------------------------------

/// Law: the screen is the title block, the content rows and the footer
/// row: the title block is one row per title and a separator (nothing
/// without titles), and the content gets every row the other two leave.
pub proof fn law_layout_rows(s: SlideV, height: int)
    requires
        height >= 0,
    ensures
        title_rows_of(s) == if s.stack.len() == 0 {
            0
        } else {
            s.stack.len() + 1
        },
        content_rows_of(s, height) >= 0,
        height >= title_rows_of(s) + 1 ==> title_rows_of(s) + content_rows_of(s, height) + 1 == height,
        height < title_rows_of(s) + 1 ==> content_rows_of(s, height) == 0,
{
}

proof fn lemma_repeat_one(c: char, n: nat)
    ensures
        repeat_seq(seq![c], n) == Seq::new(n, |i: int| c),
    decreases n,
{
    if n > 0 {
        lemma_repeat_one(c, (n - 1) as nat);
    }
    assert(repeat_seq(seq![c], n) =~= Seq::new(n, |i: int| c));
}

proof fn lemma_repeat_two(c: char, n: nat)
    ensures
        repeat_seq(seq![c, c], n) == Seq::new(2 * n, |i: int| c),
    decreases n,
{
    if n > 0 {
        lemma_repeat_two(c, (n - 1) as nat);
    }
    assert(repeat_seq(seq![c, c], n) =~= Seq::new(2 * n, |i: int| c));
}

/// Law: how each kind of block is laid out at a given width. A paragraph
/// is its words wrapped to the width. A bullet is its words wrapped with
/// two spaces per level of nesting and `• ` before its first line, and as
/// many spaces before each later line, so they line up under its text. A
/// code block is one line per code line, each indented two spaces, in the
/// code style, never wrapped. A rule is one line of `─`, as wide as the
/// screen but never wider than 60.
pub proof fn law_block_lines(b: BlockV, width: int)
    requires
        width >= 0,
    ensures
        b matches BlockV::Para(spans) ==> block_lines(b, width) == wrap_lines(
            words_of(spans),
            Seq::<char>::empty(),
            Seq::<char>::empty(),
            width,
        ),
        b matches BlockV::Bullet { depth, spans } ==> block_lines(b, width) == wrap_lines(
            words_of(spans),
            Seq::new(2 * depth as nat, |i: int| ' ') + seq!['•', ' '],
            Seq::new(2 * depth as nat + 2, |i: int| ' '),
            width,
        ),
        b matches BlockV::Code(ls) ==> block_lines(b, width).len() == ls.len() && forall|i: int|
            0 <= i < ls.len() ==> #[trigger] block_lines(b, width)[i] == seq![
                (seq![' ', ' '] + ls[i], Style { bold: false, italic: false, code: true }),
            ],
        b is Rule ==> block_lines(b, width) == seq![
            seq![
                (Seq::new(if width < 60 {
                    width as nat
                } else {
                    60
                }, |i: int| '─'), Style { bold: false, italic: false, code: false }),
            ],
        ],
{
    match b {
        BlockV::Bullet { depth, spans } => {
            lemma_repeat_two(' ', depth as nat);
            let p = bullet_prefix(depth);
            assert(p =~= Seq::new(2 * depth as nat, |i: int| ' ') + seq!['•', ' ']);
            lemma_repeat_one(' ', p.len());
            assert(blank_as(p) =~= Seq::new(2 * depth as nat + 2, |i: int| ' '));
        },
        BlockV::Rule => {
            lemma_repeat_one('─', if width < 60 {
                width as nat
            } else {
                60
            });
        },
        _ => {},
    }
}

/// The number that decimal digits stand for.
pub open spec fn digits_value(ds: Seq<char>) -> int
    decreases ds.len(),
{
    if ds.len() == 0 {
        0
    } else {
        digits_value(ds.drop_last()) * 10 + (ds.last() as u32 - '0' as u32)
    }
}

proof fn lemma_digit_value(d: int)
    requires
        0 <= d < 10,
    ensures
        digit_char(d) as u32 - '0' as u32 == d,
        '0' <= digit_char(d) <= '9',
        d > 0 ==> digit_char(d) != '0',
{
    assert('0' as u32 == 48);
    assert('1' as u32 == 49);
    assert('2' as u32 == 50);
    assert('3' as u32 == 51);
    assert('4' as u32 == 52);
    assert('5' as u32 == 53);
    assert('6' as u32 == 54);
    assert('7' as u32 == 55);
    assert('8' as u32 == 56);
    assert('9' as u32 == 57);
}

/// Law: a number written in decimal reads back as the number: it is made of
/// the digits `0` to `9` only, has no leading zero, and its digits stand
/// for the number.
pub proof fn law_decimal(n: nat)
    ensures
        decimal(n).len() >= 1,
        forall|i: int| 0 <= i < decimal(n).len() ==> '0' <= #[trigger] decimal(n)[i] <= '9',
        n > 0 ==> decimal(n)[0] != '0',
        digits_value(decimal(n)) == n,
    decreases n,
{
    if n >= 10 {
        law_decimal(n / 10);
        let d = decimal(n / 10);
        let r = decimal(n);
        assert(r == d.push(digit_char((n % 10) as int)));
        assert(r.drop_last() =~= d);
        assert(r[0] == d[0]);
        assert forall|i: int| 0 <= i < r.len() implies '0' <= #[trigger] r[i] <= '9' by {
            if i < d.len() {
                assert(r[i] == d[i]);
            }
        }
        assert((n / 10) * 10 + n % 10 == n) by (nonlinear_arith);
        lemma_digit_value((n % 10) as int);
    } else {
        assert(decimal(n) == seq![digit_char(n as int)]);
        assert(seq![digit_char(n as int)].drop_last() =~= Seq::<char>::empty());
        assert(digits_value(Seq::<char>::empty()) == 0);
        lemma_digit_value(n as int);
    }
}

/// Law: what the screen shows of a line is its first characters, each
/// with its own style, as many as the screen is wide (all of them if fewer).
pub proof fn law_clip(cs: Seq<(char, Style)>, width: int)
    requires
        width >= 0,
    ensures
        clip(cs, width).len() == if cs.len() < width {
            cs.len() as int
        } else {
            width
        },
        forall|i: int| 0 <= i < clip(cs, width).len() ==> #[trigger] clip(cs, width)[i] == cs[i],
{
}

/// Law: the footer names the program and then the shown slide counting
/// from 1, a slash and the number of slides, in decimal, between single
/// spaces: ` poorerpoint  <idx + 1>/<total> `.
pub proof fn law_footer_text(idx: nat, total: nat)
    ensures
        footer_text(idx as int, total as int) == seq![' ', 'p', 'o', 'o', 'r', 'e', 'r', 'p', 'o', 'i', 'n', 't', ' ', ' ']
            + decimal(idx + 1) + seq!['/'] + decimal(total) + seq![' '],
        digits_value(decimal(idx + 1)) == idx + 1,
        digits_value(decimal(total)) == total,
{
    reveal_strlit(" poorerpoint  ");
    assert(" poorerpoint  "@ =~= seq![' ', 'p', 'o', 'o', 'r', 'e', 'r', 'p', 'o', 'i', 'n', 't', ' ', ' ']);
    law_decimal(idx + 1);
    law_decimal(total);
}

} // verus!
