//! The slide model: title lines, styled spans, blocks and slides, with the
//! mathematical views that contracts speak of.

use crate::markdown::Alignment;
use vstd::prelude::*;

verus! {

/// Inline style of a run of text.
#[derive(Clone, Copy, Debug, PartialEq, Eq, Structural)]
pub struct Style {
    pub bold: bool,
    pub italic: bool,
    pub code: bool,
}

impl Style {
    /// The unstyled style.
    pub open spec fn plain() -> Style {
        Style { bold: false, italic: false, code: false }
    }
}

impl Default for Style {
    fn default() -> (s: Style)
        ensures
            s == Style::plain(),
    {
        Style { bold: false, italic: false, code: false }
    }
}

impl DeepView for Style {
    type V = Style;

    open spec fn deep_view(&self) -> Style {
        *self
    }
}

impl DeepView for Alignment {
    type V = Alignment;

    open spec fn deep_view(&self) -> Alignment {
        *self
    }
}

/// A title line as a value: its heading level and its text.
pub type TitleV = (usize, Seq<char>);

/// A styled run of text as a value.
pub type SpanV = (Seq<char>, Style);

/// One heading of the sticky title stack.
#[derive(Clone, Debug, PartialEq, Eq)]
pub struct TitleLine {
    pub level: usize,
    pub text: String,
}

impl DeepView for TitleLine {
    type V = TitleV;

    open spec fn deep_view(&self) -> TitleV {
        (self.level, self.text@)
    }
}

impl TitleLine {
    /// A copy with the same level and text.
    pub fn duplicate(&self) -> (r: TitleLine)
        ensures
            r.deep_view() == self.deep_view(),
    {
        TitleLine { level: self.level, text: self.text.clone() }
    }

    /// Whether both lines have the same level and text.
    pub fn same_as(&self, other: &TitleLine) -> (r: bool)
        ensures
            r == (self.deep_view() == other.deep_view()),
    {
        self.level == other.level && self.text == other.text
    }
}

/// A run of text with one style.
#[derive(Clone, Debug)]
pub struct Span {
    pub text: String,
    pub style: Style,
}

impl DeepView for Span {
    type V = SpanV;

    open spec fn deep_view(&self) -> SpanV {
        (self.text@, self.style)
    }
}

/// A block of slide content.
#[derive(Clone, Debug)]
pub enum Block {
    Para(Vec<Span>),
    Bullet { depth: usize, spans: Vec<Span> },
    Code(Vec<String>),
    Rule,
    Table { aligns: Vec<Alignment>, head: Vec<Vec<Span>>, rows: Vec<Vec<Vec<Span>>> },
}

/// A block as a value.
pub enum BlockV {
    Para(Seq<SpanV>),
    Bullet { depth: usize, spans: Seq<SpanV> },
    Code(Seq<Seq<char>>),
    Rule,
    Table { aligns: Seq<Alignment>, head: Seq<Seq<SpanV>>, rows: Seq<Seq<Seq<SpanV>>> },
}

impl DeepView for Block {
    type V = BlockV;

    open spec fn deep_view(&self) -> BlockV {
        match self {
            Block::Para(s) => BlockV::Para(s.deep_view()),
            Block::Bullet { depth, spans } => BlockV::Bullet { depth: *depth, spans: spans.deep_view() },
            Block::Code(ls) => BlockV::Code(ls.deep_view()),
            Block::Rule => BlockV::Rule,
            Block::Table { aligns, head, rows } => BlockV::Table {
                aligns: aligns@,
                head: head.deep_view(),
                rows: rows.deep_view(),
            },
        }
    }
}

/// One slide: the title stack it shows, the indices of the title lines that
/// it introduces (and so animates), and its content blocks.
#[derive(Clone, Debug)]
pub struct Slide {
    pub stack: Vec<TitleLine>,
    pub anim: Vec<usize>,
    pub blocks: Vec<Block>,
}

/// A slide as a value.
pub struct SlideV {
    pub stack: Seq<TitleV>,
    pub anim: Seq<usize>,
    pub blocks: Seq<BlockV>,
}

impl DeepView for Slide {
    type V = SlideV;

    open spec fn deep_view(&self) -> SlideV {
        SlideV { stack: self.stack.deep_view(), anim: self.anim@, blocks: self.blocks.deep_view() }
    }
}

/// A copy of a title stack.
pub fn clone_titles(v: &Vec<TitleLine>) -> (r: Vec<TitleLine>)
    ensures
        r.deep_view() == v.deep_view(),
{
    let mut r: Vec<TitleLine> = Vec::new();
    let mut i: usize = 0;
    while i < v.len()
        invariant
            i <= v.len(),
            r.deep_view() =~= v.deep_view().take(i as int),
        decreases v.len() - i,
    {
        let ghost before = r.deep_view();
        r.push(v[i].duplicate());
        assert(r.deep_view() =~= before.push(v.deep_view()[i as int]));
        assert(v.deep_view().take(i + 1) =~= v.deep_view().take(i as int).push(v.deep_view()[i as int]));
        i = i + 1;
    }
    r
}

} // verus!
