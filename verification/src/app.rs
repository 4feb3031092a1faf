//! The presenter's state machine: which slide is shown, how far its
//! animation has run, and how keys move between slides and scroll.
//!
//! Time enters as milliseconds on a clock the caller keeps; keys enter as
//! `Key`. Titles slide in over 333 ms, content blocks follow one every
//! 55 ms, and the slide settles 50 ms after its last block.

use crate::deck::{Slide, SlideV};
use crate::parse::{deck_well_formed, slide_well_formed};
use vstd::prelude::*;

verus! {

/// Duration of the title block's slide-in.
pub const TITLE_MS: u64 = 333;

/// Delay between two content blocks appearing.
pub const CONTENT_STAGGER_MS: u64 = 55;

/// Time the slide keeps animating after its last block appeared.
pub const TAIL_MS: u64 = 50;

/// Duration of one title line's slide-in: two thirds of the title block.
pub const TITLE_LINE_MS: u64 = TITLE_MS * 2 / 3;

/// Time between two frames while the slide animates: about 60 frames a
/// second.
pub const FRAME_MS: u64 = 16;

/// How long to wait for a key between frames once nothing moves.
pub const IDLE_MS: u64 = 120;

/// How long the presenter waits for a key before drawing the next frame:
/// a frame's time while the slide animates, longer once it is still.
pub fn frame_timeout_ms(animating: bool) -> (ms: u64)
    ensures
        ms == if animating {
            FRAME_MS
        } else {
            IDLE_MS
        },
{
    if animating {
        FRAME_MS
    } else {
        IDLE_MS
    }
}

/// What a key asks for.
#[derive(Clone, Copy, Debug, PartialEq, Eq, Structural)]
pub enum Key {
    /// `q` or `Esc`.
    Quit,
    /// Space: next slide, ignored while animating.
    Space,
    /// `→` or `l`: next slide, always.
    Next,
    /// `←` or `h`: previous slide.
    Prev,
    /// `↓` or `j`: scroll down.
    Down,
    /// `↑` or `k`: scroll up.
    Up,
    /// Any other key.
    Other,
}

/// Where a title line is in its slide-in.
#[derive(Clone, Copy, Debug, PartialEq, Eq, Structural)]
pub enum TitleProgress {
    /// Not started: still off screen.
    Waiting,
    /// `done` of `span` milliseconds of its slide-in have passed.
    Moving { done: u64, span: u64 },
    /// In place.
    Arrived,
}

/// The animation state of the shown slide at one moment.
pub struct AnimFrame {
    /// For each title line, its progress if it animates on this slide.
    pub title_progress: Vec<Option<TitleProgress>>,
    /// How many content blocks have appeared.
    pub visible_blocks: usize,
    /// Whether anything is still moving.
    pub animating: bool,
}

/// The presenter.
pub struct App {
    slides: Vec<Slide>,
    idx: usize,
    start_ms: u64,
    scroll: usize,
    auto_scroll: bool,
    quit: bool,
}

/// The presenter's state as a value.
pub struct AppState {
    pub slides: Seq<SlideV>,
    pub idx: int,
    pub start_ms: int,
    pub scroll: int,
    pub auto_scroll: bool,
    pub quit: bool,
}

/// A slide the presenter can show: it animates only title lines it has.
pub open spec fn anim_in_stack(s: SlideV) -> bool {
    forall|k: int| 0 <= k < s.anim.len() ==> #[trigger] s.anim[k] < s.stack.len()
}

/// Slides the presenter can show: at least one, each animating only its
/// own title lines.
pub open spec fn showable(slides: Seq<SlideV>) -> bool {
    &&& slides.len() > 0
    &&& forall|i: int| 0 <= i < slides.len() ==> anim_in_stack(#[trigger] slides[i])
}

/// A presenter state: the shown slide exists.
pub open spec fn app_ok(st: AppState) -> bool {
    &&& showable(st.slides)
    &&& 0 <= st.idx < st.slides.len()
    &&& 0 <= st.scroll <= usize::MAX
    &&& 0 <= st.start_ms <= u64::MAX
}

/// Milliseconds since the shown slide started.
pub open spec fn elapsed(st: AppState, now: int) -> int {
    if now >= st.start_ms {
        now - st.start_ms
    } else {
        0
    }
}

/// When the `k`-th of `n` animated title lines starts sliding in: the
/// starts are spread evenly over the third of the title block that the
/// slide-ins leave, so that the last line lands at the end of the block; a
/// lone line starts where the last of several would.
pub open spec fn title_start(k: int, n: int) -> int {
    if n > 1 {
        k * (TITLE_MS - TITLE_LINE_MS) as int / (n - 1)
    } else {
        (TITLE_MS - TITLE_LINE_MS) as int
    }
}

/// A title line's progress `t` ms into the slide, for a slide-in from `s`
/// to `e` ms.
pub open spec fn progress_at(t: int, s: int, e: int) -> TitleProgress {
    if t >= e {
        TitleProgress::Arrived
    } else if t <= s {
        TitleProgress::Waiting
    } else {
        TitleProgress::Moving { done: (t - s) as u64, span: (e - s) as u64 }
    }
}

/// The progress of the title lines after marking the first `k` animated
/// ones (later marks win).
pub open spec fn title_marks(s: SlideV, t: int, k: int) -> Seq<Option<TitleProgress>>
    decreases k,
{
    if k <= 0 {
        Seq::new(s.stack.len(), |i: int| None)
    } else {
        let n = s.anim.len() as int;
        let st = title_start(k - 1, n);
        title_marks(s, t, k - 1).update(
            s.anim[k - 1] as int,
            Some(progress_at(t, st, st + TITLE_LINE_MS)),
        )
    }
}

/// The number of the first `n` content blocks that have appeared `t` ms in:
/// block `i` appears at `TITLE_MS + i * CONTENT_STAGGER_MS`.
pub open spec fn blocks_shown(t: int, n: int) -> int
    decreases n,
{
    if n <= 0 {
        0
    } else {
        blocks_shown(t, n - 1) + if t >= TITLE_MS + (n - 1) * CONTENT_STAGGER_MS {
            1int
        } else {
            0
        }
    }
}

/// How long a slide with `n` blocks animates.
pub open spec fn anim_ms(n: int) -> int {
    TITLE_MS + n * CONTENT_STAGGER_MS + TAIL_MS
}

/// The animation state of the shown slide at time `now`.
pub open spec fn frame_of(st: AppState, now: int) -> (Seq<Option<TitleProgress>>, int, bool) {
    let s = st.slides[st.idx];
    let t = elapsed(st, now);
    (title_marks(s, t, s.anim.len() as int), blocks_shown(t, s.blocks.len() as int), t < anim_ms(
        s.blocks.len() as int,
    ))
}

/// The state with slide `idx` shown from time `now`: its animation starts
/// over, scrolled to the top, following new content.
pub open spec fn go_to(st: AppState, idx: int, now: int) -> AppState {
    AppState { idx, start_ms: now, scroll: 0, auto_scroll: true, ..st }
}

/// The state after key `k` at time `now`.
pub open spec fn after_key(st: AppState, k: Key, now: int) -> AppState {
    let animating = frame_of(st, now).2;
    match k {
        Key::Quit => AppState { quit: true, ..st },
        Key::Space => if !animating && st.idx + 1 < st.slides.len() {
            go_to(st, st.idx + 1, now)
        } else {
            st
        },
        Key::Next => if st.idx + 1 < st.slides.len() {
            go_to(st, st.idx + 1, now)
        } else {
            st
        },
        Key::Prev => if st.idx > 0 {
            go_to(st, st.idx - 1, now)
        } else {
            st
        },
        Key::Down => AppState {
            scroll: if st.scroll < usize::MAX {
                st.scroll + 1
            } else {
                st.scroll
            },
            auto_scroll: false,
            ..st
        },
        Key::Up => AppState {
            scroll: if st.scroll > 0 {
                st.scroll - 1
            } else {
                0
            },
            auto_scroll: false,
            ..st
        },
        Key::Other => st,
    }
}

/// The scroll position once the layout allows at most `max_scroll`: while
/// animating and following new content, the bottom; otherwise the current
/// position, clamped.
pub open spec fn settled(st: AppState, max_scroll: int, animating: bool) -> AppState {
    if animating && st.auto_scroll {
        AppState { scroll: max_scroll, ..st }
    } else {
        AppState {
            scroll: if st.scroll < max_scroll {
                st.scroll
            } else {
                max_scroll
            },
            ..st
        }
    }
}

impl View for App {
    type V = AppState;

    closed spec fn view(&self) -> AppState {
        AppState {
            slides: self.slides.deep_view(),
            idx: self.idx as int,
            start_ms: self.start_ms as int,
            scroll: self.scroll as int,
            auto_scroll: self.auto_scroll,
            quit: self.quit,
        }
    }
}

impl App {
    /// A presenter on the first slide, its animation starting at `now_ms`.
    /// It can present the deck if the deck is `showable`.
    pub fn new(slides: Vec<Slide>, now_ms: u64) -> (r: App)
        ensures
            r@ == (AppState {
                slides: slides.deep_view(),
                idx: 0,
                start_ms: now_ms as int,
                scroll: 0,
                auto_scroll: true,
                quit: false,
            }),
            showable(slides.deep_view()) ==> app_ok(r@),
    {
        App { slides, idx: 0, start_ms: now_ms, scroll: 0, auto_scroll: true, quit: false }
    }

    /// The slides.
    pub fn slides(&self) -> (r: &Vec<Slide>)
        ensures
            r.deep_view() == self@.slides,
    {
        &self.slides
    }

    /// The shown slide.
    pub fn current(&self) -> (r: &Slide)
        requires
            app_ok(self@),
        ensures
            r.deep_view() == self@.slides[self@.idx],
    {
        &self.slides[self.idx]
    }

    /// The index of the shown slide.
    pub fn idx(&self) -> (r: usize)
        ensures
            r == self@.idx,
    {
        self.idx
    }

    /// The content's scroll position.
    pub fn scroll(&self) -> (r: usize)
        ensures
            r == self@.scroll,
    {
        self.scroll
    }

    /// Whether the presenter was asked to quit.
    pub fn quit(&self) -> (r: bool)
        ensures
            r == self@.quit,
    {
        self.quit
    }

    /// Milliseconds since the shown slide started.
    fn elapsed(&self, now_ms: u64) -> (r: u64)
        ensures
            r == elapsed(self@, now_ms as int),
    {
        if now_ms >= self.start_ms {
            now_ms - self.start_ms
        } else {
            0
        }
    }

    /// The animation state of the shown slide at time `now_ms`: each
    /// animated title line's slide-in (spread over 333 ms), the content
    /// blocks that have appeared (one every 55 ms after the titles), and
    /// whether anything still moves.
    pub fn frame(&self, now_ms: u64) -> (r: AnimFrame)
        requires
            app_ok(self@),
        ensures
            r.title_progress@ == frame_of(self@, now_ms as int).0,
            r.visible_blocks == frame_of(self@, now_ms as int).1,
            r.animating == frame_of(self@, now_ms as int).2,
    {
        let ghost st = self@;
        let slide = &self.slides[self.idx];
        let ghost sv = st.slides[st.idx];
        assert(slide.deep_view() == sv);
        assert(anim_in_stack(sv));
        let t = self.elapsed(now_ms);
        // --- title block: 333 ms total, overlapping slide-ins ---
        let n = slide.anim.len();
        let mut title_progress: Vec<Option<TitleProgress>> = Vec::new();
        let mut i: usize = 0;
        while i < slide.stack.len()
            invariant
                i <= slide.stack.len(),
                title_progress@ =~= Seq::new(i as nat, |j: int| None::<TitleProgress>),
            decreases slide.stack.len() - i,
        {
            title_progress.push(None);
            i = i + 1;
        }
        assert(title_progress@ =~= title_marks(sv, t as int, 0));
        let mut k: usize = 0;
        while k < n
            invariant
                k <= n,
                n == sv.anim.len(),
                sv.anim == slide.anim@,
                sv.stack.len() == slide.stack.len(),
                anim_in_stack(sv),
                t == elapsed(st, now_ms as int),
                title_progress@ == title_marks(sv, t as int, k as int),
                title_progress@.len() == sv.stack.len(),
            decreases n - k,
        {
            let s: u64 = if n > 1 {
                let gap: u128 = (TITLE_MS - TITLE_LINE_MS) as u128;
                assert(gap == 111);
                assert((k as int) * gap <= 0xFFFF_FFFF_FFFF_FFFFint * 111) by (nonlinear_arith)
                    requires
                        0 <= k <= 0xFFFF_FFFF_FFFF_FFFFint,
                        gap == 111,
                ;
                assert((k as int) * gap <= (n as int - 1) * gap) by (nonlinear_arith)
                    requires
                        k < n,
                        gap >= 0,
                ;
                assert((k as int) * gap / (n as int - 1) <= gap) by (nonlinear_arith)
                    requires
                        (k as int) * gap <= (n as int - 1) * gap,
                        n > 1,
                        gap >= 0,
                        k >= 0,
                ;
                ((k as u128) * gap / ((n as u128) - 1)) as u64
            } else {
                TITLE_MS - TITLE_LINE_MS
            };
            assert(s == title_start(k as int, n as int));
            assert(s <= TITLE_MS - TITLE_LINE_MS);
            let e: u64 = s + TITLE_LINE_MS;
            let p = if t >= e {
                TitleProgress::Arrived
            } else if t <= s {
                TitleProgress::Waiting
            } else {
                TitleProgress::Moving { done: t - s, span: e - s }
            };
            let at = slide.anim[k];
            assert(at < slide.stack.len());
            title_progress.set(at, Some(p));
            k = k + 1;
        }
        // --- content: one block every 55 ms after the titles ---
        let nb = slide.blocks.len();
        let mut visible: usize = 0;
        let mut b: usize = 0;
        while b < nb
            invariant
                b <= nb,
                nb == sv.blocks.len(),
                visible <= b,
                visible as int == blocks_shown(t as int, b as int),
            decreases nb - b,
        {
            assert(CONTENT_STAGGER_MS == 55 && TITLE_MS == 333);
            assert((b as int) * 55 <= 0xFFFF_FFFF_FFFF_FFFFint * 55) by (nonlinear_arith)
                requires
                    0 <= b <= 0xFFFF_FFFF_FFFF_FFFFint,
            ;
            if (t as u128) >= (TITLE_MS as u128) + (b as u128) * (CONTENT_STAGGER_MS as u128) {
                visible = visible + 1;
            }
            b = b + 1;
        }
        assert((nb as int) * 55 <= 0xFFFF_FFFF_FFFF_FFFFint * 55) by (nonlinear_arith)
            requires
                0 <= nb <= 0xFFFF_FFFF_FFFF_FFFFint,
        ;
        let total: u128 = (TITLE_MS as u128) + (nb as u128) * (CONTENT_STAGGER_MS as u128) + (
        TAIL_MS as u128);
        AnimFrame { title_progress, visible_blocks: visible, animating: (t as u128) < total }
    }

    /// Shows slide `idx` from time `now_ms`: its animation starts over,
    /// scrolled to the top.
    fn go(&mut self, idx: usize, now_ms: u64)
        requires
            app_ok(old(self)@),
            idx < old(self)@.slides.len(),
        ensures
            final(self)@ == go_to(old(self)@, idx as int, now_ms as int),
    {
        self.idx = idx;
        self.start_ms = now_ms;
        self.scroll = 0;
        self.auto_scroll = true;
    }

    /// Acts on a key pressed at time `now_ms`. Space moves on only once the
    /// slide has stopped animating, and is not remembered otherwise; the
    /// arrows move at once and replay the slide; scrolling stops following
    /// new content.
    pub fn handle(&mut self, key: Key, now_ms: u64)
        requires
            app_ok(old(self)@),
        ensures
            final(self)@ == after_key(old(self)@, key, now_ms as int),
            app_ok(final(self)@),
    {
        let animating = self.frame(now_ms).animating;
        assert(self.slides.deep_view().len() == self.slides.len());
        match key {
            Key::Quit => {
                self.quit = true;
            },
            Key::Space => {
                if !animating && self.idx + 1 < self.slides.len() {
                    self.go(self.idx + 1, now_ms);
                }
            },
            Key::Next => {
                if self.idx + 1 < self.slides.len() {
                    self.go(self.idx + 1, now_ms);
                }
            },
            Key::Prev => {
                if self.idx > 0 {
                    self.go(self.idx - 1, now_ms);
                }
            },
            Key::Down => {
                self.scroll = self.scroll.saturating_add(1);
                self.auto_scroll = false;
            },
            Key::Up => {
                self.scroll = self.scroll.saturating_sub(1);
                self.auto_scroll = false;
            },
            Key::Other => {},
        }
    }

    /// Settles the scroll position against the layout's `max_scroll`: while
    /// the slide animates and the presenter has not scrolled, the newest
    /// content is kept in view; otherwise the position is clamped.
    pub fn settle_scroll(&mut self, max_scroll: usize, animating: bool)
        requires
            app_ok(old(self)@),
        ensures
            final(self)@ == settled(old(self)@, max_scroll as int, animating),
            app_ok(final(self)@),
            final(self)@.scroll <= max_scroll,
    {
        if animating && self.auto_scroll {
            self.scroll = max_scroll;
        } else if self.scroll > max_scroll {
            self.scroll = max_scroll;
        }
    }
}

// ---------------------------------------------------------------------------
// Laws of the presenter.
// ---------------------------------------------------------------------------

/// Law: Space is ignored while the slide animates, and not remembered: the
/// state after it is the state before it.
pub proof fn law_space_ignored_while_animating(st: AppState, now: int)
    requires
        frame_of(st, now).2,
    ensures
        after_key(st, Key::Space, now) == st,
{
}

/// Law: a key keeps the presenter on an existing slide and never changes
/// the deck; whenever it changes the slide, the new slide replays from the
/// moment of the key, scrolled to the top and following new content.
pub proof fn law_key_keeps_deck(st: AppState, k: Key, now: int)
    requires
        app_ok(st),
        0 <= now <= u64::MAX,
    ensures
        app_ok(after_key(st, k, now)),
        after_key(st, k, now).slides == st.slides,
        after_key(st, k, now).idx != st.idx ==> after_key(st, k, now).start_ms == now && after_key(
            st,
            k,
            now,
        ).scroll == 0 && after_key(st, k, now).auto_scroll,
        after_key(st, k, now).idx != st.idx ==> after_key(st, k, now).idx == st.idx + 1
            || after_key(st, k, now).idx == st.idx - 1,
{
}

/// Law: content blocks only ever appear, never disappear, as time passes,
/// and never more than the slide has.
pub proof fn law_blocks_appear_in_time(t1: int, t2: int, n: int)
    requires
        t1 <= t2,
        n >= 0,
    ensures
        0 <= blocks_shown(t1, n) <= blocks_shown(t2, n) <= n,
    decreases n,
{
    if n > 0 {
        law_blocks_appear_in_time(t1, t2, n - 1);
    }
}

proof fn lemma_all_blocks_shown(t: int, n: int)
    requires
        n >= 0,
        t >= TITLE_MS + n * CONTENT_STAGGER_MS,
    ensures
        blocks_shown(t, n) == n,
    decreases n,
{
    if n > 0 {
        lemma_all_blocks_shown(t, n - 1);
    }
}

proof fn lemma_titles_arrived(s: SlideV, t: int, k: int)
    requires
        0 <= k <= s.anim.len(),
        anim_in_stack(s),
        t >= TITLE_MS,
    ensures
        title_marks(s, t, k).len() == s.stack.len(),
        forall|i: int| 0 <= i < s.stack.len() ==> (#[trigger] title_marks(s, t, k)[i] is None
            || title_marks(s, t, k)[i] == Some(TitleProgress::Arrived)),
    decreases k,
{
    if k > 0 {
        lemma_titles_arrived(s, t, k - 1);
        let n = s.anim.len() as int;
        let j = k - 1;
        let st = title_start(j, n);
        law_titles_land_in_title_block(j, n);
        assert(st + TITLE_LINE_MS <= TITLE_MS);
        assert(progress_at(t, st, st + TITLE_LINE_MS) == TitleProgress::Arrived);
        assert(s.anim[j] < s.stack.len());
    }
}

/// Law: once a slide has stopped animating, every content block is shown
/// and every animated title line is in place.
pub proof fn law_settled_slide_complete(st: AppState, now: int)
    requires
        app_ok(st),
        !frame_of(st, now).2,
    ensures
        frame_of(st, now).1 == st.slides[st.idx].blocks.len(),
        forall|i: int| 0 <= i < st.slides[st.idx].stack.len() ==> (#[trigger] frame_of(st, now).0[i] is None
            || frame_of(st, now).0[i] == Some(TitleProgress::Arrived)),
{
    let s = st.slides[st.idx];
    let t = elapsed(st, now);
    assert(anim_in_stack(s));
    lemma_all_blocks_shown(t, s.blocks.len() as int);
    lemma_titles_arrived(s, t, s.anim.len() as int);
}

/// Law: a deck that parsing produced can be presented as soon as it has a
/// slide: each slide animates only title lines it has.
pub proof fn law_parsed_deck_showable(d: Seq<SlideV>)
    requires
        deck_well_formed(d),
        d.len() > 0,
    ensures
        showable(d),
{
    assert forall|i: int| 0 <= i < d.len() implies anim_in_stack(#[trigger] d[i]) by {
        let prev = if i == 0 {
            Seq::empty()
        } else {
            d[i - 1].stack
        };
        assert(slide_well_formed(prev, d[i]));
    }
}

/// Law: the title block takes 333 ms: the animated title lines start in
/// order, each has landed by the end of the block, and the last one lands
/// exactly at its end, however many lines there are.
pub proof fn law_titles_land_in_title_block(k: int, n: int)
    requires
        0 <= k < n,
    ensures
        0 <= title_start(k, n),
        title_start(k, n) + TITLE_LINE_MS <= TITLE_MS,
        title_start(n - 1, n) + TITLE_LINE_MS == TITLE_MS,
        k + 1 < n ==> title_start(k, n) <= title_start(k + 1, n),
{
    let gap = (TITLE_MS - TITLE_LINE_MS) as int;
    if n > 1 {
        assert(0 <= k * gap <= (n - 1) * gap) by (nonlinear_arith)
            requires
                0 <= k < n,
                gap >= 0,
        ;
        assert(0 <= k * gap / (n - 1) <= gap) by (nonlinear_arith)
            requires
                0 <= k * gap <= (n - 1) * gap,
                n > 1,
        ;
        assert((n - 1) * gap / (n - 1) == gap) by (nonlinear_arith)
            requires
                n > 1,
        ;
        if k + 1 < n {
            assert(k * gap / (n - 1) <= (k + 1) * gap / (n - 1)) by (nonlinear_arith)
                requires
                    0 <= k,
                    n > 1,
                    gap >= 0,
            ;
        }
    }
}

proof fn lemma_marked_stays_marked(s: SlideV, t: int, j: int, k: int)
    requires
        0 <= j < k <= s.anim.len(),
        anim_in_stack(s),
    ensures
        title_marks(s, t, k)[s.anim[j] as int] is Some,
        title_marks(s, t, k).len() == s.stack.len(),
    decreases k,
{
    assert(s.anim[k - 1] < s.stack.len());
    if k - 1 > j {
        lemma_marked_stays_marked(s, t, j, k - 1);
    } else {
        lemma_marks_len(s, t, k - 1);
    }
}

proof fn lemma_marks_len(s: SlideV, t: int, k: int)
    requires
        0 <= k <= s.anim.len(),
        anim_in_stack(s),
    ensures
        title_marks(s, t, k).len() == s.stack.len(),
    decreases k,
{
    if k > 0 {
        lemma_marks_len(s, t, k - 1);
        assert(s.anim[k - 1] < s.stack.len());
    }
}

/// Law: the title block takes `TITLE_MS` (333 ms): from then on every title
/// line the slide animates is in place, and until then the last one to
/// slide in is still on its way.
pub proof fn law_title_block_timing(st: AppState, now: int)
    requires
        app_ok(st),
        st.slides[st.idx].anim.len() > 0,
    ensures
        elapsed(st, now) >= TITLE_MS ==> forall|k: int|
            0 <= k < st.slides[st.idx].anim.len() ==> frame_of(st, now).0[#[trigger] st.slides[st.idx].anim[k] as int]
                == Some(TitleProgress::Arrived),
        elapsed(st, now) < TITLE_MS ==> frame_of(st, now).0[st.slides[st.idx].anim.last() as int] != Some(
            TitleProgress::Arrived,
        ),
{
    let s = st.slides[st.idx];
    let t = elapsed(st, now);
    let n = s.anim.len() as int;
    assert(anim_in_stack(s));
    law_titles_land_in_title_block(n - 1, n);
    if t >= TITLE_MS {
        lemma_titles_arrived(s, t, n);
        assert forall|k: int| 0 <= k < n implies frame_of(st, now).0[#[trigger] s.anim[k] as int] == Some(
            TitleProgress::Arrived,
        ) by {
            lemma_marked_stays_marked(s, t, k, n);
            assert(s.anim[k] < s.stack.len());
        }
    } else {
        assert(s.anim[n - 1] < s.stack.len());
        lemma_marks_len(s, t, n - 1);
        assert(s.anim.last() == s.anim[n - 1]);
    }
}

/// Whether progress `b` is at or past progress `a`: waiting comes first,
/// then moving (further along the more is done), then arrived.
pub open spec fn progress_le(a: TitleProgress, b: TitleProgress) -> bool {
    match (a, b) {
        (TitleProgress::Waiting, _) => true,
        (TitleProgress::Moving { done: d1, span: s1 }, TitleProgress::Moving { done: d2, span: s2 }) => s1
            == s2 && d1 <= d2,
        (TitleProgress::Moving { .. }, TitleProgress::Arrived) => true,
        (TitleProgress::Arrived, TitleProgress::Arrived) => true,
        _ => false,
    }
}

/// Whether every title's progress in `b` is at or past that in `a`: the
/// same lines animate, and each has moved on or stayed.
pub open spec fn marks_le(a: Seq<Option<TitleProgress>>, b: Seq<Option<TitleProgress>>) -> bool {
    &&& a.len() == b.len()
    &&& forall|i: int|
        0 <= i < a.len() ==> match (#[trigger] a[i], b[i]) {
            (None, None) => true,
            (Some(p), Some(q)) => progress_le(p, q),
            _ => false,
        }
}

proof fn lemma_marks_advance(s: SlideV, t1: int, t2: int, k: int)
    requires
        0 <= t1 <= t2,
        0 <= k <= s.anim.len(),
        anim_in_stack(s),
    ensures
        marks_le(title_marks(s, t1, k), title_marks(s, t2, k)),
    decreases k,
{
    if k > 0 {
        lemma_marks_advance(s, t1, t2, k - 1);
        lemma_marks_len(s, t1, k - 1);
        lemma_marks_len(s, t2, k - 1);
        let n = s.anim.len() as int;
        let st = title_start(k - 1, n);
        law_titles_land_in_title_block(k - 1, n);
        let a = title_marks(s, t1, k - 1);
        let b = title_marks(s, t2, k - 1);
        let j = s.anim[k - 1] as int;
        assert(j < s.stack.len());
        assert(progress_le(progress_at(t1, st, st + TITLE_LINE_MS), progress_at(t2, st, st + TITLE_LINE_MS)));
        let a2 = title_marks(s, t1, k);
        let b2 = title_marks(s, t2, k);
        assert forall|i: int| 0 <= i < a2.len() implies match (#[trigger] a2[i], b2[i]) {
            (None, None) => true,
            (Some(p), Some(q)) => progress_le(p, q),
            _ => false,
        } by {
            if i != j {
                assert(a2[i] == a[i] && b2[i] == b[i]);
                assert(match (a[i], b[i]) {
                    (None, None) => true,
                    (Some(p), Some(q)) => progress_le(p, q),
                    _ => false,
                });
            }
        }
    }
}

/// Law: as time passes on a slide, nothing goes back: every title line's
/// slide-in is at or past where it was, content blocks only appear, and
/// once the slide has stopped animating it stays still.
pub proof fn law_frame_advances(st: AppState, now1: int, now2: int)
    requires
        app_ok(st),
        now1 <= now2,
    ensures
        marks_le(frame_of(st, now1).0, frame_of(st, now2).0),
        frame_of(st, now1).1 <= frame_of(st, now2).1,
        frame_of(st, now2).2 ==> frame_of(st, now1).2,
{
    let s = st.slides[st.idx];
    let t1 = elapsed(st, now1);
    let t2 = elapsed(st, now2);
    assert(0 <= t1 <= t2);
    assert(anim_in_stack(s));
    lemma_marks_advance(s, t1, t2, s.anim.len() as int);
    law_blocks_appear_in_time(t1, t2, s.blocks.len() as int);
}

/// Law: what each key does to the slide shown. Space moves to the next
/// slide when the slide has stopped animating and there is a next one, and
/// otherwise does nothing (it never moves back); the right arrow moves to
/// the next slide whenever there is one; the left arrow to the previous one
/// whenever there is one; no other key changes the slide. Quit only asks to
/// quit; the scroll keys move the content by one line, down not past the
/// largest position and up not past the top, and stop following new
/// content.
pub proof fn law_keys_move(st: AppState, now: int)
    requires
        app_ok(st),
    ensures
        after_key(st, Key::Space, now).idx >= st.idx,
        after_key(st, Key::Space, now).idx == if !frame_of(st, now).2 && st.idx + 1 < st.slides.len() {
            st.idx + 1
        } else {
            st.idx
        },
        after_key(st, Key::Next, now).idx == if st.idx + 1 < st.slides.len() {
            st.idx + 1
        } else {
            st.idx
        },
        after_key(st, Key::Prev, now).idx == if st.idx > 0 {
            st.idx - 1
        } else {
            st.idx
        },
        after_key(st, Key::Quit, now) == (AppState { quit: true, ..st }),
        after_key(st, Key::Other, now) == st,
        after_key(st, Key::Down, now) == (AppState {
            scroll: if st.scroll < usize::MAX {
                st.scroll + 1
            } else {
                st.scroll
            },
            auto_scroll: false,
            ..st
        }),
        after_key(st, Key::Up, now) == (AppState {
            scroll: if st.scroll > 0 {
                st.scroll - 1
            } else {
                0
            },
            auto_scroll: false,
            ..st
        }),
        !after_key(st, Key::Space, now).quit == !st.quit,
        !after_key(st, Key::Next, now).quit == !st.quit,
        !after_key(st, Key::Prev, now).quit == !st.quit,
{
}

/// Law: settling the scroll position keeps everything but the position,
/// and the position is the bottom (`max_scroll`) while the slide animates
/// and follows new content; otherwise it only clamps: the position stays
/// where it is unless it is past `max_scroll`, whatever `auto_scroll` is.
pub proof fn law_settle_scroll(st: AppState, max_scroll: int, animating: bool)
    ensures
        settled(st, max_scroll, animating) == (AppState {
            scroll: if animating && st.auto_scroll {
                max_scroll
            } else if st.scroll <= max_scroll {
                st.scroll
            } else {
                max_scroll
            },
            ..st
        }),
        !animating ==> settled(st, max_scroll, animating).scroll == if st.scroll <= max_scroll {
            st.scroll
        } else {
            max_scroll
        },
        settled(settled(st, max_scroll, animating), max_scroll, false).scroll == settled(
            st,
            max_scroll,
            animating,
        ).scroll,
{
}

/// Law: content blocks appear one every `CONTENT_STAGGER_MS` (55 ms) from
/// the end of the title block (333 ms): `t` ms into the slide, none has
/// appeared before 333 ms, and from then on the first `(t - 333) / 55 + 1`
/// have, but never more than the slide has.
pub proof fn law_blocks_timing(t: int, n: int)
    requires
        n >= 0,
    ensures
        blocks_shown(t, n) == if t < TITLE_MS {
            0
        } else if (t - TITLE_MS) / (CONTENT_STAGGER_MS as int) + 1 < n {
            (t - TITLE_MS) / (CONTENT_STAGGER_MS as int) + 1
        } else {
            n
        },
    decreases n,
{
    if n > 0 {
        law_blocks_timing(t, n - 1);
        if t >= TITLE_MS {
            let u = t - 333;
            let q = u / 55;
            assert(55 * q <= u < 55 * q + 55) by (nonlinear_arith)
                requires
                    u >= 0,
                    q == u / 55,
            ;
            assert((u >= (n - 1) * 55) == (n - 1 <= q)) by (nonlinear_arith)
                requires
                    55 * q <= u,
                    u < 55 * q + 55,
            ;
        }
    }
}

proof fn lemma_marks_which(s: SlideV, t: int, k: int)
    requires
        0 <= k <= s.anim.len(),
        anim_in_stack(s),
    ensures
        title_marks(s, t, k).len() == s.stack.len(),
        forall|i: int|
            0 <= i < s.stack.len() ==> (#[trigger] title_marks(s, t, k)[i] is Some <==> exists|j: int|
                0 <= j < k && s.anim[j] as int == i),
    decreases k,
{
    lemma_marks_len(s, t, k);
    if k > 0 {
        lemma_marks_which(s, t, k - 1);
        assert(s.anim[k - 1] < s.stack.len());
        assert forall|i: int| 0 <= i < s.stack.len() implies (#[trigger] title_marks(s, t, k)[i] is Some
            <==> exists|j: int| 0 <= j < k && s.anim[j] as int == i) by {
            if i == s.anim[k - 1] as int {
                assert(0 <= k - 1 < k && s.anim[k - 1] as int == i);
            } else {
                assert(title_marks(s, t, k)[i] == title_marks(s, t, k - 1)[i]);
                if exists|j: int| 0 <= j < k && s.anim[j] as int == i {
                    let j = choose|j: int| 0 <= j < k && s.anim[j] as int == i;
                    assert(j < k - 1);
                }
                if exists|j: int| 0 <= j < k - 1 && s.anim[j] as int == i {
                    let j = choose|j: int| 0 <= j < k - 1 && s.anim[j] as int == i;
                    assert(0 <= j < k);
                }
            }
        }
    }
}

/// Law: exactly the title lines that the slide animates have a slide-in
/// progress; every other title line simply stands in place.
pub proof fn law_only_animated_titles_move(st: AppState, now: int)
    requires
        app_ok(st),
    ensures
        frame_of(st, now).0.len() == st.slides[st.idx].stack.len(),
        forall|i: int|
            0 <= i < st.slides[st.idx].stack.len() ==> (#[trigger] frame_of(st, now).0[i] is Some <==> exists|j: int|
                0 <= j < st.slides[st.idx].anim.len() && st.slides[st.idx].anim[j] as int == i),
{
    let s = st.slides[st.idx];
    assert(anim_in_stack(s));
    lemma_marks_which(s, elapsed(st, now), s.anim.len() as int);
}

/// Law: a slide animates for 333 ms of titles, 55 ms for each of its
/// content blocks and a 50 ms tail, and then stands still; how many blocks
/// it has is all that changes how long it moves.
pub proof fn law_animation_length(st: AppState, now: int)
    requires
        app_ok(st),
    ensures
        frame_of(st, now).2 <==> elapsed(st, now) < 333 + 55 * st.slides[st.idx].blocks.len() + 50,
{
}

} // verus!
