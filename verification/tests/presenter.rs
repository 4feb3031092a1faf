use poorerpoint::app::{App, Key, TitleProgress};
use poorerpoint::deck::{Block, Slide, Span, Style, TitleLine};

fn slide(titles: &[&str], anim: Vec<usize>, nblocks: usize) -> Slide {
    Slide {
        stack: titles
            .iter()
            .enumerate()
            .map(|(i, t)| TitleLine { level: i + 1, text: t.to_string() })
            .collect(),
        anim,
        blocks: (0..nblocks)
            .map(|_| Block::Para(vec![Span { text: "x".to_string(), style: Style::default() }]))
            .collect(),
    }
}

fn deck() -> Vec<Slide> {
    vec![slide(&["A"], vec![0], 3), slide(&["A", "B"], vec![1], 1), slide(&["C"], vec![0], 0)]
}

#[test]
fn title_slides_in_over_its_window() {
    let app = App::new(deck(), 1000);
    assert_eq!(app.frame(1000).title_progress, vec![Some(TitleProgress::Waiting)]);
    assert_eq!(app.frame(1111).title_progress, vec![Some(TitleProgress::Waiting)]);
    assert_eq!(
        app.frame(1222).title_progress,
        vec![Some(TitleProgress::Moving { done: 111, span: 222 })]
    );
    assert_eq!(
        app.frame(1300).title_progress,
        vec![Some(TitleProgress::Moving { done: 189, span: 222 })]
    );
    assert_eq!(
        app.frame(1332).title_progress,
        vec![Some(TitleProgress::Moving { done: 221, span: 222 })]
    );
    assert_eq!(app.frame(1333).title_progress, vec![Some(TitleProgress::Arrived)]);
}

#[test]
fn three_titles_last_lands_at_333() {
    let s = slide(&["A", "B", "C"], vec![0, 1, 2], 0);
    let app = App::new(vec![s], 0);
    assert_eq!(
        app.frame(55).title_progress,
        vec![
            Some(TitleProgress::Moving { done: 55, span: 222 }),
            Some(TitleProgress::Waiting),
            Some(TitleProgress::Waiting)
        ]
    );
    assert_eq!(
        app.frame(332).title_progress,
        vec![
            Some(TitleProgress::Arrived),
            Some(TitleProgress::Arrived),
            Some(TitleProgress::Moving { done: 221, span: 222 })
        ]
    );
    assert_eq!(
        app.frame(333).title_progress,
        vec![Some(TitleProgress::Arrived), Some(TitleProgress::Arrived), Some(TitleProgress::Arrived)]
    );
}

#[test]
fn staggered_titles_end_with_the_title_block() {
    let s = slide(&["A", "B"], vec![0, 1], 0);
    let app = App::new(vec![s], 0);
    assert_eq!(
        app.frame(111).title_progress,
        vec![Some(TitleProgress::Moving { done: 111, span: 222 }), Some(TitleProgress::Waiting)]
    );
    assert_eq!(
        app.frame(332).title_progress,
        vec![Some(TitleProgress::Arrived), Some(TitleProgress::Moving { done: 221, span: 222 })]
    );
    assert_eq!(
        app.frame(333).title_progress,
        vec![Some(TitleProgress::Arrived), Some(TitleProgress::Arrived)]
    );
}

#[test]
fn unchanged_titles_do_not_animate() {
    let mut app = App::new(deck(), 0);
    app.handle(Key::Next, 0);
    assert_eq!(app.frame(0).title_progress, vec![None, Some(TitleProgress::Waiting)]);
}

#[test]
fn blocks_follow_every_55_ms_after_titles() {
    let app = App::new(deck(), 0);
    assert_eq!(app.frame(332).visible_blocks, 0);
    assert_eq!(app.frame(333).visible_blocks, 1);
    assert_eq!(app.frame(388).visible_blocks, 2);
    assert_eq!(app.frame(442).visible_blocks, 2);
    assert_eq!(app.frame(443).visible_blocks, 3);
    assert!(app.frame(547).animating);
    assert!(!app.frame(548).animating);
    assert_eq!(app.frame(100_000).visible_blocks, 3);
}

#[test]
fn space_is_ignored_while_animating() {
    let mut app = App::new(deck(), 0);
    app.handle(Key::Space, 100);
    assert_eq!(app.idx(), 0);
    // not buffered: once the animation ends nothing happens by itself
    assert!(!app.frame(600).animating);
    assert_eq!(app.idx(), 0);
    app.handle(Key::Space, 600);
    assert_eq!(app.idx(), 1);
}

#[test]
fn arrows_are_always_live_and_replay() {
    let mut app = App::new(deck(), 0);
    app.handle(Key::Next, 10);
    assert_eq!(app.idx(), 1);
    assert!(app.frame(10).animating);
    assert_eq!(app.frame(10).visible_blocks, 0);
    app.handle(Key::Prev, 20);
    assert_eq!(app.idx(), 0);
    app.handle(Key::Prev, 30);
    assert_eq!(app.idx(), 0);
    app.handle(Key::Next, 40);
    app.handle(Key::Next, 50);
    app.handle(Key::Next, 60);
    assert_eq!(app.idx(), 2);
}

#[test]
fn scrolling_and_reset_on_slide_change() {
    let mut app = App::new(deck(), 0);
    app.handle(Key::Down, 0);
    app.handle(Key::Down, 0);
    assert_eq!(app.scroll(), 2);
    app.handle(Key::Up, 0);
    assert_eq!(app.scroll(), 1);
    app.handle(Key::Up, 0);
    app.handle(Key::Up, 0);
    assert_eq!(app.scroll(), 0);
    app.handle(Key::Down, 0);
    app.handle(Key::Next, 0);
    assert_eq!(app.scroll(), 0);
}

#[test]
fn auto_scroll_follows_new_content_until_manual_scroll() {
    let mut app = App::new(deck(), 0);
    app.settle_scroll(4, true);
    assert_eq!(app.scroll(), 4);
    app.handle(Key::Up, 0);
    app.settle_scroll(6, true);
    assert_eq!(app.scroll(), 3);
    app.settle_scroll(2, false);
    assert_eq!(app.scroll(), 2);
}

#[test]
fn quit_key() {
    let mut app = App::new(deck(), 0);
    assert!(!app.quit());
    app.handle(Key::Other, 0);
    assert!(!app.quit());
    app.handle(Key::Quit, 0);
    assert!(app.quit());
    assert_eq!(app.slides().len(), 3);
    assert_eq!(app.current().stack[0].text, "A");
}

#[test]
fn parsed_deck_can_be_presented() {
    let slides = poorerpoint::parse::parse("# A\n\none\n\n## B\n\ntwo\n");
    let mut app = App::new(slides, 0);
    assert_eq!(app.frame(0).title_progress, vec![Some(TitleProgress::Waiting)]);
    app.handle(Key::Next, 5);
    assert_eq!(app.frame(5).title_progress, vec![None, Some(TitleProgress::Waiting)]);
    assert_eq!(app.frame(1000).visible_blocks, 1);
}

#[test]
fn frame_timeout_is_a_frame_while_animating() {
    assert_eq!(poorerpoint::app::frame_timeout_ms(true), 16);
    assert_eq!(poorerpoint::app::frame_timeout_ms(false), 120);
}

#[test]
fn frames_only_move_forward_in_time() {
    let s = slide(&["A", "B", "C"], vec![1, 2], 4);
    let app = App::new(vec![s], 0);
    let rank = |p: &Option<TitleProgress>| match p {
        None => (0u64, 0u64),
        Some(TitleProgress::Waiting) => (1, 0),
        Some(TitleProgress::Moving { done, .. }) => (2, *done),
        Some(TitleProgress::Arrived) => (3, 0),
    };
    let mut prev = app.frame(0);
    for t in (1..700).step_by(7) {
        let f = app.frame(t);
        assert!(f.visible_blocks >= prev.visible_blocks);
        assert!(!f.animating || prev.animating);
        for (a, b) in prev.title_progress.iter().zip(f.title_progress.iter()) {
            assert!(rank(a) <= rank(b));
        }
        prev = f;
    }
}
