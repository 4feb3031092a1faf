use poorerpoint::deck::{Block, Slide, Span, Style, TitleLine};
use poorerpoint::markdown::{Alignment, MdEvent};
use poorerpoint::parse::{parse, slides_from_events};

fn titles(s: &Slide) -> Vec<(usize, String)> {
    s.stack.iter().map(|t| (t.level, t.text.clone())).collect()
}

fn texts(spans: &[Span]) -> Vec<(String, Style)> {
    spans.iter().map(|s| (s.text.clone(), s.style)).collect()
}

fn plain() -> Style {
    Style::default()
}

const README_DECK: &str = "# poorerpoint

A terminal presentation engine.

## Why

- Markdown in, ASCII out
- Headers stick, content flows
- Space is the only button you need

## How

### Parsing

Headers mutate a **sticky stack**.
Content attaches to the current stack.

### Rendering

Titles slide in from the right.
Bullets follow, one every 55 ms.

# Fin

Space to leave.
";

#[test]
fn readme_deck_slides_and_stacks() {
    let slides = parse(README_DECK);
    assert_eq!(slides.len(), 5);
    assert_eq!(titles(&slides[0]), vec![(1, "poorerpoint".to_string())]);
    assert_eq!(
        titles(&slides[1]),
        vec![(1, "poorerpoint".to_string()), (2, "Why".to_string())]
    );
    assert_eq!(
        titles(&slides[2]),
        vec![
            (1, "poorerpoint".to_string()),
            (2, "How".to_string()),
            (3, "Parsing".to_string())
        ]
    );
    assert_eq!(
        titles(&slides[3]),
        vec![
            (1, "poorerpoint".to_string()),
            (2, "How".to_string()),
            (3, "Rendering".to_string())
        ]
    );
    assert_eq!(titles(&slides[4]), vec![(1, "Fin".to_string())]);
}

#[test]
fn readme_deck_animates_only_changed_titles() {
    let slides = parse(README_DECK);
    assert_eq!(slides[0].anim, vec![0]);
    assert_eq!(slides[1].anim, vec![1]);
    assert_eq!(slides[2].anim, vec![1, 2]);
    assert_eq!(slides[3].anim, vec![2]);
    assert_eq!(slides[4].anim, vec![0]);
}

#[test]
fn readme_deck_blocks() {
    let slides = parse(README_DECK);
    match &slides[0].blocks[..] {
        [Block::Para(spans)] => {
            assert_eq!(texts(spans), vec![("A terminal presentation engine.".to_string(), plain())])
        }
        other => panic!("unexpected blocks {:?}", other),
    }
    assert_eq!(slides[1].blocks.len(), 3);
    for (b, want) in slides[1].blocks.iter().zip([
        "Markdown in, ASCII out",
        "Headers stick, content flows",
        "Space is the only button you need",
    ]) {
        match b {
            Block::Bullet { depth, spans } => {
                assert_eq!(*depth, 0);
                assert_eq!(texts(spans), vec![(want.to_string(), plain())]);
            }
            other => panic!("unexpected block {:?}", other),
        }
    }
    let bold = Style { bold: true, italic: false, code: false };
    match &slides[2].blocks[..] {
        [Block::Para(spans)] => assert_eq!(
            texts(spans),
            vec![
                ("Headers mutate a ".to_string(), plain()),
                ("sticky stack".to_string(), bold),
                (".".to_string(), plain()),
                (" ".to_string(), plain()),
                ("Content attaches to the current stack.".to_string(), plain()),
            ]
        ),
        other => panic!("unexpected blocks {:?}", other),
    }
}

#[test]
fn headers_without_content_are_skipped() {
    let slides = parse("# A\n\n# B\n\ntext\n");
    assert_eq!(slides.len(), 1);
    assert_eq!(titles(&slides[0]), vec![(1, "B".to_string())]);
}

#[test]
fn consecutive_headers_merge_into_one_title_block() {
    let slides = parse("# A\n## B\n\ntext\n");
    assert_eq!(slides.len(), 1);
    assert_eq!(titles(&slides[0]), vec![(1, "A".to_string()), (2, "B".to_string())]);
    assert_eq!(slides[0].anim, vec![0, 1]);
}

#[test]
fn header_replaces_same_or_higher_level_and_below() {
    let slides = parse("# A\n## B\n### C\n\none\n\n## D\n\ntwo\n");
    assert_eq!(slides.len(), 2);
    assert_eq!(titles(&slides[1]), vec![(1, "A".to_string()), (2, "D".to_string())]);
    assert_eq!(slides[1].anim, vec![1]);
}

#[test]
fn content_before_any_header_has_empty_stack() {
    let slides = parse("hello\n\n# T\n\nworld\n");
    assert_eq!(slides.len(), 2);
    assert!(slides[0].stack.is_empty());
    assert!(slides[0].anim.is_empty());
    assert_eq!(slides[1].anim, vec![0]);
}

#[test]
fn empty_deck_has_no_slides() {
    assert_eq!(parse("").len(), 0);
    assert_eq!(parse("# Only a title\n").len(), 0);
}

#[test]
fn code_block_lines_without_trailing_blanks() {
    let slides = parse("# T\n\n```\nfoo\n  bar\n\n\n```\n");
    match &slides[0].blocks[..] {
        [Block::Code(lines)] => assert_eq!(lines, &vec!["foo".to_string(), "  bar".to_string()]),
        other => panic!("unexpected blocks {:?}", other),
    }
}

#[test]
fn empty_code_block_is_dropped() {
    let slides = parse("# T\n\n```\n```\n\nafter\n");
    assert_eq!(slides[0].blocks.len(), 1);
    assert!(matches!(slides[0].blocks[0], Block::Para(_)));
}

#[test]
fn nested_bullets_carry_depth() {
    let slides = parse("# T\n\n- outer\n  - inner\n");
    let depths: Vec<(usize, String)> = slides[0]
        .blocks
        .iter()
        .map(|b| match b {
            Block::Bullet { depth, spans } => (*depth, spans[0].text.clone()),
            other => panic!("unexpected block {:?}", other),
        })
        .collect();
    assert_eq!(depths, vec![(0, "outer".to_string()), (1, "inner".to_string())]);
}

fn bullets(blocks: &[Block]) -> Vec<(usize, Vec<String>)> {
    blocks
        .iter()
        .map(|b| match b {
            Block::Bullet { depth, spans } => (*depth, spans.iter().map(|s| s.text.clone()).collect()),
            other => panic!("unexpected block {:?}", other),
        })
        .collect()
}

#[test]
fn nested_bullets_come_in_document_order() {
    let slides = parse("- a\n  - b\n");
    assert_eq!(slides.len(), 1);
    assert!(slides[0].stack.is_empty());
    assert!(slides[0].anim.is_empty());
    assert_eq!(bullets(&slides[0].blocks), vec![(0, vec!["a".to_string()]), (1, vec!["b".to_string()])]);
    match &slides[0].blocks[0] {
        Block::Bullet { spans, .. } => assert_eq!(spans[0].style, Style::default()),
        _ => unreachable!(),
    }
}

#[test]
fn deeper_nesting_and_siblings_keep_document_order() {
    let slides = parse("- a\n  - b\n    - c\n  - d\n- e\n");
    assert_eq!(
        bullets(&slides[0].blocks),
        vec![
            (0, vec!["a".to_string()]),
            (1, vec!["b".to_string()]),
            (2, vec!["c".to_string()]),
            (1, vec!["d".to_string()]),
            (0, vec!["e".to_string()]),
        ]
    );
}

#[test]
fn rule_and_inline_styles() {
    let slides = parse("# T\n\n*it* `c`\n\n---\n");
    let italic = Style { bold: false, italic: true, code: false };
    let code = Style { bold: false, italic: false, code: true };
    match &slides[0].blocks[..] {
        [Block::Para(spans), Block::Rule] => assert_eq!(
            texts(spans),
            vec![
                ("it".to_string(), italic),
                (" ".to_string(), plain()),
                ("c".to_string(), code)
            ]
        ),
        other => panic!("unexpected blocks {:?}", other),
    }
}

#[test]
fn table_with_alignment() {
    let slides = parse("# T\n\n| a | b |\n|:--|--:|\n| 1 | 2 |\n");
    match &slides[0].blocks[..] {
        [Block::Table { aligns, head, rows }] => {
            assert_eq!(aligns, &vec![Alignment::Left, Alignment::Right]);
            assert_eq!(head.len(), 2);
            assert_eq!(head[0][0].text, "a");
            assert_eq!(rows.len(), 1);
            assert_eq!(rows[0][1][0].text, "2");
        }
        other => panic!("unexpected blocks {:?}", other),
    }
}

#[test]
fn heading_end_without_start_is_refused() {
    let events = vec![MdEvent::Text("x".to_string()), MdEvent::EndHeading];
    assert!(slides_from_events(&events).is_none());
}

#[test]
fn events_build_stack_snapshot() {
    let events = vec![
        MdEvent::StartHeading(1),
        MdEvent::Text("A".to_string()),
        MdEvent::EndHeading,
        MdEvent::Rule,
        MdEvent::StartHeading(2),
        MdEvent::Code("B".to_string()),
        MdEvent::EndHeading,
        MdEvent::Rule,
    ];
    let slides = slides_from_events(&events).unwrap();
    assert_eq!(slides.len(), 2);
    assert_eq!(titles(&slides[0]), vec![(1, "A".to_string())]);
    assert_eq!(titles(&slides[1]), vec![(1, "A".to_string()), (2, "B".to_string())]);
    assert_eq!(slides[1].anim, vec![1]);
}

#[test]
fn title_line_helpers() {
    let a = TitleLine { level: 2, text: "x".to_string() };
    let b = a.duplicate();
    assert!(a.same_as(&b));
    assert!(!a.same_as(&TitleLine { level: 1, text: "x".to_string() }));
}

#[test]
fn heading_levels_run_from_one_to_six() {
    let slides = parse("###### six\n\ntext\n\n####### seven\n");
    assert_eq!(titles(&slides[0]), vec![(6, "six".to_string())]);
    match &slides[0].blocks[..] {
        [Block::Para(a), Block::Para(b)] => {
            assert_eq!(a[0].text, "text");
            assert_eq!(b[0].text, "####### seven");
        }
        other => panic!("unexpected blocks {:?}", other),
    }
}
