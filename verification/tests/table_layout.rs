use poorerpoint::deck::{Block, Slide, Span, Style, TitleLine};
use poorerpoint::markdown::Alignment;
use poorerpoint::render::{can_lay_out, layout_block, Layout};
use poorerpoint::table::{fit_column_widths, layout_table, measure_row, pad_cell};

fn plain() -> Style {
    Style::default()
}

fn cell(t: &str) -> Vec<Span> {
    vec![Span { text: t.to_string(), style: plain() }]
}

fn line_text(line: &[(String, Style)]) -> String {
    line.iter().map(|(t, _)| t.as_str()).collect()
}

#[test]
fn measure_row_takes_natural_and_longest_word() {
    let row = vec![cell("aa bbbb"), cell("  "), cell("x")];
    let mut natural = vec![0usize, 5, 0];
    let mut floor = vec![1usize, 1, 3];
    measure_row(&row, &mut natural, &mut floor);
    assert_eq!(natural, vec![7, 5, 1]);
    assert_eq!(floor, vec![4, 1, 3]);
}

#[test]
fn measure_row_ignores_cells_past_the_columns() {
    let row = vec![cell("abc"), cell("toolong")];
    let mut natural = vec![0usize];
    let mut floor = vec![1usize];
    measure_row(&row, &mut natural, &mut floor);
    assert_eq!(natural, vec![3]);
    assert_eq!(floor, vec![3]);
}

#[test]
fn natural_widths_when_they_fit() {
    assert_eq!(fit_column_widths(&vec![3, 4], &vec![2, 2], 7), vec![3, 4]);
}

#[test]
fn floors_when_even_floors_do_not_fit() {
    assert_eq!(fit_column_widths(&vec![10, 20], &vec![8, 9], 16), vec![8, 9]);
}

#[test]
fn proportional_shares_with_largest_remainder() {
    // extras 8 and 16, budget 14: shares 4 (rest 16) and 9 (rest 8);
    // the one leftover character goes to the column with the larger rest.
    let w = fit_column_widths(&vec![10, 20], &vec![2, 4], 20);
    assert_eq!(w, vec![7, 13]);
    assert_eq!(w.iter().sum::<usize>(), 20);
}

#[test]
fn leftover_ties_go_left_first() {
    // extras 1, 1, 1, budget 2: shares 0 each, equal rests; two leftovers
    let w = fit_column_widths(&vec![2, 2, 2], &vec![1, 1, 1], 5);
    assert_eq!(w, vec![2, 2, 1]);
}

#[test]
fn floors_when_they_just_fill_the_space() {
    assert_eq!(fit_column_widths(&vec![4, 4], &vec![3, 3], 6), vec![3, 3]);
}

#[test]
fn pad_cell_by_alignment() {
    let content = vec![("ab".to_string(), plain())];
    let texts = |v: Vec<(String, Style)>| line_text(&v);
    assert_eq!(texts(pad_cell(&content, 5, None)), "ab   ");
    assert_eq!(texts(pad_cell(&content, 5, Some(Alignment::Left))), "ab   ");
    assert_eq!(texts(pad_cell(&content, 5, Some(Alignment::Right))), "   ab");
    assert_eq!(texts(pad_cell(&content, 5, Some(Alignment::Center))), " ab  ");
    assert_eq!(pad_cell(&content, 1, None), content);
    assert_eq!(pad_cell(&content, 2, Some(Alignment::Right)).len(), 1);
}

#[test]
fn small_table_lays_out_with_borders() {
    let head = vec![cell("a"), cell("bb")];
    let rows = vec![vec![cell("1"), cell("2")]];
    let lines = layout_table(&[Alignment::Unset, Alignment::Right], &head, &rows, 80);
    let texts: Vec<String> = lines.iter().map(|l| line_text(l)).collect();
    assert_eq!(
        texts,
        vec!["┌───┬────┐", "│ a │ bb │", "├───┼────┤", "│ 1 │  2 │", "└───┴────┘"]
    );
}

#[test]
fn narrow_table_wraps_cells() {
    let head = vec![cell("alpha beta"), cell("x")];
    let rows: Vec<Vec<Vec<Span>>> = vec![];
    // overhead 7, avail 8: natural 10+1 > 8, floors 5+1 fit
    let lines = layout_table(&[], &head, &rows, 15);
    let texts: Vec<String> = lines.iter().map(|l| line_text(l)).collect();
    assert_eq!(
        texts,
        vec![
            "┌─────────┬───┐",
            "│ alpha   │ x │",
            "│ beta    │   │",
            "├─────────┼───┤",
            "└─────────┴───┘"
        ]
    );
}

#[test]
fn table_without_columns_is_empty() {
    let head: Vec<Vec<Span>> = vec![];
    let rows: Vec<Vec<Vec<Span>>> = vec![vec![]];
    assert!(layout_table(&[], &head, &rows, 40).is_empty());
}

#[test]
fn blocks_lay_out() {
    let texts = |b: &Block, w: usize| -> Vec<String> {
        layout_block(b, w).iter().map(|l| line_text(l)).collect()
    };
    assert_eq!(texts(&Block::Rule, 5), vec!["─────"]);
    assert_eq!(texts(&Block::Rule, 100), vec!["─".repeat(60)]);
    assert_eq!(
        texts(&Block::Code(vec!["x = 1".to_string(), "".to_string()]), 3),
        vec!["  x = 1", "  "]
    );
    assert_eq!(
        texts(&Block::Bullet { depth: 1, spans: cell("one two three") }, 12),
        vec!["  • one two", "    three"]
    );
    assert_eq!(texts(&Block::Para(cell("a b")), 1), vec!["a", "b"]);
}

fn slide() -> Slide {
    Slide {
        stack: vec![TitleLine { level: 1, text: "T".to_string() }],
        anim: vec![0],
        blocks: vec![Block::Para(cell("one")), Block::Rule, Block::Para(cell("two"))],
    }
}

#[test]
fn layout_rows_and_blank_lines_between_blocks() {
    let s = slide();
    let layout = Layout::new(10, 6, &s, 2);
    assert_eq!(layout.title_rows, 2);
    assert_eq!(layout.content_rows, 3);
    let texts: Vec<String> = layout.lines.iter().map(|l| line_text(l)).collect();
    assert_eq!(texts, vec!["one", "", "──────────"]);
    assert_eq!(layout.max_scroll(), 0);
    let all = Layout::new(10, 6, &s, 99);
    assert_eq!(all.lines.len(), 5);
    assert_eq!(all.max_scroll(), 2);
}

#[test]
fn layout_without_titles_and_tiny_terminal() {
    let mut s = slide();
    s.stack.clear();
    s.anim.clear();
    let layout = Layout::new(10, 1, &s, 1);
    assert_eq!(layout.title_rows, 0);
    assert_eq!(layout.content_rows, 0);
    assert_eq!(layout.max_scroll(), 1);
}

#[test]
fn ordinary_slides_can_be_laid_out() {
    let s = Slide {
        stack: vec![],
        anim: vec![],
        blocks: vec![Block::Table { aligns: vec![], head: vec![cell("a")], rows: vec![vec![cell("b")]] }],
    };
    assert!(can_lay_out(&s, 1));
    assert!(can_lay_out(&s, 0));
}

#[test]
fn window_of_shown_lines() {
    let s = slide();
    let all = Layout::new(10, 6, &s, 99);
    assert_eq!(all.window(0), (0, 3));
    assert_eq!(all.window(2), (2, 5));
    assert_eq!(all.window(4), (4, 5));
    assert_eq!(all.window(9), (5, 5));
}

#[test]
fn titles_indent_one_column_per_level() {
    assert_eq!(poorerpoint::render::title_indent(1), 0);
    assert_eq!(poorerpoint::render::title_indent(3), 2);
    assert_eq!(poorerpoint::render::title_indent(0), 0);
}

#[test]
fn measuring_rows_in_either_order_or_twice_agrees() {
    let a = vec![cell("aa bbbb"), cell("x")];
    let b = vec![cell("ccccc"), cell("yy zz")];
    let (mut n1, mut f1) = (vec![0usize, 0], vec![1usize, 1]);
    measure_row(&a, &mut n1, &mut f1);
    measure_row(&b, &mut n1, &mut f1);
    let (mut n2, mut f2) = (vec![0usize, 0], vec![1usize, 1]);
    measure_row(&b, &mut n2, &mut f2);
    measure_row(&a, &mut n2, &mut f2);
    assert_eq!((n1.clone(), f1.clone()), (n2, f2));
    assert_eq!((n1.clone(), f1.clone()), (vec![7, 5], vec![5, 2]));
    measure_row(&a, &mut n1, &mut f1);
    assert_eq!((n1, f1), (vec![7, 5], vec![5, 2]));
}

#[test]
fn layout_grows_at_the_end_as_blocks_appear() {
    let s = slide();
    let none = Layout::new(10, 6, &s, 0);
    assert!(none.lines.is_empty());
    let mut prev: Vec<String> = Vec::new();
    for k in 0..5 {
        let l = Layout::new(10, 6, &s, k);
        let texts: Vec<String> = l.lines.iter().map(|x| line_text(x)).collect();
        assert_eq!(&texts[..prev.len()], &prev[..]);
        assert_eq!(l.title_rows, 2);
        assert_eq!(l.content_rows, 3);
        prev = texts;
    }
    assert_eq!(prev, vec!["one", "", "──────────", "", "two"]);
}

#[test]
fn fitting_table_has_one_line_per_row() {
    let head = vec![cell("name"), cell("value")];
    let rows = vec![vec![cell("a b c"), cell("1")], vec![cell("d"), cell("22 33")]];
    let out = layout_table(&[], &head, &rows, 40);
    assert_eq!(out.len(), rows.len() + 4);
    let texts: Vec<String> = out.iter().map(|l| line_text(l)).collect();
    assert_eq!(texts[0], "┌───────┬───────┐");
    assert_eq!(texts[1], "│ name  │ value │");
    assert_eq!(texts[2], "├───────┼───────┤");
    assert_eq!(texts[3], "│ a b c │ 1     │");
    assert_eq!(texts[4], "│ d     │ 22 33 │");
    assert_eq!(texts[5], "└───────┴───────┘");
}

#[test]
fn every_table_line_is_equally_wide() {
    let head = vec![cell("a long heading here"), cell("b"), cell("")];
    let rows = vec![
        vec![cell("some words to wrap around"), cell("unbreakableword")],
        vec![cell("x"), cell("y z"), cell("three four")],
    ];
    for width in [0usize, 10, 20, 30, 45, 80] {
        let lines = layout_table(&[Alignment::Right, Alignment::Center], &head, &rows, width);
        let widths: Vec<usize> = lines.iter().map(|l| line_text(l).chars().count()).collect();
        assert!(widths.iter().all(|&w| w == widths[0]), "width {width}: {widths:?}");
        // every cell word appears whole on some line
        let all: String = lines.iter().map(|l| line_text(l)).collect::<Vec<_>>().join("\n");
        for w in ["unbreakableword", "heading", "wrap", "three", "four"] {
            assert!(all.contains(w));
        }
    }
}

#[test]
fn clip_line_cuts_at_the_right_edge() {
    let bold = Style { bold: true, italic: false, code: false };
    let line = vec![("ab".to_string(), plain()), ("cdé".to_string(), bold)];
    let all = poorerpoint::render::clip_line(&line, 10);
    assert_eq!(all, vec![('a', plain()), ('b', plain()), ('c', bold), ('d', bold), ('é', bold)]);
    let cut = poorerpoint::render::clip_line(&line, 3);
    assert_eq!(cut, vec![('a', plain()), ('b', plain()), ('c', bold)]);
    assert!(poorerpoint::render::clip_line(&line, 0).is_empty());
}

#[test]
fn footer_text_and_column() {
    let (s, col) = poorerpoint::render::footer(2, 7, 40);
    assert_eq!(s, " poorerpoint  3/7 ");
    assert_eq!(col, 40 - 18);
    let (s, col) = poorerpoint::render::footer(9, 120, 5);
    assert_eq!(s, " poorerpoint  10/120 ");
    assert_eq!(col, 0);
    assert_eq!(poorerpoint::render::decimal_string(0), "0");
    assert_eq!(poorerpoint::render::decimal_string(90210), "90210");
}
