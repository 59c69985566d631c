use docmark::markdown::document_to_markdown;
use docmark::model::{
    Block, Cell, CellSlot, Document, DocumentMeta, Inline, List, ListItem, MarkerKind, Style,
    Table, TableKind,
};

fn plain() -> Style {
    Style { bold: false, italic: false }
}

fn text(s: &str) -> Inline {
    Inline::Text { text: s.to_string(), style: plain() }
}

fn styled(s: &str, bold: bool, italic: bool) -> Inline {
    Inline::Text { text: s.to_string(), style: Style { bold, italic } }
}

fn para(s: &str) -> Block {
    Block::Paragraph(vec![text(s)])
}

fn doc(blocks: Vec<Block>) -> Document {
    Document { meta: DocumentMeta::default(), blocks, notes: Vec::new(), assets: Vec::new() }
}

fn md(blocks: Vec<Block>) -> String {
    document_to_markdown(&doc(blocks))
}

fn item(blocks: Vec<Block>) -> ListItem {
    ListItem { blocks, marker_label: None, checked: None }
}

fn list(marker: MarkerKind, start: u64, items: Vec<ListItem>) -> Block {
    Block::List(List { marker, start, items })
}

fn cell(s: &str) -> CellSlot {
    CellSlot::Origin(Cell { blocks: vec![para(s)] })
}

#[test]
fn paragraph_renders_with_final_newline() {
    assert_eq!(md(vec![para("Hello world")]), "Hello world\n");
}

#[test]
fn empty_document_renders_nothing() {
    assert_eq!(md(vec![]), "");
}

#[test]
fn blocks_are_separated_by_blank_lines() {
    assert_eq!(md(vec![para("A"), para("B")]), "A\n\nB\n");
}

#[test]
fn blank_paragraph_leaves_no_trace() {
    let blank = Block::Paragraph(vec![text("   "), Inline::LineBreak, text(" ")]);
    assert_eq!(md(vec![para("A"), blank, para("B")]), "A\n\nB\n");
}

#[test]
fn markdown_syntax_in_text_is_escaped() {
    assert_eq!(md(vec![para("a*b_c [d] `e` #f")]), "a\\*b\\_c \\[d\\] \\`e\\` \\#f\n");
}

#[test]
fn emphasis_wraps_styled_runs() {
    let p = Block::Paragraph(vec![
        styled("bold", true, false),
        text(" "),
        styled("it", false, true),
        text(" "),
        styled("both", true, true),
    ]);
    assert_eq!(md(vec![p]), "**bold** *it* ***both***\n");
}

#[test]
fn link_renders_inline() {
    let p = Block::Paragraph(vec![
        text("see "),
        Inline::Link { content: vec![text("site")], url: "http://example.org".to_string() },
    ]);
    assert_eq!(md(vec![p]), "see [site](http://example.org)\n");
}

#[test]
fn paragraph_lines_are_trimmed_and_hard_breaks_kept() {
    let p = Block::Paragraph(vec![text("  first line  "), Inline::LineBreak, text("second   ")]);
    assert_eq!(md(vec![p]), "first line  \\\nsecond\n");
}

#[test]
fn trailing_hard_break_is_dropped() {
    let p = Block::Paragraph(vec![text("end  "), Inline::LineBreak]);
    assert_eq!(md(vec![p]), "end\n");
}

#[test]
fn heading_level_is_clamped() {
    let low = Block::Heading { level: 0, content: vec![text("Low")] };
    let high = Block::Heading { level: 9, content: vec![text("High")] };
    let mid = Block::Heading { level: 3, content: vec![text("Mid")] };
    assert_eq!(md(vec![low, high, mid]), "# Low\n\n###### High\n\n### Mid\n");
}

#[test]
fn uniform_heading_emphasis_is_stripped() {
    let h = Block::Heading {
        level: 2,
        content: vec![styled("A", true, true), text(" "), styled("B", true, false)],
    };
    assert_eq!(md(vec![h]), "## *A* B\n");
}

#[test]
fn partial_heading_emphasis_survives() {
    let h = Block::Heading { level: 1, content: vec![styled("A", true, false), text(" B")] };
    assert_eq!(md(vec![h]), "# **A** B\n");
}

#[test]
fn empty_heading_renders_nothing() {
    let h = Block::Heading { level: 1, content: vec![text("   ")] };
    assert_eq!(md(vec![h, para("x")]), "x\n");
}

#[test]
fn code_block_is_fenced() {
    let c = Block::CodeBlock { lang: Some("rust".to_string()), text: "fn main() {}\n\n".to_string() };
    assert_eq!(md(vec![c]), "```rust\nfn main() {}\n```\n");
}

#[test]
fn code_fence_outgrows_backtick_runs() {
    let c = Block::CodeBlock { lang: None, text: "a ```` b".to_string() };
    assert_eq!(md(vec![c]), "`````\na ```` b\n`````\n");
}

#[test]
fn rule_renders_as_dashes() {
    assert_eq!(md(vec![Block::Rule]), "---\n");
}

#[test]
fn block_quote_prefixes_lines() {
    let q = Block::BlockQuote(vec![para("a"), para("b")]);
    assert_eq!(md(vec![q]), "> a\n>\n> b\n");
}

#[test]
fn empty_block_quote_renders_nothing() {
    let q = Block::BlockQuote(vec![Block::Paragraph(vec![])]);
    assert_eq!(md(vec![q]), "");
}

#[test]
fn tight_bullet_list() {
    let l = list(MarkerKind::Bullet, 1, vec![item(vec![para("one")]), item(vec![para("two")])]);
    assert_eq!(md(vec![l]), "- one\n- two\n");
}

#[test]
fn decimal_list_counts_from_start() {
    let l = list(MarkerKind::Decimal, 3, vec![item(vec![para("one")]), item(vec![para("two")])]);
    assert_eq!(md(vec![l]), "3. one\n4. two\n");
}

#[test]
fn decimal_list_numbers_saturate() {
    let l = list(MarkerKind::Decimal, u64::MAX, vec![item(vec![para("a")]), item(vec![para("b")])]);
    assert_eq!(md(vec![l]), "18446744073709551615. a\n18446744073709551615. b\n");
}

#[test]
fn roman_and_alpha_lists_render_labels_as_text() {
    let r = list(MarkerKind::LowerRoman, 4, vec![item(vec![para("one")]), item(vec![para("two")])]);
    let a = list(MarkerKind::UpperAlpha, 27, vec![item(vec![para("x")])]);
    assert_eq!(md(vec![r, a]), "- iv. one\n- v. two\n\n- AA. x\n");
}

#[test]
fn multi_block_item_makes_list_loose() {
    let l = list(
        MarkerKind::Bullet,
        1,
        vec![item(vec![para("a"), para("b")]), item(vec![para("c")])],
    );
    assert_eq!(md(vec![l]), "- a\n\n  b\n\n- c\n");
}

#[test]
fn nested_list_is_indented() {
    let inner = list(MarkerKind::Bullet, 1, vec![item(vec![para("b")])]);
    let outer = list(MarkerKind::Decimal, 1, vec![item(vec![para("a"), inner])]);
    assert_eq!(md(vec![outer]), "1. a\n\n   - b\n");
}

#[test]
fn task_items_carry_checkboxes() {
    let done = ListItem { blocks: vec![para("done")], marker_label: None, checked: Some(true) };
    let open_task = ListItem { blocks: vec![para("todo")], marker_label: None, checked: Some(false) };
    let l = list(MarkerKind::Bullet, 1, vec![done, open_task]);
    assert_eq!(md(vec![l]), "- [x] done\n- [ ] todo\n");
}

#[test]
fn item_labels_are_literal_and_escaped() {
    let a = ListItem {
        blocks: vec![para("x")],
        marker_label: Some("1.2".to_string()),
        checked: None,
    };
    let b = ListItem {
        blocks: vec![para("y")],
        marker_label: Some("a\nb*".to_string()),
        checked: None,
    };
    let l = list(MarkerKind::Decimal, 1, vec![a, b]);
    assert_eq!(md(vec![l]), "- 1\\.2 x\n- a b\\* y\n");
}

#[test]
fn item_labels_open_no_nested_block() {
    let lab = |t: &str, body: &str| ListItem {
        blocks: vec![para(body)],
        marker_label: Some(t.to_string()),
        checked: None,
    };
    let l = list(MarkerKind::Bullet, 1, vec![lab("3.", "x"), lab("-", "y"), lab("+", "z")]);
    assert_eq!(md(vec![l]), "- 3\\. x\n- \\- y\n- \\+ z\n");
}

#[test]
fn empty_list_renders_nothing() {
    let l = list(MarkerKind::Bullet, 1, vec![]);
    assert_eq!(md(vec![l]), "");
}

#[test]
fn data_table_renders_as_pipe_table() {
    let t = Block::Table(Table {
        kind: TableKind::Data,
        grid: vec![vec![cell("h1"), cell("h2")], vec![cell("a"), CellSlot::Covered]],
    });
    assert_eq!(md(vec![t]), "| h1 | h2 |\n| --- | --- |\n| a |  |\n");
}

#[test]
fn single_cell_layout_table_renders_its_content() {
    let t = Block::Table(Table { kind: TableKind::Layout, grid: vec![vec![cell("inside")]] });
    assert_eq!(md(vec![t]), "inside\n");
}

#[test]
fn table_without_rows_renders_nothing() {
    let t = Block::Table(Table { kind: TableKind::Data, grid: vec![] });
    assert_eq!(md(vec![t, para("after")]), "after\n");
}

#[test]
fn white_space_runs_do_not_veto_heading_strip() {
    let h = Block::Heading {
        level: 1,
        content: vec![styled("A", true, false), text(" "), styled("B", true, false)],
    };
    assert_eq!(md(vec![h]), "# A B\n");
}
