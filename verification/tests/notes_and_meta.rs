use docmark::front_matter::{render_front_matter, yaml_quote};
use docmark::inline::escape_marker_label;
use docmark::markdown::document_to_markdown;
use docmark::model::{Block, Document, DocumentMeta, Inline, MarkerKind, Note, NoteKind, Style};
use docmark::notes::{block_is_blank, inlines_are_empty, number_notes};

fn text(s: &str) -> Inline {
    Inline::Text { text: s.to_string(), style: Style { bold: false, italic: false } }
}

fn note_ref(id: &str) -> Inline {
    Inline::NoteRef(id.to_string())
}

fn para(inlines: Vec<Inline>) -> Block {
    Block::Paragraph(inlines)
}

fn note(id: &str, blocks: Vec<Block>) -> Note {
    Note { id: id.to_string(), kind: NoteKind::Footnote, blocks }
}

fn doc(blocks: Vec<Block>, notes: Vec<Note>) -> Document {
    Document { meta: DocumentMeta::default(), blocks, notes, assets: Vec::new() }
}

fn meta() -> DocumentMeta {
    DocumentMeta::default()
}

#[test]
fn referenced_note_gets_a_definition() {
    let d = doc(
        vec![para(vec![text("See"), note_ref("n1")])],
        vec![note("n1", vec![para(vec![text("Note one")])])],
    );
    assert_eq!(document_to_markdown(&d), "See[^1]\n\n[^1]: Note one\n");
}

#[test]
fn notes_are_numbered_in_first_reference_order() {
    let d = doc(
        vec![para(vec![text("x"), note_ref("b"), note_ref("a"), note_ref("b")])],
        vec![note("a", vec![para(vec![text("A")])]), note("b", vec![para(vec![text("B")])])],
    );
    assert_eq!(number_notes(&d), vec!["b".to_string(), "a".to_string()]);
    assert_eq!(document_to_markdown(&d), "x[^1][^2][^1]\n\n[^1]: B\n\n[^2]: A\n");
}

#[test]
fn unreferenced_notes_follow_at_the_end() {
    let d = doc(
        vec![para(vec![text("x"), note_ref("b")])],
        vec![note("a", vec![para(vec![text("A")])]), note("b", vec![para(vec![text("B")])])],
    );
    assert_eq!(number_notes(&d), vec!["b".to_string(), "a".to_string()]);
    assert_eq!(document_to_markdown(&d), "x[^1]\n\n[^1]: B\n\n[^2]: A\n");
}

#[test]
fn references_inside_notes_are_followed() {
    let d = doc(
        vec![para(vec![text("x"), note_ref("a"), note_ref("c")])],
        vec![
            note("a", vec![para(vec![text("A"), note_ref("b")])]),
            note("b", vec![para(vec![text("B")])]),
            note("c", vec![para(vec![text("C")])]),
        ],
    );
    assert_eq!(number_notes(&d), vec!["a".to_string(), "b".to_string(), "c".to_string()]);
    assert_eq!(
        document_to_markdown(&d),
        "x[^1][^3]\n\n[^1]: A[^2]\n\n[^2]: B\n\n[^3]: C\n"
    );
}

#[test]
fn self_referencing_note_is_numbered_once() {
    let d = doc(
        vec![para(vec![text("x"), note_ref("a")])],
        vec![note("a", vec![para(vec![text("A"), note_ref("a")])])],
    );
    assert_eq!(number_notes(&d), vec!["a".to_string()]);
    assert_eq!(document_to_markdown(&d), "x[^1]\n\n[^1]: A[^1]\n");
}

#[test]
fn duplicate_ids_collapse_to_one_definition() {
    let d = doc(
        vec![para(vec![text("x"), note_ref("a")])],
        vec![note("a", vec![para(vec![text("first")])]), note("a", vec![para(vec![text("second")])])],
    );
    assert_eq!(number_notes(&d), vec!["a".to_string()]);
    assert_eq!(document_to_markdown(&d), "x[^1]\n\n[^1]: first\n");
}

#[test]
fn blank_first_duplicate_leaves_the_definition_to_the_numbered_note() {
    let d = doc(
        vec![para(vec![text("x"), note_ref("a")])],
        vec![note("a", vec![para(vec![text("  ")])]), note("a", vec![para(vec![text("second")])])],
    );
    assert_eq!(number_notes(&d), vec!["a".to_string()]);
    assert_eq!(document_to_markdown(&d), "x[^1]\n\n[^1]: second\n");
}

#[test]
fn unreferenced_duplicate_after_empty_note_is_defined() {
    let d = doc(vec![], vec![note("a", vec![]), note("a", vec![Block::Rule])]);
    assert_eq!(document_to_markdown(&d), "[^1]: ---\n");
}

#[test]
fn blank_notes_are_not_numbered() {
    let d = doc(
        vec![para(vec![text("x"), note_ref("a")])],
        vec![note("a", vec![para(vec![text(" "), Inline::LineBreak])]), note("e", vec![])],
    );
    assert_eq!(number_notes(&d), Vec::<String>::new());
    assert_eq!(document_to_markdown(&d), "x\n");
}

#[test]
fn unknown_reference_renders_nothing() {
    let d = doc(vec![para(vec![text("x"), note_ref("zz")])], vec![]);
    assert_eq!(document_to_markdown(&d), "x\n");
}

#[test]
fn multi_line_note_bodies_are_indented() {
    let d = doc(
        vec![para(vec![text("x"), note_ref("a")])],
        vec![note("a", vec![para(vec![text("one")]), para(vec![text("two")])])],
    );
    assert_eq!(document_to_markdown(&d), "x[^1]\n\n[^1]: one\n\n    two\n");
}

#[test]
fn references_in_lists_and_quotes_are_found() {
    let l = Block::List(docmark::model::List {
        marker: MarkerKind::Bullet,
        start: 1,
        items: vec![docmark::model::ListItem {
            blocks: vec![para(vec![text("i"), note_ref("b")])],
            marker_label: None,
            checked: None,
        }],
    });
    let q = Block::BlockQuote(vec![para(vec![text("q"), note_ref("a")])]);
    let d = doc(
        vec![q, l],
        vec![note("b", vec![para(vec![text("B")])]), note("a", vec![para(vec![text("A")])])],
    );
    assert_eq!(number_notes(&d), vec!["a".to_string(), "b".to_string()]);
}

#[test]
fn empty_metadata_is_empty() {
    assert!(meta().is_empty());
    let mut m = meta();
    m.date = Some("2020".to_string());
    assert!(!m.is_empty());
    let mut m = meta();
    m.authors = vec!["A".to_string()];
    assert!(!m.is_empty());
}

#[test]
fn empty_metadata_renders_no_front_matter() {
    assert_eq!(render_front_matter(&meta()), None);
}

#[test]
fn front_matter_quotes_values() {
    let mut m = meta();
    m.title = Some("A: B".to_string());
    m.language = Some("en".to_string());
    assert_eq!(
        render_front_matter(&m),
        Some("---\ntitle: \"A: B\"\nlanguage: \"en\"\n---".to_string())
    );
}

#[test]
fn front_matter_lists_several_authors() {
    let mut m = meta();
    m.authors = vec!["Ann   Lee".to_string(), "Bob \"B\" \\".to_string()];
    m.description = Some("  - dash\nline ".to_string());
    assert_eq!(
        render_front_matter(&m),
        Some(
            "---\nauthor:\n  - \"Ann Lee\"\n  - \"Bob \\\"B\\\" \\\\\"\ndescription: \"- dash line\"\n---"
                .to_string()
        )
    );
}

#[test]
fn front_matter_single_author_and_all_fields() {
    let m = DocumentMeta {
        title: Some("T".to_string()),
        authors: vec!["Ann".to_string()],
        language: Some("fr".to_string()),
        date: Some("2001-02-03".to_string()),
        publisher: Some("P".to_string()),
        description: Some("D".to_string()),
    };
    assert_eq!(
        render_front_matter(&m),
        Some(
            "---\ntitle: \"T\"\nauthor: \"Ann\"\nlanguage: \"fr\"\ndate: \"2001-02-03\"\npublisher: \"P\"\ndescription: \"D\"\n---"
                .to_string()
        )
    );
}

#[test]
fn front_matter_precedes_body() {
    let mut d = doc(vec![para(vec![text("Hi")])], vec![]);
    d.meta.title = Some("T".to_string());
    assert_eq!(document_to_markdown(&d), "---\ntitle: \"T\"\n---\n\nHi\n");
}

#[test]
fn front_matter_alone_ends_with_line_break() {
    let mut d = doc(vec![], vec![]);
    d.meta.publisher = Some("P".to_string());
    assert_eq!(document_to_markdown(&d), "---\npublisher: \"P\"\n---\n");
}

#[test]
fn yaml_quote_collapses_and_escapes() {
    assert_eq!(yaml_quote("  a\n\tb  c "), "\"a b c\"");
    assert_eq!(yaml_quote("say \"hi\" \\ ok"), "\"say \\\"hi\\\" \\\\ ok\"");
    assert_eq!(yaml_quote(""), "\"\"");
    assert_eq!(yaml_quote("a\u{3000}b"), "\"a b\"");
}

#[test]
fn marker_label_escape() {
    assert_eq!(escape_marker_label("a\u{7}b\nc"), "a b c");
    assert_eq!(escape_marker_label("[x]_#"), "\\[x\\]\\_\\#");
    assert_eq!(escape_marker_label("iv."), "iv.");
}

#[test]
fn marker_kind_labels() {
    assert_eq!(MarkerKind::LowerRoman.label(1994), "mcmxciv.");
    assert_eq!(MarkerKind::UpperRoman.label(3999), "MMMCMXCIX.");
    assert_eq!(MarkerKind::UpperRoman.label(4000), "4000.");
    assert_eq!(MarkerKind::LowerRoman.label(0), "0.");
    assert_eq!(MarkerKind::UpperAlpha.label(28), "AB.");
    assert_eq!(MarkerKind::LowerAlpha.label(26), "z.");
    assert_eq!(MarkerKind::LowerAlpha.label(702), "zz.");
    assert_eq!(MarkerKind::LowerAlpha.label(0), "0.");
    assert_eq!(MarkerKind::Decimal.label(7), "7.");
    assert_eq!(MarkerKind::Bullet.label(7), "-");
}

#[test]
fn blankness_of_inline_content() {
    assert!(inlines_are_empty(&vec![]));
    assert!(inlines_are_empty(&vec![text(" \t"), Inline::LineBreak]));
    assert!(!inlines_are_empty(&vec![text(" a ")]));
    assert!(!inlines_are_empty(&vec![note_ref("a")]));
    assert!(block_is_blank(&para(vec![text(" ")])));
    assert!(!block_is_blank(&Block::Rule));
}
