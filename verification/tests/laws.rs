use docmark::front_matter::yaml_quote;
use docmark::inline::{escape_marker_label, strip_uniform_heading_emphasis};
use docmark::markdown::document_to_markdown;
use docmark::model::{Block, Document, DocumentMeta, Inline, Note, NoteKind, Style};
use docmark::notes::number_notes;

fn styled(s: &str, bold: bool, italic: bool) -> Inline {
    Inline::Text { text: s.to_string(), style: Style { bold, italic } }
}

fn styles(v: &Vec<Inline>) -> Vec<(bool, bool)> {
    let mut out = Vec::new();
    for i in v {
        match i {
            Inline::Text { style, .. } => out.push((style.bold, style.italic)),
            Inline::Link { content, .. } => out.extend(styles(content)),
            _ => {}
        }
    }
    out
}

#[test]
fn stripping_heading_emphasis_twice_changes_nothing_more() {
    let content = vec![
        styled("A", true, true),
        styled(" ", false, false),
        Inline::Link { content: vec![styled("B", true, false)], url: "u".to_string() },
    ];
    let once = strip_uniform_heading_emphasis(&content);
    assert_eq!(styles(&once), vec![(false, true), (false, false), (false, false)]);
    let twice = strip_uniform_heading_emphasis(&once);
    assert_eq!(styles(&twice), styles(&once));
}

#[test]
fn heading_without_text_runs_keeps_its_styles() {
    let content = vec![styled("  ", true, true), Inline::LineBreak];
    let out = strip_uniform_heading_emphasis(&content);
    assert_eq!(styles(&out), vec![(true, true)]);
}

fn note(id: &str, blocks: Vec<Block>) -> Note {
    Note { id: id.to_string(), kind: NoteKind::Endnote, blocks }
}

fn refs(text: &str, id: &str) -> Block {
    Block::Paragraph(vec![styled(text, false, false), Inline::NoteRef(id.to_string())])
}

#[test]
fn every_valid_note_gets_one_number_even_along_a_long_chain() {
    let d = Document {
        meta: DocumentMeta::default(),
        blocks: vec![refs("x", "a")],
        notes: vec![
            note("a", vec![refs("A", "b")]),
            note("b", vec![refs("B", "c")]),
            note("c", vec![refs("C", "d")]),
            note("d", vec![refs("D", "e")]),
            note("e", vec![refs("E", "a")]),
            note("f", vec![refs("F", "f")]),
        ],
        assets: Vec::new(),
    };
    let order = number_notes(&d);
    assert_eq!(order, vec!["a", "b", "c", "d", "e", "f"]);
    assert_eq!(
        document_to_markdown(&d),
        "x[^1]\n\n[^1]: A[^2]\n\n[^2]: B[^3]\n\n[^3]: C[^4]\n\n[^4]: D[^5]\n\n[^5]: E[^1]\n\n[^6]: F[^6]\n"
    );
}

#[test]
fn rendered_documents_end_with_a_line_break() {
    let mut meta = DocumentMeta::default();
    meta.title = Some("T".to_string());
    let with_meta = Document { meta, blocks: vec![], notes: vec![], assets: vec![] };
    let out = document_to_markdown(&with_meta);
    assert!(out.ends_with('\n'));
    let plain = Document {
        meta: DocumentMeta::default(),
        blocks: vec![Block::Rule],
        notes: vec![],
        assets: vec![],
    };
    assert!(document_to_markdown(&plain).ends_with('\n'));
}

#[test]
fn quoted_values_stay_on_one_line() {
    let q = yaml_quote("a\r\nb\u{2028}c\u{85}d");
    assert_eq!(q, "\"a b c d\"");
    assert!(!q.contains('\n'));
}

#[test]
fn marker_labels_carry_no_control_characters() {
    let out = escape_marker_label("x\r\n\u{1b}[31my");
    assert!(!out.chars().any(|c| c.is_control()));
    assert_eq!(out, "x   \\[31my");
}

#[test]
fn paragraph_text_starts_without_white_space() {
    let d = Document {
        meta: DocumentMeta::default(),
        blocks: vec![Block::Paragraph(vec![
            styled(" \u{a0} ", false, false),
            Inline::LineBreak,
            styled("  body", false, false),
        ])],
        notes: vec![],
        assets: vec![],
    };
    assert_eq!(document_to_markdown(&d), "body\n");
}

#[test]
fn default_document_renders_nothing() {
    assert_eq!(document_to_markdown(&Document::default()), "");
}

#[test]
fn cloned_documents_render_alike() {
    let d = Document {
        meta: DocumentMeta::default(),
        blocks: vec![refs("x", "a"), Block::Rule],
        notes: vec![note("a", vec![refs("A", "a")])],
        assets: vec![],
    };
    let c = d.clone();
    assert_eq!(document_to_markdown(&c), document_to_markdown(&d));
    assert_eq!(document_to_markdown(&c), "x[^1]\n\n---\n\n[^1]: A[^1]\n");
}

fn unescape(s: &str) -> String {
    let mut out = String::new();
    let mut chars = s.chars().peekable();
    while let Some(c) = chars.next() {
        if c == '\\' {
            if let Some(&n) = chars.peek() {
                if n == '\\' || n == '"' {
                    out.push(n);
                    chars.next();
                    continue;
                }
            }
        }
        out.push(c);
    }
    out
}

#[test]
fn quoted_values_read_back_collapsed() {
    for v in ["  a \"b\"\\  c\\\\ ", "", "plain", "\\\"", "x\ty\nz"] {
        let q = yaml_quote(v);
        let inner = &q[1..q.len() - 1];
        assert_eq!(unescape(inner), v.split_whitespace().collect::<Vec<_>>().join(" "));
    }
}

#[test]
fn collecting_references_keeps_the_prior_order() {
    let notes = vec![note("a", vec![refs("A", "b")]), note("b", vec![refs("B", "c")])];
    let blocks = vec![refs("x", "a"), refs("y", "zz")];
    let mut order = vec!["q".to_string(), "b".to_string()];
    docmark::notes::collect_note_refs(&blocks, &notes, &mut order, 2);
    assert_eq!(order, vec!["q", "b", "a"]);
}

#[test]
fn marker_labels_open_no_block_at_line_start() {
    assert_eq!(escape_marker_label("-"), "\\-");
    assert_eq!(escape_marker_label("3."), "3\\.");
    assert_eq!(escape_marker_label("  +x"), "  \\+x");
    assert_eq!(escape_marker_label("12)a"), "12\\)a");
    assert_eq!(escape_marker_label("="), "\\=");
    assert_eq!(escape_marker_label("~~~"), "\\~~~");
    assert_eq!(escape_marker_label("\t- x"), " \\- x");
    assert_eq!(escape_marker_label("1.2.3"), "1\\.2.3");
    assert_eq!(escape_marker_label("12"), "12");
    assert_eq!(escape_marker_label("a-b"), "a-b");
    assert_eq!(escape_marker_label("# h"), "\\# h");
    assert_eq!(escape_marker_label("> q"), "\\> q");
}

#[test]
fn walk_bound_of_note_count_suffices_from_a_prior_order() {
    let notes = vec![
        note("a", vec![refs("A", "b")]),
        note("b", vec![refs("B", "c")]),
        note("c", vec![refs("C", "d")]),
        note("d", vec![refs("D", "a")]),
    ];
    let blocks = vec![refs("x", "a")];
    let start = vec!["q".to_string(), "d".to_string()];
    let mut at_count = start.clone();
    docmark::notes::collect_note_refs(&blocks, &notes, &mut at_count, notes.len());
    let mut generous = start.clone();
    docmark::notes::collect_note_refs(&blocks, &notes, &mut generous, 50);
    assert_eq!(at_count, vec!["q", "d", "a", "b", "c"]);
    assert_eq!(generous, at_count);
    let mut short = start.clone();
    docmark::notes::collect_note_refs(&blocks, &notes, &mut short, 0);
    assert_eq!(short, vec!["q", "d", "a"]);
}
