//! Rendering block content as GitHub-Flavored Markdown.
use vstd::prelude::*;
use crate::inline::{
    escape_marker_label_chars, inline_text, inlines_text, marker_label_text, render_inlines,
    strip_heading_emphasis, strip_uniform_heading_emphasis,
};
use crate::marker::{marker_label, marker_label_chars};
use crate::notes::{block_blank, inline_is_empty, inlines_empty};
use crate::model::{
    Block, CellSlot, List, MarkerKind, SpecBlock, SpecInline, SpecItem, SpecList, SpecSlot, SpecTable, Table,
    TableKind, block_view, blocks_view, item_view, row_view, slot_view, strings_view,
};
use crate::text::{
    chars_of, decimal, decimal_chars, extend, extend_str, is_space, join, join_chars,
    lemma_seqs_push, lemma_split_newlines_len, lines, lines_chars, repeat, repeat_char, seqs,
    split_newlines, strip_cr, trailing_count,
    trailing_count_of, trim, trim_chars, trim_end, trim_end_char, trim_end_char_chars,
    trim_end_chars, trim_start, trim_start_chars,
};

verus! {

// ---------------------------------------------------------------------------
// Paragraph text

/// A line ends with a hard break: an odd number of trailing backslashes.
pub open spec fn has_hard_break(line: Seq<char>) -> bool {
    trailing_count(line, '\\') % 2 == 1
}

/// A paragraph line trimmed: leading white space goes, trailing white space
/// goes unless the line ends with a hard break, and a line of nothing but
/// white space and backslashes becomes empty.
pub open spec fn clean_line(line: Seq<char>) -> Seq<char> {
    let t = trim_start(line);
    let t = if has_hard_break(t) {
        t
    } else {
        trim_end(t)
    };
    if trim(trim_end_char(t, '\\')).len() == 0 {
        Seq::empty()
    } else {
        t
    }
}

/// The index of the first non-empty line.
pub open spec fn first_nonempty(ls: Seq<Seq<char>>) -> Option<nat>
    decreases ls.len(),
{
    if ls.len() == 0 {
        None
    } else if ls[0].len() > 0 {
        Some(0)
    } else {
        match first_nonempty(ls.drop_first()) {
            Some(k) => Some(k + 1),
            None => None,
        }
    }
}

/// The index of the last non-empty line.
pub open spec fn last_nonempty(ls: Seq<Seq<char>>) -> Option<nat>
    decreases ls.len(),
{
    if ls.len() == 0 {
        None
    } else if ls.last().len() > 0 {
        Some((ls.len() - 1) as nat)
    } else {
        last_nonempty(ls.drop_last())
    }
}

/// Paragraph text with its lines trimmed, hard-break backslashes kept, the
/// empty lines at both ends dropped, and no hard break at its very end.
pub open spec fn paragraph_text(text: Seq<char>) -> Seq<char> {
    let ls = lines(text).map_values(|l: Seq<char>| clean_line(l));
    match (first_nonempty(ls), last_nonempty(ls)) {
        (Some(s), Some(e)) => {
            let out = join(ls.subrange(s as int, e as int + 1), "\n"@);
            if has_hard_break(out) {
                trim_end(out.drop_last())
            } else {
                out
            }
        },
        _ => Seq::empty(),
    }
}

// ---------------------------------------------------------------------------
// Code fences

/// The longest run of consecutive `c` in `s`.
pub open spec fn longest_run(s: Seq<char>, c: char) -> nat
    decreases s.len(),
{
    if s.len() == 0 {
        0
    } else {
        let r = longest_run(s.drop_last(), c);
        let t = trailing_count(s, c);
        if t > r {
            t
        } else {
            r
        }
    }
}

/// A backtick fence longer than any backtick run in `text`, and at least
/// `min` long.
pub open spec fn fence_for(text: Seq<char>, min: nat) -> Seq<char> {
    let n = longest_run(text, '`') + 1;
    repeat('`', if n > min { n } else { min })
}

// ---------------------------------------------------------------------------
// Blocks

/// A heading level clamped to the six levels Markdown has.
pub open spec fn clamp_level(level: u8) -> nat {
    if level < 1 {
        1
    } else if level > 6 {
        6
    } else {
        level as nat
    }
}

/// A quoted line: `>` alone for an empty line, `> ` before any other.
pub open spec fn quote_line(line: Seq<char>) -> Seq<char> {
    if line.len() == 0 {
        ">"@
    } else {
        "> "@ + line
    }
}

/// A trivial layout table: one row of one slot, where a cell starts.
pub open spec fn is_single_cell(t: SpecTable) -> bool {
    &&& t.grid.len() == 1
    &&& t.grid[0].len() == 1
    &&& t.grid[0][0] is Origin
}

/// The Markdown of one block, or none for a block that renders as nothing.
pub open spec fn block_text(b: SpecBlock, order: Seq<Seq<char>>) -> Option<Seq<char>>
    decreases b, 0int,
{
    match b {
        SpecBlock::Heading { level, content } => {
            let text = trim(inlines_text(strip_heading_emphasis(content), order));
            if text.len() == 0 {
                None
            } else {
                Some(repeat('#', clamp_level(level)) + " "@ + text)
            }
        },
        SpecBlock::Paragraph(content) => {
            let text = paragraph_text(inlines_text(content, order));
            if text.len() == 0 {
                None
            } else {
                Some(text)
            }
        },
        SpecBlock::List(list) => list_text(list, order),
        SpecBlock::Table(t) => if t.kind == TableKind::Layout && is_single_cell(t) {
            let inner = blocks_text(t.grid[0][0]->Origin_0, order);
            if inner.len() == 0 {
                None
            } else {
                Some(inner)
            }
        } else {
            table_text(t, order)
        },
        SpecBlock::BlockQuote(blocks) => {
            let inner = blocks_text(blocks, order);
            if inner.len() == 0 {
                None
            } else {
                Some(join(lines(inner).map_values(|l: Seq<char>| quote_line(l)), "\n"@))
            }
        },
        SpecBlock::CodeBlock { lang, text } => {
            let fence = fence_for(text, 3);
            let lang = match lang {
                Some(l) => l,
                None => Seq::empty(),
            };
            Some(fence + lang + "\n"@ + trim_end_char(text, '\n') + "\n"@ + fence)
        },
        SpecBlock::Rule => Some("---"@),
    }
}

/// The texts of the blocks that render as something, in order.
pub open spec fn rendered_parts(s: Seq<SpecBlock>, order: Seq<Seq<char>>) -> Seq<Seq<char>>
    decreases s, 0int,
{
    if s.len() == 0 {
        Seq::empty()
    } else {
        let p = rendered_parts(s.drop_last(), order);
        match block_text(s.last(), order) {
            Some(t) => p.push(t),
            None => p,
        }
    }
}

/// Blocks rendered and separated by blank lines; blocks that render as
/// nothing leave no trace.
pub open spec fn blocks_text(s: Seq<SpecBlock>, order: Seq<Seq<char>>) -> Seq<char>
    decreases s, 1int,
{
    join(rendered_parts(s, order), "\n\n"@)
}

// ---------------------------------------------------------------------------
// Lists

/// `start + i`, saturating at `u64::MAX`.
pub open spec fn item_number(start: u64, i: nat) -> nat {
    if start + i > u64::MAX {
        u64::MAX as nat
    } else {
        (start + i) as nat
    }
}

/// The marker of item `i`. GFM has decimal ordered lists only, so other
/// numbering renders as a bullet followed by the label as literal text, as
/// does an item with a label of its own.
pub open spec fn item_marker(l: SpecList, i: int) -> Seq<char> {
    match l.items[i].marker_label {
        Some(label) => "- "@ + marker_label_text(label) + " "@,
        None => match l.marker {
            MarkerKind::Bullet => "- "@,
            MarkerKind::Decimal => decimal(item_number(l.start, i as nat)) + ". "@,
            kind => "- "@ + marker_label(kind, item_number(l.start, i as nat)) + " "@,
        },
    }
}

/// The task-list checkbox of an item.
pub open spec fn checkbox(checked: Option<bool>) -> Seq<char> {
    match checked {
        Some(true) => "[x] "@,
        Some(false) => "[ ] "@,
        None => Seq::empty(),
    }
}

/// Continuation lines of an item, each on a new line and indented; an empty
/// line stays empty.
pub open spec fn continuation(rest: Seq<Seq<char>>, indent: Seq<char>) -> Seq<char>
    decreases rest.len(),
{
    if rest.len() == 0 {
        Seq::empty()
    } else {
        continuation(rest.drop_last(), indent) + "\n"@ + if rest.last().len() == 0 {
            Seq::empty()
        } else {
            indent + rest.last()
        }
    }
}

/// The first line of a rendering, or nothing.
pub open spec fn first_line(ls: Seq<Seq<char>>) -> Seq<char> {
    if ls.len() > 0 {
        ls[0]
    } else {
        Seq::empty()
    }
}

/// The lines after the first.
pub open spec fn later_lines(ls: Seq<Seq<char>>) -> Seq<Seq<char>> {
    if ls.len() > 0 {
        ls.drop_first()
    } else {
        Seq::empty()
    }
}

/// One list item: marker, checkbox, and the item's content, its later lines
/// indented by the marker's width.
pub open spec fn item_text(item: SpecItem, marker: Seq<char>, order: Seq<Seq<char>>) -> Seq<char>
    decreases item, 0int,
{
    let ls = lines(blocks_text(item.blocks, order));
    marker + checkbox(item.checked) + first_line(ls) + continuation(
        later_lines(ls),
        repeat(' ', marker.len()),
    )
}

/// Some line after the first is empty.
pub open spec fn has_empty_later(ls: Seq<Seq<char>>) -> bool {
    exists|k: int| 1 <= k < ls.len() && ls[k].len() == 0
}

/// An item makes its list loose: it has more than one block, or its
/// content has an empty line after the first.
pub open spec fn item_loose(item: SpecItem, order: Seq<Seq<char>>) -> bool
    decreases item, 0int,
{
    let ls = lines(blocks_text(item.blocks, order));
    item.blocks.len() > 1 || has_empty_later(ls)
}

/// The rendered items of a list, in order.
pub open spec fn item_texts(l: SpecList, order: Seq<Seq<char>>) -> Seq<Seq<char>>
    decreases l, 0int,
{
    Seq::new(
        l.items.len(),
        |i: int|
            if 0 <= i < l.items.len() {
                item_text(l.items[i], item_marker(l, i), order)
            } else {
                Seq::empty()
            },
    )
}

/// Some item of the list is loose.
pub open spec fn list_loose(l: SpecList, order: Seq<Seq<char>>) -> bool
    decreases l, 0int,
{
    exists|i: int| 0 <= i < l.items.len() && item_loose(l.items[i], order)
}

/// A list: none when it has no items; else its items, separated by a blank
/// line when any item is loose and by a line break otherwise.
pub open spec fn list_text(l: SpecList, order: Seq<Seq<char>>) -> Option<Seq<char>>
    decreases l, 1int,
{
    if l.items.len() == 0 {
        None
    } else {
        Some(join(item_texts(l, order), if list_loose(l, order) { "\n\n"@ } else { "\n"@ }))
    }
}

// ---------------------------------------------------------------------------
// Tables

/// A cell's content on one line.
pub open spec fn one_line(c: char) -> char {
    if c == '\n' {
        ' '
    } else {
        c
    }
}

pub open spec fn cell_text(slot: SpecSlot, order: Seq<Seq<char>>) -> Seq<char>
    decreases slot, 0int,
{
    match slot {
        SpecSlot::Origin(blocks) => blocks_text(blocks, order).map_values(|c: char| one_line(c)),
        SpecSlot::Covered => Seq::empty(),
    }
}

/// The texts of the cells of a row.
pub open spec fn row_cells(row: Seq<SpecSlot>, order: Seq<Seq<char>>) -> Seq<Seq<char>>
    decreases row, 0int,
{
    Seq::new(
        row.len(),
        |j: int|
            if 0 <= j < row.len() {
                cell_text(row[j], order)
            } else {
                Seq::empty()
            },
    )
}

/// A table row: its cells between pipes.
pub open spec fn row_text(row: Seq<SpecSlot>, order: Seq<Seq<char>>) -> Seq<char>
    decreases row, 1int,
{
    "| "@ + join(row_cells(row, order), " | "@) + " |"@
}

/// `n` header separator cells.
pub open spec fn dashes(n: nat) -> Seq<Seq<char>> {
    Seq::new(n, |j: int| "---"@)
}

/// The header separator of a table of `n` columns.
pub open spec fn separator_row(n: nat) -> Seq<char> {
    "| "@ + join(dashes(n), " | "@) + " |"@
}

/// The rendered rows of a table, in order.
pub open spec fn table_rows(t: SpecTable, order: Seq<Seq<char>>) -> Seq<Seq<char>>
    decreases t, 0int,
{
    Seq::new(
        t.grid.len(),
        |r: int|
            if 0 <= r < t.grid.len() {
                row_text(t.grid[r], order)
            } else {
                Seq::empty()
            },
    )
}

/// A pipe table whose first row is the header; none for a table without
/// a first row or with an empty one.
pub open spec fn table_text(t: SpecTable, order: Seq<Seq<char>>) -> Option<Seq<char>>
    decreases t, 1int,
{
    if t.grid.len() == 0 || t.grid[0].len() == 0 {
        None
    } else {
        let rows = table_rows(t, order);
        Some(join(seq![rows[0], separator_row(t.grid[0].len())] + rows.skip(1), "\n"@))
    }
}

// ---------------------------------------------------------------------------
// Executable paragraph text and fences

pub fn ends_with_hard_break(line: &Vec<char>) -> (b: bool)
    ensures
        b == has_hard_break(line@),
{
    trailing_count_of(line, '\\') % 2 == 1
}

fn clean_line_chars(line: &Vec<char>) -> (out: Vec<char>)
    ensures
        out@ == clean_line(line@),
{
    let t = trim_start_chars(line);
    let t = if ends_with_hard_break(&t) {
        t
    } else {
        trim_end_chars(&t)
    };
    let u = trim_end_char_chars(&t, '\\');
    let v = trim_chars(&u);
    if v.len() == 0 {
        Vec::new()
    } else {
        t
    }
}

pub proof fn lemma_first_nonempty(ls: Seq<Seq<char>>)
    ensures
        first_nonempty(ls) matches Some(k) ==> k < ls.len() && ls[k as int].len() > 0 && forall|
            j: int,
        | 0 <= j < k ==> ls[j].len() == 0,
        first_nonempty(ls) is None ==> forall|j: int| 0 <= j < ls.len() ==> ls[j].len() == 0,
    decreases ls.len(),
{
    if ls.len() > 0 {
        lemma_first_nonempty(ls.drop_first());
        if ls[0].len() == 0 {
            assert forall|j: int| 1 <= j < ls.len() implies ls[j] == ls.drop_first()[j - 1] by {}
        }
    }
}

pub proof fn lemma_last_nonempty(ls: Seq<Seq<char>>)
    ensures
        last_nonempty(ls) matches Some(k) ==> k < ls.len() && ls[k as int].len() > 0 && forall|
            j: int,
        | k < j < ls.len() ==> ls[j].len() == 0,
        last_nonempty(ls) is None ==> forall|j: int| 0 <= j < ls.len() ==> ls[j].len() == 0,
    decreases ls.len(),
{
    if ls.len() > 0 {
        lemma_last_nonempty(ls.drop_last());
        assert forall|j: int| 0 <= j < ls.len() - 1 implies ls[j] == ls.drop_last()[j] by {}
    }
}

/// Trim paragraph lines, keeping hard-break backslashes intact.
pub fn trim_paragraph(text: &Vec<char>) -> (out: Vec<char>)
    ensures
        out@ == paragraph_text(text@),
{
    let raw = lines_chars(text);
    let ghost ls = lines(text@).map_values(|l: Seq<char>| clean_line(l));
    let mut cleaned: Vec<Vec<char>> = Vec::new();
    let mut i: usize = 0;
    while i < raw.len()
        invariant
            i <= raw.len(),
            seqs(raw@) == lines(text@),
            ls == lines(text@).map_values(|l: Seq<char>| clean_line(l)),
            seqs(cleaned@) =~= ls.take(i as int),
        decreases raw.len() - i,
    {
        let c = clean_line_chars(&raw[i]);
        assert(raw@[i as int]@ == seqs(raw@)[i as int]);
        proof {
            lemma_seqs_push(cleaned@, c);
        }
        cleaned.push(c);
        assert(ls.take(i + 1) =~= ls.take(i as int).push(ls[i as int]));
        i = i + 1;
    }
    assert(seqs(cleaned@) =~= ls);
    proof {
        lemma_first_nonempty(ls);
        lemma_last_nonempty(ls);
    }
    let n = cleaned.len();
    let mut s: usize = 0;
    while s < n && cleaned[s].len() == 0
        invariant
            n == cleaned.len(),
            seqs(cleaned@) == ls,
            s <= n,
            forall|j: int| 0 <= j < s ==> ls[j].len() == 0,
        decreases n - s,
    {
        s = s + 1;
    }
    if s == n {
        return Vec::new();
    }
    assert(ls[s as int] == cleaned@[s as int]@);
    assert(first_nonempty(ls) == Some(s as nat)) by {
        match first_nonempty(ls) {
            Some(k) => {
                if k > s {
                    assert(ls[s as int].len() == 0);
                }
            },
            None => {},
        }
    }
    let mut e: usize = n - 1;
    while cleaned[e].len() == 0
        invariant
            n == cleaned.len(),
            seqs(cleaned@) == ls,
            s <= e < n,
            ls[s as int].len() > 0,
            forall|j: int| e < j < n ==> ls[j].len() == 0,
        decreases e,
    {
        e = e - 1;
    }
    assert(ls[e as int] == cleaned@[e as int]@);
    assert(last_nonempty(ls) == Some(e as nat)) by {
        match last_nonempty(ls) {
            Some(k) => {
                if k < e {
                    assert(ls[e as int].len() == 0);
                }
            },
            None => {},
        }
    }
    let mut kept: Vec<Vec<char>> = Vec::new();
    let mut k = s;
    while k <= e
        invariant
            n == cleaned.len(),
            seqs(cleaned@) == ls,
            s <= k <= e + 1,
            e < n,
            seqs(kept@) =~= ls.subrange(s as int, k as int),
        decreases e + 1 - k,
    {
        let line = cleaned[k].clone();
        assert(line@ == ls[k as int]);
        proof {
            lemma_seqs_push(kept@, line);
        }
        kept.push(line);
        assert(ls.subrange(s as int, k + 1) =~= ls.subrange(s as int, k as int).push(ls[k as int]));
        k = k + 1;
    }
    let mut sep: Vec<char> = Vec::new();
    sep.push('\n');
    assert(sep@ =~= "\n"@) by {
        reveal_strlit("\n");
    }
    let mut out = join_chars(&kept, &sep);
    if ends_with_hard_break(&out) {
        let ghost before = out@;
        out.pop();
        assert(out@ =~= before.drop_last());
        trim_end_chars(&out)
    } else {
        out
    }
}

pub fn backtick_fence(text: &Vec<char>, min: usize) -> (out: Vec<char>)
    ensures
        out@ == fence_for(text@, min as nat),
{
    let mut run: usize = 0;
    let mut fence = repeat_char('`', if min > 1 { min } else { 1 });
    assert(fence@ =~= fence_for(text@.take(0), min as nat));
    let mut i: usize = 0;
    while i < text.len()
        invariant
            i <= text.len(),
            run == trailing_count(text@.take(i as int), '`'),
            run <= i,
            fence@ == fence_for(text@.take(i as int), min as nat),
            fence.len() >= run + 1,
        decreases text.len() - i,
    {
        assert(text@.take(i + 1).drop_last() =~= text@.take(i as int));
        if text[i] == '`' {
            run = run + 1;
        } else {
            run = 0;
        }
        if run >= fence.len() {
            fence.push('`');
        }
        assert(fence@ =~= fence_for(text@.take(i + 1), min as nat));
        i = i + 1;
    }
    assert(text@.take(text.len() as int) =~= text@);
    fence
}

// ---------------------------------------------------------------------------
// Executable block rendering

/// A rendering that may be nothing, seen as a sequence.
pub open spec fn opt_chars(o: Option<Vec<char>>) -> Option<Seq<char>> {
    match o {
        Some(v) => Some(v@),
        None => None,
    }
}

fn quote_lines(inner: &Vec<char>) -> (out: Vec<char>)
    ensures
        out@ == join(lines(inner@).map_values(|l: Seq<char>| quote_line(l)), "\n"@),
{
    let ls = lines_chars(inner);
    let ghost q = lines(inner@).map_values(|l: Seq<char>| quote_line(l));
    let mut quoted: Vec<Vec<char>> = Vec::new();
    let mut i: usize = 0;
    while i < ls.len()
        invariant
            i <= ls.len(),
            seqs(ls@) == lines(inner@),
            q == lines(inner@).map_values(|l: Seq<char>| quote_line(l)),
            seqs(quoted@) =~= q.take(i as int),
        decreases ls.len() - i,
    {
        let mut line: Vec<char> = Vec::new();
        if ls[i].len() == 0 {
            extend_str(&mut line, ">");
        } else {
            extend_str(&mut line, "> ");
            extend(&mut line, &ls[i]);
        }
        assert(ls@[i as int]@ == seqs(ls@)[i as int]);
        proof {
            lemma_seqs_push(quoted@, line);
        }
        quoted.push(line);
        assert(q.take(i + 1) =~= q.take(i as int).push(q[i as int]));
        i = i + 1;
    }
    assert(q.take(ls.len() as int) =~= q);
    let sep = chars_of("\n");
    join_chars(&quoted, &sep)
}

fn checkbox_chars(checked: Option<bool>) -> (out: Vec<char>)
    ensures
        out@ == checkbox(checked),
{
    let mut out: Vec<char> = Vec::new();
    match checked {
        Some(true) => extend_str(&mut out, "[x] "),
        Some(false) => extend_str(&mut out, "[ ] "),
        None => {},
    }
    out
}

fn item_marker_chars(list: &List, i: usize) -> (out: Vec<char>)
    requires
        i < list.items.len(),
    ensures
        out@ == item_marker(list@, i as int),
{
    let mut out: Vec<char> = Vec::new();
    assert(list@.items[i as int] == item_view(list.items@[i as int]));
    match &list.items[i].marker_label {
        Some(label) => {
            extend_str(&mut out, "- ");
            let l = escape_marker_label_chars(label.as_str());
            extend(&mut out, &l);
            extend_str(&mut out, " ");
        },
        None => {
            let n = list.start.saturating_add(i as u64);
            match list.marker {
                MarkerKind::Bullet => {
                    extend_str(&mut out, "- ");
                },
                MarkerKind::Decimal => {
                    let d = decimal_chars(n);
                    extend(&mut out, &d);
                    extend_str(&mut out, ". ");
                },
                kind => {
                    extend_str(&mut out, "- ");
                    let l = marker_label_chars(kind, n);
                    extend(&mut out, &l);
                    extend_str(&mut out, " ");
                },
            }
        },
    }
    out
}

pub fn render_list(list: &List, nums: &Vec<String>) -> (out: Option<Vec<char>>)
    ensures
        opt_chars(out) == list_text(list@, strings_view(nums@)),
    decreases list,
{
    let ghost l = list@;
    let ghost order = strings_view(nums@);
    let ghost texts = item_texts(l, order);
    let n = list.items.len();
    if n == 0 {
        return None;
    }
    let mut rendered: Vec<Vec<char>> = Vec::new();
    let mut loose = false;
    let mut i: usize = 0;
    while i < n
        invariant
            n == list.items.len(),
            l == list@,
            order == strings_view(nums@),
            texts == item_texts(l, order),
            i <= n,
            seqs(rendered@) =~= texts.take(i as int),
            loose == exists|j: int| 0 <= j < i && item_loose(l.items[j], order),
        decreases n - i,
    {
        let item = &list.items[i];
        let ghost it = l.items[i as int];
        assert(it == item_view(*item));
        let marker = item_marker_chars(list, i);
        let cb = checkbox_chars(item.checked);
        assert(decreases_to!(list => list.items));
        assert(decreases_to!(list.items => list.items@[i as int]));
        let body = render_blocks(&item.blocks, nums);
        let ls = lines_chars(&body);
        let ghost lsv = lines(blocks_text(it.blocks, order));
        let indent = repeat_char(' ', marker.len());
        let mut text = marker.clone();
        extend(&mut text, &cb);
        let mut empty_seen = false;
        if ls.len() > 0 {
            assert(ls@[0]@ == seqs(ls@)[0]);
            extend(&mut text, &ls[0]);
            let ghost head = text@;
            assert(lsv.subrange(1, 1) =~= Seq::<Seq<char>>::empty());
            assert(text@ =~= head + continuation(lsv.subrange(1, 1), indent@));
            let mut k: usize = 1;
            while k < ls.len()
                invariant
                    1 <= k <= ls.len(),
                    seqs(ls@) == lsv,
                    text@ == head + continuation(lsv.subrange(1, k as int), indent@),
                    empty_seen == exists|j: int| 1 <= j < k && lsv[j].len() == 0,
                decreases ls.len() - k,
            {
                assert(ls@[k as int]@ == seqs(ls@)[k as int]);
                assert(lsv.subrange(1, k + 1).drop_last() =~= lsv.subrange(1, k as int));
                assert(lsv.subrange(1, k + 1).last() == lsv[k as int]);
                extend_str(&mut text, "\n");
                if ls[k].len() == 0 {
                    empty_seen = true;
                } else {
                    extend(&mut text, &indent);
                    extend(&mut text, &ls[k]);
                }
                assert(text@ =~= head + continuation(lsv.subrange(1, k + 1), indent@));
                k = k + 1;
            }
            assert(empty_seen == exists|j: int| 1 <= j < lsv.len() && lsv[j].len() == 0);
            assert(lsv.subrange(1, lsv.len() as int) =~= later_lines(lsv));
            assert(text@ == marker@ + cb@ + first_line(lsv) + continuation(later_lines(lsv), indent@));
        } else {
            assert(later_lines(lsv) =~= Seq::<Seq<char>>::empty());
            assert(text@ =~= marker@ + cb@ + first_line(lsv) + continuation(later_lines(lsv), indent@));
        }
        assert(text@ == item_text(it, item_marker(l, i as int), order));
        assert(it.blocks.len() == item.blocks.len());
        assert(lsv.len() == 0 ==> !empty_seen);
        assert(empty_seen == has_empty_later(lsv));
        assert(item_loose(it, order) == (item.blocks.len() > 1 || empty_seen));
        let ghost was_loose = loose;
        loose = loose || item.blocks.len() > 1 || empty_seen;
        assert(loose == exists|j: int| 0 <= j < i + 1 && item_loose(l.items[j], order)) by {
            if loose {
                if was_loose {
                    let j = choose|j: int| 0 <= j < i && item_loose(l.items[j], order);
                    assert(0 <= j < i + 1 && item_loose(l.items[j], order));
                } else {
                    assert(0 <= i < i + 1 && item_loose(l.items[i as int], order));
                }
            } else {
                assert forall|j: int| 0 <= j < i + 1 implies !item_loose(l.items[j], order) by {
                    if j < i {
                    }
                }
            }
        }
        proof {
            lemma_seqs_push(rendered@, text);
        }
        rendered.push(text);
        assert(texts.take(i + 1) =~= texts.take(i as int).push(texts[i as int]));
        i = i + 1;
    }
    assert(texts.take(n as int) =~= texts);
    let sep = if loose {
        chars_of("\n\n")
    } else {
        chars_of("\n")
    };
    Some(join_chars(&rendered, &sep))
}

fn cell_text_chars(slot: &CellSlot, nums: &Vec<String>) -> (out: Vec<char>)
    ensures
        out@ == cell_text(slot@, strings_view(nums@)),
    decreases slot,
{
    match slot {
        CellSlot::Origin(cell) => {
            let r = render_blocks(&cell.blocks, nums);
            let mut out: Vec<char> = Vec::new();
            let mut i: usize = 0;
            while i < r.len()
                invariant
                    i <= r.len(),
                    out@ == r@.take(i as int).map_values(|c: char| one_line(c)),
                decreases r.len() - i,
            {
                if r[i] == '\n' {
                    out.push(' ');
                } else {
                    out.push(r[i]);
                }
                assert(out@ =~= r@.take(i + 1).map_values(|c: char| one_line(c)));
                i = i + 1;
            }
            assert(r@.take(r.len() as int) =~= r@);
            out
        },
        CellSlot::Covered => Vec::new(),
    }
}

fn row_text_chars(row: &Vec<CellSlot>, nums: &Vec<String>) -> (out: Vec<char>)
    ensures
        out@ == row_text(row_view(row@), strings_view(nums@)),
    decreases row,
{
    let ghost rv = row_view(row@);
    let ghost order = strings_view(nums@);
    let ghost cells = row_cells(rv, order);
    let mut parts: Vec<Vec<char>> = Vec::new();
    let mut j: usize = 0;
    while j < row.len()
        invariant
            j <= row.len(),
            rv == row_view(row@),
            order == strings_view(nums@),
            cells == row_cells(rv, order),
            seqs(parts@) =~= cells.take(j as int),
        decreases row.len() - j,
    {
        assert(decreases_to!(row => row@[j as int]));
        let c = cell_text_chars(&row[j], nums);
        assert(rv[j as int] == slot_view(row@[j as int]));
        proof {
            lemma_seqs_push(parts@, c);
        }
        parts.push(c);
        assert(cells.take(j + 1) =~= cells.take(j as int).push(cells[j as int]));
        j = j + 1;
    }
    assert(cells.take(row.len() as int) =~= cells);
    let mut out: Vec<char> = Vec::new();
    extend_str(&mut out, "| ");
    let sep = chars_of(" | ");
    let inner = join_chars(&parts, &sep);
    extend(&mut out, &inner);
    extend_str(&mut out, " |");
    out
}

fn separator_row_chars(n: usize) -> (out: Vec<char>)
    ensures
        out@ == separator_row(n as nat),
{
    let dash = chars_of("---");
    let mut parts: Vec<Vec<char>> = Vec::new();
    let mut j: usize = 0;
    while j < n
        invariant
            j <= n,
            dash@ == "---"@,
            seqs(parts@) =~= dashes(j as nat),
        decreases n - j,
    {
        let d = dash.clone();
        proof {
            lemma_seqs_push(parts@, d);
        }
        parts.push(d);
        assert(dashes((j + 1) as nat) =~= dashes(j as nat).push("---"@));
        j = j + 1;
    }
    let mut out: Vec<char> = Vec::new();
    extend_str(&mut out, "| ");
    let sep = chars_of(" | ");
    let inner = join_chars(&parts, &sep);
    extend(&mut out, &inner);
    extend_str(&mut out, " |");
    out
}

pub fn render_table(t: &Table, nums: &Vec<String>) -> (out: Option<Vec<char>>)
    ensures
        opt_chars(out) == table_text(t@, strings_view(nums@)),
    decreases t,
{
    let ghost tv = t@;
    let ghost order = strings_view(nums@);
    let ghost rows = table_rows(tv, order);
    if t.grid.len() == 0 || t.grid[0].len() == 0 {
        return None;
    }
    let ghost sepv = separator_row(tv.grid[0].len());
    let mut all: Vec<Vec<char>> = Vec::new();
    let mut r: usize = 0;
    while r < t.grid.len()
        invariant
            r <= t.grid.len(),
            t.grid.len() > 0,
            tv == t@,
            order == strings_view(nums@),
            rows == table_rows(tv, order),
            sepv == separator_row(tv.grid[0].len()),
            r == 0 ==> all@.len() == 0,
            r > 0 ==> seqs(all@) =~= seq![rows[0], sepv] + rows.subrange(1, r as int),
        decreases t.grid.len() - r,
    {
        assert(decreases_to!(t => t.grid));
        assert(decreases_to!(t.grid => t.grid@[r as int]));
        let line = row_text_chars(&t.grid[r], nums);
        assert(tv.grid[r as int] == row_view(t.grid@[r as int]@));
        assert(line@ == rows[r as int]);
        let ghost before = all@;
        proof {
            lemma_seqs_push(all@, line);
        }
        all.push(line);
        if r == 0 {
            assert(tv.grid[0].len() == t.grid@[0].len());
            let sepr = separator_row_chars(t.grid[0].len());
            let ghost mid = all@;
            proof {
                lemma_seqs_push(all@, sepr);
            }
            all.push(sepr);
            assert(seqs(all@) =~= seq![rows[0], sepv] + rows.subrange(1, 1));
        } else {
            assert(rows.subrange(1, r + 1) =~= rows.subrange(1, r as int).push(rows[r as int]));
            assert(seqs(all@) =~= seq![rows[0], sepv] + rows.subrange(1, r + 1));
        }
        r = r + 1;
    }
    assert(rows.subrange(1, rows.len() as int) =~= rows.skip(1));
    let sep = chars_of("\n");
    Some(join_chars(&all, &sep))
}

fn is_single_cell_exec(t: &Table) -> (b: bool)
    ensures
        b == is_single_cell(t@),
{
    t.grid.len() == 1 && t.grid[0].len() == 1 && match &t.grid[0][0] {
        CellSlot::Origin(_) => true,
        CellSlot::Covered => false,
    }
}

pub fn render_block(b: &Block, nums: &Vec<String>) -> (out: Option<Vec<char>>)
    ensures
        opt_chars(out) == block_text(b@, strings_view(nums@)),
    decreases b,
{
    match b {
        Block::Heading { level, content } => {
            let stripped = strip_uniform_heading_emphasis(content);
            let r = render_inlines(&stripped, nums);
            let text = trim_chars(&r);
            if text.len() == 0 {
                None
            } else {
                let lvl: usize = if *level < 1 {
                    1
                } else if *level > 6 {
                    6
                } else {
                    *level as usize
                };
                let mut out = repeat_char('#', lvl);
                extend_str(&mut out, " ");
                extend(&mut out, &text);
                Some(out)
            }
        },
        Block::Paragraph(content) => {
            let r = render_inlines(content, nums);
            let text = trim_paragraph(&r);
            if text.len() == 0 {
                None
            } else {
                Some(text)
            }
        },
        Block::List(list) => render_list(list, nums),
        Block::Table(t) => {
            if matches!(t.kind, TableKind::Layout) && is_single_cell_exec(t) {
                match &t.grid[0][0] {
                    CellSlot::Origin(cell) => {
                        assert(decreases_to!(t => t.grid));
                        assert(decreases_to!(t.grid => t.grid@[0]));
                        assert(decreases_to!(t.grid@[0] => t.grid@[0]@[0]));
                        let inner = render_blocks(&cell.blocks, nums);
                        if inner.len() == 0 {
                            None
                        } else {
                            Some(inner)
                        }
                    },
                    CellSlot::Covered => None,
                }
            } else {
                render_table(t, nums)
            }
        },
        Block::BlockQuote(blocks) => {
            let inner = render_blocks(blocks, nums);
            if inner.len() == 0 {
                None
            } else {
                Some(quote_lines(&inner))
            }
        },
        Block::CodeBlock { lang, text } => {
            let t = chars_of(text.as_str());
            let fence = backtick_fence(&t, 3);
            let mut out = fence.clone();
            match lang {
                Some(l) => extend_str(&mut out, l.as_str()),
                None => {},
            }
            extend_str(&mut out, "\n");
            let body = trim_end_char_chars(&t, '\n');
            extend(&mut out, &body);
            extend_str(&mut out, "\n");
            extend(&mut out, &fence);
            Some(out)
        },
        Block::Rule => Some(chars_of("---")),
    }
}

/// Blocks rendered and joined by blank lines.
pub fn render_blocks(v: &Vec<Block>, nums: &Vec<String>) -> (out: Vec<char>)
    ensures
        out@ == blocks_text(blocks_view(v@), strings_view(nums@)),
    decreases v,
{
    let ghost s = blocks_view(v@);
    let ghost order = strings_view(nums@);
    let mut parts: Vec<Vec<char>> = Vec::new();
    let mut i: usize = 0;
    while i < v.len()
        invariant
            i <= v.len(),
            s == blocks_view(v@),
            order == strings_view(nums@),
            seqs(parts@) == rendered_parts(s.take(i as int), order),
        decreases v.len() - i,
    {
        assert(decreases_to!(v => v@[i as int]));
        let r = render_block(&v[i], nums);
        assert(s.take(i + 1).drop_last() =~= s.take(i as int));
        assert(s[i as int] == block_view(v@[i as int]));
        match r {
            Some(t) => {
                proof {
                    lemma_seqs_push(parts@, t);
                }
                parts.push(t);
            },
            None => {},
        }
        i = i + 1;
    }
    assert(s.take(v.len() as int) =~= s);
    let sep = chars_of("\n\n");
    join_chars(&parts, &sep)
}

proof fn lemma_trim_start_first(x: Seq<char>)
    ensures
        trim_start(x).len() > 0 ==> !is_space(trim_start(x)[0]),
    decreases x.len(),
{
    if x.len() > 0 && is_space(x[0]) {
        lemma_trim_start_first(x.drop_first());
    }
}

proof fn lemma_trim_end_prefix(x: Seq<char>)
    ensures
        trim_end(x).len() <= x.len(),
        forall|k: int| 0 <= k < trim_end(x).len() ==> trim_end(x)[k] == x[k],
    decreases x.len(),
{
    if x.len() > 0 && is_space(x.last()) {
        lemma_trim_end_prefix(x.drop_last());
        assert forall|k: int| 0 <= k < x.len() - 1 implies x.drop_last()[k] == x[k] by {}
    }
}

proof fn lemma_join_first(parts: Seq<Seq<char>>, sep: Seq<char>)
    requires
        parts.len() > 0,
        parts[0].len() > 0,
    ensures
        join(parts, sep).len() > 0,
        join(parts, sep)[0] == parts[0][0],
    decreases parts.len(),
{
    if parts.len() > 1 {
        lemma_join_first(parts.drop_last(), sep);
    }
}

/// Trimmed paragraph text never starts with white space.
pub proof fn law_paragraph_text_starts_clean(text: Seq<char>)
    ensures
        paragraph_text(text).len() > 0 ==> !is_space(paragraph_text(text)[0]),
{
    let ls = lines(text).map_values(|l: Seq<char>| clean_line(l));
    lemma_first_nonempty(ls);
    lemma_last_nonempty(ls);
    match (first_nonempty(ls), last_nonempty(ls)) {
        (Some(s), Some(e)) => {
            let l = lines(text)[s as int];
            let t0 = trim_start(l);
            lemma_trim_start_first(l);
            lemma_trim_end_prefix(t0);
            assert(ls[s as int] == clean_line(l));
            assert(ls[s as int].len() > 0);
            assert(t0.len() > 0);
            assert(ls[s as int][0] == t0[0]);
            assert((s as int) <= (e as int));
            let parts = ls.subrange(s as int, e as int + 1);
            assert(parts[0] == ls[s as int]);
            lemma_join_first(parts, "\n"@);
            let out = join(parts, "\n"@);
            assert(out[0] == t0[0]);
            if has_hard_break(out) {
                let r = trim_end(out.drop_last());
                lemma_trim_end_prefix(out.drop_last());
                if r.len() > 0 {
                    assert(r[0] == out.drop_last()[0]);
                }
                assert(paragraph_text(text) == r);
            } else {
                assert(paragraph_text(text) == out);
            }
        },
        _ => {},
    }
}

// ---------------------------------------------------------------------------
// Blank paragraphs

/// Text of white space and hard breaks alone: every character is white
/// space, or a backslash just before a newline.
pub open spec fn blank_text(t: Seq<char>) -> bool {
    forall|k: int|
        0 <= k < t.len() ==> is_space(#[trigger] t[k]) || (t[k] == '\\' && k + 1 < t.len() && t[k
            + 1] == '\n')
}

/// A line of white space, perhaps ended by one backslash.
pub open spec fn blank_line(l: Seq<char>) -> bool {
    forall|k: int| 0 <= k < l.len() ==> is_space(#[trigger] l[k]) || (l[k] == '\\' && k == l.len() - 1)
}

proof fn lemma_trim_start_skip(x: Seq<char>)
    ensures
        trim_start(x).len() <= x.len(),
        trim_start(x) == x.skip(x.len() - trim_start(x).len()),
        forall|k: int| 0 <= k < x.len() - trim_start(x).len() ==> is_space(#[trigger] x[k]),
    decreases x.len(),
{
    if x.len() > 0 && is_space(x[0]) {
        lemma_trim_start_skip(x.drop_first());
        let n = x.len() - trim_start(x).len();
        assert(x.drop_first().skip(n - 1) =~= x.skip(n));
        assert forall|k: int| 0 <= k < n implies is_space(#[trigger] x[k]) by {
            if k > 0 {
                assert(x[k] == x.drop_first()[k - 1]);
            }
        }
    } else {
        assert(x.skip(0) =~= x);
    }
}

proof fn lemma_trim_end_empty(y: Seq<char>)
    ensures
        trim_end(y).len() == 0 ==> forall|k: int| 0 <= k < y.len() ==> is_space(#[trigger] y[k]),
    decreases y.len(),
{
    if y.len() > 0 && is_space(y.last()) {
        lemma_trim_end_empty(y.drop_last());
        assert forall|k: int| 0 <= k < y.len() - 1 implies y[k] == y.drop_last()[k] by {}
    }
}

proof fn lemma_blank_concat(a: Seq<char>, b: Seq<char>)
    requires
        blank_text(a),
        blank_text(b),
    ensures
        blank_text(a + b),
{
    let c = a + b;
    assert forall|k: int| 0 <= k < c.len() implies is_space(#[trigger] c[k]) || (c[k] == '\\' && k + 1
        < c.len() && c[k + 1] == '\n') by {
        if k < a.len() {
            assert(c[k] == a[k]);
            if !is_space(a[k]) {
                assert(c[k + 1] == a[k + 1]);
            }
        } else {
            assert(c[k] == b[k - a.len()]);
            if !is_space(b[k - a.len()]) {
                assert(c[k + 1] == b[k + 1 - a.len()]);
            }
        }
    }
}

proof fn lemma_blank_inline(i: SpecInline, order: Seq<Seq<char>>)
    requires
        inline_is_empty(i),
    ensures
        blank_text(inline_text(i, order)),
{
    match i {
        SpecInline::Text { text, .. } => {
            lemma_trim_start_skip(text);
            let t0 = trim_start(text);
            lemma_trim_end_empty(t0);
            assert forall|k: int| 0 <= k < text.len() implies is_space(#[trigger] text[k]) by {
                let n = text.len() - t0.len();
                if k >= n {
                    assert(text[k] == t0[k - n]);
                }
            }
        },
        _ => {
            reveal_strlit("\\\n");
        },
    }
}

proof fn lemma_blank_inlines(s: Seq<SpecInline>, order: Seq<Seq<char>>)
    requires
        inlines_empty(s),
    ensures
        blank_text(inlines_text(s, order)),
    decreases s.len(),
{
    if s.len() > 0 {
        assert(inlines_empty(s.drop_last())) by {
            assert forall|k: int| 0 <= k < s.drop_last().len() implies inline_is_empty(
                #[trigger] s.drop_last()[k],
            ) by {
                assert(s.drop_last()[k] == s[k]);
            }
        }
        assert(inline_is_empty(s[s.len() - 1]));
        lemma_blank_inlines(s.drop_last(), order);
        lemma_blank_inline(s.last(), order);
        lemma_blank_concat(inlines_text(s.drop_last(), order), inline_text(s.last(), order));
    }
}

proof fn lemma_split_blank(t: Seq<char>, i: int)
    requires
        blank_text(t),
        0 <= i <= t.len(),
    ensures
        split_newlines(t.take(i)).len() >= 1,
        forall|j: int| 0 <= j < split_newlines(t.take(i)).len() ==> blank_line(
            #[trigger] split_newlines(t.take(i))[j],
        ),
        ({
            let last = split_newlines(t.take(i)).last();
            last.len() > 0 && last.last() == '\\' ==> i < t.len() && t[i] == '\n'
        }),
    decreases i,
{
    lemma_split_newlines_len(t.take(i));
    if i > 0 {
        lemma_split_blank(t, i - 1);
        let s = t.take(i);
        assert(s.drop_last() =~= t.take(i - 1));
        let p = split_newlines(t.take(i - 1));
        let c = t[i - 1];
        assert(s.last() == c);
        if c != '\n' {
            let last = p.last();
            let nl = last.push(c);
            let q = split_newlines(s);
            assert(q == p.update(p.len() - 1, nl));
            assert(blank_line(last));
            assert(last.len() > 0 ==> last.last() != '\\');
            assert forall|k: int| 0 <= k < nl.len() implies is_space(#[trigger] nl[k]) || (nl[k] == '\\'
                && k == nl.len() - 1) by {
                if k < last.len() {
                    assert(nl[k] == last[k]);
                    if !is_space(last[k]) {
                        assert(k == last.len() - 1);
                        assert(last.last() == last[k]);
                    }
                }
            }
            assert forall|j: int| 0 <= j < q.len() implies blank_line(#[trigger] q[j]) by {
                if j < q.len() - 1 {
                    assert(q[j] == p[j]);
                }
            }
        } else {
            let q = split_newlines(s);
            assert(q == p.push(Seq::empty()));
            assert forall|j: int| 0 <= j < q.len() implies blank_line(#[trigger] q[j]) by {
                if j < p.len() {
                    assert(q[j] == p[j]);
                }
            }
        }
    } else {
        assert(t.take(0) =~= Seq::<char>::empty());
    }
}

proof fn lemma_blank_lines(t: Seq<char>)
    requires
        blank_text(t),
    ensures
        forall|j: int| 0 <= j < lines(t).len() ==> blank_line(#[trigger] lines(t)[j]),
{
    lemma_split_blank(t, t.len() as int);
    assert(t.take(t.len() as int) =~= t);
    let p = split_newlines(t);
    let ls = lines(t);
    assert forall|j: int| 0 <= j < ls.len() implies blank_line(#[trigger] ls[j]) by {
        if j < p.len() - 1 {
            let l = p[j];
            assert(ls[j] == strip_cr(l));
            if l.len() > 0 && l.last() == '\r' {
                assert forall|k: int| 0 <= k < l.len() - 1 implies is_space(#[trigger] l.drop_last()[k]) by {
                    assert(l.drop_last()[k] == l[k]);
                }
            }
        } else {
            assert(ls[j] == p.last());
        }
    }
}

proof fn lemma_blank_line_cleans(l: Seq<char>)
    requires
        blank_line(l),
    ensures
        clean_line(l).len() == 0,
{
    lemma_trim_start_skip(l);
    lemma_trim_start_first(l);
    let t0 = trim_start(l);
    if t0.len() > 0 {
        let n = l.len() - t0.len();
        assert(t0[0] == l[n]);
        assert(n == l.len() - 1);
        assert(t0 =~= seq!['\\']);
        let e = Seq::<char>::empty();
        assert(t0.last() == '\\');
        assert(t0.drop_last() =~= e);
        assert(trim_end_char(e, '\\') == e);
        assert(trim_end_char(t0, '\\') == trim_end_char(t0.drop_last(), '\\'));
        assert(trailing_count(e, '\\') == 0);
        assert(trailing_count(t0, '\\') == trailing_count(t0.drop_last(), '\\') + 1);
        assert(trim_start(e) == e);
        assert(trim_end(e) == e);
    }
}

/// A blank paragraph renders as nothing: text that shows nothing gives no
/// paragraph text, so a note that is all blank could define nothing.
pub proof fn law_blank_block_renders_nothing(b: SpecBlock, order: Seq<Seq<char>>)
    requires
        block_blank(b),
    ensures
        block_text(b, order) is None,
{
    match b {
        SpecBlock::Paragraph(s) => {
            let t = inlines_text(s, order);
            lemma_blank_inlines(s, order);
            lemma_blank_lines(t);
            let ls = lines(t).map_values(|l: Seq<char>| clean_line(l));
            assert forall|j: int| 0 <= j < ls.len() implies ls[j].len() == 0 by {
                lemma_blank_line_cleans(lines(t)[j]);
            }
            lemma_first_nonempty(ls);
            if first_nonempty(ls) is Some {
                let k = first_nonempty(ls).unwrap();
                assert(ls[k as int].len() == 0);
            }
        },
        _ => {},
    }
}

// ---------------------------------------------------------------------------
// Fences outgrow backtick runs

/// `s[i..j]` is a run of backticks.
pub open spec fn backtick_run(s: Seq<char>, i: int, j: int) -> bool {
    0 <= i <= j <= s.len() && forall|k: int| i <= k < j ==> s[k] == '`'
}

proof fn lemma_trailing_run(s: Seq<char>, i: int)
    requires
        backtick_run(s, i, s.len() as int),
    ensures
        s.len() - i <= trailing_count(s, '`'),
    decreases s.len(),
{
    if i < s.len() {
        assert(s.last() == '`');
        assert forall|k: int| i <= k < s.drop_last().len() implies s.drop_last()[k] == '`' by {
            assert(s.drop_last()[k] == s[k]);
        }
        lemma_trailing_run(s.drop_last(), i);
    }
}

proof fn lemma_run_within_longest(s: Seq<char>, i: int, j: int)
    requires
        backtick_run(s, i, j),
    ensures
        j - i <= longest_run(s, '`'),
    decreases s.len(),
{
    if s.len() > 0 {
        if j == s.len() {
            lemma_trailing_run(s, i);
        } else {
            assert forall|k: int| i <= k < j implies s.drop_last()[k] == '`' by {
                assert(s.drop_last()[k] == s[k]);
            }
            lemma_run_within_longest(s.drop_last(), i, j);
        }
    }
}

/// A code fence is made of backticks, is at least `min` long, and is
/// longer than every run of backticks in the code, so no line of the code
/// can close it early.
pub proof fn law_fence_outgrows_backtick_runs(text: Seq<char>, min: nat, i: int, j: int)
    ensures
        fence_for(text, min).len() >= min,
        fence_for(text, min).len() >= 1,
        forall|k: int| 0 <= k < fence_for(text, min).len() ==> fence_for(text, min)[k] == '`',
        backtick_run(text, i, j) ==> j - i < fence_for(text, min).len(),
{
    if backtick_run(text, i, j) {
        lemma_run_within_longest(text, i, j);
    }
}

proof fn lemma_trailing_is_run(s: Seq<char>)
    ensures
        trailing_count(s, '`') <= s.len(),
        backtick_run(s, s.len() - trailing_count(s, '`'), s.len() as int),
    decreases s.len(),
{
    if s.len() > 0 && s.last() == '`' {
        lemma_trailing_is_run(s.drop_last());
        let t = trailing_count(s, '`');
        assert forall|k: int| s.len() - t <= k < s.len() implies s[k] == '`' by {
            if k < s.len() - 1 {
                assert(s[k] == s.drop_last()[k]);
            }
        }
    }
}

proof fn lemma_longest_is_run(s: Seq<char>) -> (i: int)
    ensures
        backtick_run(s, i, i + longest_run(s, '`')),
    decreases s.len(),
{
    if s.len() == 0 {
        0
    } else {
        let r = longest_run(s.drop_last(), '`');
        let t = trailing_count(s, '`');
        if t > r {
            lemma_trailing_is_run(s);
            s.len() - t
        } else {
            let i = lemma_longest_is_run(s.drop_last());
            assert forall|k: int| i <= k < i + r implies s[k] == '`' by {
                assert(s[k] == s.drop_last()[k]);
            }
            i
        }
    }
}

/// A code fence is no longer than it must be: it is `min` long, or one
/// longer than some run of backticks in the code.
pub proof fn law_fence_is_shortest(text: Seq<char>, min: nat)
    ensures
        fence_for(text, min).len() == min || exists|i: int, j: int|
            backtick_run(text, i, j) && j - i + 1 == fence_for(text, min).len(),
{
    let i = lemma_longest_is_run(text);
    let n = longest_run(text, '`');
    assert(backtick_run(text, i, i + n));
}

// ---------------------------------------------------------------------------
// Paragraph lines end clean

/// Every line of `s` (the text between newlines) that is not empty ends in
/// a character other than white space.
pub open spec fn lines_end_clean(s: Seq<char>) -> bool {
    forall|k: int| #[trigger] line_end(s, k) ==> !is_space(s[k])
}

/// Position `k` of `s` holds the last character of a non-empty line.
pub open spec fn line_end(s: Seq<char>, k: int) -> bool {
    0 <= k < s.len() && s[k] != '\n' && (k + 1 == s.len() || s[k + 1] == '\n')
}

/// `s` holds no newline.
pub open spec fn no_newline(s: Seq<char>) -> bool {
    forall|k: int| 0 <= k < s.len() ==> #[trigger] s[k] != '\n'
}

proof fn lemma_split_no_newline(s: Seq<char>)
    ensures
        forall|i: int| 0 <= i < split_newlines(s).len() ==> no_newline(#[trigger] split_newlines(s)[i]),
    decreases s.len(),
{
    if s.len() > 0 {
        let p = split_newlines(s.drop_last());
        lemma_split_no_newline(s.drop_last());
        lemma_split_newlines_len(s.drop_last());
        if s.last() != '\n' {
            let q = split_newlines(s);
            assert forall|i: int| 0 <= i < q.len() implies no_newline(#[trigger] q[i]) by {
                if i == p.len() - 1 {
                    assert(no_newline(p[i]));
                    assert forall|k: int| 0 <= k < q[i].len() implies #[trigger] q[i][k] != '\n' by {
                        if k < p[i].len() {
                            assert(q[i][k] == p[i][k]);
                        }
                    }
                } else {
                    assert(q[i] == p[i]);
                }
            }
        } else {
            let q = split_newlines(s);
            assert forall|i: int| 0 <= i < q.len() implies no_newline(#[trigger] q[i]) by {
                if i < p.len() {
                    assert(q[i] == p[i]);
                }
            }
        }
    }
}

proof fn lemma_lines_no_newline(s: Seq<char>)
    ensures
        forall|i: int| 0 <= i < lines(s).len() ==> no_newline(#[trigger] lines(s)[i]),
{
    let p = split_newlines(s);
    lemma_split_no_newline(s);
    lemma_split_newlines_len(s);
    let ls = lines(s);
    assert forall|i: int| 0 <= i < ls.len() implies no_newline(#[trigger] ls[i]) by {
        if i < p.len() - 1 {
            let l = p[i];
            assert(no_newline(l));
            assert(ls[i] == strip_cr(l));
            assert forall|k: int| 0 <= k < ls[i].len() implies #[trigger] ls[i][k] != '\n' by {
                assert(ls[i][k] == l[k]);
            }
        } else {
            assert(ls[i] == p.last());
            assert(no_newline(p[p.len() - 1]));
        }
    }
}

proof fn lemma_trim_end_last(x: Seq<char>)
    ensures
        trim_end(x).len() > 0 ==> !is_space(trim_end(x).last()),
    decreases x.len(),
{
    if x.len() > 0 && is_space(x.last()) {
        lemma_trim_end_last(x.drop_last());
    }
}

proof fn lemma_clean_line_ends(l: Seq<char>)
    requires
        no_newline(l),
    ensures
        no_newline(clean_line(l)),
        clean_line(l).len() > 0 ==> !is_space(clean_line(l).last()),
        lines_end_clean(clean_line(l)),
{
    let t0 = trim_start(l);
    lemma_trim_start_skip(l);
    assert forall|k: int| 0 <= k < t0.len() implies #[trigger] t0[k] != '\n' by {
        assert(t0[k] == l[k + l.len() - t0.len()]);
    }
    let t = if has_hard_break(t0) {
        t0
    } else {
        trim_end(t0)
    };
    lemma_trim_end_prefix(t0);
    lemma_trim_end_last(t0);
    assert forall|k: int| 0 <= k < t.len() implies #[trigger] t[k] != '\n' by {
        if !has_hard_break(t0) {
            assert(t[k] == t0[k]);
        }
    }
    if has_hard_break(t0) {
        assert(trailing_count(t0, '\\') > 0);
        assert(t0.len() > 0 && t0.last() == '\\');
    }
    let c = clean_line(l);
    assert(c.len() == 0 || c == t);
    assert forall|k: int| #[trigger] line_end(c, k) implies !is_space(c[k]) by {
        if k + 1 < c.len() {
            assert(c[k + 1] != '\n');
        }
    }
}

proof fn lemma_join_clean(parts: Seq<Seq<char>>)
    requires
        forall|i: int| 0 <= i < parts.len() ==> lines_end_clean(#[trigger] parts[i]),
    ensures
        lines_end_clean(join(parts, "\n"@)),
    decreases parts.len(),
{
    reveal_strlit("\n");
    if parts.len() > 1 {
        let a = join(parts.drop_last(), "\n"@);
        let b = parts.last();
        assert forall|i: int| 0 <= i < parts.drop_last().len() implies lines_end_clean(
            #[trigger] parts.drop_last()[i],
        ) by {
            assert(parts.drop_last()[i] == parts[i]);
        }
        lemma_join_clean(parts.drop_last());
        assert(lines_end_clean(parts[parts.len() - 1]));
        let j = join(parts, "\n"@);
        assert(j == a + "\n"@ + b);
        assert forall|k: int| #[trigger] line_end(j, k) implies !is_space(j[k]) by {
            if k < a.len() {
                assert(j[k] == a[k]);
                if k + 1 < a.len() {
                    assert(j[k + 1] == a[k + 1]);
                }
                assert(line_end(a, k));
            } else if k > a.len() {
                let m = k - a.len() - 1;
                assert(j[k] == b[m]);
                if k + 1 < j.len() {
                    assert(j[k + 1] == b[m + 1]);
                }
                assert(line_end(b, m));
            } else {
                assert(j[k] == '\n');
            }
        }
    } else if parts.len() == 1 {
        assert(lines_end_clean(parts[0]));
    }
}

/// Trimmed paragraph text ends no line in white space: a line keeps its
/// trailing white space neither after its text nor before a line break,
/// where Markdown would read it as a hard break; a hard break stays as the
/// backslash that ends its line.
pub proof fn law_paragraph_lines_end_clean(text: Seq<char>)
    ensures
        lines_end_clean(paragraph_text(text)),
{
    reveal_strlit("\n");
    let ls = lines(text).map_values(|l: Seq<char>| clean_line(l));
    lemma_lines_no_newline(text);
    assert forall|i: int| 0 <= i < ls.len() implies lines_end_clean(#[trigger] ls[i]) by {
        lemma_clean_line_ends(lines(text)[i]);
    }
    lemma_first_nonempty(ls);
    lemma_last_nonempty(ls);
    match (first_nonempty(ls), last_nonempty(ls)) {
        (Some(s), Some(e)) => {
            if (s as int) <= (e as int) {
                let parts = ls.subrange(s as int, e as int + 1);
                assert forall|i: int| 0 <= i < parts.len() implies lines_end_clean(#[trigger] parts[i]) by {
                    assert(parts[i] == ls[i + s]);
                }
                lemma_join_clean(parts);
                let out = join(parts, "\n"@);
                if has_hard_break(out) {
                    let d = out.drop_last();
                    let r = trim_end(d);
                    lemma_trim_end_prefix(d);
                    lemma_trim_end_last(d);
                    assert forall|k: int| #[trigger] line_end(r, k) implies !is_space(r[k]) by {
                        assert(r[k] == d[k]);
                        assert(d[k] == out[k]);
                        if k + 1 < r.len() {
                            assert(r[k + 1] == d[k + 1]);
                            assert(d[k + 1] == out[k + 1]);
                            assert(line_end(out, k));
                        } else {
                            assert(r[k] == r.last());
                        }
                    }
                    assert(paragraph_text(text) == r);
                } else {
                    assert(paragraph_text(text) == out);
                }
            }
        },
        _ => {},
    }
}

/// Position `k` of `s` holds the first character of a non-empty line.
pub open spec fn line_start(s: Seq<char>, k: int) -> bool {
    0 <= k < s.len() && s[k] != '\n' && (k == 0 || s[k - 1] == '\n')
}

/// Every line of `s` that is not empty starts with a character other than
/// white space.
pub open spec fn lines_start_clean(s: Seq<char>) -> bool {
    forall|k: int| #[trigger] line_start(s, k) ==> !is_space(s[k])
}

proof fn lemma_clean_line_starts(l: Seq<char>)
    requires
        no_newline(l),
    ensures
        clean_line(l).len() > 0 ==> !is_space(clean_line(l)[0]),
        lines_start_clean(clean_line(l)),
{
    let t0 = trim_start(l);
    lemma_trim_start_first(l);
    lemma_trim_end_prefix(t0);
    lemma_clean_line_ends(l);
    let c = clean_line(l);
    if c.len() > 0 {
        assert(c[0] == t0[0]);
    }
    assert forall|k: int| #[trigger] line_start(c, k) implies !is_space(c[k]) by {
        if k > 0 {
            assert(c[k - 1] != '\n');
        }
    }
}

proof fn lemma_join_starts(parts: Seq<Seq<char>>)
    requires
        forall|i: int| 0 <= i < parts.len() ==> lines_start_clean(#[trigger] parts[i]),
    ensures
        lines_start_clean(join(parts, "\n"@)),
    decreases parts.len(),
{
    reveal_strlit("\n");
    if parts.len() > 1 {
        let a = join(parts.drop_last(), "\n"@);
        let b = parts.last();
        assert forall|i: int| 0 <= i < parts.drop_last().len() implies lines_start_clean(
            #[trigger] parts.drop_last()[i],
        ) by {
            assert(parts.drop_last()[i] == parts[i]);
        }
        lemma_join_starts(parts.drop_last());
        assert(lines_start_clean(parts[parts.len() - 1]));
        let j = join(parts, "\n"@);
        assert(j == a + "\n"@ + b);
        assert forall|k: int| #[trigger] line_start(j, k) implies !is_space(j[k]) by {
            if k < a.len() {
                assert(j[k] == a[k]);
                if k > 0 {
                    assert(j[k - 1] == a[k - 1]);
                }
                assert(line_start(a, k));
            } else if k > a.len() {
                let m = k - a.len() - 1;
                assert(j[k] == b[m]);
                if m > 0 {
                    assert(j[k - 1] == b[m - 1]);
                }
                assert(line_start(b, m));
            } else {
                assert(j[k] == '\n');
            }
        }
    } else if parts.len() == 1 {
        assert(lines_start_clean(parts[0]));
    }
}

proof fn lemma_join_last(parts: Seq<Seq<char>>, sep: Seq<char>)
    requires
        parts.len() > 0,
        parts.last().len() > 0,
    ensures
        join(parts, sep).len() > 0,
        join(parts, sep).last() == parts.last().last(),
{
}

/// Trimmed paragraph text starts no line with white space, and does not
/// end in white space: lines are trimmed at both ends, blank lines at the
/// ends of the paragraph are dropped, and a final hard break goes with the
/// white space before it.
pub proof fn law_paragraph_lines_start_clean(text: Seq<char>)
    ensures
        lines_start_clean(paragraph_text(text)),
        paragraph_text(text).len() > 0 ==> !is_space(paragraph_text(text).last()),
{
    reveal_strlit("\n");
    let ls = lines(text).map_values(|l: Seq<char>| clean_line(l));
    lemma_lines_no_newline(text);
    assert forall|i: int| 0 <= i < ls.len() implies lines_start_clean(#[trigger] ls[i]) by {
        lemma_clean_line_starts(lines(text)[i]);
    }
    lemma_first_nonempty(ls);
    lemma_last_nonempty(ls);
    match (first_nonempty(ls), last_nonempty(ls)) {
        (Some(s), Some(e)) => {
            if (s as int) <= (e as int) {
                let parts = ls.subrange(s as int, e as int + 1);
                assert forall|i: int| 0 <= i < parts.len() implies lines_start_clean(#[trigger] parts[i]) by {
                    assert(parts[i] == ls[i + s]);
                }
                lemma_join_starts(parts);
                let out = join(parts, "\n"@);
                assert(parts.last() == ls[e as int]);
                lemma_clean_line_ends(lines(text)[e as int]);
                lemma_join_last(parts, "\n"@);
                if has_hard_break(out) {
                    let d = out.drop_last();
                    let r = trim_end(d);
                    lemma_trim_end_prefix(d);
                    lemma_trim_end_last(d);
                    assert forall|k: int| #[trigger] line_start(r, k) implies !is_space(r[k]) by {
                        assert(r[k] == d[k]);
                        assert(d[k] == out[k]);
                        if k > 0 {
                            assert(r[k - 1] == d[k - 1]);
                            assert(d[k - 1] == out[k - 1]);
                        }
                        assert(line_start(out, k));
                    }
                    assert(paragraph_text(text) == r);
                } else {
                    assert(paragraph_text(text) == out);
                }
            }
        },
        _ => {},
    }
}

// ---------------------------------------------------------------------------
// Headings

/// A heading renders as ATX: its level clamped to 1..6 in `#` marks, one
/// space, then text that neither starts nor ends with white space; and it
/// renders as nothing only when its text is blank.
pub proof fn law_heading_is_atx(level: u8, content: Seq<SpecInline>, order: Seq<Seq<char>>)
    ensures
        ({
            let n: int = if level < 1 {
                1
            } else if level > 6 {
                6
            } else {
                level as int
            };
            let text = inlines_text(strip_heading_emphasis(content), order);
            match block_text(SpecBlock::Heading { level, content }, order) {
                Some(out) => {
                    &&& out.len() > n + 1
                    &&& forall|k: int| 0 <= k < n ==> out[k] == '#'
                    &&& out[n] == ' '
                    &&& !is_space(out[n + 1])
                    &&& !is_space(out.last())
                    &&& out.skip(n + 1) == trim(text)
                },
                None => trim(text).len() == 0,
            }
        }),
{
    reveal_strlit(" ");
    let text = inlines_text(strip_heading_emphasis(content), order);
    let t0 = trim_start(text);
    let t = trim(text);
    lemma_trim_start_first(text);
    lemma_trim_end_prefix(t0);
    lemma_trim_end_last(t0);
    if t.len() > 0 {
        assert(t[0] == t0[0]);
        let n: int = clamp_level(level) as int;
        let out = repeat('#', n as nat) + " "@ + t;
        assert(out.skip(n + 1) =~= t);
        assert(out[n + 1] == t[0]);
        assert(out.last() == t.last());
    }
}

} // verus!
