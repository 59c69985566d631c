//! Rendering inline content as Markdown text.
use vstd::prelude::*;
use crate::model::{Inline, SpecInline, Style, inline_view, inlines_view, strings_view};
use crate::text::{
    chars_of, decimal, decimal_chars, extend, extend_str, is_control, is_control_char, slice_chars,
    string_of,
    trim, trim_chars,
};

verus! {

// ---------------------------------------------------------------------------
// Note numbers

/// Where `id` first stands in `order`, counting from 0.
pub open spec fn position(order: Seq<Seq<char>>, id: Seq<char>) -> Option<nat>
    decreases order.len(),
{
    if order.len() == 0 {
        None
    } else if order[0] == id {
        Some(0)
    } else {
        match position(order.drop_first(), id) {
            Some(k) => Some(k + 1),
            None => None,
        }
    }
}

/// The number that a note id renders as: its place in the numbering order,
/// counting from 1, or none for an id that is not numbered.
pub open spec fn note_number(order: Seq<Seq<char>>, id: Seq<char>) -> Option<nat> {
    match position(order, id) {
        Some(k) => Some(k + 1),
        None => None,
    }
}

pub proof fn lemma_position_found(order: Seq<Seq<char>>, id: Seq<char>)
    ensures
        position(order, id) is Some <==> order.contains(id),
        position(order, id) matches Some(k) ==> k < order.len() && order[k as int] == id,
    decreases order.len(),
{
    if order.len() > 0 {
        lemma_position_found(order.drop_first(), id);
        if order.contains(id) && order[0] != id {
            let j = choose|j: int| 0 <= j < order.len() && order[j] == id;
            assert(order.drop_first()[j - 1] == id);
        }
    }
}

/// The number of note `id` under the numbering `nums`.
pub fn number_of(nums: &Vec<String>, id: &String) -> (r: Option<usize>)
    ensures
        match r {
            Some(n) => note_number(strings_view(nums@), id@) == Some(n as nat),
            None => note_number(strings_view(nums@), id@) is None,
        },
{
    let ghost order = strings_view(nums@);
    let mut i: usize = 0;
    assert(order.skip(0) =~= order);
    while i < nums.len()
        invariant
            i <= nums.len(),
            order == strings_view(nums@),
            position(order, id@) == match position(order.skip(i as int), id@) {
                Some(k) => Some((k + i) as nat),
                None => None::<nat>,
            },
        decreases nums.len() - i,
    {
        if nums[i] == *id {
            return Some(i + 1);
        }
        assert(order.skip(i as int).drop_first() =~= order.skip(i + 1));
        i = i + 1;
    }
    None
}

// ---------------------------------------------------------------------------
// Escaping

/// Characters that Markdown could read as syntax inside text.
pub open spec fn is_markdown_special(c: char) -> bool {
    c == '\\' || c == '`' || c == '*' || c == '_' || c == '[' || c == ']' || c == '<' || c == '>'
        || c == '#' || c == '|'
}

pub open spec fn escape_char(c: char) -> Seq<char> {
    if is_markdown_special(c) {
        seq!['\\', c]
    } else {
        seq![c]
    }
}

/// `s` with a backslash before each Markdown special character.
pub open spec fn escape_text(s: Seq<char>) -> Seq<char>
    decreases s.len(),
{
    if s.len() == 0 {
        Seq::empty()
    } else {
        escape_text(s.drop_last()) + escape_char(s.last())
    }
}

pub fn escape_chars(s: &Vec<char>) -> (out: Vec<char>)
    ensures
        out@ == escape_text(s@),
{
    let mut out: Vec<char> = Vec::new();
    let mut i: usize = 0;
    while i < s.len()
        invariant
            i <= s.len(),
            out@ == escape_text(s@.take(i as int)),
        decreases s.len() - i,
    {
        let c = s[i];
        if c == '\\' || c == '`' || c == '*' || c == '_' || c == '[' || c == ']' || c == '<' || c
            == '>' || c == '#' || c == '|' {
            out.push('\\');
        }
        out.push(c);
        assert(s@.take(i + 1).drop_last() =~= s@.take(i as int));
        assert(out@ =~= escape_text(s@.take(i + 1)));
        i = i + 1;
    }
    assert(s@.take(s.len() as int) =~= s@);
    out
}

/// A control character as a space, any other character as itself.
pub open spec fn uncontrol(c: char) -> char {
    if is_control(c) {
        ' '
    } else {
        c
    }
}

/// A space, or (with `digits`) an ASCII digit.
pub open spec fn run_char(c: char, digits: bool) -> bool {
    if digits {
        48 <= (c as u32) <= 57
    } else {
        c == ' '
    }
}

/// How many spaces (or, with `digits`, ASCII digits) `s` starts with.
pub open spec fn run_len(s: Seq<char>, digits: bool) -> nat
    decreases s.len(),
{
    if s.len() > 0 && run_char(s[0], digits) {
        run_len(s.drop_first(), digits) + 1
    } else {
        0
    }
}

/// Characters that open a block when a line starts with them: list
/// bullets, setext underlines, fences, headings, quotes, thematic breaks
/// and HTML.
pub open spec fn is_block_lead(c: char) -> bool {
    c == '-' || c == '+' || c == '=' || c == '~' || c == '*' || c == '#' || c == '>' || c == '`'
        || c == '_' || c == '<'
}

/// The end of an ordered list marker.
pub open spec fn is_list_delim(c: char) -> bool {
    c == '.' || c == ')'
}

/// A line that, after its leading spaces, starts with block syntax: a
/// block-leading character, or digits followed by `.` or `)`.
pub open spec fn opens_block(s: Seq<char>) -> bool {
    let t = s.skip(run_len(s, false) as int);
    let k = run_len(t, true);
    t.len() > 0 && (is_block_lead(t[0]) || (k > 0 && k < t.len() && is_list_delim(t[k as int])))
}

/// Where line-start syntax sits in a label that escaping alone leaves
/// open: a leading `-`, `+`, `=` or `~` after the spaces, or the `.` or
/// `)` that ends a leading run of digits.
pub open spec fn line_start_mark(c: Seq<char>) -> Option<nat> {
    let n = run_len(c, false);
    let t = c.skip(n as int);
    let k = run_len(t, true);
    if t.len() > 0 && (t[0] == '-' || t[0] == '+' || t[0] == '=' || t[0] == '~') {
        Some(n)
    } else if k > 0 && k < t.len() && is_list_delim(t[k as int]) {
        Some(n + k)
    } else {
        None
    }
}

/// Text escaped for the start of a line: Markdown syntax escaped anywhere,
/// and a backslash before line-start syntax that would open a block.
pub open spec fn escape_line_start(c: Seq<char>) -> Seq<char> {
    match line_start_mark(c) {
        Some(p) => escape_text(c.take(p as int)) + seq!['\\'] + escape_text(c.skip(p as int)),
        None => escape_text(c),
    }
}

/// A source-derived marker label made safe for literal use: control
/// characters become spaces and Markdown syntax is escaped, block syntax at
/// its start included, so a crafted label cannot alter document structure.
pub open spec fn marker_label_text(label: Seq<char>) -> Seq<char> {
    escape_line_start(label.map_values(|c: char| uncontrol(c)))
}

proof fn lemma_run_len(s: Seq<char>, d: bool)
    ensures
        run_len(s, d) <= s.len(),
        forall|k: int| 0 <= k < run_len(s, d) ==> run_char(#[trigger] s[k], d),
        run_len(s, d) < s.len() ==> !run_char(s[run_len(s, d) as int], d),
    decreases s.len(),
{
    if s.len() > 0 && run_char(s[0], d) {
        lemma_run_len(s.drop_first(), d);
        assert forall|k: int| 0 <= k < run_len(s, d) implies run_char(#[trigger] s[k], d) by {
            if k > 0 {
                assert(s[k] == s.drop_first()[k - 1]);
            }
        }
    }
}

proof fn lemma_run_len_is(s: Seq<char>, d: bool, m: nat)
    requires
        m <= s.len(),
        forall|k: int| 0 <= k < m ==> run_char(#[trigger] s[k], d),
        m < s.len() ==> !run_char(s[m as int], d),
    ensures
        run_len(s, d) == m,
    decreases s.len(),
{
    if m > 0 {
        assert(run_char(s[0], d));
        assert forall|k: int| 0 <= k < m - 1 implies run_char(#[trigger] s.drop_first()[k], d) by {
            assert(s.drop_first()[k] == s[k + 1]);
        }
        lemma_run_len_is(s.drop_first(), d, (m - 1) as nat);
    }
}

proof fn lemma_escape_concat(a: Seq<char>, b: Seq<char>)
    ensures
        escape_text(a + b) == escape_text(a) + escape_text(b),
    decreases b.len(),
{
    if b.len() == 0 {
        assert(a + b =~= a);
        assert(escape_text(a) + escape_text(b) =~= escape_text(a));
    } else {
        lemma_escape_concat(a, b.drop_last());
        assert((a + b).drop_last() =~= a + b.drop_last());
        assert((a + b).last() == b.last());
        assert(escape_text(a + b) =~= escape_text(a) + escape_text(b));
    }
}

proof fn lemma_escape_plain(s: Seq<char>)
    requires
        forall|k: int| 0 <= k < s.len() ==> !is_markdown_special(#[trigger] s[k]),
    ensures
        escape_text(s) == s,
    decreases s.len(),
{
    if s.len() > 0 {
        assert forall|k: int| 0 <= k < s.len() - 1 implies !is_markdown_special(
            #[trigger] s.drop_last()[k],
        ) by {
            assert(s.drop_last()[k] == s[k]);
        }
        lemma_escape_plain(s.drop_last());
        assert(!is_markdown_special(s.last()));
        assert(escape_text(s) =~= s);
    }
}

proof fn lemma_escape_first(t: Seq<char>)
    requires
        t.len() > 0,
    ensures
        escape_text(t) == escape_char(t[0]) + escape_text(t.drop_first()),
{
    assert(t =~= seq![t[0]] + t.drop_first());
    lemma_escape_concat(seq![t[0]], t.drop_first());
    let one = seq![t[0]];
    assert(one.drop_last() =~= Seq::<char>::empty());
    assert(one.last() == t[0]);
    assert(escape_text(Seq::<char>::empty()) == Seq::<char>::empty());
    assert(escape_text(one) == escape_text(one.drop_last()) + escape_char(one.last()));
    assert(escape_text(one) =~= escape_char(t[0]));
}

/// An escaped marker label opens no block: after its leading spaces it
/// starts neither with block-leading syntax nor with an ordered list
/// marker, so text after a list bullet stays the item's text.
pub proof fn law_marker_label_opens_no_block(label: Seq<char>)
    ensures
        !opens_block(marker_label_text(label)),
{
    let c = label.map_values(|x: char| uncontrol(x));
    let out = marker_label_text(label);
    let n = run_len(c, false);
    lemma_run_len(c, false);
    let t = c.skip(n as int);
    let k = run_len(t, true);
    lemma_run_len(t, true);
    assert(c =~= c.take(n as int) + t);
    lemma_escape_plain(c.take(n as int));
    assert forall|j: int| 0 <= j < k implies t[j] == c[n + j] by {}
    match line_start_mark(c) {
        Some(p) => {
            let head = c.take(p as int);
            assert forall|j: int| 0 <= j < head.len() implies !is_markdown_special(#[trigger] head[j]) by {
                if j >= n {
                    assert(head[j] == t[j - n]);
                    assert(run_char(t[j - n], true));
                }
            }
            lemma_escape_plain(head);
            let rest = seq!['\\'] + escape_text(c.skip(p as int));
            assert(out == head + rest);
            // out: n spaces, then (p - n) digits, then a backslash
            assert forall|j: int| 0 <= j < n implies run_char(#[trigger] out[j], false) by {
                assert(out[j] == c[j]);
            }
            assert(out[n as int] == (if p == n { '\\' } else { t[0] }));
            lemma_run_len_is(out, false, n);
            let t2 = out.skip(n as int);
            if p == n {
                assert(t2[0] == '\\');
                lemma_run_len_is(t2, true, 0);
            } else {
                assert forall|j: int| 0 <= j < k implies run_char(#[trigger] t2[j], true) by {
                    assert(t2[j] == out[n + j]);
                    assert(out[n + j] == c[n + j]);
                }
                assert(t2[k as int] == '\\');
                lemma_run_len_is(t2, true, k);
            }
        },
        None => {
            lemma_escape_concat(c.take(n as int), t);
            let et = escape_text(t);
            assert(out == c.take(n as int) + et);
            assert forall|j: int| 0 <= j < n implies run_char(#[trigger] out[j], false) by {
                assert(out[j] == c[j]);
            }
            if t.len() == 0 {
                assert(out.len() == n);
                lemma_run_len_is(out, false, n);
                assert(out.skip(n as int).len() == 0);
            } else {
                lemma_escape_first(t);
                assert(out[n as int] == et[0]);
                assert(et[0] == escape_char(t[0])[0]);
                assert(t[0] != ' ');
                lemma_run_len_is(out, false, n);
                let t2 = out.skip(n as int);
                assert(t2 == et);
                if k == 0 {
                    lemma_run_len_is(t2, true, 0);
                } else {
                    let dg = t.take(k as int);
                    assert forall|j: int| 0 <= j < dg.len() implies !is_markdown_special(
                        #[trigger] dg[j],
                    ) by {
                        assert(run_char(t[j], true));
                    }
                    lemma_escape_plain(dg);
                    assert(t =~= dg + t.skip(k as int));
                    lemma_escape_concat(dg, t.skip(k as int));
                    assert forall|j: int| 0 <= j < k implies run_char(#[trigger] et[j], true) by {
                        assert(et[j] == dg[j]);
                    }
                    if k < t.len() {
                        lemma_escape_first(t.skip(k as int));
                        assert(et[k as int] == escape_char(t[k as int])[0]);
                        assert(!is_list_delim(t[k as int]));
                        lemma_run_len_is(et, true, k);
                    } else {
                        assert(et.len() == k);
                        lemma_run_len_is(et, true, k);
                    }
                }
            }
        },
    }
}

pub fn escape_marker_label_chars(label: &str) -> (out: Vec<char>)
    ensures
        out@ == marker_label_text(label@),
{
    let chars = chars_of(label);
    let mut cleaned: Vec<char> = Vec::new();
    let mut i: usize = 0;
    while i < chars.len()
        invariant
            i <= chars.len(),
            chars@ == label@,
            cleaned@ == label@.take(i as int).map_values(|c: char| uncontrol(c)),
        decreases chars.len() - i,
    {
        let c = chars[i];
        if is_control_char(c) {
            cleaned.push(' ');
        } else {
            cleaned.push(c);
        }
        assert(cleaned@ =~= label@.take(i + 1).map_values(|c: char| uncontrol(c)));
        i = i + 1;
    }
    assert(label@.take(chars.len() as int) =~= label@);
    let ghost c = cleaned@;
    let len = cleaned.len();
    let mut n: usize = 0;
    while n < len && cleaned[n] == ' '
        invariant
            n <= len,
            len == c.len(),
            c == cleaned@,
            forall|j: int| 0 <= j < n ==> run_char(#[trigger] c[j], false),
        decreases len - n,
    {
        n = n + 1;
    }
    proof {
        lemma_run_len_is(c, false, n as nat);
    }
    let ghost t = c.skip(n as int);
    let mut k: usize = 0;
    while n + k < len && 48 <= (cleaned[n + k] as u32) && (cleaned[n + k] as u32) <= 57
        invariant
            n + k <= len,
            len == c.len(),
            c == cleaned@,
            t == c.skip(n as int),
            forall|j: int| 0 <= j < k ==> run_char(#[trigger] t[j], true),
        decreases len - n - k,
    {
        assert(t[k as int] == c[n + k]);
        k = k + 1;
    }
    proof {
        if n + k < len {
            assert(t[k as int] == c[n + k]);
        }
        lemma_run_len_is(t, true, k as nat);
    }
    let mut mark: Option<usize> = None;
    if n < len {
        let f = cleaned[n];
        assert(t[0] == f);
        if f == '-' || f == '+' || f == '=' || f == '~' {
            mark = Some(n);
        } else if k > 0 && n + k < len && (cleaned[n + k] == '.' || cleaned[n + k] == ')') {
            assert(t[k as int] == c[n + k]);
            mark = Some(n + k);
        } else if k > 0 && n + k < len {
            assert(t[k as int] == c[n + k]);
        }
    }
    match mark {
        Some(p) => {
            assert(line_start_mark(c) == Some(p as nat));
            let head = slice_chars(&cleaned, 0, p);
            let tail = slice_chars(&cleaned, p, len);
            let mut out = escape_chars(&head);
            out.push('\\');
            let et = escape_chars(&tail);
            extend(&mut out, &et);
            assert(head@ =~= c.take(p as int));
            assert(tail@ =~= c.skip(p as int));
            out
        },
        None => {
            assert(line_start_mark(c) is None);
            escape_chars(&cleaned)
        },
    }
}

/// Escape a source-derived composite marker label for literal use after a
/// list bullet: control characters become spaces, Markdown syntax is
/// escaped, and so is block syntax at its start (`law_marker_label_opens_no_block`).
pub fn escape_marker_label(label: &str) -> (out: String)
    ensures
        out@ == marker_label_text(label@),
{
    let v = escape_marker_label_chars(label);
    string_of(&v)
}

// ---------------------------------------------------------------------------
// Rendering

/// The emphasis delimiter for a style.
pub open spec fn emphasis(style: Style) -> Seq<char> {
    if style.bold && style.italic {
        "***"@
    } else if style.bold {
        "**"@
    } else if style.italic {
        "*"@
    } else {
        Seq::empty()
    }
}

pub open spec fn inline_text(i: SpecInline, order: Seq<Seq<char>>) -> Seq<char>
    decreases i,
{
    match i {
        SpecInline::Text { text, style } => if trim(text).len() == 0 {
            text
        } else {
            emphasis(style) + escape_text(text) + emphasis(style)
        },
        SpecInline::Link { content, url } => "["@ + inlines_text(content, order) + "]("@ + url
            + ")"@,
        SpecInline::NoteRef(id) => match note_number(order, id) {
            Some(n) => "[^"@ + decimal(n) + "]"@,
            None => Seq::empty(),
        },
        SpecInline::LineBreak => "\\\n"@,
    }
}

/// Inline content rendered in sequence; a note reference renders as its
/// number under `order`, or as nothing when the note is not numbered.
pub open spec fn inlines_text(s: Seq<SpecInline>, order: Seq<Seq<char>>) -> Seq<char>
    decreases s,
{
    if s.len() == 0 {
        Seq::empty()
    } else {
        inlines_text(s.drop_last(), order) + inline_text(s.last(), order)
    }
}

fn emphasis_chars(style: Style) -> (out: Vec<char>)
    ensures
        out@ == emphasis(style),
{
    let mut out: Vec<char> = Vec::new();
    if style.bold && style.italic {
        extend_str(&mut out, "***");
    } else if style.bold {
        extend_str(&mut out, "**");
    } else if style.italic {
        extend_str(&mut out, "*");
    }
    out
}

pub fn render_inline(i: &Inline, nums: &Vec<String>) -> (out: Vec<char>)
    ensures
        out@ == inline_text(i@, strings_view(nums@)),
    decreases i,
{
    match i {
        Inline::Text { text, style } => {
            let t = chars_of(text.as_str());
            let trimmed = trim_chars(&t);
            if trimmed.len() == 0 {
                t
            } else {
                let em = emphasis_chars(*style);
                let mut out = em.clone();
                let esc = escape_chars(&t);
                extend(&mut out, &esc);
                extend(&mut out, &em);
                out
            }
        },
        Inline::Link { content, url } => {
            let mut out: Vec<char> = Vec::new();
            extend_str(&mut out, "[");
            let inner = render_inlines(content, nums);
            extend(&mut out, &inner);
            extend_str(&mut out, "](");
            extend_str(&mut out, url.as_str());
            extend_str(&mut out, ")");
            out
        },
        Inline::NoteRef(id) => {
            let mut out: Vec<char> = Vec::new();
            match number_of(nums, id) {
                Some(n) => {
                    extend_str(&mut out, "[^");
                    let d = decimal_chars(n as u64);
                    extend(&mut out, &d);
                    extend_str(&mut out, "]");
                },
                None => {},
            }
            out
        },
        Inline::LineBreak => {
            let mut out: Vec<char> = Vec::new();
            extend_str(&mut out, "\\\n");
            out
        },
    }
}

pub fn render_inlines(v: &Vec<Inline>, nums: &Vec<String>) -> (out: Vec<char>)
    ensures
        out@ == inlines_text(inlines_view(v@), strings_view(nums@)),
    decreases v,
{
    let ghost s = inlines_view(v@);
    let mut out: Vec<char> = Vec::new();
    let mut i: usize = 0;
    while i < v.len()
        invariant
            i <= v.len(),
            s == inlines_view(v@),
            out@ == inlines_text(s.take(i as int), strings_view(nums@)),
        decreases v.len() - i,
    {
        assert(decreases_to!(v => v@[i as int]));
        let part = render_inline(&v[i], nums);
        extend(&mut out, &part);
        assert(s.take(i + 1).drop_last() =~= s.take(i as int));
        i = i + 1;
    }
    assert(s.take(v.len() as int) =~= s);
    out
}

// ---------------------------------------------------------------------------
// Heading emphasis

/// The bold flag of a style, or its italic flag.
pub open spec fn picks(style: Style, italic: bool) -> bool {
    if italic {
        style.italic
    } else {
        style.bold
    }
}

pub open spec fn inline_all_runs(i: SpecInline, italic: bool) -> bool
    decreases i,
{
    match i {
        SpecInline::Text { text, style } => trim(text).len() == 0 || picks(style, italic),
        SpecInline::Link { content, .. } => all_runs(content, italic),
        _ => true,
    }
}

/// Every text run that is not white space alone, links included, is bold
/// (or, with `italic`, italic).
pub open spec fn all_runs(s: Seq<SpecInline>, italic: bool) -> bool
    decreases s,
{
    if s.len() == 0 {
        true
    } else {
        all_runs(s.drop_last(), italic) && inline_all_runs(s.last(), italic)
    }
}

pub open spec fn inline_has_run(i: SpecInline) -> bool
    decreases i,
{
    match i {
        SpecInline::Text { text, .. } => trim(text).len() != 0,
        SpecInline::Link { content, .. } => has_run(content),
        _ => false,
    }
}

/// Some text run, links included, is not white space alone.
pub open spec fn has_run(s: Seq<SpecInline>) -> bool
    decreases s,
{
    if s.len() == 0 {
        false
    } else {
        has_run(s.drop_last()) || inline_has_run(s.last())
    }
}

pub open spec fn restyle_inline(i: SpecInline, strip_bold: bool, strip_italic: bool) -> SpecInline
    decreases i,
{
    match i {
        SpecInline::Text { text, style } => SpecInline::Text {
            text,
            style: Style { bold: style.bold && !strip_bold, italic: style.italic && !strip_italic },
        },
        SpecInline::Link { content, url } => SpecInline::Link {
            content: restyle(content, strip_bold, strip_italic),
            url,
        },
        _ => i,
    }
}

/// The same content with bold (italic) removed from every text run when
/// `strip_bold` (`strip_italic`) holds.
pub open spec fn restyle(s: Seq<SpecInline>, strip_bold: bool, strip_italic: bool) -> Seq<SpecInline>
    decreases s,
{
    Seq::new(
        s.len(),
        |k: int|
            if 0 <= k < s.len() {
                restyle_inline(s[k], strip_bold, strip_italic)
            } else {
                SpecInline::LineBreak
            },
    )
}

/// Heading content without the bold and italic that every non-blank text
/// run shares: the heading marker already conveys them. Content with no
/// non-blank run stays as it is.
pub open spec fn strip_heading_emphasis(s: Seq<SpecInline>) -> Seq<SpecInline> {
    if has_run(s) {
        restyle(s, all_runs(s, false), all_runs(s, true))
    } else {
        s
    }
}

pub proof fn lemma_restyle_inline_nothing(i: SpecInline)
    ensures
        restyle_inline(i, false, false) == i,
    decreases i,
{
    match i {
        SpecInline::Link { content, url } => {
            lemma_restyle_nothing(content);
        },
        SpecInline::Text { text, style } => {
            assert(style == Style { bold: style.bold && !false, italic: style.italic && !false });
        },
        _ => {},
    }
}

/// Restyling that strips nothing leaves content as it is.
pub proof fn lemma_restyle_nothing(s: Seq<SpecInline>)
    ensures
        restyle(s, false, false) == s,
    decreases s,
{
    assert forall|k: int| 0 <= k < s.len() implies restyle(s, false, false)[k] == s[k] by {
        lemma_restyle_inline_nothing(s[k]);
    }
    assert(restyle(s, false, false) =~= s);
}

fn scan_inline(i: &Inline) -> (r: (bool, bool, bool))
    ensures
        r == (inline_all_runs(i@, false), inline_all_runs(i@, true), inline_has_run(i@)),
    decreases i,
{
    match i {
        Inline::Text { text, style } => {
            let t = chars_of(text.as_str());
            let trimmed = trim_chars(&t);
            if trimmed.len() == 0 {
                (true, true, false)
            } else {
                (style.bold, style.italic, true)
            }
        },
        Inline::Link { content, .. } => scan(content),
        _ => (true, true, false),
    }
}

fn scan(v: &Vec<Inline>) -> (r: (bool, bool, bool))
    ensures
        r == ({
            let s = inlines_view(v@);
            (all_runs(s, false), all_runs(s, true), has_run(s))
        }),
    decreases v,
{
    let ghost s = inlines_view(v@);
    let mut all_bold = true;
    let mut all_italic = true;
    let mut any = false;
    let mut i: usize = 0;
    while i < v.len()
        invariant
            i <= v.len(),
            s == inlines_view(v@),
            all_bold == all_runs(s.take(i as int), false),
            all_italic == all_runs(s.take(i as int), true),
            any == has_run(s.take(i as int)),
        decreases v.len() - i,
    {
        assert(decreases_to!(v => v@[i as int]));
        let (b, it, a) = scan_inline(&v[i]);
        all_bold = all_bold && b;
        all_italic = all_italic && it;
        any = any || a;
        assert(s.take(i + 1).drop_last() =~= s.take(i as int));
        i = i + 1;
    }
    assert(s.take(v.len() as int) =~= s);
    (all_bold, all_italic, any)
}

fn restyle_one(i: &Inline, strip_bold: bool, strip_italic: bool) -> (out: Inline)
    ensures
        out@ == restyle_inline(i@, strip_bold, strip_italic),
    decreases i,
{
    match i {
        Inline::Text { text, style } => Inline::Text {
            text: text.clone(),
            style: Style { bold: style.bold && !strip_bold, italic: style.italic && !strip_italic },
        },
        Inline::Link { content, url } => {
            let c = restyle_all(content, strip_bold, strip_italic);
            Inline::Link { content: c, url: url.clone() }
        },
        Inline::NoteRef(id) => Inline::NoteRef(id.clone()),
        Inline::LineBreak => Inline::LineBreak,
    }
}

fn restyle_all(v: &Vec<Inline>, strip_bold: bool, strip_italic: bool) -> (out: Vec<Inline>)
    ensures
        inlines_view(out@) == restyle(inlines_view(v@), strip_bold, strip_italic),
    decreases v,
{
    let ghost s = inlines_view(v@);
    let mut out: Vec<Inline> = Vec::new();
    let mut i: usize = 0;
    while i < v.len()
        invariant
            i <= v.len(),
            s == inlines_view(v@),
            out@.len() == i,
            inlines_view(out@) =~= restyle(s.take(i as int), strip_bold, strip_italic),
        decreases v.len() - i,
    {
        assert(decreases_to!(v => v@[i as int]));
        let r = restyle_one(&v[i], strip_bold, strip_italic);
        let ghost prev = out@;
        out.push(r);
        assert forall|k: int| 0 <= k < i + 1 implies inlines_view(out@)[k] == restyle(
            s.take(i + 1),
            strip_bold,
            strip_italic,
        )[k] by {
            if k < i {
                assert(out@[k] == prev[k]);
                assert(inlines_view(prev)[k] == restyle(s.take(i as int), strip_bold, strip_italic)[k]);
            } else {
                assert(s[k] == inline_view(v@[k]));
            }
        }
        i = i + 1;
    }
    assert(s.take(v.len() as int) =~= s);
    out
}

/// Strip a whole-heading bold/italic that the `#` prefix already conveys.
///
/// Only emphasis shared by every non-whitespace text run is removed, so
/// partial emphasis survives. Whitespace-only runs are ignored when deciding
/// uniformity.
pub fn strip_uniform_heading_emphasis(content: &Vec<Inline>) -> (out: Vec<Inline>)
    ensures
        inlines_view(out@) == strip_heading_emphasis(inlines_view(content@)),
{
    let (all_bold, all_italic, any) = scan(content);
    proof {
        lemma_restyle_nothing(inlines_view(content@));
    }
    if any {
        restyle_all(content, all_bold, all_italic)
    } else {
        restyle_all(content, false, false)
    }
}

proof fn lemma_restyle_drop_last(s: Seq<SpecInline>, sb: bool, si: bool)
    requires
        s.len() > 0,
    ensures
        restyle(s, sb, si).drop_last() == restyle(s.drop_last(), sb, si),
        restyle(s, sb, si).last() == restyle_inline(s.last(), sb, si),
        restyle(s, sb, si).len() == s.len(),
{
    assert(restyle(s, sb, si).drop_last() =~= restyle(s.drop_last(), sb, si));
}

pub proof fn lemma_restyle_inline_runs(i: SpecInline, sb: bool, si: bool)
    ensures
        inline_has_run(restyle_inline(i, sb, si)) == inline_has_run(i),
        inline_all_runs(restyle_inline(i, sb, si), false) == if sb {
            !inline_has_run(i)
        } else {
            inline_all_runs(i, false)
        },
        inline_all_runs(restyle_inline(i, sb, si), true) == if si {
            !inline_has_run(i)
        } else {
            inline_all_runs(i, true)
        },
    decreases i,
{
    match i {
        SpecInline::Link { content, .. } => {
            lemma_restyle_runs(content, sb, si);
        },
        _ => {},
    }
}

/// How restyling changes the run predicates: text stays, so runs stay;
/// a stripped flag holds of no run afterwards.
pub proof fn lemma_restyle_runs(s: Seq<SpecInline>, sb: bool, si: bool)
    ensures
        has_run(restyle(s, sb, si)) == has_run(s),
        all_runs(restyle(s, sb, si), false) == if sb {
            !has_run(s)
        } else {
            all_runs(s, false)
        },
        all_runs(restyle(s, sb, si), true) == if si {
            !has_run(s)
        } else {
            all_runs(s, true)
        },
    decreases s,
{
    if s.len() == 0 {
        assert(restyle(s, sb, si).len() == 0);
    } else {
        lemma_restyle_drop_last(s, sb, si);
        lemma_restyle_runs(s.drop_last(), sb, si);
        lemma_restyle_inline_runs(s.last(), sb, si);
    }
}

/// Stripping heading emphasis twice strips no more than once: after the
/// first strip, no emphasis is shared by every run any longer.
pub proof fn law_strip_heading_emphasis_idempotent(s: Seq<SpecInline>)
    ensures
        strip_heading_emphasis(strip_heading_emphasis(s)) == strip_heading_emphasis(s),
{
    if has_run(s) {
        let r = restyle(s, all_runs(s, false), all_runs(s, true));
        lemma_restyle_runs(s, all_runs(s, false), all_runs(s, true));
        lemma_restyle_nothing(r);
    }
}

proof fn lemma_escape_text_no_control(s: Seq<char>)
    requires
        forall|k: int| 0 <= k < s.len() ==> !is_control(#[trigger] s[k]),
    ensures
        forall|k: int| 0 <= k < escape_text(s).len() ==> !is_control(#[trigger] escape_text(s)[k]),
    decreases s.len(),
{
    if s.len() > 0 {
        lemma_escape_text_no_control(s.drop_last());
        let e = escape_text(s.drop_last());
        assert(!is_control(s.last()));
        assert forall|k: int| 0 <= k < escape_text(s).len() implies !is_control(
            #[trigger] escape_text(s)[k],
        ) by {
            if k >= e.len() {
                assert(escape_text(s)[k] == escape_char(s.last())[k - e.len()]);
            }
        }
    }
}

/// A rendered marker label holds no control character, so no line break
/// or other control can leak from a crafted label into the document.
pub proof fn law_marker_label_has_no_control(label: Seq<char>)
    ensures
        forall|k: int| 0 <= k < marker_label_text(label).len() ==> !is_control(
            #[trigger] marker_label_text(label)[k],
        ),
{
    let cleaned = label.map_values(|c: char| uncontrol(c));
    let out = marker_label_text(label);
    assert forall|k: int| 0 <= k < cleaned.len() implies !is_control(#[trigger] cleaned[k]) by {}
    match line_start_mark(cleaned) {
        Some(p) => {
            lemma_run_len(cleaned, false);
            lemma_run_len(cleaned.skip(run_len(cleaned, false) as int), true);
            assert(p <= cleaned.len());
            let head = cleaned.take(p as int);
            let tail = cleaned.skip(p as int);
            assert forall|k: int| 0 <= k < head.len() implies !is_control(#[trigger] head[k]) by {
                assert(head[k] == cleaned[k]);
            }
            assert forall|k: int| 0 <= k < tail.len() implies !is_control(#[trigger] tail[k]) by {
                assert(tail[k] == cleaned[k + p]);
            }
            lemma_escape_text_no_control(head);
            lemma_escape_text_no_control(tail);
            let eh = escape_text(head);
            let et = escape_text(tail);
            assert(out == eh + seq!['\\'] + et);
            assert forall|k: int| 0 <= k < out.len() implies !is_control(#[trigger] out[k]) by {
                if k < eh.len() {
                    assert(out[k] == eh[k]);
                } else if k == eh.len() {
                    assert(out[k] == '\\');
                } else {
                    assert(out[k] == et[k - eh.len() - 1]);
                }
            }
        },
        None => {
            lemma_escape_text_no_control(cleaned);
        },
    }
}

// ---------------------------------------------------------------------------
// Heading emphasis over text runs

/// The text runs of inline content in reading order, links included: each
/// run's text with its style.
pub open spec fn inline_runs(i: SpecInline) -> Seq<(Seq<char>, Style)>
    decreases i,
{
    match i {
        SpecInline::Text { text, style } => seq![(text, style)],
        SpecInline::Link { content, .. } => runs(content),
        _ => Seq::empty(),
    }
}

pub open spec fn runs(s: Seq<SpecInline>) -> Seq<(Seq<char>, Style)>
    decreases s,
{
    if s.len() == 0 {
        Seq::empty()
    } else {
        runs(s.drop_last()) + inline_runs(s.last())
    }
}

/// A run whose text is not white space alone.
pub open spec fn nonblank(r: (Seq<char>, Style)) -> bool {
    trim(r.0).len() != 0
}

/// Some run is not white space alone.
pub open spec fn some_nonblank(rs: Seq<(Seq<char>, Style)>) -> bool {
    exists|j: int| 0 <= j < rs.len() && nonblank(#[trigger] rs[j])
}

/// Every run that is not white space alone is bold (or, with `italic`,
/// italic).
pub open spec fn every_nonblank_picks(rs: Seq<(Seq<char>, Style)>, italic: bool) -> bool {
    forall|j: int| 0 <= j < rs.len() && nonblank(#[trigger] rs[j]) ==> picks(rs[j].1, italic)
}

/// Every non-blank run is bold (or, with `italic`, italic), and there is
/// at least one non-blank run.
pub open spec fn shared_by_runs(rs: Seq<(Seq<char>, Style)>, italic: bool) -> bool {
    some_nonblank(rs) && every_nonblank_picks(rs, italic)
}

proof fn lemma_concat_runs(a: Seq<(Seq<char>, Style)>, b: Seq<(Seq<char>, Style)>, it: bool)
    ensures
        some_nonblank(a + b) == (some_nonblank(a) || some_nonblank(b)),
        every_nonblank_picks(a + b, it) == (every_nonblank_picks(a, it) && every_nonblank_picks(b, it)),
{
    let c = a + b;
    if some_nonblank(c) {
        let j = choose|j: int| 0 <= j < c.len() && nonblank(#[trigger] c[j]);
        if j < a.len() {
            assert(c[j] == a[j]);
        } else {
            assert(c[j] == b[j - a.len()]);
        }
    }
    if some_nonblank(a) {
        let j = choose|j: int| 0 <= j < a.len() && nonblank(#[trigger] a[j]);
        assert(c[j] == a[j]);
    }
    if some_nonblank(b) {
        let j = choose|j: int| 0 <= j < b.len() && nonblank(#[trigger] b[j]);
        assert(c[j + a.len()] == b[j]);
    }
    if every_nonblank_picks(c, it) {
        assert forall|j: int| 0 <= j < a.len() && nonblank(#[trigger] a[j]) implies picks(a[j].1, it) by {
            assert(c[j] == a[j]);
        }
        assert forall|j: int| 0 <= j < b.len() && nonblank(#[trigger] b[j]) implies picks(b[j].1, it) by {
            assert(c[j + a.len()] == b[j]);
        }
    }
    if every_nonblank_picks(a, it) && every_nonblank_picks(b, it) {
        assert forall|j: int| 0 <= j < c.len() && nonblank(#[trigger] c[j]) implies picks(c[j].1, it) by {
            if j < a.len() {
                assert(c[j] == a[j]);
            } else {
                assert(c[j] == b[j - a.len()]);
            }
        }
    }
}

proof fn lemma_single_run(rs: Seq<(Seq<char>, Style)>, it: bool)
    requires
        rs.len() == 1,
    ensures
        some_nonblank(rs) == nonblank(rs[0]),
        every_nonblank_picks(rs, it) == (!nonblank(rs[0]) || picks(rs[0].1, it)),
{
    if some_nonblank(rs) {
        let j = choose|j: int| 0 <= j < rs.len() && nonblank(#[trigger] rs[j]);
        assert(j == 0);
    }
    if !nonblank(rs[0]) || picks(rs[0].1, it) {
        assert forall|j: int| 0 <= j < rs.len() && nonblank(#[trigger] rs[j]) implies picks(rs[j].1, it) by {
            assert(j == 0);
        }
    }
}

proof fn lemma_inline_runs_match(i: SpecInline)
    ensures
        inline_has_run(i) == some_nonblank(inline_runs(i)),
        inline_all_runs(i, false) == every_nonblank_picks(inline_runs(i), false),
        inline_all_runs(i, true) == every_nonblank_picks(inline_runs(i), true),
    decreases i,
{
    match i {
        SpecInline::Text { text, style } => {
            let rs = inline_runs(i);
            assert(rs.len() == 1);
            assert(rs[0] == (text, style));
            lemma_single_run(rs, false);
            lemma_single_run(rs, true);
        },
        SpecInline::Link { content, .. } => {
            lemma_runs_match(content);
        },
        _ => {},
    }
}

proof fn lemma_runs_match(s: Seq<SpecInline>)
    ensures
        has_run(s) == some_nonblank(runs(s)),
        all_runs(s, false) == every_nonblank_picks(runs(s), false),
        all_runs(s, true) == every_nonblank_picks(runs(s), true),
    decreases s,
{
    if s.len() > 0 {
        lemma_runs_match(s.drop_last());
        lemma_inline_runs_match(s.last());
        lemma_concat_runs(runs(s.drop_last()), inline_runs(s.last()), false);
        lemma_concat_runs(runs(s.drop_last()), inline_runs(s.last()), true);
    }
}

/// A run with bold (italic) removed when `sb` (`si`) holds.
pub open spec fn restyle_run(r: (Seq<char>, Style), sb: bool, si: bool) -> (Seq<char>, Style) {
    (r.0, Style { bold: r.1.bold && !sb, italic: r.1.italic && !si })
}

proof fn lemma_inline_runs_restyle(i: SpecInline, sb: bool, si: bool)
    ensures
        inline_runs(restyle_inline(i, sb, si)) == inline_runs(i).map_values(
            |r: (Seq<char>, Style)| restyle_run(r, sb, si),
        ),
    decreases i,
{
    match i {
        SpecInline::Link { content, .. } => {
            lemma_runs_restyle(content, sb, si);
        },
        SpecInline::Text { .. } => {
            assert(inline_runs(restyle_inline(i, sb, si)) =~= inline_runs(i).map_values(
                |r: (Seq<char>, Style)| restyle_run(r, sb, si),
            ));
        },
        _ => {
            assert(inline_runs(restyle_inline(i, sb, si)) =~= inline_runs(i).map_values(
                |r: (Seq<char>, Style)| restyle_run(r, sb, si),
            ));
        },
    }
}

proof fn lemma_runs_restyle(s: Seq<SpecInline>, sb: bool, si: bool)
    ensures
        runs(restyle(s, sb, si)) == runs(s).map_values(|r: (Seq<char>, Style)| restyle_run(r, sb, si)),
    decreases s,
{
    if s.len() == 0 {
        assert(restyle(s, sb, si).len() == 0);
        assert(runs(restyle(s, sb, si)) =~= runs(s).map_values(
            |r: (Seq<char>, Style)| restyle_run(r, sb, si),
        ));
    } else {
        lemma_restyle_drop_last(s, sb, si);
        lemma_runs_restyle(s.drop_last(), sb, si);
        lemma_inline_runs_restyle(s.last(), sb, si);
        let a = runs(s.drop_last());
        let b = inline_runs(s.last());
        assert((a + b).map_values(|r: (Seq<char>, Style)| restyle_run(r, sb, si)) =~= a.map_values(
            |r: (Seq<char>, Style)| restyle_run(r, sb, si),
        ) + b.map_values(|r: (Seq<char>, Style)| restyle_run(r, sb, si)));
    }
}

/// Heading emphasis is stripped exactly where every non-blank text run
/// shares it: the runs keep their texts, in order, and a run keeps bold
/// (italic) exactly when it had it and bold (italic) is not shared by all
/// non-blank runs. Partial emphasis survives; uniform emphasis goes.
pub proof fn law_strip_heading_emphasis_runs(s: Seq<SpecInline>)
    ensures
        runs(strip_heading_emphasis(s)).len() == runs(s).len(),
        forall|k: int|
            0 <= k < runs(s).len() ==> {
                let r = #[trigger] runs(s)[k];
                let o = runs(strip_heading_emphasis(s))[k];
                &&& o.0 == r.0
                &&& o.1.bold == (r.1.bold && !shared_by_runs(runs(s), false))
                &&& o.1.italic == (r.1.italic && !shared_by_runs(runs(s), true))
            },
{
    let rs = runs(s);
    lemma_runs_match(s);
    if has_run(s) {
        lemma_runs_restyle(s, all_runs(s, false), all_runs(s, true));
    }
}

} // verus!
