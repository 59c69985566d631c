//! Note numbering: notes are numbered in the order the text first refers to
//! them, following references inside referenced notes as they come;
//! unreferenced notes follow at the end.
use vstd::prelude::*;
use crate::model::{
    Block, CellSlot, Document, Inline, ListItem, Note, grid_view, items_view, lemma_strings_push, SpecBlock, SpecInline, SpecItem, SpecNote, SpecSlot, block_view,
    blocks_view, inline_view, inlines_view, item_view, notes_view, row_view, slot_view, strings_view,
};
use crate::inline::{lemma_position_found, note_number, position};
use crate::text::{chars_of, trim, trim_chars};

verus! {

// ---------------------------------------------------------------------------
// Blank content

/// Inline content that shows nothing: blank text or a line break.
pub open spec fn inline_is_empty(i: SpecInline) -> bool {
    match i {
        SpecInline::Text { text, .. } => trim(text).len() == 0,
        SpecInline::LineBreak => true,
        _ => false,
    }
}

/// Every piece of the inline content shows nothing.
pub open spec fn inlines_empty(s: Seq<SpecInline>) -> bool {
    forall|k: int| 0 <= k < s.len() ==> inline_is_empty(#[trigger] s[k])
}

/// A paragraph of empty inline content.
pub open spec fn block_blank(b: SpecBlock) -> bool {
    match b {
        SpecBlock::Paragraph(s) => inlines_empty(s),
        _ => false,
    }
}

/// A note whose every block is blank (a note with no blocks among them).
pub open spec fn note_blank(n: SpecNote) -> bool {
    forall|k: int| 0 <= k < n.blocks.len() ==> block_blank(#[trigger] n.blocks[k])
}

/// Whether the inline content shows nothing.
pub fn inlines_are_empty(inlines: &Vec<Inline>) -> (b: bool)
    ensures
        b == inlines_empty(inlines_view(inlines@)),
{
    let ghost s = inlines_view(inlines@);
    let mut i: usize = 0;
    while i < inlines.len()
        invariant
            i <= inlines.len(),
            s == inlines_view(inlines@),
            forall|k: int| 0 <= k < i ==> inline_is_empty(#[trigger] s[k]),
        decreases inlines.len() - i,
    {
        assert(s[i as int] == inline_view(inlines@[i as int]));
        let e = match &inlines[i] {
            Inline::Text { text, .. } => {
                let t = chars_of(text.as_str());
                let tr = trim_chars(&t);
                tr.len() == 0
            },
            Inline::LineBreak => true,
            _ => false,
        };
        if !e {
            return false;
        }
        i = i + 1;
    }
    true
}

pub fn block_is_blank(block: &Block) -> (b: bool)
    ensures
        b == block_blank(block@),
{
    match block {
        Block::Paragraph(inlines) => inlines_are_empty(inlines),
        _ => false,
    }
}

fn note_is_blank(note: &Note) -> (b: bool)
    ensures
        b == note_blank(note@),
{
    let ghost s = note@.blocks;
    let mut i: usize = 0;
    while i < note.blocks.len()
        invariant
            i <= note.blocks.len(),
            s == note@.blocks,
            forall|k: int| 0 <= k < i ==> block_blank(#[trigger] s[k]),
        decreases note.blocks.len() - i,
    {
        assert(s[i as int] == block_view(note.blocks@[i as int]));
        if !block_is_blank(&note.blocks[i]) {
            return false;
        }
        i = i + 1;
    }
    true
}

// ---------------------------------------------------------------------------
// Lookups

/// The index of the note that an id refers to: the first note with that id
/// that is not blank. The first note wins a duplicated id.
pub open spec fn valid_note(notes: Seq<SpecNote>, id: Seq<char>) -> Option<nat>
    decreases notes.len(),
{
    if notes.len() == 0 {
        None
    } else if notes[0].id == id && !note_blank(notes[0]) {
        Some(0)
    } else {
        match valid_note(notes.drop_first(), id) {
            Some(k) => Some(k + 1),
            None => None,
        }
    }
}

pub proof fn lemma_valid_note(notes: Seq<SpecNote>, id: Seq<char>)
    ensures
        valid_note(notes, id) matches Some(k) ==> k < notes.len() && notes[k as int].id == id
            && !note_blank(notes[k as int]) && forall|j: int|
            0 <= j < k ==> !(notes[j].id == id && !note_blank(#[trigger] notes[j])),
        valid_note(notes, id) is None ==> forall|j: int|
            0 <= j < notes.len() ==> !(notes[j].id == id && !note_blank(#[trigger] notes[j])),
    decreases notes.len(),
{
    if notes.len() > 0 {
        lemma_valid_note(notes.drop_first(), id);
        assert forall|j: int| 1 <= j < notes.len() implies notes[j] == notes.drop_first()[j - 1] by {}
    }
}

/// The index of the note that `id` refers to, if any.
pub fn find_valid(notes: &Vec<Note>, id: &String) -> (r: Option<usize>)
    ensures
        match r {
            Some(k) => valid_note(notes_view(notes@), id@) == Some(k as nat),
            None => valid_note(notes_view(notes@), id@) is None,
        },
{
    let ghost ns = notes_view(notes@);
    let mut i: usize = 0;
    assert(ns.skip(0) =~= ns);
    while i < notes.len()
        invariant
            i <= notes.len(),
            ns == notes_view(notes@),
            valid_note(ns, id@) == match valid_note(ns.skip(i as int), id@) {
                Some(k) => Some((k + i) as nat),
                None => None::<nat>,
            },
        decreases notes.len() - i,
    {
        assert(ns[i as int] == notes@[i as int]@);
        assert(ns.skip(i as int)[0] == ns[i as int]);
        if notes[i].id == *id && !note_is_blank(&notes[i]) {
            return Some(i);
        }
        assert(ns.skip(i as int).drop_first() =~= ns.skip(i + 1));
        i = i + 1;
    }
    None
}

/// Whether `id` is in `order`.
pub fn contains_id(order: &Vec<String>, id: &String) -> (b: bool)
    ensures
        b == strings_view(order@).contains(id@),
{
    let ghost o = strings_view(order@);
    let mut i: usize = 0;
    while i < order.len()
        invariant
            i <= order.len(),
            o == strings_view(order@),
            forall|k: int| 0 <= k < i ==> o[k] != id@,
        decreases order.len() - i,
    {
        if order[i] == *id {
            assert(o[i as int] == id@);
            return true;
        }
        i = i + 1;
    }
    false
}

// ---------------------------------------------------------------------------
// The reference walk

/// The numbering order after meeting inline content: a reference to a
/// valid note whose id is not numbered yet numbers it, then walks the
/// note's own content. `fuel` bounds how deep such walks nest.
pub open spec fn walk_inline(
    i: SpecInline,
    notes: Seq<SpecNote>,
    order: Seq<Seq<char>>,
    fuel: nat,
) -> Seq<Seq<char>>
    decreases fuel, 0int, i,
{
    match i {
        SpecInline::NoteRef(id) => match valid_note(notes, id) {
            Some(k) => if order.contains(id) {
                order
            } else if fuel == 0 {
                order.push(id)
            } else {
                walk_blocks(notes[k as int].blocks, notes, order.push(id), (fuel - 1) as nat)
            },
            None => order,
        },
        SpecInline::Link { content, .. } => walk_inlines(content, notes, order, fuel),
        _ => order,
    }
}

pub open spec fn walk_inlines(
    s: Seq<SpecInline>,
    notes: Seq<SpecNote>,
    order: Seq<Seq<char>>,
    fuel: nat,
) -> Seq<Seq<char>>
    decreases fuel, 0int, s,
{
    if s.len() == 0 {
        order
    } else {
        walk_inlines(s.drop_first(), notes, walk_inline(s[0], notes, order, fuel), fuel)
    }
}

pub open spec fn walk_block(
    b: SpecBlock,
    notes: Seq<SpecNote>,
    order: Seq<Seq<char>>,
    fuel: nat,
) -> Seq<Seq<char>>
    decreases fuel, 1int, b,
{
    match b {
        SpecBlock::Paragraph(s) => walk_inlines(s, notes, order, fuel),
        SpecBlock::Heading { content, .. } => walk_inlines(content, notes, order, fuel),
        SpecBlock::List(l) => walk_items(l.items, notes, order, fuel),
        SpecBlock::Table(t) => walk_grid(t.grid, notes, order, fuel),
        SpecBlock::BlockQuote(bs) => walk_blocks(bs, notes, order, fuel),
        _ => order,
    }
}

/// The numbering order after walking blocks in reading order.
pub open spec fn walk_blocks(
    s: Seq<SpecBlock>,
    notes: Seq<SpecNote>,
    order: Seq<Seq<char>>,
    fuel: nat,
) -> Seq<Seq<char>>
    decreases fuel, 1int, s,
{
    if s.len() == 0 {
        order
    } else {
        walk_blocks(s.drop_first(), notes, walk_block(s[0], notes, order, fuel), fuel)
    }
}

pub open spec fn walk_items(
    s: Seq<SpecItem>,
    notes: Seq<SpecNote>,
    order: Seq<Seq<char>>,
    fuel: nat,
) -> Seq<Seq<char>>
    decreases fuel, 1int, s,
{
    if s.len() == 0 {
        order
    } else {
        walk_items(s.drop_first(), notes, walk_blocks(s[0].blocks, notes, order, fuel), fuel)
    }
}

pub open spec fn walk_row(
    s: Seq<SpecSlot>,
    notes: Seq<SpecNote>,
    order: Seq<Seq<char>>,
    fuel: nat,
) -> Seq<Seq<char>>
    decreases fuel, 1int, s,
{
    if s.len() == 0 {
        order
    } else {
        let next = match s[0] {
            SpecSlot::Origin(bs) => walk_blocks(bs, notes, order, fuel),
            SpecSlot::Covered => order,
        };
        walk_row(s.drop_first(), notes, next, fuel)
    }
}

pub open spec fn walk_grid(
    s: Seq<Seq<SpecSlot>>,
    notes: Seq<SpecNote>,
    order: Seq<Seq<char>>,
    fuel: nat,
) -> Seq<Seq<char>>
    decreases fuel, 1int, s,
{
    if s.len() == 0 {
        order
    } else {
        walk_grid(s.drop_first(), notes, walk_row(s[0], notes, order, fuel), fuel)
    }
}

/// Valid notes that no walk reached, appended in document order.
pub open spec fn add_unreferenced(
    all: Seq<SpecNote>,
    ns: Seq<SpecNote>,
    order: Seq<Seq<char>>,
) -> Seq<Seq<char>>
    decreases ns.len(),
{
    if ns.len() == 0 {
        order
    } else {
        let id = ns[0].id;
        let next = if valid_note(all, id) is Some && !order.contains(id) {
            order.push(id)
        } else {
            order
        };
        add_unreferenced(all, ns.drop_first(), next)
    }
}

/// The numbering of a document's notes: the ids in the order of their
/// numbers, 1 first.
pub open spec fn note_order(blocks: Seq<SpecBlock>, notes: Seq<SpecNote>) -> Seq<Seq<char>> {
    let referenced = walk_blocks(blocks, notes, Seq::empty(), notes.len());
    add_unreferenced(notes, notes, referenced)
}

// ---------------------------------------------------------------------------
// Executable walk

fn walk_inline_exec(i: &Inline, notes: &Vec<Note>, order: &mut Vec<String>, fuel: usize)
    ensures
        strings_view(final(order)@) == walk_inline(
            i@,
            notes_view(notes@),
            strings_view(old(order)@),
            fuel as nat,
        ),
    decreases fuel, 0int, i,
{
    match i {
        Inline::NoteRef(id) => {
            match find_valid(notes, id) {
                Some(k) => {
                    proof {
                        lemma_valid_note(notes_view(notes@), id@);
                    }
                    if !contains_id(order, id) {
                        let c = id.clone();
                        proof {
                            lemma_strings_push(order@, c);
                        }
                        order.push(c);
                        if fuel > 0 {
                            assert(notes_view(notes@)[k as int] == notes@[k as int]@);
                            collect_note_refs(&notes[k].blocks, notes, order, fuel - 1);
                        }
                    }
                },
                None => {},
            }
        },
        Inline::Link { content, .. } => walk_inlines_exec(content, notes, order, fuel),
        _ => {},
    }
}

fn walk_inlines_exec(v: &Vec<Inline>, notes: &Vec<Note>, order: &mut Vec<String>, fuel: usize)
    ensures
        strings_view(final(order)@) == walk_inlines(
            inlines_view(v@),
            notes_view(notes@),
            strings_view(old(order)@),
            fuel as nat,
        ),
    decreases fuel, 0int, v,
{
    let ghost s = inlines_view(v@);
    let ghost ns = notes_view(notes@);
    let ghost goal = walk_inlines(s, ns, strings_view(order@), fuel as nat);
    let mut i: usize = 0;
    assert(s.skip(0) =~= s);
    while i < v.len()
        invariant
            i <= v.len(),
            s == inlines_view(v@),
            ns == notes_view(notes@),
            goal == walk_inlines(s.skip(i as int), ns, strings_view(order@), fuel as nat),
        decreases v.len() - i,
    {
        assert(decreases_to!(v => v@[i as int]));
        assert(s.skip(i as int)[0] == inline_view(v@[i as int]));
        assert(s.skip(i as int).drop_first() =~= s.skip(i + 1));
        walk_inline_exec(&v[i], notes, order, fuel);
        i = i + 1;
    }
    assert(s.skip(v.len() as int) =~= Seq::<SpecInline>::empty());
}

fn walk_block_exec(b: &Block, notes: &Vec<Note>, order: &mut Vec<String>, fuel: usize)
    ensures
        strings_view(final(order)@) == walk_block(
            b@,
            notes_view(notes@),
            strings_view(old(order)@),
            fuel as nat,
        ),
    decreases fuel, 1int, b,
{
    match b {
        Block::Paragraph(s) => walk_inlines_exec(s, notes, order, fuel),
        Block::Heading { content, .. } => walk_inlines_exec(content, notes, order, fuel),
        Block::List(l) => {
            assert(decreases_to!(b => l.items));
            walk_items_exec(&l.items, notes, order, fuel)
        },
        Block::Table(t) => {
            assert(decreases_to!(b => t.grid));
            walk_grid_exec(&t.grid, notes, order, fuel)
        },
        Block::BlockQuote(bs) => collect_note_refs(bs, notes, order, fuel),
        _ => {},
    }
}

/// Walks `v` in document order and appends each valid note id at its first
/// reference, walking that note's own blocks in turn. `fuel` bounds how deep
/// note walks nest: from an order without repeated ids, any bound of at
/// least the number of notes gives the full walk (`law_walk_bound_suffices`);
/// a smaller one may stop following references early.
pub fn collect_note_refs(v: &Vec<Block>, notes: &Vec<Note>, order: &mut Vec<String>, fuel: usize)
    ensures
        strings_view(final(order)@) == walk_blocks(
            blocks_view(v@),
            notes_view(notes@),
            strings_view(old(order)@),
            fuel as nat,
        ),
    decreases fuel, 1int, v,
{
    let ghost s = blocks_view(v@);
    let ghost ns = notes_view(notes@);
    let ghost goal = walk_blocks(s, ns, strings_view(order@), fuel as nat);
    let mut i: usize = 0;
    assert(s.skip(0) =~= s);
    while i < v.len()
        invariant
            i <= v.len(),
            s == blocks_view(v@),
            ns == notes_view(notes@),
            goal == walk_blocks(s.skip(i as int), ns, strings_view(order@), fuel as nat),
        decreases v.len() - i,
    {
        assert(decreases_to!(v => v@[i as int]));
        assert(s.skip(i as int)[0] == block_view(v@[i as int]));
        assert(s.skip(i as int).drop_first() =~= s.skip(i + 1));
        walk_block_exec(&v[i], notes, order, fuel);
        i = i + 1;
    }
    assert(s.skip(v.len() as int) =~= Seq::<SpecBlock>::empty());
}

fn walk_items_exec(v: &Vec<ListItem>, notes: &Vec<Note>, order: &mut Vec<String>, fuel: usize)
    ensures
        strings_view(final(order)@) == walk_items(
            items_view(v@),
            notes_view(notes@),
            strings_view(old(order)@),
            fuel as nat,
        ),
    decreases fuel, 1int, v,
{
    let ghost s = items_view(v@);
    let ghost ns = notes_view(notes@);
    let ghost goal = walk_items(s, ns, strings_view(order@), fuel as nat);
    let mut i: usize = 0;
    assert(s.skip(0) =~= s);
    while i < v.len()
        invariant
            i <= v.len(),
            s == items_view(v@),
            ns == notes_view(notes@),
            goal == walk_items(s.skip(i as int), ns, strings_view(order@), fuel as nat),
        decreases v.len() - i,
    {
        assert(decreases_to!(v => v@[i as int]));
        assert(decreases_to!(v@[i as int] => v@[i as int].blocks));
        assert(s.skip(i as int)[0] == item_view(v@[i as int]));
        assert(s.skip(i as int).drop_first() =~= s.skip(i + 1));
        collect_note_refs(&v[i].blocks, notes, order, fuel);
        i = i + 1;
    }
    assert(s.skip(v.len() as int) =~= Seq::<SpecItem>::empty());
}

fn walk_row_exec(v: &Vec<CellSlot>, notes: &Vec<Note>, order: &mut Vec<String>, fuel: usize)
    ensures
        strings_view(final(order)@) == walk_row(
            row_view(v@),
            notes_view(notes@),
            strings_view(old(order)@),
            fuel as nat,
        ),
    decreases fuel, 1int, v,
{
    let ghost s = row_view(v@);
    let ghost ns = notes_view(notes@);
    let ghost goal = walk_row(s, ns, strings_view(order@), fuel as nat);
    let mut i: usize = 0;
    assert(s.skip(0) =~= s);
    while i < v.len()
        invariant
            i <= v.len(),
            s == row_view(v@),
            ns == notes_view(notes@),
            goal == walk_row(s.skip(i as int), ns, strings_view(order@), fuel as nat),
        decreases v.len() - i,
    {
        assert(decreases_to!(v => v@[i as int]));
        assert(s.skip(i as int)[0] == slot_view(v@[i as int]));
        assert(s.skip(i as int).drop_first() =~= s.skip(i + 1));
        match &v[i] {
            CellSlot::Origin(cell) => {
                assert(decreases_to!(v@[i as int] => cell.blocks));
                collect_note_refs(&cell.blocks, notes, order, fuel);
            },
            CellSlot::Covered => {},
        }
        i = i + 1;
    }
    assert(s.skip(v.len() as int) =~= Seq::<SpecSlot>::empty());
}

fn walk_grid_exec(v: &Vec<Vec<CellSlot>>, notes: &Vec<Note>, order: &mut Vec<String>, fuel: usize)
    ensures
        strings_view(final(order)@) == walk_grid(
            grid_view(v@),
            notes_view(notes@),
            strings_view(old(order)@),
            fuel as nat,
        ),
    decreases fuel, 1int, v,
{
    let ghost s = grid_view(v@);
    let ghost ns = notes_view(notes@);
    let ghost goal = walk_grid(s, ns, strings_view(order@), fuel as nat);
    let mut i: usize = 0;
    assert(s.skip(0) =~= s);
    while i < v.len()
        invariant
            i <= v.len(),
            s == grid_view(v@),
            ns == notes_view(notes@),
            goal == walk_grid(s.skip(i as int), ns, strings_view(order@), fuel as nat),
        decreases v.len() - i,
    {
        assert(decreases_to!(v => v@[i as int]));
        assert(s.skip(i as int)[0] == row_view(v@[i as int]@));
        assert(s.skip(i as int).drop_first() =~= s.skip(i + 1));
        walk_row_exec(&v[i], notes, order, fuel);
        i = i + 1;
    }
    assert(s.skip(v.len() as int) =~= Seq::<Seq<SpecSlot>>::empty());
}

/// Number notes in first-reference order; unreferenced notes follow at the
/// end. The first note wins a duplicated id. The result lists the ids in
/// the order of their numbers, 1 first.
pub fn number_notes(doc: &Document) -> (order: Vec<String>)
    ensures
        strings_view(order@) == note_order(doc@.blocks, doc@.notes),
{
    let ghost ns = notes_view(doc.notes@);
    let mut order: Vec<String> = Vec::new();
    assert(strings_view(order@) =~= Seq::<Seq<char>>::empty());
    collect_note_refs(&doc.blocks, &doc.notes, &mut order, doc.notes.len());
    let ghost goal = add_unreferenced(ns, ns, strings_view(order@));
    let mut i: usize = 0;
    assert(ns.skip(0) =~= ns);
    while i < doc.notes.len()
        invariant
            i <= doc.notes.len(),
            ns == notes_view(doc.notes@),
            goal == add_unreferenced(ns, ns.skip(i as int), strings_view(order@)),
        decreases doc.notes.len() - i,
    {
        let note = &doc.notes[i];
        assert(ns.skip(i as int)[0] == note@);
        assert(ns.skip(i as int).drop_first() =~= ns.skip(i + 1));
        let valid = find_valid(&doc.notes, &note.id).is_some();
        if valid && !contains_id(&order, &note.id) {
            let c = note.id.clone();
            proof {
                lemma_strings_push(order@, c);
            }
            order.push(c);
        }
        i = i + 1;
    }
    assert(ns.skip(doc.notes.len() as int) =~= Seq::<SpecNote>::empty());
    order
}

// ---------------------------------------------------------------------------
// Laws of the numbering

/// No id occurs twice.
pub open spec fn no_dups(s: Seq<Seq<char>>) -> bool {
    forall|i: int, j: int| 0 <= i < j < s.len() ==> s[i] != s[j]
}

/// Every id refers to a valid note.
pub open spec fn all_valid(s: Seq<Seq<char>>, notes: Seq<SpecNote>) -> bool {
    forall|i: int| 0 <= i < s.len() ==> (valid_note(notes, #[trigger] s[i]) is Some)
}

pub open spec fn numbering_ok(s: Seq<Seq<char>>, notes: Seq<SpecNote>) -> bool {
    no_dups(s) && all_valid(s, notes)
}

/// `a` is a prefix of `b`.
pub open spec fn is_prefix(a: Seq<Seq<char>>, b: Seq<Seq<char>>) -> bool {
    a.len() <= b.len() && b.take(a.len() as int) == a
}

proof fn lemma_prefix_trans(a: Seq<Seq<char>>, b: Seq<Seq<char>>, c: Seq<Seq<char>>)
    requires
        is_prefix(a, b),
        is_prefix(b, c),
    ensures
        is_prefix(a, c),
{
    assert(c.take(a.len() as int) =~= c.take(b.len() as int).take(a.len() as int));
}

proof fn lemma_push_ok(order: Seq<Seq<char>>, notes: Seq<SpecNote>, id: Seq<char>)
    requires
        no_dups(order),
        !order.contains(id),
        valid_note(notes, id) is Some,
    ensures
        grows(order, order.push(id), notes),
        numbering_ok(order, notes) ==> numbering_ok(order.push(id), notes),
{
    let o = order.push(id);
    assert forall|i: int, j: int| 0 <= i < j < o.len() implies o[i] != o[j] by {
        if j == order.len() {
            assert(order[i] == o[i]);
        }
    }
    assert forall|i: int| order.len() <= i < o.len() implies (valid_note(notes, #[trigger] o[i]) is Some) by {}
    if numbering_ok(order, notes) {
        assert forall|i: int| 0 <= i < o.len() implies (valid_note(notes, #[trigger] o[i]) is Some) by {
            if i < order.len() {
                assert(o[i] == order[i]);
            }
        }
    }
    assert(o.take(order.len() as int) =~= order);
}

/// The ids from position `n` on refer to valid notes.
pub open spec fn valid_from(s: Seq<Seq<char>>, n: int, notes: Seq<SpecNote>) -> bool {
    forall|i: int| n <= i < s.len() ==> (valid_note(notes, #[trigger] s[i]) is Some)
}

/// A walk's effect on the numbering order: the order it started from stays
/// as a prefix, no id occurs twice, and every id it added refers to a valid
/// note (and, ids not repeating, was not numbered before).
pub open spec fn grows(order: Seq<Seq<char>>, res: Seq<Seq<char>>, notes: Seq<SpecNote>) -> bool {
    &&& no_dups(res)
    &&& is_prefix(order, res)
    &&& valid_from(res, order.len() as int, notes)
}

proof fn lemma_grows_refl(order: Seq<Seq<char>>, notes: Seq<SpecNote>)
    requires
        no_dups(order),
    ensures
        grows(order, order, notes),
{
    lemma_prefix_refl(order);
}

proof fn lemma_grows_trans(
    a: Seq<Seq<char>>,
    b: Seq<Seq<char>>,
    c: Seq<Seq<char>>,
    notes: Seq<SpecNote>,
)
    requires
        grows(a, b, notes),
        grows(b, c, notes),
    ensures
        grows(a, c, notes),
{
    lemma_prefix_trans(a, b, c);
    assert forall|i: int| a.len() <= i < c.len() implies (valid_note(notes, #[trigger] c[i]) is Some) by {
        if i < b.len() {
            assert(c[i] == c.take(b.len() as int)[i]);
        }
    }
}

proof fn lemma_grows_from(
    order: Seq<Seq<char>>,
    res: Seq<Seq<char>>,
    base: nat,
    notes: Seq<SpecNote>,
)
    requires
        grows(order, res, notes),
        base <= order.len(),
        valid_from(order, base as int, notes),
    ensures
        valid_from(res, base as int, notes),
        order.len() <= res.len(),
{
    assert forall|i: int| base <= i < res.len() implies (valid_note(notes, #[trigger] res[i]) is Some) by {
        if i < order.len() {
            assert(res[i] == res.take(order.len() as int)[i]);
        }
    }
}

/// The ids from `base` on, in an order without repeated ids whose ids from
/// `base` on are valid, form a numbering of their own.
proof fn lemma_skip_ok(o: Seq<Seq<char>>, base: nat, notes: Seq<SpecNote>)
    requires
        no_dups(o),
        base <= o.len(),
        valid_from(o, base as int, notes),
    ensures
        numbering_ok(o.skip(base as int), notes),
{
    let t = o.skip(base as int);
    assert forall|i: int, j: int| 0 <= i < j < t.len() implies t[i] != t[j] by {
        assert(t[i] == o[i + base]);
        assert(t[j] == o[j + base]);
    }
    assert forall|i: int| 0 <= i < t.len() implies (valid_note(notes, #[trigger] t[i]) is Some) by {
        assert(t[i] == o[i + base]);
    }
}

/// Walking blocks for note references, from any numbering order without
/// repeated ids: that order stays as a prefix, no id is repeated, and every
/// added id refers to a valid note and was not in the order before.
pub proof fn law_collect_note_refs(
    blocks: Seq<SpecBlock>,
    notes: Seq<SpecNote>,
    order: Seq<Seq<char>>,
    fuel: nat,
)
    requires
        no_dups(order),
    ensures
        is_prefix(order, walk_blocks(blocks, notes, order, fuel)),
        no_dups(walk_blocks(blocks, notes, order, fuel)),
        forall|i: int|
            order.len() <= i < walk_blocks(blocks, notes, order, fuel).len() ==> (valid_note(
                notes,
                #[trigger] walk_blocks(blocks, notes, order, fuel)[i],
            ) is Some) && !order.contains(walk_blocks(blocks, notes, order, fuel)[i]),
{
    lemma_walk_blocks(blocks, notes, order, fuel);
    let r = walk_blocks(blocks, notes, order, fuel);
    assert forall|i: int| order.len() <= i < r.len() implies !order.contains(#[trigger] r[i]) by {
        if order.contains(r[i]) {
            let j = choose|j: int| 0 <= j < order.len() && order[j] == r[i];
            assert(r[j] == r.take(order.len() as int)[j]);
        }
    }
}

proof fn lemma_prefix_refl(a: Seq<Seq<char>>)
    ensures
        is_prefix(a, a),
{
    assert(a.take(a.len() as int) =~= a);
}

pub proof fn lemma_walk_inline(i: SpecInline, notes: Seq<SpecNote>, order: Seq<Seq<char>>, fuel: nat)
    requires
        no_dups(order),
    ensures
        grows(order, walk_inline(i, notes, order, fuel), notes),
    decreases fuel, 0int, i,
{
    lemma_grows_refl(order, notes);
    match i {
        SpecInline::NoteRef(id) => match valid_note(notes, id) {
            Some(k) => {
                if !order.contains(id) {
                    lemma_push_ok(order, notes, id);
                    if fuel > 0 {
                        lemma_valid_note(notes, id);
                        lemma_walk_blocks(notes[k as int].blocks, notes, order.push(id), (fuel - 1) as nat);
                        lemma_grows_trans(order, order.push(id), walk_inline(i, notes, order, fuel), notes);
                    }
                }
            },
            None => {},
        },
        SpecInline::Link { content, .. } => {
            lemma_walk_inlines(content, notes, order, fuel);
        },
        _ => {},
    }
}

pub proof fn lemma_walk_inlines(s: Seq<SpecInline>, notes: Seq<SpecNote>, order: Seq<Seq<char>>, fuel: nat)
    requires
        no_dups(order),
    ensures
        grows(order, walk_inlines(s, notes, order, fuel), notes),
    decreases fuel, 0int, s,
{
    lemma_grows_refl(order, notes);
    if s.len() > 0 {
        let mid = walk_inline(s[0], notes, order, fuel);
        lemma_walk_inline(s[0], notes, order, fuel);
        lemma_walk_inlines(s.drop_first(), notes, mid, fuel);
        lemma_grows_trans(order, mid, walk_inlines(s, notes, order, fuel), notes);
    }
}

pub proof fn lemma_walk_block(b: SpecBlock, notes: Seq<SpecNote>, order: Seq<Seq<char>>, fuel: nat)
    requires
        no_dups(order),
    ensures
        grows(order, walk_block(b, notes, order, fuel), notes),
    decreases fuel, 1int, b,
{
    lemma_grows_refl(order, notes);
    match b {
        SpecBlock::Paragraph(s) => lemma_walk_inlines(s, notes, order, fuel),
        SpecBlock::Heading { content, .. } => lemma_walk_inlines(content, notes, order, fuel),
        SpecBlock::List(l) => lemma_walk_items(l.items, notes, order, fuel),
        SpecBlock::Table(t) => lemma_walk_grid(t.grid, notes, order, fuel),
        SpecBlock::BlockQuote(bs) => lemma_walk_blocks(bs, notes, order, fuel),
        _ => {},
    }
}

pub proof fn lemma_walk_blocks(s: Seq<SpecBlock>, notes: Seq<SpecNote>, order: Seq<Seq<char>>, fuel: nat)
    requires
        no_dups(order),
    ensures
        grows(order, walk_blocks(s, notes, order, fuel), notes),
    decreases fuel, 1int, s,
{
    lemma_grows_refl(order, notes);
    if s.len() > 0 {
        let mid = walk_block(s[0], notes, order, fuel);
        lemma_walk_block(s[0], notes, order, fuel);
        lemma_walk_blocks(s.drop_first(), notes, mid, fuel);
        lemma_grows_trans(order, mid, walk_blocks(s, notes, order, fuel), notes);
    }
}

pub proof fn lemma_walk_items(s: Seq<SpecItem>, notes: Seq<SpecNote>, order: Seq<Seq<char>>, fuel: nat)
    requires
        no_dups(order),
    ensures
        grows(order, walk_items(s, notes, order, fuel), notes),
    decreases fuel, 1int, s,
{
    lemma_grows_refl(order, notes);
    if s.len() > 0 {
        let mid = walk_blocks(s[0].blocks, notes, order, fuel);
        lemma_walk_blocks(s[0].blocks, notes, order, fuel);
        lemma_walk_items(s.drop_first(), notes, mid, fuel);
        lemma_grows_trans(order, mid, walk_items(s, notes, order, fuel), notes);
    }
}

pub proof fn lemma_walk_row(s: Seq<SpecSlot>, notes: Seq<SpecNote>, order: Seq<Seq<char>>, fuel: nat)
    requires
        no_dups(order),
    ensures
        grows(order, walk_row(s, notes, order, fuel), notes),
    decreases fuel, 1int, s,
{
    lemma_grows_refl(order, notes);
    if s.len() > 0 {
        let mid = match s[0] {
            SpecSlot::Origin(bs) => walk_blocks(bs, notes, order, fuel),
            SpecSlot::Covered => order,
        };
        match s[0] {
            SpecSlot::Origin(bs) => lemma_walk_blocks(bs, notes, order, fuel),
            SpecSlot::Covered => {},
        }
        lemma_walk_row(s.drop_first(), notes, mid, fuel);
        lemma_grows_trans(order, mid, walk_row(s, notes, order, fuel), notes);
    }
}

pub proof fn lemma_walk_grid(s: Seq<Seq<SpecSlot>>, notes: Seq<SpecNote>, order: Seq<Seq<char>>, fuel: nat)
    requires
        no_dups(order),
    ensures
        grows(order, walk_grid(s, notes, order, fuel), notes),
    decreases fuel, 1int, s,
{
    lemma_grows_refl(order, notes);
    if s.len() > 0 {
        let mid = walk_row(s[0], notes, order, fuel);
        lemma_walk_row(s[0], notes, order, fuel);
        lemma_walk_grid(s.drop_first(), notes, mid, fuel);
        lemma_grows_trans(order, mid, walk_grid(s, notes, order, fuel), notes);
    }
}

proof fn lemma_add_unreferenced(all: Seq<SpecNote>, ns: Seq<SpecNote>, order: Seq<Seq<char>>)
    requires
        numbering_ok(order, all),
    ensures
        numbering_ok(add_unreferenced(all, ns, order), all),
        is_prefix(order, add_unreferenced(all, ns, order)),
        forall|k: int|
            0 <= k < ns.len() && (valid_note(all, #[trigger] ns[k].id) is Some) ==> add_unreferenced(
                all,
                ns,
                order,
            ).contains(ns[k].id),
    decreases ns.len(),
{
    lemma_prefix_refl(order);
    if ns.len() > 0 {
        let id = ns[0].id;
        let next = if valid_note(all, id) is Some && !order.contains(id) {
            order.push(id)
        } else {
            order
        };
        if valid_note(all, id) is Some && !order.contains(id) {
            lemma_push_ok(order, all, id);
        }
        lemma_add_unreferenced(all, ns.drop_first(), next);
        let r = add_unreferenced(all, ns, order);
        lemma_prefix_trans(order, next, r);
        assert forall|k: int|
            0 <= k < ns.len() && (valid_note(all, #[trigger] ns[k].id) is Some) implies r.contains(
            ns[k].id) by {
            if k == 0 {
                if order.contains(id) {
                    let j = choose|j: int| 0 <= j < order.len() && order[j] == id;
                    assert(r[j] == r.take(order.len() as int)[j]);
                } else {
                    assert(next[order.len() as int] == id);
                    assert(r[order.len() as int] == r.take(next.len() as int)[order.len() as int]);
                }
            } else {
                assert(ns[k] == ns.drop_first()[k - 1]);
            }
        }
    }
}

/// Numbering is one to one: every note id that refers to a valid note
/// (the first non-blank note with that id) gets exactly one number, no
/// other id gets one, and the ids that the text reaches, in the order it
/// first reaches them, hold the first numbers; unreferenced notes follow.
pub proof fn law_note_numbering(blocks: Seq<SpecBlock>, notes: Seq<SpecNote>)
    ensures
        no_dups(note_order(blocks, notes)),
        forall|id: Seq<char>|
            #![trigger note_order(blocks, notes).contains(id)]
            note_order(blocks, notes).contains(id) <==> valid_note(notes, id) is Some,
        is_prefix(walk_blocks(blocks, notes, Seq::empty(), notes.len()), note_order(blocks, notes)),
{
    let empty = Seq::<Seq<char>>::empty();
    let r = walk_blocks(blocks, notes, empty, notes.len());
    lemma_walk_blocks(blocks, notes, empty, notes.len());
    lemma_add_unreferenced(notes, notes, r);
    let o = note_order(blocks, notes);
    assert forall|id: Seq<char>| #![trigger o.contains(id)] o.contains(id) <==> valid_note(notes, id) is Some by {
        if o.contains(id) {
            let j = choose|j: int| 0 <= j < o.len() && o[j] == id;
            assert(valid_note(notes, o[j]) is Some);
        }
        if valid_note(notes, id) is Some {
            lemma_valid_note(notes, id);
            let k = valid_note(notes, id).unwrap();
            assert(notes[k as int].id == id);
        }
    }
}

proof fn lemma_numbering_len(o: Seq<Seq<char>>, notes: Seq<SpecNote>)
    requires
        numbering_ok(o, notes),
    ensures
        o.len() <= notes.len(),
{
    broadcast use vstd::set::group_set_axioms, vstd::seq_lib::seq_to_set_is_finite;

    assert(o.no_duplicates()) by {
        assert forall|i: int, j: int|
            0 <= i < o.len() && 0 <= j < o.len() && i != j implies o[i] != o[j] by {
            if i > j {
                assert(o[j] != o[i]);
            }
        }
    }
    o.unique_seq_to_set();
    let x = o.to_set();
    let f = |id: Seq<char>| valid_note(notes, id).unwrap() as int;
    assert(vstd::relations::injective_on(f, x)) by {
        assert forall|a: Seq<char>, b: Seq<char>| x.contains(a) && x.contains(b) && #[trigger] f(a)
            == #[trigger] f(b) implies a == b by {
            let ia = choose|i: int| 0 <= i < o.len() && o[i] == a;
            let ib = choose|i: int| 0 <= i < o.len() && o[i] == b;
            assert(valid_note(notes, o[ia]) is Some);
            assert(valid_note(notes, o[ib]) is Some);
            lemma_valid_note(notes, a);
            lemma_valid_note(notes, b);
        }
    }
    let y = x.map(f);
    vstd::set_lib::lemma_map_size(x, y, f);
    let range = vstd::set_lib::set_int_range(0, notes.len() as int);
    vstd::set_lib::lemma_int_range(0, notes.len() as int);
    assert(y.subset_of(range)) by {
        assert forall|v: int| y.contains(v) implies range.contains(v) by {
            let a = choose|a: Seq<char>| x.contains(a) && f(a) == v;
            let ia = choose|i: int| 0 <= i < o.len() && o[i] == a;
            assert(valid_note(notes, o[ia]) is Some);
            lemma_valid_note(notes, a);
        }
    }
    vstd::set_lib::lemma_len_subset(y, range);
}

pub proof fn lemma_fuel_inline(
    i: SpecInline,
    notes: Seq<SpecNote>,
    order: Seq<Seq<char>>,
    f: nat,
    g: nat,
    base: nat,
)
    requires
        no_dups(order),
        base <= order.len(),
        valid_from(order, base as int, notes),
        f + order.len() >= notes.len() + base,
        g + order.len() >= notes.len() + base,
    ensures
        walk_inline(i, notes, order, f) == walk_inline(i, notes, order, g),
    decreases f, 0int, i,
{
    match i {
        SpecInline::NoteRef(id) => match valid_note(notes, id) {
            Some(k) => {
                if !order.contains(id) {
                    lemma_push_ok(order, notes, id);
                    lemma_grows_from(order, order.push(id), base, notes);
                    lemma_skip_ok(order.push(id), base, notes);
                    lemma_numbering_len(order.push(id).skip(base as int), notes);
                    lemma_valid_note(notes, id);
                    lemma_fuel_blocks(
                        notes[k as int].blocks,
                        notes,
                        order.push(id),
                        (f - 1) as nat,
                        (g - 1) as nat,
                        base,
                    );
                }
            },
            None => {},
        },
        SpecInline::Link { content, .. } => {
            lemma_fuel_inlines(content, notes, order, f, g, base);
        },
        _ => {},
    }
}

pub proof fn lemma_fuel_inlines(
    s: Seq<SpecInline>,
    notes: Seq<SpecNote>,
    order: Seq<Seq<char>>,
    f: nat,
    g: nat,
    base: nat,
)
    requires
        no_dups(order),
        base <= order.len(),
        valid_from(order, base as int, notes),
        f + order.len() >= notes.len() + base,
        g + order.len() >= notes.len() + base,
    ensures
        walk_inlines(s, notes, order, f) == walk_inlines(s, notes, order, g),
    decreases f, 0int, s,
{
    if s.len() > 0 {
        lemma_fuel_inline(s[0], notes, order, f, g, base);
        lemma_walk_inline(s[0], notes, order, f);
        let mid = walk_inline(s[0], notes, order, f);
        lemma_grows_from(order, mid, base, notes);
        lemma_fuel_inlines(s.drop_first(), notes, mid, f, g, base);
    }
}

pub proof fn lemma_fuel_block(b: SpecBlock, notes: Seq<SpecNote>, order: Seq<Seq<char>>, f: nat, g: nat, base: nat)
    requires
        no_dups(order),
        base <= order.len(),
        valid_from(order, base as int, notes),
        f + order.len() >= notes.len() + base,
        g + order.len() >= notes.len() + base,
    ensures
        walk_block(b, notes, order, f) == walk_block(b, notes, order, g),
    decreases f, 1int, b,
{
    match b {
        SpecBlock::Paragraph(s) => lemma_fuel_inlines(s, notes, order, f, g, base),
        SpecBlock::Heading { content, .. } => lemma_fuel_inlines(content, notes, order, f, g, base),
        SpecBlock::List(l) => lemma_fuel_items(l.items, notes, order, f, g, base),
        SpecBlock::Table(t) => lemma_fuel_grid(t.grid, notes, order, f, g, base),
        SpecBlock::BlockQuote(bs) => lemma_fuel_blocks(bs, notes, order, f, g, base),
        _ => {},
    }
}

pub proof fn lemma_fuel_blocks(
    s: Seq<SpecBlock>,
    notes: Seq<SpecNote>,
    order: Seq<Seq<char>>,
    f: nat,
    g: nat,
    base: nat,
)
    requires
        no_dups(order),
        base <= order.len(),
        valid_from(order, base as int, notes),
        f + order.len() >= notes.len() + base,
        g + order.len() >= notes.len() + base,
    ensures
        walk_blocks(s, notes, order, f) == walk_blocks(s, notes, order, g),
    decreases f, 1int, s,
{
    if s.len() > 0 {
        lemma_fuel_block(s[0], notes, order, f, g, base);
        lemma_walk_block(s[0], notes, order, f);
        let mid = walk_block(s[0], notes, order, f);
        lemma_grows_from(order, mid, base, notes);
        lemma_fuel_blocks(s.drop_first(), notes, mid, f, g, base);
    }
}

pub proof fn lemma_fuel_items(
    s: Seq<SpecItem>,
    notes: Seq<SpecNote>,
    order: Seq<Seq<char>>,
    f: nat,
    g: nat,
    base: nat,
)
    requires
        no_dups(order),
        base <= order.len(),
        valid_from(order, base as int, notes),
        f + order.len() >= notes.len() + base,
        g + order.len() >= notes.len() + base,
    ensures
        walk_items(s, notes, order, f) == walk_items(s, notes, order, g),
    decreases f, 1int, s,
{
    if s.len() > 0 {
        lemma_fuel_blocks(s[0].blocks, notes, order, f, g, base);
        lemma_walk_blocks(s[0].blocks, notes, order, f);
        let mid = walk_blocks(s[0].blocks, notes, order, f);
        lemma_grows_from(order, mid, base, notes);
        lemma_fuel_items(s.drop_first(), notes, mid, f, g, base);
    }
}

pub proof fn lemma_fuel_row(
    s: Seq<SpecSlot>,
    notes: Seq<SpecNote>,
    order: Seq<Seq<char>>,
    f: nat,
    g: nat,
    base: nat,
)
    requires
        no_dups(order),
        base <= order.len(),
        valid_from(order, base as int, notes),
        f + order.len() >= notes.len() + base,
        g + order.len() >= notes.len() + base,
    ensures
        walk_row(s, notes, order, f) == walk_row(s, notes, order, g),
    decreases f, 1int, s,
{
    if s.len() > 0 {
        match s[0] {
            SpecSlot::Origin(bs) => {
                lemma_fuel_blocks(bs, notes, order, f, g, base);
                lemma_walk_blocks(bs, notes, order, f);
            },
            SpecSlot::Covered => {
                lemma_prefix_refl(order);
            },
        }
        let mid = match s[0] {
            SpecSlot::Origin(bs) => walk_blocks(bs, notes, order, f),
            SpecSlot::Covered => order,
        };
        lemma_grows_from(order, mid, base, notes);
        lemma_fuel_row(s.drop_first(), notes, mid, f, g, base);
    }
}

pub proof fn lemma_fuel_grid(
    s: Seq<Seq<SpecSlot>>,
    notes: Seq<SpecNote>,
    order: Seq<Seq<char>>,
    f: nat,
    g: nat,
    base: nat,
)
    requires
        no_dups(order),
        base <= order.len(),
        valid_from(order, base as int, notes),
        f + order.len() >= notes.len() + base,
        g + order.len() >= notes.len() + base,
    ensures
        walk_grid(s, notes, order, f) == walk_grid(s, notes, order, g),
    decreases f, 1int, s,
{
    if s.len() > 0 {
        lemma_fuel_row(s[0], notes, order, f, g, base);
        lemma_walk_row(s[0], notes, order, f);
        let mid = walk_row(s[0], notes, order, f);
        lemma_grows_from(order, mid, base, notes);
        lemma_fuel_grid(s.drop_first(), notes, mid, f, g, base);
    }
}

/// The walk follows each valid note at most once, and there are no more
/// valid notes than notes, so the bound on nested walks never cuts a walk
/// short: from any numbering order without repeated ids, any bound from the
/// number of notes on gives the same numbering.
pub proof fn law_walk_bound_suffices(
    blocks: Seq<SpecBlock>,
    notes: Seq<SpecNote>,
    order: Seq<Seq<char>>,
    fuel: nat,
)
    requires
        no_dups(order),
        fuel >= notes.len(),
    ensures
        walk_blocks(blocks, notes, order, fuel) == walk_blocks(blocks, notes, order, notes.len()),
{
    lemma_fuel_blocks(blocks, notes, order, fuel, notes.len(), order.len());
}

/// Note numbers as the text shows them: an id has a number exactly when it
/// refers to a valid note, numbers run from 1 to the count of numbered
/// notes, and different ids never share a number.
pub proof fn law_note_numbers(blocks: Seq<SpecBlock>, notes: Seq<SpecNote>, a: Seq<char>, b: Seq<char>)
    ensures
        note_number(note_order(blocks, notes), a) is Some <==> valid_note(notes, a) is Some,
        note_number(note_order(blocks, notes), a) matches Some(n) ==> 1 <= n <= note_order(
            blocks,
            notes,
        ).len(),
        a != b && note_number(note_order(blocks, notes), a) is Some ==> note_number(
            note_order(blocks, notes),
            a,
        ) != note_number(note_order(blocks, notes), b),
{
    let o = note_order(blocks, notes);
    law_note_numbering(blocks, notes);
    lemma_position_found(o, a);
    lemma_position_found(o, b);
    assert(o.contains(a) <==> valid_note(notes, a) is Some);
}

// ---------------------------------------------------------------------------
// References in reading order

/// The note ids that inline content references, in reading order, links
/// included.
pub open spec fn inline_refs(i: SpecInline) -> Seq<Seq<char>>
    decreases i,
{
    match i {
        SpecInline::NoteRef(id) => seq![id],
        SpecInline::Link { content, .. } => inlines_refs(content),
        _ => Seq::empty(),
    }
}

pub open spec fn inlines_refs(s: Seq<SpecInline>) -> Seq<Seq<char>>
    decreases s,
{
    if s.len() == 0 {
        Seq::empty()
    } else {
        inline_refs(s[0]) + inlines_refs(s.drop_first())
    }
}

/// The note ids that a block references, in reading order: the text of
/// headings and paragraphs, list items, table cells and quoted blocks.
pub open spec fn block_refs(b: SpecBlock) -> Seq<Seq<char>>
    decreases b,
{
    match b {
        SpecBlock::Paragraph(s) => inlines_refs(s),
        SpecBlock::Heading { content, .. } => inlines_refs(content),
        SpecBlock::List(l) => items_refs(l.items),
        SpecBlock::Table(t) => grid_refs(t.grid),
        SpecBlock::BlockQuote(bs) => blocks_refs(bs),
        _ => Seq::empty(),
    }
}

pub open spec fn blocks_refs(s: Seq<SpecBlock>) -> Seq<Seq<char>>
    decreases s,
{
    if s.len() == 0 {
        Seq::empty()
    } else {
        block_refs(s[0]) + blocks_refs(s.drop_first())
    }
}

pub open spec fn items_refs(s: Seq<SpecItem>) -> Seq<Seq<char>>
    decreases s,
{
    if s.len() == 0 {
        Seq::empty()
    } else {
        blocks_refs(s[0].blocks) + items_refs(s.drop_first())
    }
}

pub open spec fn row_refs(s: Seq<SpecSlot>) -> Seq<Seq<char>>
    decreases s,
{
    if s.len() == 0 {
        Seq::empty()
    } else {
        (match s[0] {
            SpecSlot::Origin(bs) => blocks_refs(bs),
            SpecSlot::Covered => Seq::empty(),
        }) + row_refs(s.drop_first())
    }
}

pub open spec fn grid_refs(s: Seq<Seq<SpecSlot>>) -> Seq<Seq<char>>
    decreases s,
{
    if s.len() == 0 {
        Seq::empty()
    } else {
        row_refs(s[0]) + grid_refs(s.drop_first())
    }
}

/// Every valid note id in `refs` is numbered in `out`.
pub open spec fn numbers_refs(refs: Seq<Seq<char>>, notes: Seq<SpecNote>, out: Seq<Seq<char>>) -> bool {
    forall|j: int|
        0 <= j < refs.len() && (valid_note(notes, #[trigger] refs[j]) is Some) ==> out.contains(refs[j])
}

proof fn lemma_prefix_contains(a: Seq<Seq<char>>, b: Seq<Seq<char>>, id: Seq<char>)
    requires
        is_prefix(a, b),
        a.contains(id),
    ensures
        b.contains(id),
{
    let j = choose|j: int| 0 <= j < a.len() && a[j] == id;
    assert(b[j] == b.take(a.len() as int)[j]);
}

proof fn lemma_numbers_grow(refs: Seq<Seq<char>>, notes: Seq<SpecNote>, a: Seq<Seq<char>>, b: Seq<Seq<char>>)
    requires
        numbers_refs(refs, notes, a),
        is_prefix(a, b),
    ensures
        numbers_refs(refs, notes, b),
{
    assert forall|j: int| 0 <= j < refs.len() && (valid_note(notes, #[trigger] refs[j]) is Some) implies b.contains(
        refs[j],
    ) by {
        lemma_prefix_contains(a, b, refs[j]);
    }
}

proof fn lemma_numbers_concat(
    x: Seq<Seq<char>>,
    y: Seq<Seq<char>>,
    notes: Seq<SpecNote>,
    out: Seq<Seq<char>>,
)
    requires
        numbers_refs(x, notes, out),
        numbers_refs(y, notes, out),
    ensures
        numbers_refs(x + y, notes, out),
{
    let z = x + y;
    assert forall|j: int| 0 <= j < z.len() && (valid_note(notes, #[trigger] z[j]) is Some) implies out.contains(
        z[j],
    ) by {
        if j < x.len() {
            assert(z[j] == x[j]);
        } else {
            assert(z[j] == y[j - x.len()]);
        }
    }
}

/// Walking a sequence numbers its first element's references, then the
/// rest's, from the order the first left.
proof fn lemma_seq_numbers(
    first: Seq<Seq<char>>,
    rest: Seq<Seq<char>>,
    notes: Seq<SpecNote>,
    mid: Seq<Seq<char>>,
    out: Seq<Seq<char>>,
)
    requires
        numbers_refs(first, notes, mid),
        is_prefix(mid, out),
        numbers_refs(rest, notes, out),
    ensures
        numbers_refs(first + rest, notes, out),
{
    lemma_numbers_grow(first, notes, mid, out);
    lemma_numbers_concat(first, rest, notes, out);
}

proof fn lemma_refs_inline(i: SpecInline, notes: Seq<SpecNote>, order: Seq<Seq<char>>, fuel: nat)
    requires
        no_dups(order),
    ensures
        numbers_refs(inline_refs(i), notes, walk_inline(i, notes, order, fuel)),
    decreases i,
{
    lemma_walk_inline(i, notes, order, fuel);
    match i {
        SpecInline::NoteRef(id) => {
            let out = walk_inline(i, notes, order, fuel);
            let r = inline_refs(i);
            if valid_note(notes, id) is Some {
                if order.contains(id) {
                    assert(out == order);
                } else {
                    lemma_push_ok(order, notes, id);
                    let p = order.push(id);
                    assert(p[order.len() as int] == id);
                    if fuel > 0 {
                        let k = valid_note(notes, id).unwrap();
                        lemma_walk_blocks(notes[k as int].blocks, notes, p, (fuel - 1) as nat);
                        lemma_prefix_contains(p, out, id);
                    }
                }
            }
            assert forall|j: int| 0 <= j < r.len() && (valid_note(notes, #[trigger] r[j]) is Some) implies out.contains(
                r[j],
            ) by {
                assert(r[j] == id);
            }
        },
        SpecInline::Link { content, .. } => {
            lemma_refs_inlines(content, notes, order, fuel);
        },
        _ => {},
    }
}

proof fn lemma_refs_inlines(s: Seq<SpecInline>, notes: Seq<SpecNote>, order: Seq<Seq<char>>, fuel: nat)
    requires
        no_dups(order),
    ensures
        numbers_refs(inlines_refs(s), notes, walk_inlines(s, notes, order, fuel)),
    decreases s,
{
    if s.len() > 0 {
        let mid = walk_inline(s[0], notes, order, fuel);
        lemma_refs_inline(s[0], notes, order, fuel);
        lemma_walk_inline(s[0], notes, order, fuel);
        lemma_refs_inlines(s.drop_first(), notes, mid, fuel);
        lemma_walk_inlines(s.drop_first(), notes, mid, fuel);
        lemma_seq_numbers(
            inline_refs(s[0]),
            inlines_refs(s.drop_first()),
            notes,
            mid,
            walk_inlines(s, notes, order, fuel),
        );
    }
}

proof fn lemma_refs_block(b: SpecBlock, notes: Seq<SpecNote>, order: Seq<Seq<char>>, fuel: nat)
    requires
        no_dups(order),
    ensures
        numbers_refs(block_refs(b), notes, walk_block(b, notes, order, fuel)),
    decreases b,
{
    match b {
        SpecBlock::Paragraph(s) => lemma_refs_inlines(s, notes, order, fuel),
        SpecBlock::Heading { content, .. } => lemma_refs_inlines(content, notes, order, fuel),
        SpecBlock::List(l) => lemma_refs_items(l.items, notes, order, fuel),
        SpecBlock::Table(t) => lemma_refs_grid(t.grid, notes, order, fuel),
        SpecBlock::BlockQuote(bs) => lemma_refs_blocks(bs, notes, order, fuel),
        _ => {},
    }
}

proof fn lemma_refs_blocks(s: Seq<SpecBlock>, notes: Seq<SpecNote>, order: Seq<Seq<char>>, fuel: nat)
    requires
        no_dups(order),
    ensures
        numbers_refs(blocks_refs(s), notes, walk_blocks(s, notes, order, fuel)),
    decreases s,
{
    if s.len() > 0 {
        let mid = walk_block(s[0], notes, order, fuel);
        lemma_refs_block(s[0], notes, order, fuel);
        lemma_walk_block(s[0], notes, order, fuel);
        lemma_refs_blocks(s.drop_first(), notes, mid, fuel);
        lemma_walk_blocks(s.drop_first(), notes, mid, fuel);
        lemma_seq_numbers(
            block_refs(s[0]),
            blocks_refs(s.drop_first()),
            notes,
            mid,
            walk_blocks(s, notes, order, fuel),
        );
    }
}

proof fn lemma_refs_items(s: Seq<SpecItem>, notes: Seq<SpecNote>, order: Seq<Seq<char>>, fuel: nat)
    requires
        no_dups(order),
    ensures
        numbers_refs(items_refs(s), notes, walk_items(s, notes, order, fuel)),
    decreases s,
{
    if s.len() > 0 {
        let mid = walk_blocks(s[0].blocks, notes, order, fuel);
        lemma_refs_blocks(s[0].blocks, notes, order, fuel);
        lemma_walk_blocks(s[0].blocks, notes, order, fuel);
        lemma_refs_items(s.drop_first(), notes, mid, fuel);
        lemma_walk_items(s.drop_first(), notes, mid, fuel);
        lemma_seq_numbers(
            blocks_refs(s[0].blocks),
            items_refs(s.drop_first()),
            notes,
            mid,
            walk_items(s, notes, order, fuel),
        );
    }
}

proof fn lemma_refs_row(s: Seq<SpecSlot>, notes: Seq<SpecNote>, order: Seq<Seq<char>>, fuel: nat)
    requires
        no_dups(order),
    ensures
        numbers_refs(row_refs(s), notes, walk_row(s, notes, order, fuel)),
    decreases s,
{
    if s.len() > 0 {
        let mid = match s[0] {
            SpecSlot::Origin(bs) => walk_blocks(bs, notes, order, fuel),
            SpecSlot::Covered => order,
        };
        let first = match s[0] {
            SpecSlot::Origin(bs) => blocks_refs(bs),
            SpecSlot::Covered => Seq::empty(),
        };
        match s[0] {
            SpecSlot::Origin(bs) => {
                lemma_refs_blocks(bs, notes, order, fuel);
                lemma_walk_blocks(bs, notes, order, fuel);
            },
            SpecSlot::Covered => {
                lemma_grows_refl(order, notes);
            },
        }
        lemma_refs_row(s.drop_first(), notes, mid, fuel);
        lemma_walk_row(s.drop_first(), notes, mid, fuel);
        lemma_seq_numbers(first, row_refs(s.drop_first()), notes, mid, walk_row(s, notes, order, fuel));
    }
}

proof fn lemma_refs_grid(s: Seq<Seq<SpecSlot>>, notes: Seq<SpecNote>, order: Seq<Seq<char>>, fuel: nat)
    requires
        no_dups(order),
    ensures
        numbers_refs(grid_refs(s), notes, walk_grid(s, notes, order, fuel)),
    decreases s,
{
    if s.len() > 0 {
        let mid = walk_row(s[0], notes, order, fuel);
        lemma_refs_row(s[0], notes, order, fuel);
        lemma_walk_row(s[0], notes, order, fuel);
        lemma_refs_grid(s.drop_first(), notes, mid, fuel);
        lemma_walk_grid(s.drop_first(), notes, mid, fuel);
        lemma_seq_numbers(
            row_refs(s[0]),
            grid_refs(s.drop_first()),
            notes,
            mid,
            walk_grid(s, notes, order, fuel),
        );
    }
}

/// Every valid note that the text references (from a heading, a paragraph,
/// a list item, a table cell or a quote) is numbered by the walk, whatever
/// order it starts from and however deep it may follow notes.
pub proof fn law_referenced_notes_are_numbered(
    blocks: Seq<SpecBlock>,
    notes: Seq<SpecNote>,
    order: Seq<Seq<char>>,
    fuel: nat,
    id: Seq<char>,
)
    requires
        no_dups(order),
        blocks_refs(blocks).contains(id),
        valid_note(notes, id) is Some,
    ensures
        walk_blocks(blocks, notes, order, fuel).contains(id),
{
    lemma_refs_blocks(blocks, notes, order, fuel);
    let r = blocks_refs(blocks);
    let j = choose|j: int| 0 <= j < r.len() && r[j] == id;
    assert(valid_note(notes, r[j]) is Some);
}

/// Referenced notes come first: in a document's numbering, every valid
/// note that the text references has a smaller number than every valid
/// note that nothing reaches.
pub proof fn law_referenced_notes_number_first(
    blocks: Seq<SpecBlock>,
    notes: Seq<SpecNote>,
    a: Seq<char>,
    b: Seq<char>,
)
    requires
        blocks_refs(blocks).contains(a),
        valid_note(notes, a) is Some,
        valid_note(notes, b) is Some,
        !walk_blocks(blocks, notes, Seq::empty(), notes.len()).contains(b),
    ensures
        note_number(note_order(blocks, notes), a) matches Some(na) && note_number(
            note_order(blocks, notes),
            b,
        ) matches Some(nb) && na < nb,
{
    let w = walk_blocks(blocks, notes, Seq::empty(), notes.len());
    let o = note_order(blocks, notes);
    law_referenced_notes_are_numbered(blocks, notes, Seq::empty(), notes.len(), a);
    law_note_numbering(blocks, notes);
    assert(o.contains(b));
    lemma_position_found(o, a);
    lemma_position_found(o, b);
    let pa = position(o, a).unwrap();
    let pb = position(o, b).unwrap();
    let ja = choose|j: int| 0 <= j < w.len() && w[j] == a;
    assert(o[ja] == o.take(w.len() as int)[ja]);
    // positions are unique in a list without repeats
    assert(o[pa as int] == a);
    if pa != ja {
        assert(o[pa as int] == o[ja]);
    }
    if pb < w.len() {
        assert(o[pb as int] == o.take(w.len() as int)[pb as int]);
        assert(w.contains(b));
    }
}

/// Blocks are walked in reading order: walking more blocks after some
/// keeps everything the earlier blocks numbered, in place, ahead of
/// anything the later blocks add.
pub proof fn law_earlier_blocks_number_first(
    first: Seq<SpecBlock>,
    later: Seq<SpecBlock>,
    notes: Seq<SpecNote>,
    order: Seq<Seq<char>>,
    fuel: nat,
)
    requires
        no_dups(order),
    ensures
        is_prefix(walk_blocks(first, notes, order, fuel), walk_blocks(first + later, notes, order, fuel)),
    decreases first.len(),
{
    if first.len() == 0 {
        assert(first + later =~= later);
        lemma_walk_blocks(later, notes, order, fuel);
    } else {
        let mid = walk_block(first[0], notes, order, fuel);
        lemma_walk_block(first[0], notes, order, fuel);
        assert((first + later).drop_first() =~= first.drop_first() + later);
        assert((first + later)[0] == first[0]);
        law_earlier_blocks_number_first(first.drop_first(), later, notes, mid, fuel);
    }
}

/// Inline content is walked in reading order: the references of earlier
/// content are numbered ahead of anything later content adds.
pub proof fn law_earlier_inlines_number_first(
    first: Seq<SpecInline>,
    later: Seq<SpecInline>,
    notes: Seq<SpecNote>,
    order: Seq<Seq<char>>,
    fuel: nat,
)
    requires
        no_dups(order),
    ensures
        is_prefix(walk_inlines(first, notes, order, fuel), walk_inlines(first + later, notes, order, fuel)),
    decreases first.len(),
{
    if first.len() == 0 {
        assert(first + later =~= later);
        lemma_walk_inlines(later, notes, order, fuel);
    } else {
        let mid = walk_inline(first[0], notes, order, fuel);
        lemma_walk_inline(first[0], notes, order, fuel);
        assert((first + later).drop_first() =~= first.drop_first() + later);
        assert((first + later)[0] == first[0]);
        law_earlier_inlines_number_first(first.drop_first(), later, notes, mid, fuel);
    }
}

// ---------------------------------------------------------------------------
// References inside notes are followed

/// The note ids that the note numbered for `id` references.
pub open spec fn note_refs(notes: Seq<SpecNote>, id: Seq<char>) -> Seq<Seq<char>> {
    match valid_note(notes, id) {
        Some(k) => blocks_refs(notes[k as int].blocks),
        None => Seq::empty(),
    }
}

/// From position `start` on, every id's note has its references numbered
/// in `res`.
pub open spec fn closed_from(res: Seq<Seq<char>>, start: int, notes: Seq<SpecNote>) -> bool {
    forall|i: int| start <= i < res.len() ==> numbers_refs(note_refs(notes, #[trigger] res[i]), notes, res)
}

proof fn lemma_closed_extend(a: int, m: Seq<Seq<char>>, r: Seq<Seq<char>>, notes: Seq<SpecNote>)
    requires
        0 <= a <= m.len(),
        closed_from(m, a, notes),
        is_prefix(m, r),
        closed_from(r, m.len() as int, notes),
    ensures
        closed_from(r, a, notes),
{
    assert forall|i: int| a <= i < r.len() implies numbers_refs(note_refs(notes, #[trigger] r[i]), notes, r) by {
        if i < m.len() {
            assert(r[i] == r.take(m.len() as int)[i]);
            assert(r[i] == m[i]);
            lemma_numbers_grow(note_refs(notes, m[i]), notes, m, r);
        }
    }
}

proof fn lemma_closed_inline(i: SpecInline, notes: Seq<SpecNote>, order: Seq<Seq<char>>, f: nat, base: nat)
    requires
        no_dups(order),
        base <= order.len(),
        valid_from(order, base as int, notes),
        f + order.len() >= notes.len() + base,
    ensures
        closed_from(walk_inline(i, notes, order, f), order.len() as int, notes),
    decreases f, 0int, i,
{
    match i {
        SpecInline::NoteRef(id) => match valid_note(notes, id) {
            Some(k) => {
                if !order.contains(id) {
                    lemma_push_ok(order, notes, id);
                    lemma_grows_from(order, order.push(id), base, notes);
                    lemma_skip_ok(order.push(id), base, notes);
                    lemma_numbering_len(order.push(id).skip(base as int), notes);
                    let p = order.push(id);
                    let bs = notes[k as int].blocks;
                    let r = walk_blocks(bs, notes, p, (f - 1) as nat);
                    lemma_valid_note(notes, id);
                    lemma_closed_blocks(bs, notes, p, (f - 1) as nat, base);
                    lemma_refs_blocks(bs, notes, p, (f - 1) as nat);
                    lemma_walk_blocks(bs, notes, p, (f - 1) as nat);
                    assert(r[order.len() as int] == r.take(p.len() as int)[order.len() as int]);
                    assert(r[order.len() as int] == id);
                    assert forall|j: int| order.len() <= j < r.len() implies numbers_refs(
                        note_refs(notes, #[trigger] r[j]),
                        notes,
                        r,
                    ) by {
                        if j > order.len() {
                            assert(p.len() <= j);
                        }
                    }
                }
            },
            None => {},
        },
        SpecInline::Link { content, .. } => {
            lemma_closed_inlines(content, notes, order, f, base);
        },
        _ => {},
    }
}

proof fn lemma_closed_inlines(s: Seq<SpecInline>, notes: Seq<SpecNote>, order: Seq<Seq<char>>, f: nat, base: nat)
    requires
        no_dups(order),
        base <= order.len(),
        valid_from(order, base as int, notes),
        f + order.len() >= notes.len() + base,
    ensures
        closed_from(walk_inlines(s, notes, order, f), order.len() as int, notes),
    decreases f, 0int, s,
{
    if s.len() > 0 {
        let mid = walk_inline(s[0], notes, order, f);
        lemma_closed_inline(s[0], notes, order, f, base);
        lemma_walk_inline(s[0], notes, order, f);
        lemma_grows_from(order, mid, base, notes);
        lemma_closed_inlines(s.drop_first(), notes, mid, f, base);
        lemma_walk_inlines(s.drop_first(), notes, mid, f);
        lemma_closed_extend(order.len() as int, mid, walk_inlines(s, notes, order, f), notes);
    }
}

proof fn lemma_closed_block(b: SpecBlock, notes: Seq<SpecNote>, order: Seq<Seq<char>>, f: nat, base: nat)
    requires
        no_dups(order),
        base <= order.len(),
        valid_from(order, base as int, notes),
        f + order.len() >= notes.len() + base,
    ensures
        closed_from(walk_block(b, notes, order, f), order.len() as int, notes),
    decreases f, 1int, b,
{
    match b {
        SpecBlock::Paragraph(s) => lemma_closed_inlines(s, notes, order, f, base),
        SpecBlock::Heading { content, .. } => lemma_closed_inlines(content, notes, order, f, base),
        SpecBlock::List(l) => lemma_closed_items(l.items, notes, order, f, base),
        SpecBlock::Table(t) => lemma_closed_grid(t.grid, notes, order, f, base),
        SpecBlock::BlockQuote(bs) => lemma_closed_blocks(bs, notes, order, f, base),
        _ => {},
    }
}

proof fn lemma_closed_blocks(s: Seq<SpecBlock>, notes: Seq<SpecNote>, order: Seq<Seq<char>>, f: nat, base: nat)
    requires
        no_dups(order),
        base <= order.len(),
        valid_from(order, base as int, notes),
        f + order.len() >= notes.len() + base,
    ensures
        closed_from(walk_blocks(s, notes, order, f), order.len() as int, notes),
    decreases f, 1int, s,
{
    if s.len() > 0 {
        let mid = walk_block(s[0], notes, order, f);
        lemma_closed_block(s[0], notes, order, f, base);
        lemma_walk_block(s[0], notes, order, f);
        lemma_grows_from(order, mid, base, notes);
        lemma_closed_blocks(s.drop_first(), notes, mid, f, base);
        lemma_walk_blocks(s.drop_first(), notes, mid, f);
        lemma_closed_extend(order.len() as int, mid, walk_blocks(s, notes, order, f), notes);
    }
}

proof fn lemma_closed_items(s: Seq<SpecItem>, notes: Seq<SpecNote>, order: Seq<Seq<char>>, f: nat, base: nat)
    requires
        no_dups(order),
        base <= order.len(),
        valid_from(order, base as int, notes),
        f + order.len() >= notes.len() + base,
    ensures
        closed_from(walk_items(s, notes, order, f), order.len() as int, notes),
    decreases f, 1int, s,
{
    if s.len() > 0 {
        let mid = walk_blocks(s[0].blocks, notes, order, f);
        lemma_closed_blocks(s[0].blocks, notes, order, f, base);
        lemma_walk_blocks(s[0].blocks, notes, order, f);
        lemma_grows_from(order, mid, base, notes);
        lemma_closed_items(s.drop_first(), notes, mid, f, base);
        lemma_walk_items(s.drop_first(), notes, mid, f);
        lemma_closed_extend(order.len() as int, mid, walk_items(s, notes, order, f), notes);
    }
}

proof fn lemma_closed_row(s: Seq<SpecSlot>, notes: Seq<SpecNote>, order: Seq<Seq<char>>, f: nat, base: nat)
    requires
        no_dups(order),
        base <= order.len(),
        valid_from(order, base as int, notes),
        f + order.len() >= notes.len() + base,
    ensures
        closed_from(walk_row(s, notes, order, f), order.len() as int, notes),
    decreases f, 1int, s,
{
    if s.len() > 0 {
        let mid = match s[0] {
            SpecSlot::Origin(bs) => walk_blocks(bs, notes, order, f),
            SpecSlot::Covered => order,
        };
        match s[0] {
            SpecSlot::Origin(bs) => {
                lemma_closed_blocks(bs, notes, order, f, base);
                lemma_walk_blocks(bs, notes, order, f);
            },
            SpecSlot::Covered => {
                lemma_grows_refl(order, notes);
            },
        }
        lemma_grows_from(order, mid, base, notes);
        lemma_closed_row(s.drop_first(), notes, mid, f, base);
        lemma_walk_row(s.drop_first(), notes, mid, f);
        lemma_closed_extend(order.len() as int, mid, walk_row(s, notes, order, f), notes);
    }
}

proof fn lemma_closed_grid(s: Seq<Seq<SpecSlot>>, notes: Seq<SpecNote>, order: Seq<Seq<char>>, f: nat, base: nat)
    requires
        no_dups(order),
        base <= order.len(),
        valid_from(order, base as int, notes),
        f + order.len() >= notes.len() + base,
    ensures
        closed_from(walk_grid(s, notes, order, f), order.len() as int, notes),
    decreases f, 1int, s,
{
    if s.len() > 0 {
        let mid = walk_row(s[0], notes, order, f);
        lemma_closed_row(s[0], notes, order, f, base);
        lemma_walk_row(s[0], notes, order, f);
        lemma_grows_from(order, mid, base, notes);
        lemma_closed_grid(s.drop_first(), notes, mid, f, base);
        lemma_walk_grid(s.drop_first(), notes, mid, f);
        lemma_closed_extend(order.len() as int, mid, walk_grid(s, notes, order, f), notes);
    }
}

/// References inside notes are followed: when the walk (from an order
/// without repeated ids, with a bound of at least the number of notes)
/// numbers a note, every valid note that the note's own text references is
/// numbered too.
pub proof fn law_note_references_are_followed(
    blocks: Seq<SpecBlock>,
    notes: Seq<SpecNote>,
    order: Seq<Seq<char>>,
    fuel: nat,
    x: Seq<char>,
    y: Seq<char>,
)
    requires
        no_dups(order),
        fuel >= notes.len(),
        !order.contains(x),
        walk_blocks(blocks, notes, order, fuel).contains(x),
        note_refs(notes, x).contains(y),
        valid_note(notes, y) is Some,
    ensures
        walk_blocks(blocks, notes, order, fuel).contains(y),
{
    let r = walk_blocks(blocks, notes, order, fuel);
    lemma_closed_blocks(blocks, notes, order, fuel, order.len());
    lemma_walk_blocks(blocks, notes, order, fuel);
    let i = choose|i: int| 0 <= i < r.len() && r[i] == x;
    if i < order.len() {
        assert(r[i] == r.take(order.len() as int)[i]);
        assert(order[i] == x);
    }
    assert(numbers_refs(note_refs(notes, r[i]), notes, r));
    let rs = note_refs(notes, x);
    let j = choose|j: int| 0 <= j < rs.len() && rs[j] == y;
    assert(valid_note(notes, rs[j]) is Some);
}

// ---------------------------------------------------------------------------
// The first new reference gets the next number

/// The first id in `refs` that refers to a valid note and is not yet in
/// `order`.
pub open spec fn first_new(refs: Seq<Seq<char>>, notes: Seq<SpecNote>, order: Seq<Seq<char>>) -> Option<
    Seq<char>,
>
    decreases refs.len(),
{
    if refs.len() == 0 {
        None
    } else if valid_note(notes, refs[0]) is Some && !order.contains(refs[0]) {
        Some(refs[0])
    } else {
        first_new(refs.drop_first(), notes, order)
    }
}

proof fn lemma_first_new_concat(
    a: Seq<Seq<char>>,
    b: Seq<Seq<char>>,
    notes: Seq<SpecNote>,
    order: Seq<Seq<char>>,
)
    ensures
        first_new(a + b, notes, order) == match first_new(a, notes, order) {
            Some(x) => Some(x),
            None => first_new(b, notes, order),
        },
    decreases a.len(),
{
    if a.len() == 0 {
        assert(a + b =~= b);
    } else {
        assert((a + b)[0] == a[0]);
        assert((a + b).drop_first() =~= a.drop_first() + b);
        lemma_first_new_concat(a.drop_first(), b, notes, order);
    }
}

proof fn lemma_first_new_at(refs: Seq<Seq<char>>, notes: Seq<SpecNote>, order: Seq<Seq<char>>, j: int)
    requires
        0 <= j < refs.len(),
        valid_note(notes, refs[j]) is Some,
        !order.contains(refs[j]),
        forall|i: int| 0 <= i < j ==> valid_note(notes, #[trigger] refs[i]) is None || order.contains(refs[i]),
    ensures
        first_new(refs, notes, order) == Some(refs[j]),
    decreases refs.len(),
{
    if j > 0 {
        assert(refs[0] == refs[0]);
        assert forall|i: int| 0 <= i < j - 1 implies valid_note(notes, #[trigger] refs.drop_first()[i]) is None
            || order.contains(refs.drop_first()[i]) by {
            assert(refs.drop_first()[i] == refs[i + 1]);
        }
        lemma_first_new_at(refs.drop_first(), notes, order, j - 1);
    }
}

proof fn lemma_first_none(refs: Seq<Seq<char>>, notes: Seq<SpecNote>, order: Seq<Seq<char>>)
    requires
        forall|i: int| 0 <= i < refs.len() ==> valid_note(notes, #[trigger] refs[i]) is None || order.contains(refs[i]),
    ensures
        first_new(refs, notes, order) is None,
    decreases refs.len(),
{
    if refs.len() > 0 {
        assert(valid_note(notes, refs[0]) is None || order.contains(refs[0]));
        assert forall|i: int| 0 <= i < refs.len() - 1 implies valid_note(notes, #[trigger] refs.drop_first()[i]) is None
            || order.contains(refs.drop_first()[i]) by {
            assert(refs.drop_first()[i] == refs[i + 1]);
        }
        lemma_first_none(refs.drop_first(), notes, order);
    }
}

proof fn lemma_first_inline(i: SpecInline, notes: Seq<SpecNote>, order: Seq<Seq<char>>, fuel: nat)
    requires
        no_dups(order),
    ensures
        match first_new(inline_refs(i), notes, order) {
            Some(id) => walk_inline(i, notes, order, fuel).len() > order.len() && walk_inline(i, notes, order, fuel)[order.len() as int] == id,
            None => walk_inline(i, notes, order, fuel) == order,
        },
    decreases i,
{
    match i {
        SpecInline::NoteRef(id) => {
            let r = seq![id];
            assert(inline_refs(i) == r);
            assert(r[0] == id);
            assert(r.drop_first() =~= Seq::<Seq<char>>::empty());
            assert(first_new(r.drop_first(), notes, order) is None);
            if valid_note(notes, id) is Some && !order.contains(id) {
                let k = valid_note(notes, id).unwrap();
                let p = order.push(id);
                lemma_push_ok(order, notes, id);
                let w = walk_inline(i, notes, order, fuel);
                assert(p[order.len() as int] == id);
                if fuel > 0 {
                    lemma_walk_blocks(notes[k as int].blocks, notes, p, (fuel - 1) as nat);
                    assert(w.len() >= p.len());
                    assert(w[order.len() as int] == w.take(p.len() as int)[order.len() as int]);
                } else {
                    assert(w == p);
                }
                assert(first_new(r, notes, order) == Some(id));
            }
        },
        SpecInline::Link { content, .. } => {
            lemma_first_inlines(content, notes, order, fuel);
        },
        _ => {},
    }
}

proof fn lemma_first_inlines(s: Seq<SpecInline>, notes: Seq<SpecNote>, order: Seq<Seq<char>>, fuel: nat)
    requires
        no_dups(order),
    ensures
        match first_new(inlines_refs(s), notes, order) {
            Some(id) => walk_inlines(s, notes, order, fuel).len() > order.len() && walk_inlines(s, notes, order, fuel)[order.len() as int] == id,
            None => walk_inlines(s, notes, order, fuel) == order,
        },
    decreases s,
{
    if s.len() > 0 {
        let mid = walk_inline(s[0], notes, order, fuel);
        lemma_first_inline(s[0], notes, order, fuel);
        lemma_walk_inline(s[0], notes, order, fuel);
        lemma_walk_inlines(s.drop_first(), notes, mid, fuel);
        lemma_first_new_concat(inline_refs(s[0]), inlines_refs(s.drop_first()), notes, order);
        match first_new(inline_refs(s[0]), notes, order) {
            Some(id) => {
                let r = walk_inlines(s, notes, order, fuel);
                assert(r[order.len() as int] == r.take(mid.len() as int)[order.len() as int]);
            },
            None => {
                lemma_first_inlines(s.drop_first(), notes, mid, fuel);
            },
        }
    }
}

proof fn lemma_first_block(b: SpecBlock, notes: Seq<SpecNote>, order: Seq<Seq<char>>, fuel: nat)
    requires
        no_dups(order),
    ensures
        match first_new(block_refs(b), notes, order) {
            Some(id) => walk_block(b, notes, order, fuel).len() > order.len() && walk_block(b, notes, order, fuel)[order.len() as int] == id,
            None => walk_block(b, notes, order, fuel) == order,
        },
    decreases b,
{
    match b {
        SpecBlock::Paragraph(s) => lemma_first_inlines(s, notes, order, fuel),
        SpecBlock::Heading { content, .. } => lemma_first_inlines(content, notes, order, fuel),
        SpecBlock::List(l) => lemma_first_items(l.items, notes, order, fuel),
        SpecBlock::Table(t) => lemma_first_grid(t.grid, notes, order, fuel),
        SpecBlock::BlockQuote(bs) => lemma_first_blocks(bs, notes, order, fuel),
        _ => {},
    }
}

proof fn lemma_first_blocks(s: Seq<SpecBlock>, notes: Seq<SpecNote>, order: Seq<Seq<char>>, fuel: nat)
    requires
        no_dups(order),
    ensures
        match first_new(blocks_refs(s), notes, order) {
            Some(id) => walk_blocks(s, notes, order, fuel).len() > order.len() && walk_blocks(s, notes, order, fuel)[order.len() as int] == id,
            None => walk_blocks(s, notes, order, fuel) == order,
        },
    decreases s,
{
    if s.len() > 0 {
        let mid = walk_block(s[0], notes, order, fuel);
        lemma_first_block(s[0], notes, order, fuel);
        lemma_walk_block(s[0], notes, order, fuel);
        lemma_walk_blocks(s.drop_first(), notes, mid, fuel);
        lemma_first_new_concat(block_refs(s[0]), blocks_refs(s.drop_first()), notes, order);
        match first_new(block_refs(s[0]), notes, order) {
            Some(id) => {
                let r = walk_blocks(s, notes, order, fuel);
                assert(r[order.len() as int] == r.take(mid.len() as int)[order.len() as int]);
            },
            None => {
                lemma_first_blocks(s.drop_first(), notes, mid, fuel);
            },
        }
    }
}

proof fn lemma_first_items(s: Seq<SpecItem>, notes: Seq<SpecNote>, order: Seq<Seq<char>>, fuel: nat)
    requires
        no_dups(order),
    ensures
        match first_new(items_refs(s), notes, order) {
            Some(id) => walk_items(s, notes, order, fuel).len() > order.len() && walk_items(s, notes, order, fuel)[order.len() as int] == id,
            None => walk_items(s, notes, order, fuel) == order,
        },
    decreases s,
{
    if s.len() > 0 {
        let mid = walk_blocks(s[0].blocks, notes, order, fuel);
        lemma_first_blocks(s[0].blocks, notes, order, fuel);
        lemma_walk_blocks(s[0].blocks, notes, order, fuel);
        lemma_walk_items(s.drop_first(), notes, mid, fuel);
        lemma_first_new_concat(blocks_refs(s[0].blocks), items_refs(s.drop_first()), notes, order);
        match first_new(blocks_refs(s[0].blocks), notes, order) {
            Some(id) => {
                let r = walk_items(s, notes, order, fuel);
                assert(r[order.len() as int] == r.take(mid.len() as int)[order.len() as int]);
            },
            None => {
                lemma_first_items(s.drop_first(), notes, mid, fuel);
            },
        }
    }
}

proof fn lemma_first_row(s: Seq<SpecSlot>, notes: Seq<SpecNote>, order: Seq<Seq<char>>, fuel: nat)
    requires
        no_dups(order),
    ensures
        match first_new(row_refs(s), notes, order) {
            Some(id) => walk_row(s, notes, order, fuel).len() > order.len() && walk_row(s, notes, order, fuel)[order.len() as int] == id,
            None => walk_row(s, notes, order, fuel) == order,
        },
    decreases s,
{
    if s.len() > 0 {
        let mid = match s[0] {
            SpecSlot::Origin(bs) => walk_blocks(bs, notes, order, fuel),
            SpecSlot::Covered => order,
        };
        let first = match s[0] {
            SpecSlot::Origin(bs) => blocks_refs(bs),
            SpecSlot::Covered => Seq::<Seq<char>>::empty(),
        };
        match s[0] {
            SpecSlot::Origin(bs) => {
                lemma_first_blocks(bs, notes, order, fuel);
                lemma_walk_blocks(bs, notes, order, fuel);
            },
            SpecSlot::Covered => {
                lemma_grows_refl(order, notes);
            },
        }
        lemma_walk_row(s.drop_first(), notes, mid, fuel);
        lemma_first_new_concat(first, row_refs(s.drop_first()), notes, order);
        match first_new(first, notes, order) {
            Some(id) => {
                let r = walk_row(s, notes, order, fuel);
                assert(r[order.len() as int] == r.take(mid.len() as int)[order.len() as int]);
            },
            None => {
                lemma_first_row(s.drop_first(), notes, mid, fuel);
            },
        }
    }
}

proof fn lemma_first_grid(s: Seq<Seq<SpecSlot>>, notes: Seq<SpecNote>, order: Seq<Seq<char>>, fuel: nat)
    requires
        no_dups(order),
    ensures
        match first_new(grid_refs(s), notes, order) {
            Some(id) => walk_grid(s, notes, order, fuel).len() > order.len() && walk_grid(s, notes, order, fuel)[order.len() as int] == id,
            None => walk_grid(s, notes, order, fuel) == order,
        },
    decreases s,
{
    if s.len() > 0 {
        let mid = walk_row(s[0], notes, order, fuel);
        lemma_first_row(s[0], notes, order, fuel);
        lemma_walk_row(s[0], notes, order, fuel);
        lemma_walk_grid(s.drop_first(), notes, mid, fuel);
        lemma_first_new_concat(row_refs(s[0]), grid_refs(s.drop_first()), notes, order);
        match first_new(row_refs(s[0]), notes, order) {
            Some(id) => {
                let r = walk_grid(s, notes, order, fuel);
                assert(r[order.len() as int] == r.take(mid.len() as int)[order.len() as int]);
            },
            None => {
                lemma_first_grid(s.drop_first(), notes, mid, fuel);
            },
        }
    }
}

/// Notes are numbered in first-reference order: the next number goes to
/// the first reference, in reading order (headings included), to a valid
/// note that has no number yet.
pub proof fn law_first_new_reference_numbered_next(
    blocks: Seq<SpecBlock>,
    notes: Seq<SpecNote>,
    order: Seq<Seq<char>>,
    fuel: nat,
    j: int,
)
    requires
        no_dups(order),
        0 <= j < blocks_refs(blocks).len(),
        valid_note(notes, blocks_refs(blocks)[j]) is Some,
        !order.contains(blocks_refs(blocks)[j]),
        forall|i: int|
            0 <= i < j ==> valid_note(notes, #[trigger] blocks_refs(blocks)[i]) is None || order.contains(
                blocks_refs(blocks)[i],
            ),
    ensures
        walk_blocks(blocks, notes, order, fuel).len() > order.len(),
        walk_blocks(blocks, notes, order, fuel)[order.len() as int] == blocks_refs(blocks)[j],
{
    lemma_first_new_at(blocks_refs(blocks), notes, order, j);
    lemma_first_blocks(blocks, notes, order, fuel);
}

/// Text that references no valid note without a number numbers nothing.
pub proof fn law_no_new_reference_numbers_nothing(
    blocks: Seq<SpecBlock>,
    notes: Seq<SpecNote>,
    order: Seq<Seq<char>>,
    fuel: nat,
)
    requires
        no_dups(order),
        forall|i: int|
            0 <= i < blocks_refs(blocks).len() ==> valid_note(notes, #[trigger] blocks_refs(blocks)[i]) is None
                || order.contains(blocks_refs(blocks)[i]),
    ensures
        walk_blocks(blocks, notes, order, fuel) == order,
{
    lemma_first_none(blocks_refs(blocks), notes, order);
    lemma_first_blocks(blocks, notes, order, fuel);
}

// ---------------------------------------------------------------------------
// The walk numbers only what is referenced

/// `id` is referenced by `refs`, or by the text of a note that `res` numbers.
pub open spec fn reached(refs: Seq<Seq<char>>, notes: Seq<SpecNote>, res: Seq<Seq<char>>, id: Seq<char>) -> bool {
    refs.contains(id) || exists|m: int| 0 <= m < res.len() && note_refs(notes, #[trigger] res[m]).contains(id)
}

/// Every id of `w` from `start` on is reached by `refs` or by a note `w`
/// numbers.
pub open spec fn all_reached(refs: Seq<Seq<char>>, notes: Seq<SpecNote>, start: int, w: Seq<Seq<char>>) -> bool {
    forall|q: int| start <= q < w.len() ==> reached(refs, notes, w, #[trigger] w[q])
}

/// Combining a first part's and a later part's guarantees: what either
/// part added is reached by the references of both parts together.
proof fn lemma_reached_grow(
    first: Seq<Seq<char>>,
    rest: Seq<Seq<char>>,
    notes: Seq<SpecNote>,
    order: Seq<Seq<char>>,
    mid: Seq<Seq<char>>,
    r: Seq<Seq<char>>,
)
    requires
        is_prefix(order, mid),
        is_prefix(mid, r),
        all_reached(first, notes, order.len() as int, mid),
        all_reached(rest, notes, mid.len() as int, r),
    ensures
        all_reached(first + rest, notes, order.len() as int, r),
{
    assert forall|i: int| order.len() <= i < r.len() implies reached(first + rest, notes, r, #[trigger] r[i]) by {
        let id = r[i];
        let all = first + rest;
        if i < mid.len() {
            assert(r[i] == r.take(mid.len() as int)[i]);
            assert(reached(first, notes, mid, mid[i]));
            if first.contains(id) {
                let k = choose|k: int| 0 <= k < first.len() && first[k] == id;
                assert(all[k] == id);
            } else {
                let m = choose|m: int| 0 <= m < mid.len() && note_refs(notes, #[trigger] mid[m]).contains(id);
                assert(r[m] == r.take(mid.len() as int)[m]);
                assert(note_refs(notes, r[m]).contains(id));
            }
        } else {
            if rest.contains(id) {
                let k = choose|k: int| 0 <= k < rest.len() && rest[k] == id;
                assert(all[k + first.len()] == id);
            }
        }
    }
}

proof fn lemma_sound_inline(i: SpecInline, notes: Seq<SpecNote>, order: Seq<Seq<char>>, fuel: nat)
    requires
        no_dups(order),
    ensures
        all_reached(inline_refs(i), notes, order.len() as int, walk_inline(i, notes, order, fuel)),
    decreases fuel, 0int, i,
{
    lemma_walk_inline(i, notes, order, fuel);
    match i {
        SpecInline::NoteRef(id) => match valid_note(notes, id) {
            Some(k) => {
                if !order.contains(id) {
                    let refs = inline_refs(i);
                    assert(refs == seq![id]);
                    assert(refs[0] == id);
                    let p = order.push(id);
                    lemma_push_ok(order, notes, id);
                    let w = walk_inline(i, notes, order, fuel);
                    lemma_valid_note(notes, id);
                    if fuel > 0 {
                        let bs = notes[k as int].blocks;
                        lemma_sound_blocks(bs, notes, p, (fuel - 1) as nat);
                        lemma_walk_blocks(bs, notes, p, (fuel - 1) as nat);
                        assert(w == walk_blocks(bs, notes, p, (fuel - 1) as nat));
                        assert(w[order.len() as int] == w.take(p.len() as int)[order.len() as int]);
                        assert(note_refs(notes, id) == blocks_refs(bs));
                        assert forall|j: int| order.len() <= j < w.len() implies reached(
                            refs,
                            notes,
                            w,
                            #[trigger] w[j],
                        ) by {
                            if j == order.len() {
                                assert(w[j] == p[j]);
                                assert(refs.contains(w[j]));
                            } else if j >= p.len() {
                                assert(reached(blocks_refs(bs), notes, w, w[j]));
                                if blocks_refs(bs).contains(w[j]) {
                                    assert(note_refs(notes, w[order.len() as int]).contains(w[j]));
                                }
                            } else {
                                assert(false);
                            }
                        }
                    } else {
                        assert forall|j: int| order.len() <= j < w.len() implies reached(
                            refs,
                            notes,
                            w,
                            #[trigger] w[j],
                        ) by {
                            assert(w == p);
                            assert(w[j] == id);
                            assert(refs.contains(w[j]));
                        }
                    }
                    assert(all_reached(refs, notes, order.len() as int, w));
                } else {
                    assert(walk_inline(i, notes, order, fuel) == order);
                }
            },
            None => {
                assert(walk_inline(i, notes, order, fuel) == order);
            },
        },
        SpecInline::Link { content, .. } => {
            lemma_sound_inlines(content, notes, order, fuel);
        },
        _ => {},
    }
}

proof fn lemma_sound_inlines(s: Seq<SpecInline>, notes: Seq<SpecNote>, order: Seq<Seq<char>>, fuel: nat)
    requires
        no_dups(order),
    ensures
        all_reached(inlines_refs(s), notes, order.len() as int, walk_inlines(s, notes, order, fuel)),
    decreases fuel, 0int, s,
{
    if s.len() > 0 {
        let mid = walk_inline(s[0], notes, order, fuel);
        lemma_sound_inline(s[0], notes, order, fuel);
        lemma_walk_inline(s[0], notes, order, fuel);
        lemma_sound_inlines(s.drop_first(), notes, mid, fuel);
        lemma_walk_inlines(s.drop_first(), notes, mid, fuel);
        let r = walk_inlines(s, notes, order, fuel);
        lemma_reached_grow(inline_refs(s[0]), inlines_refs(s.drop_first()), notes, order, mid, r);
    }
}

proof fn lemma_sound_block(b: SpecBlock, notes: Seq<SpecNote>, order: Seq<Seq<char>>, fuel: nat)
    requires
        no_dups(order),
    ensures
        all_reached(block_refs(b), notes, order.len() as int, walk_block(b, notes, order, fuel)),
    decreases fuel, 1int, b,
{
    let w = walk_block(b, notes, order, fuel);
    match b {
        SpecBlock::Paragraph(s) => {
            lemma_sound_inlines(s, notes, order, fuel);
            assert(w == walk_inlines(s, notes, order, fuel));
            assert(block_refs(b) == inlines_refs(s));
        },
        SpecBlock::Heading { content, .. } => {
            lemma_sound_inlines(content, notes, order, fuel);
            assert(w == walk_inlines(content, notes, order, fuel));
            assert(block_refs(b) == inlines_refs(content));
        },
        SpecBlock::List(l) => {
            lemma_sound_items(l.items, notes, order, fuel);
            assert(w == walk_items(l.items, notes, order, fuel));
            assert(block_refs(b) == items_refs(l.items));
        },
        SpecBlock::Table(t) => {
            lemma_sound_grid(t.grid, notes, order, fuel);
            assert(w == walk_grid(t.grid, notes, order, fuel));
            assert(block_refs(b) == grid_refs(t.grid));
        },
        SpecBlock::BlockQuote(bs) => {
            lemma_sound_blocks(bs, notes, order, fuel);
            assert(w == walk_blocks(bs, notes, order, fuel));
            assert(block_refs(b) == blocks_refs(bs));
        },
        _ => {
            assert(w == order);
        },
    }
}

proof fn lemma_sound_blocks(s: Seq<SpecBlock>, notes: Seq<SpecNote>, order: Seq<Seq<char>>, fuel: nat)
    requires
        no_dups(order),
    ensures
        all_reached(blocks_refs(s), notes, order.len() as int, walk_blocks(s, notes, order, fuel)),
    decreases fuel, 1int, s,
{
    if s.len() > 0 {
        let mid = walk_block(s[0], notes, order, fuel);
        lemma_sound_block(s[0], notes, order, fuel);
        lemma_walk_block(s[0], notes, order, fuel);
        lemma_sound_blocks(s.drop_first(), notes, mid, fuel);
        lemma_walk_blocks(s.drop_first(), notes, mid, fuel);
        let r = walk_blocks(s, notes, order, fuel);
        lemma_reached_grow(block_refs(s[0]), blocks_refs(s.drop_first()), notes, order, mid, r);
    }
}

proof fn lemma_sound_items(s: Seq<SpecItem>, notes: Seq<SpecNote>, order: Seq<Seq<char>>, fuel: nat)
    requires
        no_dups(order),
    ensures
        all_reached(items_refs(s), notes, order.len() as int, walk_items(s, notes, order, fuel)),
    decreases fuel, 1int, s,
{
    if s.len() > 0 {
        let mid = walk_blocks(s[0].blocks, notes, order, fuel);
        lemma_sound_blocks(s[0].blocks, notes, order, fuel);
        lemma_walk_blocks(s[0].blocks, notes, order, fuel);
        lemma_sound_items(s.drop_first(), notes, mid, fuel);
        lemma_walk_items(s.drop_first(), notes, mid, fuel);
        let r = walk_items(s, notes, order, fuel);
        lemma_reached_grow(blocks_refs(s[0].blocks), items_refs(s.drop_first()), notes, order, mid, r);
    }
}

proof fn lemma_sound_row(s: Seq<SpecSlot>, notes: Seq<SpecNote>, order: Seq<Seq<char>>, fuel: nat)
    requires
        no_dups(order),
    ensures
        all_reached(row_refs(s), notes, order.len() as int, walk_row(s, notes, order, fuel)),
    decreases fuel, 1int, s,
{
    if s.len() > 0 {
        let mid = match s[0] {
            SpecSlot::Origin(bs) => walk_blocks(bs, notes, order, fuel),
            SpecSlot::Covered => order,
        };
        let first = match s[0] {
            SpecSlot::Origin(bs) => blocks_refs(bs),
            SpecSlot::Covered => Seq::<Seq<char>>::empty(),
        };
        match s[0] {
            SpecSlot::Origin(bs) => {
                lemma_sound_blocks(bs, notes, order, fuel);
                lemma_walk_blocks(bs, notes, order, fuel);
            },
            SpecSlot::Covered => {
                lemma_grows_refl(order, notes);
            },
        }
        lemma_sound_row(s.drop_first(), notes, mid, fuel);
        lemma_walk_row(s.drop_first(), notes, mid, fuel);
        lemma_reached_grow(first, row_refs(s.drop_first()), notes, order, mid, walk_row(s, notes, order, fuel));
    }
}

proof fn lemma_sound_grid(s: Seq<Seq<SpecSlot>>, notes: Seq<SpecNote>, order: Seq<Seq<char>>, fuel: nat)
    requires
        no_dups(order),
    ensures
        all_reached(grid_refs(s), notes, order.len() as int, walk_grid(s, notes, order, fuel)),
    decreases fuel, 1int, s,
{
    if s.len() > 0 {
        let mid = walk_row(s[0], notes, order, fuel);
        lemma_sound_row(s[0], notes, order, fuel);
        lemma_walk_row(s[0], notes, order, fuel);
        lemma_sound_grid(s.drop_first(), notes, mid, fuel);
        lemma_walk_grid(s.drop_first(), notes, mid, fuel);
        let r = walk_grid(s, notes, order, fuel);
        lemma_reached_grow(row_refs(s[0]), grid_refs(s.drop_first()), notes, order, mid, r);
    }
}

/// The walk numbers only what is referenced: every id it adds is
/// referenced by the text itself or by the text of a note it numbers.
pub proof fn law_walk_numbers_only_references(
    blocks: Seq<SpecBlock>,
    notes: Seq<SpecNote>,
    order: Seq<Seq<char>>,
    fuel: nat,
    i: int,
)
    requires
        no_dups(order),
        order.len() <= i < walk_blocks(blocks, notes, order, fuel).len(),
    ensures
        ({
            let w = walk_blocks(blocks, notes, order, fuel);
            blocks_refs(blocks).contains(w[i]) || exists|m: int|
                0 <= m < w.len() && note_refs(notes, #[trigger] w[m]).contains(w[i])
        }),
{
    lemma_sound_blocks(blocks, notes, order, fuel);
}

// ---------------------------------------------------------------------------
// Unreferenced notes follow in document order

proof fn lemma_add_concat(all: Seq<SpecNote>, a: Seq<SpecNote>, b: Seq<SpecNote>, o: Seq<Seq<char>>)
    ensures
        add_unreferenced(all, a + b, o) == add_unreferenced(all, b, add_unreferenced(all, a, o)),
    decreases a.len(),
{
    if a.len() == 0 {
        assert(a + b =~= b);
    } else {
        assert((a + b)[0] == a[0]);
        assert((a + b).drop_first() =~= a.drop_first() + b);
        let id = a[0].id;
        let next = if valid_note(all, id) is Some && !o.contains(id) {
            o.push(id)
        } else {
            o
        };
        lemma_add_concat(all, a.drop_first(), b, next);
    }
}

proof fn lemma_add_absent(all: Seq<SpecNote>, ns: Seq<SpecNote>, o: Seq<Seq<char>>, id: Seq<char>)
    requires
        !o.contains(id),
        forall|m: int| 0 <= m < ns.len() ==> (#[trigger] ns[m]).id != id,
    ensures
        !add_unreferenced(all, ns, o).contains(id),
    decreases ns.len(),
{
    if ns.len() > 0 {
        let x = ns[0].id;
        let next = if valid_note(all, x) is Some && !o.contains(x) {
            o.push(x)
        } else {
            o
        };
        assert(ns[0].id != id);
        if next.contains(id) {
            let k = choose|k: int| 0 <= k < next.len() && next[k] == id;
            if k < o.len() {
                assert(next[k] == o[k]);
            }
        }
        assert forall|m: int| 0 <= m < ns.drop_first().len() implies (#[trigger] ns.drop_first()[m]).id != id by {
            assert(ns.drop_first()[m] == ns[m + 1]);
        }
        lemma_add_absent(all, ns.drop_first(), next, id);
    }
}

/// Valid notes that the text does not reach follow the referenced ones in
/// document order: of two such ids, the one whose first note comes first
/// gets the smaller number.
pub proof fn law_unreferenced_notes_in_document_order(
    blocks: Seq<SpecBlock>,
    notes: Seq<SpecNote>,
    i: int,
    j: int,
)
    requires
        0 <= i < j < notes.len(),
        valid_note(notes, notes[i].id) is Some,
        valid_note(notes, notes[j].id) is Some,
        !walk_blocks(blocks, notes, Seq::empty(), notes.len()).contains(notes[i].id),
        !walk_blocks(blocks, notes, Seq::empty(), notes.len()).contains(notes[j].id),
        forall|m: int| 0 <= m < i ==> (#[trigger] notes[m]).id != notes[i].id,
        forall|m: int| 0 <= m <= i ==> (#[trigger] notes[m]).id != notes[j].id,
    ensures
        note_number(note_order(blocks, notes), notes[i].id) matches Some(na) && note_number(
            note_order(blocks, notes),
            notes[j].id,
        ) matches Some(nb) && na < nb,
{
    let a = notes[i].id;
    let b = notes[j].id;
    let empty = Seq::<Seq<char>>::empty();
    let w = walk_blocks(blocks, notes, empty, notes.len());
    lemma_walk_blocks(blocks, notes, empty, notes.len());
    assert(numbering_ok(w, notes));
    let head = notes.take(i);
    let one = seq![notes[i]];
    let tail = notes.skip(i + 1);
    assert(notes =~= head + (one + tail));
    lemma_add_concat(notes, head, one + tail, w);
    lemma_add_concat(notes, one, tail, add_unreferenced(notes, head, w));
    let x1 = add_unreferenced(notes, head, w);
    lemma_add_unreferenced(notes, head, w);
    assert forall|m: int| 0 <= m < head.len() implies (#[trigger] head[m]).id != a by {
        assert(head[m] == notes[m]);
    }
    assert forall|m: int| 0 <= m < head.len() implies (#[trigger] head[m]).id != b by {
        assert(head[m] == notes[m]);
    }
    lemma_add_absent(notes, head, w, a);
    lemma_add_absent(notes, head, w, b);
    assert(one[0].id == a);
    assert(one.drop_first() =~= Seq::<SpecNote>::empty());
    let x2 = add_unreferenced(notes, one, x1);
    assert(!x1.contains(a));
    assert(add_unreferenced(notes, one.drop_first(), x1.push(a)) == x1.push(a));
    assert(x2 == x1.push(a));
    lemma_push_ok(x1, notes, a);
    lemma_add_unreferenced(notes, tail, x2);
    let o = note_order(blocks, notes);
    assert(o == add_unreferenced(notes, tail, x2));
    law_note_numbering(blocks, notes);
    assert(o.contains(b));
    lemma_position_found(o, a);
    lemma_position_found(o, b);
    let pa = position(o, a).unwrap();
    let pb = position(o, b).unwrap();
    assert(o[x1.len() as int] == o.take(x2.len() as int)[x1.len() as int]);
    assert(o[x1.len() as int] == a);
    if pa != x1.len() {
        assert(o[pa as int] == o[x1.len() as int]);
    }
    if pb < x2.len() {
        assert(o[pb as int] == o.take(x2.len() as int)[pb as int]);
        assert(x2[pb as int] == b);
        if pb < x1.len() {
            assert(x1[pb as int] == b);
        } else {
            assert(notes[i].id != b);
        }
    }
}

} // verus!
