//! GitHub-Flavored Markdown for a whole document: front matter, body, and
//! note definitions.
use vstd::prelude::*;
use crate::blocks::{
    continuation, first_line, later_lines, render_block, blocks_text, render_blocks,
    rendered_parts,
};
use crate::front_matter::{front_matter, front_matter_chars};
use crate::model::{
    Document, SpecDocument, SpecNote, block_view, blocks_view, notes_view, strings_view,
};
use crate::notes::{
    find_valid, law_note_numbering, lemma_valid_note, note_order, number_notes, valid_note,
};
use crate::text::{
    chars_of, decimal, decimal_chars, extend, extend_str, join, join_chars, lemma_seqs_push,
    lines, lines_chars, seqs, string_of,
};

verus! {

/// The definition of note number `num` with rendered body `body`: its first
/// line after the `[^num]: ` label, later lines indented by four spaces.
pub open spec fn note_definition(num: nat, body: Seq<char>) -> Seq<char> {
    let ls = lines(body);
    "[^"@ + decimal(num) + "]: "@ + first_line(ls) + continuation(later_lines(ls), "    "@)
}

/// The definition of the note numbered `k + 1`. Duplicate ids share one
/// number and get one definition, from the note that the id refers to: the
/// first non-blank note with that id, the note that gave the number. A body
/// that renders as nothing gives no definition.
pub open spec fn definition(notes: Seq<SpecNote>, order: Seq<Seq<char>>, k: nat) -> Option<
    Seq<char>,
> {
    match valid_note(notes, order[k as int]) {
        Some(j) => {
            let body = blocks_text(notes[j as int].blocks, order);
            if body.len() == 0 {
                None
            } else {
                Some(note_definition(k + 1, body))
            }
        },
        None => None,
    }
}

/// The definitions of the notes numbered 1 to `n`, in order.
pub open spec fn definitions(notes: Seq<SpecNote>, order: Seq<Seq<char>>, n: nat) -> Seq<
    Seq<char>,
>
    decreases n,
{
    if n == 0 {
        Seq::empty()
    } else {
        let d = definitions(notes, order, (n - 1) as nat);
        match definition(notes, order, (n - 1) as nat) {
            Some(t) => d.push(t),
            None => d,
        }
    }
}

/// Body and note definitions, separated by blank lines and ended by a line
/// break, without front matter; empty when nothing renders.
pub open spec fn body_markdown(doc: SpecDocument) -> Seq<char> {
    let order = note_order(doc.blocks, doc.notes);
    let parts = rendered_parts(doc.blocks, order) + definitions(doc.notes, order, order.len());
    let out = join(parts, "\n\n"@);
    if out.len() > 0 {
        out + "\n"@
    } else {
        out
    }
}

/// The Markdown of a document: its front matter, if any, then its body.
pub open spec fn markdown(doc: SpecDocument) -> Seq<char> {
    let out = body_markdown(doc);
    match front_matter(doc.meta) {
        Some(fm) => if out.len() == 0 {
            fm + "\n"@
        } else {
            fm + "\n\n"@ + out
        },
        None => out,
    }
}

fn note_definition_chars(num: usize, body: &Vec<char>) -> (out: Vec<char>)
    ensures
        out@ == note_definition(num as nat, body@),
{
    let ls = lines_chars(body);
    let ghost lsv = lines(body@);
    let indent = chars_of("    ");
    let mut s: Vec<char> = Vec::new();
    extend_str(&mut s, "[^");
    let d = decimal_chars(num as u64);
    extend(&mut s, &d);
    extend_str(&mut s, "]: ");
    if ls.len() > 0 {
        assert(ls@[0]@ == seqs(ls@)[0]);
        extend(&mut s, &ls[0]);
        let ghost head = s@;
        assert(lsv.subrange(1, 1) =~= Seq::<Seq<char>>::empty());
        assert(s@ =~= head + continuation(lsv.subrange(1, 1), indent@));
        let mut k: usize = 1;
        while k < ls.len()
            invariant
                1 <= k <= ls.len(),
                seqs(ls@) == lsv,
                indent@ == "    "@,
                s@ == head + continuation(lsv.subrange(1, k as int), indent@),
            decreases ls.len() - k,
        {
            assert(ls@[k as int]@ == seqs(ls@)[k as int]);
            assert(lsv.subrange(1, k + 1).drop_last() =~= lsv.subrange(1, k as int));
            assert(lsv.subrange(1, k + 1).last() == lsv[k as int]);
            extend_str(&mut s, "\n");
            if ls[k].len() > 0 {
                extend(&mut s, &indent);
                extend(&mut s, &ls[k]);
            }
            assert(s@ =~= head + continuation(lsv.subrange(1, k + 1), indent@));
            k = k + 1;
        }
        assert(lsv.subrange(1, lsv.len() as int) =~= later_lines(lsv));
    } else {
        assert(later_lines(lsv) =~= Seq::<Seq<char>>::empty());
        assert(s@ =~= s@ + continuation(later_lines(lsv), "    "@));
    }
    s
}

/// The document as GitHub-Flavored Markdown.
pub fn document_to_markdown(doc: &Document) -> (out: String)
    ensures
        out@ == markdown(doc@),
{
    let nums = number_notes(doc);
    let ghost order = strings_view(nums@);
    let ghost bs = blocks_view(doc.blocks@);
    let ghost ns = notes_view(doc.notes@);
    let mut parts: Vec<Vec<char>> = Vec::new();
    let mut i: usize = 0;
    while i < doc.blocks.len()
        invariant
            i <= doc.blocks.len(),
            order == strings_view(nums@),
            bs == blocks_view(doc.blocks@),
            seqs(parts@) == rendered_parts(bs.take(i as int), order),
        decreases doc.blocks.len() - i,
    {
        let r = render_block(&doc.blocks[i], &nums);
        assert(bs.take(i + 1).drop_last() =~= bs.take(i as int));
        assert(bs[i as int] == block_view(doc.blocks@[i as int]));
        match r {
            Some(t) => {
                proof {
                    lemma_seqs_push(parts@, t);
                }
                parts.push(t);
            },
            None => {},
        }
        i = i + 1;
    }
    assert(bs.take(doc.blocks.len() as int) =~= bs);
    let ghost body_parts = seqs(parts@);
    let mut k: usize = 0;
    while k < nums.len()
        invariant
            k <= nums.len(),
            order == strings_view(nums@),
            ns == notes_view(doc.notes@),
            seqs(parts@) == body_parts + definitions(ns, order, k as nat),
        decreases nums.len() - k,
    {
        match find_valid(&doc.notes, &nums[k]) {
            Some(j) => {
                proof {
                    lemma_valid_note(ns, order[k as int]);
                }
                assert(ns[j as int] == doc.notes@[j as int]@);
                let body = render_blocks(&doc.notes[j].blocks, &nums);
                if body.len() > 0 {
                    let def = note_definition_chars(k + 1, &body);
                    proof {
                        lemma_seqs_push(parts@, def);
                    }
                    parts.push(def);
                }
            },
            None => {},
        }
        k = k + 1;
    }
    let sep = chars_of("\n\n");
    let mut out = join_chars(&parts, &sep);
    if out.len() > 0 {
        extend_str(&mut out, "\n");
    }
    match front_matter_chars(&doc.meta) {
        Some(fm) => {
            let mut all = fm;
            if out.len() == 0 {
                extend_str(&mut all, "\n");
            } else {
                extend_str(&mut all, "\n\n");
                extend(&mut all, &out);
            }
            string_of(&all)
        },
        None => string_of(&out),
    }
}

/// The Markdown of a document is empty or ends with a line break.
pub proof fn law_markdown_ends_with_line_break(doc: SpecDocument)
    ensures
        markdown(doc).len() == 0 || markdown(doc).last() == '\n',
{
    reveal_strlit("\n");
    reveal_strlit("\n\n");
    let out = body_markdown(doc);
    assert(out.len() == 0 || out.last() == '\n');
}

/// A document that names no metadata renders no front matter, and one that
/// has no blocks and no notes besides renders as nothing at all.
pub proof fn law_empty_document_renders_nothing(doc: SpecDocument)
    requires
        doc.meta.is_empty(),
    ensures
        markdown(doc) == body_markdown(doc),
        doc.blocks.len() == 0 && doc.notes.len() == 0 ==> markdown(doc).len() == 0,
{
    if doc.blocks.len() == 0 && doc.notes.len() == 0 {
        let order = note_order(doc.blocks, doc.notes);
        assert(order.len() == 0);
        let parts = rendered_parts(doc.blocks, order) + definitions(doc.notes, order, order.len());
        assert(parts =~= Seq::<Seq<char>>::empty());
    }
}

/// Every number has its note: the id numbered `k + 1` refers to a valid
/// note, and that note, the one that gave the number, defines it unless
/// its body renders as nothing.
pub proof fn law_definition_from_numbering_note(doc: SpecDocument, k: nat)
    requires
        k < note_order(doc.blocks, doc.notes).len(),
    ensures
        ({
            let order = note_order(doc.blocks, doc.notes);
            &&& valid_note(doc.notes, order[k as int]) is Some
            &&& (definition(doc.notes, order, k) is Some <==> blocks_text(
                doc.notes[valid_note(doc.notes, order[k as int]).unwrap() as int].blocks,
                order,
            ).len() > 0)
        }),
{
    let order = note_order(doc.blocks, doc.notes);
    law_note_numbering(doc.blocks, doc.notes);
    assert(order.contains(order[k as int]));
}

} // verus!
