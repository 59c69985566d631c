# docmark

A GitHub-Flavored Markdown serializer for a fully resolved document model
(metadata, blocks, inline content, notes), written in Verus. Every rendering
function has a contract that gives its exact output as a specification
function over the views of the model, and the library's laws are proved:

- `notes`: note numbering in first-reference order, following references
  inside referenced notes; unreferenced valid notes follow. Proved: each valid
  note id gets exactly one number, numbers run from 1, no two ids share one,
  and a bound on nested walks of at least the number of notes never cuts a
  walk short, whatever order without repeated ids it starts from. Walking from any
  order without repeated ids keeps that order as a prefix and adds only new
  ids of valid notes. Each number is defined by the note that gave it.
- `blocks`, `inline`, `marker`: blocks, lists, tables, code fences, paragraph
  trimming with hard breaks, inline text with escaping and emphasis, heading
  emphasis stripping (proved idempotent), list item labels. Proved: blank
  paragraphs render as nothing, trimmed paragraphs start without white space,
  and rendered list labels carry no control characters and open no block
  (no bullet, ordered-list marker, heading, quote, fence or underline at
  their start).
- `front_matter`: YAML front matter; quoted values proved to stay on one line
  and to read back, unescaped, as the collapsed value.
- `markdown`: the whole document; output proved empty or ending in a line
  break, and empty for an empty document.
- `text`: character classes, trimming, line splitting and joining.
- `model`: the document types and their views.
