//! YAML front matter for document metadata.
use vstd::prelude::*;
use crate::model::{DocumentMeta, SpecMeta, strings_view};
use crate::text::{
    chars_of, extend, extend_str, is_space, is_space_char, join, join_chars, lemma_seqs_push, seqs,
    string_of,
};

verus! {

/// The words of `s`: its maximal runs of characters that are not white space.
pub open spec fn words(s: Seq<char>) -> Seq<Seq<char>>
    decreases s.len(),
{
    if s.len() == 0 {
        Seq::empty()
    } else {
        let w = words(s.drop_last());
        let c = s.last();
        if is_space(c) {
            w
        } else if s.len() >= 2 && !is_space(s[s.len() - 2]) && w.len() > 0 {
            w.update(w.len() - 1, w.last().push(c))
        } else {
            w.push(seq![c])
        }
    }
}

/// `s` on a single line: its words joined by single spaces.
pub open spec fn collapse(s: Seq<char>) -> Seq<char> {
    join(words(s), " "@)
}

pub open spec fn yaml_escape_char(c: char) -> Seq<char> {
    if c == '"' {
        seq!['\\', '"']
    } else if c == '\\' {
        seq!['\\', '\\']
    } else {
        seq![c]
    }
}

/// `s` with `\` and `"` escaped for a YAML double-quoted scalar.
pub open spec fn yaml_escape(s: Seq<char>) -> Seq<char>
    decreases s.len(),
{
    if s.len() == 0 {
        Seq::empty()
    } else {
        yaml_escape(s.drop_last()) + yaml_escape_char(s.last())
    }
}

/// A metadata value as a YAML double-quoted scalar: collapsed to a single
/// line, then `\` and `"` escaped.
pub open spec fn yaml_quoted(value: Seq<char>) -> Seq<char> {
    seq!['"'] + yaml_escape(collapse(value)) + seq!['"']
}

/// One `key: "value"` line.
pub open spec fn field(key: Seq<char>, value: Seq<char>) -> Seq<char> {
    key + ": "@ + yaml_quoted(value) + "\n"@
}

pub open spec fn opt_field(key: Seq<char>, value: Option<Seq<char>>) -> Seq<char> {
    match value {
        Some(v) => field(key, v),
        None => Seq::empty(),
    }
}

/// One list entry per author.
pub open spec fn author_entries(authors: Seq<Seq<char>>) -> Seq<char> {
    join(authors.map_values(|a: Seq<char>| "  - "@ + yaml_quoted(a) + "\n"@), Seq::empty())
}

/// No author line, a single `author` line, or an `author` list.
pub open spec fn authors_field(authors: Seq<Seq<char>>) -> Seq<char> {
    if authors.len() == 0 {
        Seq::empty()
    } else if authors.len() == 1 {
        field("author"@, authors[0])
    } else {
        "author:\n"@ + author_entries(authors)
    }
}

/// A `---`-fenced YAML block of the metadata that is present, or none when
/// the metadata is empty.
pub open spec fn front_matter(m: SpecMeta) -> Option<Seq<char>> {
    if m.is_empty() {
        None
    } else {
        Some(
            "---\n"@ + opt_field("title"@, m.title) + authors_field(m.authors) + opt_field(
                "language"@,
                m.language,
            ) + opt_field("date"@, m.date) + opt_field("publisher"@, m.publisher) + opt_field(
                "description"@,
                m.description,
            ) + "---"@,
        )
    }
}

fn words_chars(s: &Vec<char>) -> (out: Vec<Vec<char>>)
    ensures
        seqs(out@) == words(s@),
{
    let mut done: Vec<Vec<char>> = Vec::new();
    let mut cur: Vec<char> = Vec::new();
    let mut in_word = false;
    let mut i: usize = 0;
    while i < s.len()
        invariant
            i <= s.len(),
            in_word == (i > 0 && !is_space(s@[i - 1])),
            !in_word ==> cur@.len() == 0,
            words(s@.take(i as int)) == if in_word {
                seqs(done@).push(cur@)
            } else {
                seqs(done@)
            },
        decreases s.len() - i,
    {
        let c = s[i];
        let ghost w = words(s@.take(i as int));
        assert(s@.take(i + 1).drop_last() =~= s@.take(i as int));
        assert(s@.take(i + 1).last() == c);
        if is_space_char(c) {
            if in_word {
                let finished = cur;
                proof {
                    lemma_seqs_push(done@, finished);
                }
                done.push(finished);
                cur = Vec::new();
            }
            in_word = false;
        } else {
            let ghost old_cur = cur@;
            cur.push(c);
            if in_word {
                assert(s@.take(i + 1)[i - 1] == s@[i - 1]);
                assert(seqs(done@).push(cur@) =~= w.update(w.len() - 1, w.last().push(c)));
            } else {
                assert(cur@ =~= seq![c]);
                assert(i > 0 ==> s@.take(i + 1)[i - 1] == s@[i - 1]);
            }
            in_word = true;
        }
        i = i + 1;
    }
    assert(s@.take(s.len() as int) =~= s@);
    if in_word {
        proof {
            lemma_seqs_push(done@, cur);
        }
        done.push(cur);
    }
    done
}

fn yaml_quote_chars(value: &str) -> (out: Vec<char>)
    ensures
        out@ == yaml_quoted(value@),
{
    let v = chars_of(value);
    let ws = words_chars(&v);
    let sp = chars_of(" ");
    let collapsed = join_chars(&ws, &sp);
    let mut out: Vec<char> = Vec::new();
    out.push('"');
    let mut i: usize = 0;
    while i < collapsed.len()
        invariant
            i <= collapsed.len(),
            out@ == seq!['"'] + yaml_escape(collapsed@.take(i as int)),
        decreases collapsed.len() - i,
    {
        let c = collapsed[i];
        if c == '"' || c == '\\' {
            out.push('\\');
        }
        out.push(c);
        assert(collapsed@.take(i + 1).drop_last() =~= collapsed@.take(i as int));
        assert(out@ =~= seq!['"'] + yaml_escape(collapsed@.take(i + 1)));
        i = i + 1;
    }
    assert(collapsed@.take(collapsed.len() as int) =~= collapsed@);
    out.push('"');
    out
}

/// Quote a metadata value as a YAML double-quoted scalar: collapse to a single
/// line, then escape `\` and `"`.
pub fn yaml_quote(value: &str) -> (out: String)
    ensures
        out@ == yaml_quoted(value@),
{
    let v = yaml_quote_chars(value);
    string_of(&v)
}

fn push_field(fm: &mut Vec<char>, key: &str, value: &str)
    ensures
        final(fm)@ == old(fm)@ + field(key@, value@),
{
    extend_str(fm, key);
    extend_str(fm, ": ");
    let q = yaml_quote_chars(value);
    extend(fm, &q);
    extend_str(fm, "\n");
}

fn push_opt_field(fm: &mut Vec<char>, key: &str, value: &Option<String>)
    ensures
        final(fm)@ == old(fm)@ + opt_field(key@, match value {
            Some(v) => Some(v@),
            None => None,
        }),
{
    match value {
        Some(v) => push_field(fm, key, v.as_str()),
        None => {
            assert(fm@ =~= fm@ + Seq::<char>::empty());
        },
    }
}

/// The characters of the front matter block, or none for empty metadata.
pub fn front_matter_chars(meta: &DocumentMeta) -> (out: Option<Vec<char>>)
    ensures
        match out {
            Some(v) => front_matter(meta@) == Some(v@),
            None => front_matter(meta@) is None,
        },
{
    if meta.is_empty() {
        return None;
    }
    let mut fm: Vec<char> = Vec::new();
    extend_str(&mut fm, "---\n");
    push_opt_field(&mut fm, "title", &meta.title);
    let ghost before = fm@;
    let ghost authors = strings_view(meta.authors@);
    let n = meta.authors.len();
    if n == 0 {
        assert(fm@ =~= before + authors_field(authors));
    } else if n == 1 {
        push_field(&mut fm, "author", meta.authors[0].as_str());
    } else {
        extend_str(&mut fm, "author:\n");
        let ghost entries = authors.map_values(|a: Seq<char>| "  - "@ + yaml_quoted(a) + "\n"@);
        let mut parts: Vec<Vec<char>> = Vec::new();
        let mut i: usize = 0;
        while i < n
            invariant
                i <= n,
                n == meta.authors.len(),
                authors == strings_view(meta.authors@),
                entries == authors.map_values(|a: Seq<char>| "  - "@ + yaml_quoted(a) + "\n"@),
                seqs(parts@) =~= entries.take(i as int),
            decreases n - i,
        {
            let mut e: Vec<char> = Vec::new();
            extend_str(&mut e, "  - ");
            let q = yaml_quote_chars(meta.authors[i].as_str());
            extend(&mut e, &q);
            extend_str(&mut e, "\n");
            proof {
                lemma_seqs_push(parts@, e);
            }
            parts.push(e);
            assert(entries.take(i + 1) =~= entries.take(i as int).push(entries[i as int]));
            i = i + 1;
        }
        assert(entries.take(n as int) =~= entries);
        let empty: Vec<char> = Vec::new();
        let joined = join_chars(&parts, &empty);
        extend(&mut fm, &joined);
        assert(fm@ =~= before + authors_field(authors));
    }
    push_opt_field(&mut fm, "language", &meta.language);
    push_opt_field(&mut fm, "date", &meta.date);
    push_opt_field(&mut fm, "publisher", &meta.publisher);
    push_opt_field(&mut fm, "description", &meta.description);
    extend_str(&mut fm, "---");
    Some(fm)
}

/// A YAML front-matter block for the document's metadata, or `None` when it
/// carries none. The block is `---`-fenced; every value is quoted and escaped
/// so titles with colons, quotes, or leading dashes stay valid YAML.
pub fn render_front_matter(meta: &DocumentMeta) -> (out: Option<String>)
    ensures
        match out {
            Some(s) => front_matter(meta@) == Some(s@),
            None => front_matter(meta@) is None,
        },
{
    match front_matter_chars(meta) {
        Some(v) => Some(string_of(&v)),
        None => None,
    }
}

/// A character that may stand in a quoted value: anything but white space,
/// which only a plain space may be.
pub open spec fn single_line_char(c: char) -> bool {
    !is_space(c) || c == ' '
}

proof fn lemma_words_no_space(s: Seq<char>)
    ensures
        forall|w: int, k: int|
            0 <= w < words(s).len() && 0 <= k < words(s)[w].len() ==> !is_space(
                #[trigger] words(s)[w][k],
            ),
    decreases s.len(),
{
    if s.len() > 0 {
        lemma_words_no_space(s.drop_last());
        let w = words(s.drop_last());
        let c = s.last();
        if !is_space(c) && s.len() >= 2 && !is_space(s[s.len() - 2]) && w.len() > 0 {
            let ws = words(s);
            assert forall|a: int, k: int| 0 <= a < ws.len() && 0 <= k < ws[a].len() implies !is_space(
                #[trigger] ws[a][k],
            ) by {
                if a == w.len() - 1 && k == w.last().len() {
                } else if a == w.len() - 1 {
                    assert(ws[a][k] == w[a][k]);
                } else {
                    assert(ws[a] == w[a]);
                }
            }
        } else if !is_space(c) {
            let ws = words(s);
            assert forall|a: int, k: int| 0 <= a < ws.len() && 0 <= k < ws[a].len() implies !is_space(
                #[trigger] ws[a][k],
            ) by {
                if a < w.len() {
                    assert(ws[a] == w[a]);
                }
            }
        }
    }
}

proof fn lemma_join_chars(parts: Seq<Seq<char>>, sep: Seq<char>)
    requires
        forall|w: int, k: int|
            0 <= w < parts.len() && 0 <= k < parts[w].len() ==> single_line_char(
                #[trigger] parts[w][k],
            ),
        forall|k: int| 0 <= k < sep.len() ==> single_line_char(#[trigger] sep[k]),
    ensures
        forall|k: int| 0 <= k < join(parts, sep).len() ==> single_line_char(#[trigger] join(parts, sep)[k]),
    decreases parts.len(),
{
    if parts.len() > 1 {
        lemma_join_chars(parts.drop_last(), sep);
        let j = join(parts.drop_last(), sep);
        assert forall|k: int| 0 <= k < join(parts, sep).len() implies single_line_char(
            #[trigger] join(parts, sep)[k],
        ) by {
            if k < j.len() {
            } else if k < j.len() + sep.len() {
                assert(join(parts, sep)[k] == sep[k - j.len()]);
            } else {
                assert(join(parts, sep)[k] == parts.last()[k - j.len() - sep.len()]);
                assert(parts.last() == parts[parts.len() - 1]);
            }
        }
    } else if parts.len() == 1 {
        assert forall|k: int| 0 <= k < join(parts, sep).len() implies single_line_char(
            #[trigger] join(parts, sep)[k],
        ) by {
            assert(join(parts, sep)[k] == parts[0][k]);
        }
    }
}

proof fn lemma_yaml_escape_chars(s: Seq<char>)
    requires
        forall|k: int| 0 <= k < s.len() ==> single_line_char(#[trigger] s[k]),
    ensures
        forall|k: int| 0 <= k < yaml_escape(s).len() ==> single_line_char(#[trigger] yaml_escape(s)[k]),
    decreases s.len(),
{
    if s.len() > 0 {
        lemma_yaml_escape_chars(s.drop_last());
        let e = yaml_escape(s.drop_last());
        assert(single_line_char(s.last()));
        assert forall|k: int| 0 <= k < yaml_escape(s).len() implies single_line_char(
            #[trigger] yaml_escape(s)[k],
        ) by {
            if k >= e.len() {
                assert(yaml_escape(s)[k] == yaml_escape_char(s.last())[k - e.len()]);
            }
        }
    }
}

/// A quoted metadata value stays on one line: it holds no white space but
/// plain spaces, and it starts and ends with a double quote.
pub proof fn law_yaml_quoted_single_line(value: Seq<char>)
    ensures
        forall|k: int| 0 <= k < yaml_quoted(value).len() ==> single_line_char(
            #[trigger] yaml_quoted(value)[k],
        ),
        yaml_quoted(value).len() >= 2,
        yaml_quoted(value)[0] == '"',
        yaml_quoted(value).last() == '"',
{
    reveal_strlit(" ");
    lemma_words_no_space(value);
    let ws = words(value);
    assert forall|w: int, k: int| 0 <= w < ws.len() && 0 <= k < ws[w].len() implies single_line_char(
        #[trigger] ws[w][k],
    ) by {}
    lemma_join_chars(ws, " "@);
    lemma_yaml_escape_chars(collapse(value));
    let e = yaml_escape(collapse(value));
    let q = yaml_quoted(value);
    assert forall|k: int| 0 <= k < q.len() implies single_line_char(#[trigger] q[k]) by {
        if 1 <= k < q.len() - 1 {
            assert(q[k] == e[k - 1]);
        }
    }
}

/// The escapes of a YAML double-quoted scalar read back, left to right:
/// `\\` gives `\` and `\"` gives `"`.
pub open spec fn yaml_unescape(s: Seq<char>) -> Seq<char>
    decreases s.len(),
{
    if s.len() == 0 {
        Seq::empty()
    } else if s.len() >= 2 && s[0] == '\\' && (s[1] == '\\' || s[1] == '"') {
        seq![s[1]] + yaml_unescape(s.skip(2))
    } else {
        seq![s[0]] + yaml_unescape(s.drop_first())
    }
}

proof fn lemma_yaml_escape_concat(a: Seq<char>, b: Seq<char>)
    ensures
        yaml_escape(a + b) == yaml_escape(a) + yaml_escape(b),
    decreases b.len(),
{
    if b.len() == 0 {
        assert(a + b =~= a);
        assert(yaml_escape(a) + yaml_escape(b) =~= yaml_escape(a));
    } else {
        lemma_yaml_escape_concat(a, b.drop_last());
        assert((a + b).drop_last() =~= a + b.drop_last());
        assert((a + b).last() == b.last());
        assert(yaml_escape(a + b) =~= yaml_escape(a) + yaml_escape(b));
    }
}

proof fn lemma_yaml_unescape_escape(s: Seq<char>)
    ensures
        yaml_unescape(yaml_escape(s)) == s,
    decreases s.len(),
{
    if s.len() > 0 {
        let c = s[0];
        let rest = s.drop_first();
        assert(s =~= seq![c] + rest);
        lemma_yaml_escape_concat(seq![c], rest);
        assert(seq![c].drop_last() =~= Seq::<char>::empty());
        assert(seq![c].last() == c);
        assert(yaml_escape(Seq::<char>::empty()) == Seq::<char>::empty());
        assert(yaml_escape(seq![c]) =~= yaml_escape(Seq::<char>::empty()) + yaml_escape_char(c));
        assert(yaml_escape(seq![c]) =~= yaml_escape_char(c));
        lemma_yaml_unescape_escape(rest);
        let e = yaml_escape(rest);
        let x = yaml_escape_char(c) + e;
        assert(yaml_escape(s) == x);
        if c == '"' || c == '\\' {
            assert(x.skip(2) =~= e);
            assert(x[0] == '\\' && x[1] == c);
        } else {
            assert(x.drop_first() =~= e);
            assert(x[0] == c);
        }
        assert(yaml_unescape(x) =~= seq![c] + rest);
    }
}

/// A quoted value reads back: unescaping what stands between the quotes
/// gives the value collapsed to single spaces.
pub proof fn law_yaml_quoted_round_trip(value: Seq<char>)
    ensures
        yaml_unescape(yaml_quoted(value).subrange(1, yaml_quoted(value).len() - 1)) == collapse(
            value,
        ),
{
    let q = yaml_quoted(value);
    let e = yaml_escape(collapse(value));
    assert(q.subrange(1, q.len() - 1) =~= e);
    lemma_yaml_unescape_escape(collapse(value));
}

} // verus!
