//! Item labels of ordered lists: decimal, alphabetic and Roman numbering.
use vstd::prelude::*;
use crate::model::MarkerKind;
use crate::text::{decimal, decimal_chars, extend, extend_str, string_of};

verus! {

/// The `d`-th letter of the Latin alphabet (`d < 26`), upper or lower case.
pub open spec fn letter(d: nat, upper: bool) -> char {
    if upper {
        ((65 + d) as u8) as char
    } else {
        ((97 + d) as u8) as char
    }
}

/// Alphabetic numbering: 1 is `a`, 26 is `z`, 27 is `aa`, and so on.
pub open spec fn alpha(n: nat, upper: bool) -> Seq<char>
    decreases n,
{
    if n == 0 {
        Seq::empty()
    } else if n <= 26 {
        seq![letter((n - 1) as nat, upper)]
    } else {
        alpha(((n - 1) / 26) as nat, upper).push(letter(((n - 1) % 26) as nat, upper))
    }
}

/// Roman numerals, written greedily with subtractive pairs.
pub open spec fn roman(n: nat) -> Seq<char>
    decreases n,
{
    if n >= 1000 {
        "M"@ + roman((n - 1000) as nat)
    } else if n >= 900 {
        "CM"@ + roman((n - 900) as nat)
    } else if n >= 500 {
        "D"@ + roman((n - 500) as nat)
    } else if n >= 400 {
        "CD"@ + roman((n - 400) as nat)
    } else if n >= 100 {
        "C"@ + roman((n - 100) as nat)
    } else if n >= 90 {
        "XC"@ + roman((n - 90) as nat)
    } else if n >= 50 {
        "L"@ + roman((n - 50) as nat)
    } else if n >= 40 {
        "XL"@ + roman((n - 40) as nat)
    } else if n >= 10 {
        "X"@ + roman((n - 10) as nat)
    } else if n >= 9 {
        "IX"@ + roman((n - 9) as nat)
    } else if n >= 5 {
        "V"@ + roman((n - 5) as nat)
    } else if n >= 4 {
        "IV"@ + roman((n - 4) as nat)
    } else if n >= 1 {
        "I"@ + roman((n - 1) as nat)
    } else {
        Seq::empty()
    }
}

pub open spec fn ascii_lower(c: char) -> char {
    if 'A' <= c && c <= 'Z' {
        ((c as u32) + 32) as char
    } else {
        c
    }
}

/// The numeral of `n` in a marker kind, without punctuation. Alphabetic
/// numbering has no zero, and Roman numbering runs from 1 to 3999: outside
/// those ranges the numeral is decimal.
pub open spec fn numeral(kind: MarkerKind, n: nat) -> Seq<char> {
    match kind {
        MarkerKind::LowerAlpha => if n == 0 {
            decimal(n)
        } else {
            alpha(n, false)
        },
        MarkerKind::UpperAlpha => if n == 0 {
            decimal(n)
        } else {
            alpha(n, true)
        },
        MarkerKind::LowerRoman => if 1 <= n <= 3999 {
            roman(n).map_values(|c: char| ascii_lower(c))
        } else {
            decimal(n)
        },
        MarkerKind::UpperRoman => if 1 <= n <= 3999 {
            roman(n)
        } else {
            decimal(n)
        },
        _ => decimal(n),
    }
}

/// The label of item number `n`: a bullet is `-`, every other kind writes
/// its numeral followed by a period.
pub open spec fn marker_label(kind: MarkerKind, n: nat) -> Seq<char> {
    match kind {
        MarkerKind::Bullet => "-"@,
        _ => numeral(kind, n) + "."@,
    }
}

fn alpha_chars(n: u64, upper: bool) -> (out: Vec<char>)
    ensures
        out@ == alpha(n as nat, upper),
    decreases n,
{
    if n == 0 {
        Vec::new()
    } else if n <= 26 {
        let mut v: Vec<char> = Vec::new();
        let base: u8 = if upper { 65 } else { 97 };
        v.push((base + ((n - 1) as u8)) as char);
        assert(v@ =~= alpha(n as nat, upper));
        v
    } else {
        let mut v = alpha_chars((n - 1) / 26, upper);
        let base: u8 = if upper { 65 } else { 97 };
        v.push((base + (((n - 1) % 26) as u8)) as char);
        v
    }
}

fn roman_chars(n: u64) -> (out: Vec<char>)
    requires
        n <= 3999,
    ensures
        out@ == roman(n as nat),
    decreases n,
{
    let mut out: Vec<char> = Vec::new();
    let rest: u64;
    if n >= 1000 {
        extend_str(&mut out, "M");
        rest = n - 1000;
    } else if n >= 900 {
        extend_str(&mut out, "CM");
        rest = n - 900;
    } else if n >= 500 {
        extend_str(&mut out, "D");
        rest = n - 500;
    } else if n >= 400 {
        extend_str(&mut out, "CD");
        rest = n - 400;
    } else if n >= 100 {
        extend_str(&mut out, "C");
        rest = n - 100;
    } else if n >= 90 {
        extend_str(&mut out, "XC");
        rest = n - 90;
    } else if n >= 50 {
        extend_str(&mut out, "L");
        rest = n - 50;
    } else if n >= 40 {
        extend_str(&mut out, "XL");
        rest = n - 40;
    } else if n >= 10 {
        extend_str(&mut out, "X");
        rest = n - 10;
    } else if n >= 9 {
        extend_str(&mut out, "IX");
        rest = n - 9;
    } else if n >= 5 {
        extend_str(&mut out, "V");
        rest = n - 5;
    } else if n >= 4 {
        extend_str(&mut out, "IV");
        rest = n - 4;
    } else if n >= 1 {
        extend_str(&mut out, "I");
        rest = n - 1;
    } else {
        return out;
    }
    let tail = roman_chars(rest);
    extend(&mut out, &tail);
    out
}

fn lower_chars(v: &Vec<char>) -> (out: Vec<char>)
    ensures
        out@ == v@.map_values(|c: char| ascii_lower(c)),
{
    let mut out: Vec<char> = Vec::new();
    let mut i: usize = 0;
    while i < v.len()
        invariant
            i <= v.len(),
            out@ == v@.take(i as int).map_values(|c: char| ascii_lower(c)),
        decreases v.len() - i,
    {
        let c = v[i];
        if 'A' <= c && c <= 'Z' {
            out.push(((c as u32) + 32) as u8 as char);
        } else {
            out.push(c);
        }
        assert(out@ =~= v@.take(i + 1).map_values(|c: char| ascii_lower(c)));
        i = i + 1;
    }
    assert(v@.take(v.len() as int) =~= v@);
    out
}

pub fn numeral_chars(kind: MarkerKind, n: u64) -> (out: Vec<char>)
    ensures
        out@ == numeral(kind, n as nat),
{
    match kind {
        MarkerKind::LowerAlpha if n != 0 => alpha_chars(n, false),
        MarkerKind::UpperAlpha if n != 0 => alpha_chars(n, true),
        MarkerKind::LowerRoman if 1 <= n && n <= 3999 => {
            let r = roman_chars(n);
            lower_chars(&r)
        },
        MarkerKind::UpperRoman if 1 <= n && n <= 3999 => roman_chars(n),
        _ => decimal_chars(n),
    }
}

pub fn marker_label_chars(kind: MarkerKind, n: u64) -> (out: Vec<char>)
    ensures
        out@ == marker_label(kind, n as nat),
{
    let mut out: Vec<char> = Vec::new();
    match kind {
        MarkerKind::Bullet => {
            extend_str(&mut out, "-");
        },
        _ => {
            let d = numeral_chars(kind, n);
            extend(&mut out, &d);
            extend_str(&mut out, ".");
        },
    }
    out
}

impl MarkerKind {
    /// The label of item number `n` of a list of this kind.
    pub fn label(&self, n: u64) -> (out: String)
        ensures
            out@ == marker_label(*self, n as nat),
    {
        let v = marker_label_chars(*self, n);
        string_of(&v)
    }
}

// ---------------------------------------------------------------------------
// Reading Roman numerals back

/// The value of a Roman digit, in either case; 0 for any other character.
pub open spec fn roman_digit(c: char) -> int {
    if c == 'I' || c == 'i' {
        1
    } else if c == 'V' || c == 'v' {
        5
    } else if c == 'X' || c == 'x' {
        10
    } else if c == 'L' || c == 'l' {
        50
    } else if c == 'C' || c == 'c' {
        100
    } else if c == 'D' || c == 'd' {
        500
    } else if c == 'M' || c == 'm' {
        1000
    } else {
        0
    }
}

/// The value a reader gives a Roman numeral: each digit counts, and counts
/// negatively when a larger digit follows it.
pub open spec fn roman_value(s: Seq<char>) -> int
    decreases s.len(),
{
    if s.len() == 0 {
        0
    } else {
        let d = roman_digit(s[0]);
        (if s.len() > 1 && d < roman_digit(s[1]) {
            -d
        } else {
            d
        }) + roman_value(s.drop_first())
    }
}

proof fn lemma_value_cons(c: char, r: Seq<char>)
    ensures
        roman_value(seq![c] + r) == (if r.len() > 0 && roman_digit(c) < roman_digit(r[0]) {
            -roman_digit(c)
        } else {
            roman_digit(c)
        }) + roman_value(r),
{
    let s = seq![c] + r;
    assert(s.drop_first() =~= r);
    assert(s[0] == c);
    if r.len() > 0 {
        assert(s[1] == r[0]);
    }
}

proof fn lemma_value_head1(h: Seq<char>, c: char, r: Seq<char>)
    requires
        h =~= seq![c],
        r.len() > 0 ==> roman_digit(r[0]) <= roman_digit(c),
    ensures
        roman_value(h + r) == roman_digit(c) + roman_value(r),
{
    lemma_value_cons(c, r);
}

proof fn lemma_value_head2(h: Seq<char>, a: char, b: char, r: Seq<char>)
    requires
        h =~= seq![a, b],
        roman_digit(a) < roman_digit(b),
        r.len() > 0 ==> roman_digit(r[0]) <= roman_digit(b),
    ensures
        roman_value(h + r) == roman_digit(b) - roman_digit(a) + roman_value(r),
{
    assert(h + r =~= seq![a] + (seq![b] + r));
    lemma_value_cons(b, r);
    lemma_value_cons(a, seq![b] + r);
    assert((seq![b] + r)[0] == b);
}

/// Greedy Roman numerals read back as the number they were written for;
/// their first digit is worth no more than the number.
proof fn lemma_roman_value(n: nat)
    ensures
        roman_value(roman(n)) == n,
        roman(n).len() > 0 <==> n >= 1,
        roman(n).len() > 0 ==> 1 <= roman_digit(roman(n)[0]) <= n,
        roman(n).len() > 0 ==> roman_digit(roman(n)[0]) <= 1000,
    decreases n,
{
    reveal_strlit("M");
    reveal_strlit("CM");
    reveal_strlit("D");
    reveal_strlit("CD");
    reveal_strlit("C");
    reveal_strlit("XC");
    reveal_strlit("L");
    reveal_strlit("XL");
    reveal_strlit("X");
    reveal_strlit("IX");
    reveal_strlit("V");
    reveal_strlit("IV");
    reveal_strlit("I");
    if n >= 1000 {
        let r = roman((n - 1000) as nat);
        lemma_roman_value((n - 1000) as nat);
        lemma_value_head1("M"@, 'M', r);
    } else if n >= 900 {
        let r = roman((n - 900) as nat);
        lemma_roman_value((n - 900) as nat);
        lemma_value_head2("CM"@, 'C', 'M', r);
    } else if n >= 500 {
        let r = roman((n - 500) as nat);
        lemma_roman_value((n - 500) as nat);
        lemma_value_head1("D"@, 'D', r);
    } else if n >= 400 {
        let r = roman((n - 400) as nat);
        lemma_roman_value((n - 400) as nat);
        lemma_value_head2("CD"@, 'C', 'D', r);
    } else if n >= 100 {
        let r = roman((n - 100) as nat);
        lemma_roman_value((n - 100) as nat);
        lemma_value_head1("C"@, 'C', r);
    } else if n >= 90 {
        let r = roman((n - 90) as nat);
        lemma_roman_value((n - 90) as nat);
        lemma_value_head2("XC"@, 'X', 'C', r);
    } else if n >= 50 {
        let r = roman((n - 50) as nat);
        lemma_roman_value((n - 50) as nat);
        lemma_value_head1("L"@, 'L', r);
    } else if n >= 40 {
        let r = roman((n - 40) as nat);
        lemma_roman_value((n - 40) as nat);
        lemma_value_head2("XL"@, 'X', 'L', r);
    } else if n >= 10 {
        let r = roman((n - 10) as nat);
        lemma_roman_value((n - 10) as nat);
        lemma_value_head1("X"@, 'X', r);
    } else if n >= 9 {
        let r = roman((n - 9) as nat);
        lemma_roman_value((n - 9) as nat);
        lemma_value_head2("IX"@, 'I', 'X', r);
    } else if n >= 5 {
        let r = roman((n - 5) as nat);
        lemma_roman_value((n - 5) as nat);
        lemma_value_head1("V"@, 'V', r);
    } else if n >= 4 {
        let r = roman((n - 4) as nat);
        lemma_roman_value((n - 4) as nat);
        lemma_value_head2("IV"@, 'I', 'V', r);
    } else if n >= 1 {
        let r = roman((n - 1) as nat);
        lemma_roman_value((n - 1) as nat);
        lemma_value_head1("I"@, 'I', r);
    }
}

proof fn lemma_lower_digit(c: char)
    ensures
        roman_digit(ascii_lower(c)) == roman_digit(c),
{
    if 'A' <= c && c <= 'Z' {
        let u = c as u32;
        assert(ascii_lower(c) as u32 == u + 32);
    }
}

proof fn lemma_value_lower(s: Seq<char>)
    ensures
        roman_value(s.map_values(|c: char| ascii_lower(c))) == roman_value(s),
    decreases s.len(),
{
    let m = s.map_values(|c: char| ascii_lower(c));
    if s.len() > 0 {
        assert(m.drop_first() =~= s.drop_first().map_values(|c: char| ascii_lower(c)));
        lemma_value_lower(s.drop_first());
        lemma_lower_digit(s[0]);
        if s.len() > 1 {
            lemma_lower_digit(s[1]);
        }
    }
}

/// Roman item labels are right: for items 1 to 3999, upper or lower case,
/// the label is a numeral followed by a period, and the numeral read back
/// as a Roman number is the item's number.
pub proof fn law_roman_labels_read_back(kind: MarkerKind, n: nat)
    requires
        kind == MarkerKind::LowerRoman || kind == MarkerKind::UpperRoman,
        1 <= n <= 3999,
    ensures
        marker_label(kind, n).len() >= 2,
        marker_label(kind, n).last() == '.',
        roman_value(marker_label(kind, n).drop_last()) == n,
{
    reveal_strlit(".");
    lemma_roman_value(n);
    let num = numeral(kind, n);
    assert((num + "."@).drop_last() =~= num);
    if kind == MarkerKind::LowerRoman {
        lemma_value_lower(roman(n));
    }
}

// ---------------------------------------------------------------------------
// Reading alphabetic numerals back

/// The value of a letter as an alphabetic digit, `a` (or `A`) being 1 and
/// `z` (or `Z`) 26; 0 for any other character.
pub open spec fn alpha_digit(c: char) -> int {
    if 'a' <= c && c <= 'z' {
        (c as int) - 96
    } else if 'A' <= c && c <= 'Z' {
        (c as int) - 64
    } else {
        0
    }
}

/// The value of an alphabetic numeral, read as bijective base 26: `a` is
/// 1, `z` is 26, `aa` is 27.
pub open spec fn alpha_value(s: Seq<char>) -> int
    decreases s.len(),
{
    if s.len() == 0 {
        0
    } else {
        alpha_value(s.drop_last()) * 26 + alpha_digit(s.last())
    }
}

proof fn lemma_letter_digit(d: nat, upper: bool)
    requires
        d < 26,
    ensures
        alpha_digit(letter(d, upper)) == d + 1,
{
    if upper {
        assert(((65 + d) as u8) as char as int == 65 + d);
    } else {
        assert(((97 + d) as u8) as char as int == 97 + d);
    }
}

proof fn lemma_alpha_value(n: nat, upper: bool)
    ensures
        alpha_value(alpha(n, upper)) == n,
    decreases n,
{
    if n == 0 {
    } else if n <= 26 {
        lemma_letter_digit((n - 1) as nat, upper);
        let a = alpha(n, upper);
        assert(a.len() == 1);
        assert(a.drop_last() =~= Seq::<char>::empty());
        assert(alpha_value(a.drop_last()) == 0);
        assert(a.last() == letter((n - 1) as nat, upper));
        assert(alpha_value(a) == alpha_value(a.drop_last()) * 26 + alpha_digit(a.last()));
    } else {
        let q = ((n - 1) / 26) as nat;
        let d = ((n - 1) % 26) as nat;
        lemma_alpha_value(q, upper);
        lemma_letter_digit(d, upper);
        let a = alpha(n, upper);
        assert(a.drop_last() =~= alpha(q, upper));
        assert(a.last() == letter(d, upper));
        assert(q * 26 + d == n - 1) by (nonlinear_arith)
            requires
                q == (n - 1) / 26,
                d == (n - 1) % 26,
                n > 26,
        ;
        assert(alpha_value(a) == alpha_value(a.drop_last()) * 26 + alpha_digit(a.last()));
        assert(alpha_value(a.drop_last()) == q);
    }
}

/// Alphabetic item labels are right: for every item number from 1 on,
/// upper or lower case, the label is a numeral followed by a period, and
/// the numeral read back in bijective base 26 is the item's number.
pub proof fn law_alpha_labels_read_back(kind: MarkerKind, n: nat)
    requires
        kind == MarkerKind::LowerAlpha || kind == MarkerKind::UpperAlpha,
        n >= 1,
    ensures
        marker_label(kind, n).len() >= 2,
        marker_label(kind, n).last() == '.',
        alpha_value(marker_label(kind, n).drop_last()) == n,
{
    reveal_strlit(".");
    let upper = kind == MarkerKind::UpperAlpha;
    lemma_alpha_value(n, upper);
    let num = numeral(kind, n);
    assert(num == alpha(n, upper));
    assert((num + "."@).drop_last() =~= num);
    if num.len() == 0 {
        assert(alpha_value(num) == 0);
    }
}

} // verus!
