//! JSON text pieces used by the wire format and the ledger: quoted strings
//! with the standard escapes, decimal numbers, and their scanners.
use vstd::prelude::*;

verus! {

/// Lowercase hexadecimal digit of `d` (0..16).
pub open spec fn hex_digit(d: int) -> char {
    if d < 10 {
        ((d + 48) as u8) as char
    } else {
        ((d + 87) as u8) as char
    }
}

/// Value of a hexadecimal digit, either case, or -1.
pub open spec fn hex_value(c: char) -> int {
    if 48 <= (c as u32) && (c as u32) <= 57 {
        (c as u32) - 48
    } else if 97 <= (c as u32) && (c as u32) <= 102 {
        (c as u32) - 87
    } else if 65 <= (c as u32) && (c as u32) <= 70 {
        (c as u32) - 55
    } else {
        -1
    }
}

/// The code unit that `\uXXXX` at `i` (the backslash) names.
pub open spec fn unicode_escape(s: Seq<char>, i: int) -> int {
    hex_value(s[i + 2]) * 4096 + hex_value(s[i + 3]) * 256 + hex_value(s[i + 4]) * 16 + hex_value(
        s[i + 5],
    )
}

/// Characters written as a two-character escape: `\"`, `\\`, `\b`, `\t`, `\n`, `\f`, `\r`.
pub open spec fn short_escape(c: char) -> Option<char> {
    if c == '"' {
        Some('"')
    } else if c == '\\' {
        Some('\\')
    } else if c == '\x08' {
        Some('b')
    } else if c == '\t' {
        Some('t')
    } else if c == '\n' {
        Some('n')
    } else if c == '\x0c' {
        Some('f')
    } else if c == '\r' {
        Some('r')
    } else {
        None
    }
}

/// The character that a two-character escape `\e` stands for.
pub open spec fn unescape_short(e: char) -> Option<char> {
    if e == '"' {
        Some('"')
    } else if e == '\\' {
        Some('\\')
    } else if e == 'b' {
        Some('\x08')
    } else if e == 't' {
        Some('\t')
    } else if e == 'n' {
        Some('\n')
    } else if e == 'f' {
        Some('\x0c')
    } else if e == 'r' {
        Some('\r')
    } else if e == '/' {
        Some('/')
    } else {
        None
    }
}

/// How one character is written inside a JSON string.
pub open spec fn escape_char(c: char) -> Seq<char> {
    if short_escape(c) is Some {
        seq!['\\', short_escape(c)->0]
    } else if (c as u32) < 32 {
        seq!['\\', 'u', '0', '0', hex_digit((c as u32) as int / 16), hex_digit((c as u32) as int % 16)]
    } else {
        seq![c]
    }
}

/// The body of a JSON string literal for `s`, without the quotes.
pub open spec fn escape(s: Seq<char>) -> Seq<char>
    decreases s.len(),
{
    if s.len() == 0 {
        Seq::empty()
    } else {
        escape(s.drop_last()) + escape_char(s.last())
    }
}

/// A JSON string literal for `s`.
pub open spec fn quoted(s: Seq<char>) -> Seq<char> {
    seq!['"'] + escape(s) + seq!['"']
}

/// Reads a string body from position `i` (just past the opening quote) up to
/// and including the closing quote; `acc` holds what was read so far.
/// Accepts the JSON escapes but for surrogate pairs.
pub open spec fn scan_str(s: Seq<char>, i: int, acc: Seq<char>) -> Option<(Seq<char>, int)>
    decreases s.len() - i,
{
    if i < 0 || i >= s.len() {
        None
    } else if s[i] == '"' {
        Some((acc, i + 1))
    } else if s[i] == '\\' {
        if i + 1 >= s.len() {
            None
        } else if unescape_short(s[i + 1]) is Some {
            scan_str(s, i + 2, acc.push(unescape_short(s[i + 1])->0))
        } else if s[i + 1] == 'u' && i + 5 < s.len() && 0 <= hex_value(s[i + 2]) && 0 <= hex_value(
            s[i + 3],
        ) && 0 <= hex_value(s[i + 4]) && 0 <= hex_value(s[i + 5]) {
            let v = unicode_escape(s, i);
            if 0xd800 <= v <= 0xdfff {
                None
            } else {
                scan_str(s, i + 6, acc.push((v as u32) as char))
            }
        } else {
            None
        }
    } else if (s[i] as u32) < 32 {
        None
    } else {
        scan_str(s, i + 1, acc.push(s[i]))
    }
}

/// Reads a JSON string literal that starts at `i`.
pub open spec fn scan_quoted(s: Seq<char>, i: int) -> Option<(Seq<char>, int)> {
    if 0 <= i < s.len() && s[i] == '"' {
        scan_str(s, i + 1, Seq::empty())
    } else {
        None
    }
}

pub open spec fn is_digit(c: char) -> bool {
    48 <= (c as u32) && (c as u32) <= 57
}

pub open spec fn digit_char(d: int) -> char {
    ((d + 48) as u8) as char
}

/// Decimal digits of `n`, most significant first, without leading zeros.
pub open spec fn decimal(n: nat) -> Seq<char>
    decreases n,
{
    if n < 10 {
        seq![digit_char(n as int)]
    } else {
        decimal(n / 10).push(digit_char((n % 10) as int))
    }
}

/// The number that a run of decimal digits denotes.
pub open spec fn digits_value(d: Seq<char>) -> nat
    decreases d.len(),
{
    if d.len() == 0 {
        0
    } else {
        digits_value(d.drop_last()) * 10 + ((d.last() as u32) - 48) as nat
    }
}

/// The end of the run of digits that starts at `i`.
pub open spec fn digits_end(s: Seq<char>, i: int) -> int
    decreases s.len() - i,
{
    if 0 <= i < s.len() && is_digit(s[i]) {
        digits_end(s, i + 1)
    } else {
        i
    }
}

/// Reads a JSON number without sign, fraction or leading zeros that fits in a `u128`.
pub open spec fn scan_number(s: Seq<char>, i: int) -> Option<(nat, int)> {
    if 0 <= i <= s.len() {
        let j = digits_end(s, i);
        let d = s.subrange(i, j);
        if d.len() == 0 || (d.len() > 1 && d[0] == '0') || digits_value(d) > u128::MAX {
            None
        } else {
            Some((digits_value(d), j))
        }
    } else {
        None
    }
}

/// The JSON literal for a boolean.
pub open spec fn bool_text(b: bool) -> Seq<char> {
    if b {
        seq!['t', 'r', 'u', 'e']
    } else {
        seq!['f', 'a', 'l', 's', 'e']
    }
}

/// Reads `true` or `false` at `i`.
pub open spec fn scan_bool(s: Seq<char>, i: int) -> Option<(bool, int)> {
    if 0 <= i && i + 4 <= s.len() && s.subrange(i, i + 4) == bool_text(true) {
        Some((true, i + 4))
    } else if 0 <= i && i + 5 <= s.len() && s.subrange(i, i + 5) == bool_text(false) {
        Some((false, i + 5))
    } else {
        None
    }
}

// ---------------------------------------------------------------------------
// Lemmas
// ---------------------------------------------------------------------------

pub proof fn lemma_escape_concat(a: Seq<char>, b: Seq<char>)
    ensures
        escape(a + b) == escape(a) + escape(b),
    decreases b.len(),
{
    if b.len() == 0 {
        assert(a + b =~= a);
        assert(escape(a) + escape(b) =~= escape(a));
    } else {
        lemma_escape_concat(a, b.drop_last());
        assert((a + b).drop_last() =~= a + b.drop_last());
        assert((a + b).last() == b.last());
        assert(escape(a + b) =~= escape(a) + escape(b));
    }
}

proof fn lemma_escape_single(c: char)
    ensures
        escape(seq![c]) == escape_char(c),
{
    assert(seq![c].drop_last() =~= Seq::<char>::empty());
    assert(escape(Seq::<char>::empty()) =~= Seq::<char>::empty());
    assert(seq![c].last() == c);
    assert(Seq::<char>::empty() + escape_char(c) =~= escape_char(c));
}

/// One escaped character is read back as that character.
proof fn lemma_scan_escape_char(p: Seq<char>, c: char, rest: Seq<char>, acc: Seq<char>)
    requires
        rest.len() > 0,
    ensures
        scan_str(p + escape_char(c) + rest, p.len() as int, acc) == scan_str(
            p + escape_char(c) + rest,
            (p.len() + escape_char(c).len()) as int,
            acc.push(c),
        ),
{
    let s = p + escape_char(c) + rest;
    let i = p.len() as int;
    if short_escape(c) is Some {
        assert(s[i] == '\\');
        assert(s[i + 1] == short_escape(c)->0);
        assert(unescape_short(s[i + 1]) == Some(c));
    } else if (c as u32) < 32 {
        let code = (c as u32) as int;
        assert(s[i] == '\\');
        assert(s[i + 1] == 'u');
        assert(s[i + 2] == '0');
        assert(s[i + 3] == '0');
        assert(s[i + 4] == hex_digit(code / 16));
        assert(s[i + 5] == hex_digit(code % 16));
        assert(hex_value(hex_digit(code / 16)) == code / 16);
        assert(hex_value(hex_digit(code % 16)) == code % 16);
        assert(unicode_escape(s, i) == code);
        vstd::utf8::char_u32_cast(c, c as u32);
        assert(((code as u32) as char) == c);
    } else {
        assert(s[i] == c);
    }
}

/// An escaped string followed by a quote is read back as that string.
pub proof fn lemma_scan_escaped(p: Seq<char>, t: Seq<char>, r: Seq<char>, acc: Seq<char>)
    ensures
        scan_str(p + escape(t) + seq!['"'] + r, p.len() as int, acc) == Some(
            (acc + t, (p.len() + escape(t).len() + 1) as int),
        ),
    decreases t.len(),
{
    let s = p + escape(t) + seq!['"'] + r;
    if t.len() == 0 {
        assert(escape(t) =~= Seq::<char>::empty());
        assert(s[p.len() as int] == '"');
        assert(acc + t =~= acc);
    } else {
        let c = t[0];
        let t2 = t.drop_first();
        assert(t =~= seq![c] + t2);
        lemma_escape_concat(seq![c], t2);
        lemma_escape_single(c);
        let p2 = p + escape_char(c);
        let rest = escape(t2) + seq!['"'] + r;
        assert(s =~= p + escape_char(c) + rest);
        lemma_scan_escape_char(p, c, rest, acc);
        assert(s =~= p2 + escape(t2) + seq!['"'] + r);
        lemma_scan_escaped(p2, t2, r, acc.push(c));
        assert(acc.push(c) + t2 =~= acc + t);
    }
}

/// A quoted string is read back by `scan_quoted`.
pub proof fn lemma_scan_quoted(p: Seq<char>, t: Seq<char>, r: Seq<char>)
    ensures
        scan_quoted(p + quoted(t) + r, p.len() as int) == Some(
            (t, (p.len() + quoted(t).len()) as int),
        ),
{
    let s = p + quoted(t) + r;
    assert(s =~= (p + seq!['"']) + escape(t) + seq!['"'] + r);
    assert(s[p.len() as int] == '"');
    lemma_scan_escaped(p + seq!['"'], t, r, Seq::empty());
    assert(Seq::<char>::empty() + t =~= t);
}

pub proof fn lemma_decimal_digits(n: nat)
    ensures
        decimal(n).len() >= 1,
        forall|k: int| 0 <= k < decimal(n).len() ==> is_digit(#[trigger] decimal(n)[k]),
        digits_value(decimal(n)) == n,
        decimal(n).len() > 1 ==> decimal(n)[0] != '0',
        n >= 1 ==> decimal(n)[0] != '0',
    decreases n,
{
    if n >= 10 {
        lemma_decimal_digits(n / 10);
        let d = decimal(n);
        assert(d.drop_last() =~= decimal(n / 10));
        assert(d.last() == digit_char((n % 10) as int));
        assert((digit_char((n % 10) as int) as u32) == (n % 10) + 48);
        assert(n == (n / 10) * 10 + n % 10);
        assert(digits_value(d) == digits_value(d.drop_last()) * 10 + ((d.last() as u32) - 48) as nat);
        assert(digits_value(d.drop_last()) == n / 10);
    } else {
        let d = decimal(n);
        assert(d.drop_last() =~= Seq::<char>::empty());
        assert((digit_char(n as int) as u32) == n + 48);
        assert(d.last() == digit_char(n as int));
        assert(digits_value(d.drop_last()) == 0);
        assert(digits_value(d) == digits_value(d.drop_last()) * 10 + ((d.last() as u32) - 48) as nat);
    }
}

proof fn lemma_digits_end_run(s: Seq<char>, i: int, k: int)
    requires
        0 <= i <= k <= s.len(),
        forall|m: int| i <= m < k ==> is_digit(#[trigger] s[m]),
    ensures
        digits_end(s, i) == digits_end(s, k),
        digits_end(s, k) >= k,
    decreases k - i,
{
    if i < k {
        lemma_digits_end_run(s, i + 1, k);
    }
    lemma_digits_end_ge(s, k);
}

proof fn lemma_digits_end_ge(s: Seq<char>, k: int)
    ensures
        digits_end(s, k) >= k,
        0 <= k <= s.len() ==> digits_end(s, k) <= s.len(),
    decreases s.len() - k,
{
    if 0 <= k < s.len() && is_digit(s[k]) {
        lemma_digits_end_ge(s, k + 1);
    }
}

proof fn lemma_digits_run_inside(s: Seq<char>, i: int, m: int)
    requires
        0 <= i <= m < digits_end(s, i),
    ensures
        is_digit(s[m]),
    decreases m - i,
{
    if m > i {
        lemma_digits_run_inside(s, i + 1, m);
    }
}

/// Appending digits never makes a number smaller.
pub proof fn lemma_digits_value_mono(a: Seq<char>, b: Seq<char>)
    requires
        forall|k: int| 0 <= k < b.len() ==> is_digit(#[trigger] b[k]),
    ensures
        digits_value(a + b) >= digits_value(a),
    decreases b.len(),
{
    if b.len() > 0 {
        assert((a + b).drop_last() =~= a + b.drop_last());
        lemma_digits_value_mono(a, b.drop_last());
    } else {
        assert(a + b =~= a);
    }
}

/// A decimal number followed by a non-digit is read back by `scan_number`.
pub proof fn lemma_scan_decimal(p: Seq<char>, n: nat, r: Seq<char>)
    requires
        n <= u128::MAX,
        r.len() == 0 || !is_digit(r[0]),
    ensures
        scan_number(p + decimal(n) + r, p.len() as int) == Some(
            (n, (p.len() + decimal(n).len()) as int),
        ),
{
    let s = p + decimal(n) + r;
    let i = p.len() as int;
    let k = i + decimal(n).len();
    lemma_decimal_digits(n);
    assert forall|m: int| i <= m < k implies is_digit(#[trigger] s[m]) by {
        assert(s[m] == decimal(n)[m - i]);
    }
    lemma_digits_end_run(s, i, k);
    if k < s.len() {
        assert(s[k] == r[0]);
    }
    assert(digits_end(s, k) == k);
    assert(s.subrange(i, k) =~= decimal(n));
}

/// A boolean literal is read back by `scan_bool`.
pub proof fn lemma_scan_bool(p: Seq<char>, b: bool, r: Seq<char>)
    ensures
        scan_bool(p + bool_text(b) + r, p.len() as int) == Some((b, (p.len() + bool_text(b).len()) as int)),
{
    let s = p + bool_text(b) + r;
    let i = p.len() as int;
    if b {
        assert(s.subrange(i, i + 4) =~= bool_text(true));
    } else {
        assert(s.subrange(i, i + 5) =~= bool_text(false));
        assert(s[i] == 'f');
        assert(s.subrange(i, i + 4) != bool_text(true)) by {
            assert(s.subrange(i, i + 4)[0] == 'f');
        }
    }
}

/// Escaped text never holds a raw line feed.
pub proof fn lemma_escape_no_newline(s: Seq<char>)
    ensures
        !escape(s).contains('\n'),
    decreases s.len(),
{
    if s.len() > 0 {
        lemma_escape_no_newline(s.drop_last());
        let c = s.last();
        assert(!escape_char(c).contains('\n')) by {
            if short_escape(c) is None && (c as u32) >= 32 {
                assert(c != '\n');
            }
            if short_escape(c) is None && (c as u32) < 32 {
                let code = (c as u32) as int;
                assert(hex_digit(code / 16) != '\n');
                assert(hex_digit(code % 16) != '\n');
            }
        }
        let e = escape(s);
        assert forall|i: int| 0 <= i < e.len() implies e[i] != '\n' by {
            if i < escape(s.drop_last()).len() {
                assert(e[i] == escape(s.drop_last())[i]);
            } else {
                assert(e[i] == escape_char(c)[i - escape(s.drop_last()).len()]);
            }
        }
    }
}

/// A quoted text never holds a raw line feed.
pub proof fn lemma_quoted_no_newline(s: Seq<char>)
    ensures
        !quoted(s).contains('\n'),
{
    lemma_escape_no_newline(s);
    let q = quoted(s);
    assert forall|i: int| 0 <= i < q.len() implies q[i] != '\n' by {
        if 0 < i < q.len() - 1 {
            assert(q[i] == escape(s)[i - 1]);
        }
    }
}

/// Decimal digits are never a line feed.
pub proof fn lemma_decimal_no_newline(n: nat)
    ensures
        !decimal(n).contains('\n'),
{
    lemma_decimal_digits(n);
    assert forall|i: int| 0 <= i < decimal(n).len() implies decimal(n)[i] != '\n' by {
        assert(is_digit(decimal(n)[i]));
    }
}

// ---------------------------------------------------------------------------
// Executable writers and readers
// ---------------------------------------------------------------------------

/// Relies on `str::chars`: the characters of `s`, in order.
#[verifier::external_body]
pub(crate) fn chars_of(s: &str) -> (r: Vec<char>)
    ensures
        r@ == s@,
{
    s.chars().collect()
}

/// Relies on `String`'s `FromIterator<char>`: the string of these characters.
#[verifier::external_body]
pub(crate) fn string_of(v: &Vec<char>) -> (r: String)
    ensures
        r@ == v@,
{
    v.iter().collect()
}

fn hex_char(d: u32) -> (c: char)
    requires
        d < 16,
    ensures
        c == hex_digit(d as int),
{
    if d < 10 {
        ((d + 48) as u8) as char
    } else {
        ((d + 87) as u8) as char
    }
}

/// Appends the JSON escape sequence of `c`.
fn write_escaped_char(out: &mut Vec<char>, c: char)
    ensures
        final(out)@ == old(out)@ + escape_char(c),
{
    let ghost o = old(out)@;
    if c == '"' {
        out.push('\\');
        out.push('"');
    } else if c == '\\' {
        out.push('\\');
        out.push('\\');
    } else if c == '\x08' {
        out.push('\\');
        out.push('b');
    } else if c == '\t' {
        out.push('\\');
        out.push('t');
    } else if c == '\n' {
        out.push('\\');
        out.push('n');
    } else if c == '\x0c' {
        out.push('\\');
        out.push('f');
    } else if c == '\r' {
        out.push('\\');
        out.push('r');
    } else if (c as u32) < 32 {
        let code = c as u32;
        out.push('\\');
        out.push('u');
        out.push('0');
        out.push('0');
        out.push(hex_char(code / 16));
        out.push(hex_char(code % 16));
    } else {
        out.push(c);
    }
    assert(out@ =~= o + escape_char(c));
}

/// Appends the body of a JSON string literal for `s`.
pub fn write_escaped(out: &mut Vec<char>, s: &Vec<char>)
    ensures
        final(out)@ == old(out)@ + escape(s@),
{
    let ghost o = old(out)@;
    let mut i: usize = 0;
    assert(s@.take(0) =~= Seq::<char>::empty());
    assert(o + escape(Seq::<char>::empty()) =~= o);
    while i < s.len()
        invariant
            i <= s@.len(),
            out@ == o + escape(s@.take(i as int)),
        decreases s@.len() - i,
    {
        write_escaped_char(out, s[i]);
        assert(s@.take(i + 1).drop_last() =~= s@.take(i as int));
        assert(s@.take(i + 1).last() == s@[i as int]);
        assert(out@ =~= o + escape(s@.take(i + 1)));
        i = i + 1;
    }
    assert(s@.take(i as int) =~= s@);
}

/// Appends a JSON string literal for `s`.
pub fn write_quoted(out: &mut Vec<char>, s: &Vec<char>)
    ensures
        final(out)@ == old(out)@ + quoted(s@),
{
    let ghost o = old(out)@;
    out.push('"');
    write_escaped(out, s);
    out.push('"');
    assert(out@ =~= o + quoted(s@));
}

/// Appends the decimal digits of `n`.
pub fn write_decimal(out: &mut Vec<char>, n: u128)
    ensures
        final(out)@ == old(out)@ + decimal(n as nat),
    decreases n,
{
    let ghost o = old(out)@;
    if n >= 10 {
        write_decimal(out, n / 10);
    }
    let d = (n % 10) as u8;
    out.push((d + 48) as char);
    assert(out@ =~= o + decimal(n as nat));
}

/// Appends `true` or `false`.
pub fn write_bool(out: &mut Vec<char>, b: bool)
    ensures
        final(out)@ == old(out)@ + bool_text(b),
{
    let ghost o = old(out)@;
    if b {
        out.push('t');
        out.push('r');
        out.push('u');
        out.push('e');
    } else {
        out.push('f');
        out.push('a');
        out.push('l');
        out.push('s');
        out.push('e');
    }
    assert(out@ =~= o + bool_text(b));
}

fn hex_val(c: char) -> (r: i32)
    ensures
        r == hex_value(c),
{
    let u = c as u32;
    if 48 <= u && u <= 57 {
        (u - 48) as i32
    } else if 97 <= u && u <= 102 {
        (u - 87) as i32
    } else if 65 <= u && u <= 70 {
        (u - 55) as i32
    } else {
        -1
    }
}

/// Relies on `char::from_u32`: the character with this scalar value, or
/// nothing for a surrogate or a value past `0x10FFFF`.
#[verifier::external_body]
fn char_from_u32(v: u32) -> (r: Option<char>)
    ensures
        r == if v < 0xd800 || (0xdfff < v && v <= 0x10ffff) {
            Some(v as char)
        } else {
            None::<char>
        },
{
    char::from_u32(v)
}

fn unescape_short_exec(e: char) -> (r: Option<char>)
    ensures
        r == unescape_short(e),
{
    if e == '"' {
        Some('"')
    } else if e == '\\' {
        Some('\\')
    } else if e == 'b' {
        Some('\x08')
    } else if e == 't' {
        Some('\t')
    } else if e == 'n' {
        Some('\n')
    } else if e == 'f' {
        Some('\x0c')
    } else if e == 'r' {
        Some('\r')
    } else if e == '/' {
        Some('/')
    } else {
        None
    }
}

/// Reads the JSON string literal that starts at `i`.
pub fn read_quoted(s: &Vec<char>, i: usize) -> (r: Option<(Vec<char>, usize)>)
    ensures
        match r {
            Some((t, j)) => scan_quoted(s@, i as int) == Some((t@, j as int)) && j <= s@.len(),
            None => scan_quoted(s@, i as int) is None,
        },
{
    if i >= s.len() || s[i] != '"' {
        return None;
    }
    let mut acc: Vec<char> = Vec::new();
    let mut k: usize = i + 1;
    while k < s.len()
        invariant
            i < k <= s@.len(),
            scan_str(s@, k as int, acc@) == scan_quoted(s@, i as int),
        decreases s@.len() - k,
    {
        let c = s[k];
        if c == '"' {
            return Some((acc, k + 1));
        } else if c == '\\' {
            if k + 1 >= s.len() {
                return None;
            }
            let e = s[k + 1];
            match unescape_short_exec(e) {
                Some(u) => {
                    acc.push(u);
                    k = k + 2;
                },
                None => {
                    if e == 'u' && s.len() - k > 5 {
                        let h1 = hex_val(s[k + 2]);
                        let h2 = hex_val(s[k + 3]);
                        let h3 = hex_val(s[k + 4]);
                        let h4 = hex_val(s[k + 5]);
                        if 0 <= h1 && 0 <= h2 && 0 <= h3 && 0 <= h4 {
                            let v = (h1 * 4096 + h2 * 256 + h3 * 16 + h4) as u32;
                            if 0xd800 <= v && v <= 0xdfff {
                                return None;
                            }
                            match char_from_u32(v) {
                                Some(u) => {
                                    acc.push(u);
                                    k = k + 6;
                                },
                                None => {
                                    return None;
                                },
                            }
                        } else {
                            return None;
                        }
                    } else {
                        return None;
                    }
                },
            }
        } else if (c as u32) < 32 {
            return None;
        } else {
            acc.push(c);
            k = k + 1;
        }
    }
    None
}

fn is_digit_exec(c: char) -> (r: bool)
    ensures
        r == is_digit(c),
{
    48 <= (c as u32) && (c as u32) <= 57
}

/// Reads the JSON number that starts at `i`.
#[verifier::spinoff_prover]
pub fn read_number(s: &Vec<char>, i: usize) -> (r: Option<(u128, usize)>)
    ensures
        match r {
            Some((n, j)) => scan_number(s@, i as int) == Some((n as nat, j as int)) && j <= s@.len(),
            None => scan_number(s@, i as int) is None,
        },
{
    if i > s.len() {
        return None;
    }
    let mut acc: u128 = 0;
    let mut k: usize = i;
    assert(s@.subrange(i as int, i as int) =~= Seq::<char>::empty());
    while k < s.len() && is_digit_exec(s[k])
        invariant
            i <= k <= s@.len(),
            forall|m: int| i <= m < k ==> is_digit(#[trigger] s@[m]),
            acc as nat == digits_value(s@.subrange(i as int, k as int)),
        decreases s@.len() - k,
    {
        assert(is_digit(s@[k as int]));
        let d = (s[k] as u32 - 48) as u128;
        proof {
            lemma_digits_end_run(s@, i as int, (k + 1) as int);
            assert(s@.subrange(i as int, (k + 1) as int).drop_last() =~= s@.subrange(i as int, k as int));
        }
        if acc > (u128::MAX - d) / 10 {
            proof {
                let j = digits_end(s@, i as int);
                lemma_digits_end_ge(s@, (k + 1) as int);
                let a = s@.subrange(i as int, (k + 1) as int);
                let b = s@.subrange((k + 1) as int, j);
                assert forall|m: int| 0 <= m < b.len() implies is_digit(#[trigger] b[m]) by {
                    lemma_digits_run_inside(s@, i as int, k as int + 1 + m);
                }
                assert(a + b =~= s@.subrange(i as int, j));
                lemma_digits_value_mono(a, b);
            }
            return None;
        }
        acc = acc * 10 + d;
        k = k + 1;
    }
    proof {
        lemma_digits_end_run(s@, i as int, k as int);
    }
    if k == i {
        return None;
    }
    if k > i + 1 && s[i] == '0' {
        return None;
    }
    Some((acc, k))
}

/// Reads `true` or `false` at `i`.
pub fn read_bool(s: &Vec<char>, i: usize) -> (r: Option<(bool, usize)>)
    ensures
        match r {
            Some((b, j)) => scan_bool(s@, i as int) == Some((b, j as int)) && j <= s@.len(),
            None => scan_bool(s@, i as int) is None,
        },
{
    if i <= s.len() && s.len() - i >= 4 && s[i] == 't' && s[i + 1] == 'r' && s[i + 2] == 'u' && s[i + 3] == 'e' {
        assert(s@.subrange(i as int, i + 4) =~= bool_text(true));
        return Some((true, i + 4));
    }
    if i <= s.len() && s.len() - i >= 5 && s[i] == 'f' && s[i + 1] == 'a' && s[i + 2] == 'l' && s[i + 3] == 's'
        && s[i + 4] == 'e' {
        assert(s@.subrange(i as int, i + 4) != bool_text(true)) by {
            assert(s@.subrange(i as int, i + 4)[0] == 'f');
        }
        assert(s@.subrange(i as int, i + 5) =~= bool_text(false));
        return Some((false, i + 5));
    }
    proof {
        if i + 4 <= s.len() && s@.subrange(i as int, i + 4) == bool_text(true) {
            assert(s@.subrange(i as int, i + 4)[0] == s@[i as int]);
            assert(s@.subrange(i as int, i + 4)[1] == s@[i + 1]);
            assert(s@.subrange(i as int, i + 4)[2] == s@[i + 2]);
            assert(s@.subrange(i as int, i + 4)[3] == s@[i + 3]);
        }
        if i + 5 <= s.len() && s@.subrange(i as int, i + 5) == bool_text(false) {
            assert(s@.subrange(i as int, i + 5)[0] == s@[i as int]);
            assert(s@.subrange(i as int, i + 5)[1] == s@[i + 1]);
            assert(s@.subrange(i as int, i + 5)[2] == s@[i + 2]);
            assert(s@.subrange(i as int, i + 5)[3] == s@[i + 3]);
            assert(s@.subrange(i as int, i + 5)[4] == s@[i + 4]);
        }
    }
    None
}

/// Whether two character sequences are equal.
pub fn same_chars(a: &Vec<char>, b: &Vec<char>) -> (r: bool)
    ensures
        r == (a@ == b@),
{
    if a.len() != b.len() {
        return false;
    }
    let mut i: usize = 0;
    while i < a.len()
        invariant
            a@.len() == b@.len(),
            i <= a@.len(),
            forall|m: int| 0 <= m < i ==> a@[m] == b@[m],
        decreases a@.len() - i,
    {
        if a[i] != b[i] {
            return false;
        }
        i = i + 1;
    }
    assert(a@ =~= b@);
    true
}

} // verus!
