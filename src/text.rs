//! Byte-level helpers shared by both stages: pair replacement, character
//! classes, positions and the conversion of bytes into `String`s.
use vstd::prelude::*;

verus! {

/// The byte that stands in for removed comment text.
pub const FILLER: u8 = 7;

/// `s` with every two-byte pair `a b` replaced by the single byte `r`,
/// scanning left to right without overlap.
pub open spec fn replace_pair(s: Seq<u8>, a: u8, b: u8, r: u8) -> Seq<u8>
    decreases s.len(),
{
    if s.len() == 0 {
        seq![]
    } else if s.len() >= 2 && s[0] == a && s[1] == b {
        seq![r] + replace_pair(s.skip(2), a, b, r)
    } else {
        seq![s[0]] + replace_pair(s.skip(1), a, b, r)
    }
}

/// The text with each CR LF pair turned into a single LF.
pub open spec fn normalize_newlines(s: Seq<u8>) -> Seq<u8> {
    replace_pair(s, 13u8, 10u8, 10u8)
}

pub fn replace_pair_bytes(s: &Vec<u8>, a: u8, b: u8, r: u8) -> (out: Vec<u8>)
    ensures
        out@ == replace_pair(s@, a, b, r),
{
    let mut out: Vec<u8> = Vec::new();
    let mut i: usize = 0;
    proof {
        assert(s@.skip(0) =~= s@);
        assert(out@ + replace_pair(s@, a, b, r) =~= replace_pair(s@, a, b, r));
    }
    while i < s.len()
        invariant
            i <= s.len(),
            out@ + replace_pair(s@.skip(i as int), a, b, r) == replace_pair(s@, a, b, r),
        decreases s.len() - i,
    {
        let ghost rest = s@.skip(i as int);
        if i + 1 < s.len() && s[i] == a && s[i + 1] == b {
            proof {
                assert(rest.skip(2) =~= s@.skip(i + 2));
                assert(out@.push(r) + replace_pair(rest.skip(2), a, b, r) =~= out@ + (seq![r]
                    + replace_pair(rest.skip(2), a, b, r)));
            }
            out.push(r);
            i = i + 2;
        } else {
            let c = s[i];
            proof {
                assert(rest.skip(1) =~= s@.skip(i + 1));
                assert(out@.push(c) + replace_pair(rest.skip(1), a, b, r) =~= out@ + (seq![c]
                    + replace_pair(rest.skip(1), a, b, r)));
            }
            out.push(c);
            i = i + 1;
        }
    }
    proof {
        assert(s@.skip(i as int) =~= Seq::<u8>::empty());
        assert(out@ + seq![] =~= out@);
    }
    out
}

/// Letters and digits: each byte is read as the Latin-1 character of the
/// same code, and is alphanumeric when that character is alphabetic or numeric
/// in Unicode.
pub open spec fn is_alnum(b: u8) -> bool {
    (48u8 <= b && b <= 57u8) || (65u8 <= b && b <= 90u8) || (97u8 <= b && b <= 122u8) || b
        == 0xAAu8 || b == 0xB2u8 || b == 0xB3u8 || b == 0xB5u8 || b == 0xB9u8 || b == 0xBAu8 || (
    0xBCu8 <= b && b <= 0xBEu8) || (0xC0u8 <= b && b <= 0xD6u8) || (0xD8u8 <= b && b <= 0xF6u8)
        || 0xF8u8 <= b
}

pub fn is_alnum_byte(b: u8) -> (r: bool)
    ensures
        r == is_alnum(b),
{
    (48u8 <= b && b <= 57u8) || (65u8 <= b && b <= 90u8) || (97u8 <= b && b <= 122u8) || b
        == 0xAAu8 || b == 0xB2u8 || b == 0xB3u8 || b == 0xB5u8 || b == 0xB9u8 || b == 0xBAu8 || (
    0xBCu8 <= b && b <= 0xBEu8) || (0xC0u8 <= b && b <= 0xD6u8) || (0xD8u8 <= b && b <= 0xF6u8)
        || 0xF8u8 <= b
}

/// The characters of a byte sequence, one character per byte.
pub open spec fn chars_of(s: Seq<u8>) -> Seq<char> {
    Seq::new(s.len(), |k: int| s[k] as char)
}

/// Zero-based line of offset `p`: the number of LF bytes before it.
pub open spec fn line_of(s: Seq<u8>, p: int) -> nat
    decreases p,
{
    if p <= 0 {
        0
    } else if s[p - 1] == 10u8 {
        line_of(s, p - 1) + 1
    } else {
        line_of(s, p - 1)
    }
}

/// Zero-based column of offset `p`: the bytes since the last LF before it.
pub open spec fn column_of(s: Seq<u8>, p: int) -> nat
    decreases p,
{
    if p <= 0 {
        0
    } else if s[p - 1] == 10u8 {
        0
    } else {
        column_of(s, p - 1) + 1
    }
}

#[derive(Debug, Clone, Copy, PartialEq, Eq, Structural)]
pub struct Position {
    pub line: usize,
    pub column: usize,
}

/// The position of offset `p` in `s`.
pub open spec fn position_of(s: Seq<u8>, p: int) -> Position {
    Position { line: line_of(s, p) as usize, column: column_of(s, p) as usize }
}

pub fn position_at(s: &Vec<u8>, p: usize) -> (r: Position)
    requires
        p <= s@.len(),
    ensures
        r == position_of(s@, p as int),
        r.line == line_of(s@, p as int),
        r.column == column_of(s@, p as int),
{
    let mut line: usize = 0;
    let mut column: usize = 0;
    let mut k: usize = 0;
    while k < p
        invariant
            k <= p <= s@.len(),
            line <= k,
            column <= k,
            line == line_of(s@, k as int),
            column == column_of(s@, k as int),
        decreases p - k,
    {
        if s[k] == 10u8 {
            line = line + 1;
            column = 0;
        } else {
            column = column + 1;
        }
        k = k + 1;
    }
    Position { line, column }
}

/// Relies on `String::push`: the character is appended at the end.
#[verifier::external_body]
pub(crate) fn push_char(s: &mut String, c: char)
    ensures
        final(s)@ == old(s)@.push(c),
{
    s.push(c);
}

/// The decimal digits of `n`, most significant first.
pub open spec fn decimal(n: nat) -> Seq<char>
    decreases n,
{
    if n < 10 {
        seq![((48 + n) as u8) as char]
    } else {
        decimal(n / 10) + seq![((48 + n % 10) as u8) as char]
    }
}

/// Appends the decimal digits of `n` to `out`.
pub fn push_decimal(out: &mut String, n: usize)
    ensures
        final(out)@ == old(out)@ + decimal(n as nat),
    decreases n,
{
    if n >= 10 {
        push_decimal(out, n / 10);
    }
    let d = (48 + n % 10) as u8;
    push_char(out, d as char);
    proof {
        assert(out@ =~= old(out)@ + decimal(n as nat));
    }
}

/// The string holding one character per byte of `s[from..to]`.
pub fn string_of_bytes(s: &Vec<u8>, from: usize, to: usize) -> (r: String)
    requires
        from <= to <= s@.len(),
    ensures
        r@ == chars_of(s@.subrange(from as int, to as int)),
{
    let mut r = String::new();
    let mut k: usize = from;
    while k < to
        invariant
            from <= k <= to <= s@.len(),
            r@ =~= chars_of(s@.subrange(from as int, k as int)),
        decreases to - k,
    {
        push_char(&mut r, s[k] as char);
        k = k + 1;
        proof {
            assert(r@ =~= chars_of(s@.subrange(from as int, k as int)));
        }
    }
    r
}

/// The string holding the single character of byte `b`.
pub fn string_of_byte(b: u8) -> (r: String)
    ensures
        r@ == seq![b as char],
{
    let mut r = String::new();
    push_char(&mut r, b as char);
    proof {
        assert(r@ =~= seq![b as char]);
    }
    r
}

/// Where no pair `a b` stands in `s`, replacing it changes nothing.
pub proof fn lemma_replace_pair_identity(s: Seq<u8>, a: u8, b: u8, r: u8)
    requires
        forall|k: int| 0 <= k < s.len() - 1 ==> !(#[trigger] s[k] == a && s[k + 1] == b),
    ensures
        replace_pair(s, a, b, r) == s,
    decreases s.len(),
{
    if s.len() > 0 {
        let t = s.skip(1);
        assert forall|k: int| 0 <= k < t.len() - 1 implies !(#[trigger] t[k] == a && t[k + 1] == b) by {
            assert(t[k] == s[k + 1] && t[k + 1] == s[k + 2]);
        }
        lemma_replace_pair_identity(t, a, b, r);
        assert(seq![s[0]] + t =~= s);
    } else {
        assert(s =~= seq![]);
    }
}

} // verus!
