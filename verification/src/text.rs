//! Decimal numbers, dotted addresses and byte strings as text.
use vstd::prelude::*;
use vstd::std_specs::iter::IteratorSpec;
use vstd::string::{StrSliceExecFns, StringExecFns};
use vstd::utf8::{decode_utf8, valid_utf8};

use crate::packet::Ipv4Addr;

verus! {

/// The decimal digit `d`.
pub open spec fn digit_char(d: nat) -> char {
    ('0' as int + d) as char
}

/// The value of a decimal digit.
pub open spec fn digit_value(c: char) -> Option<nat> {
    if '0' <= c <= '9' {
        Some((c as int - '0' as int) as nat)
    } else {
        None
    }
}

/// The decimal notation of `n`, without leading zeros.
pub open spec fn decimal(n: nat) -> Seq<char>
    decreases n,
{
    if n < 10 {
        seq![digit_char(n)]
    } else {
        decimal(n / 10).push(digit_char(n % 10))
    }
}

/// The number that a run of decimal digits denotes; `None` if a character is
/// no digit. The empty run counts as zero.
pub open spec fn digits_value(p: Seq<char>) -> Option<nat>
    decreases p.len(),
{
    if p.len() == 0 {
        Some(0)
    } else {
        match (digits_value(p.drop_last()), digit_value(p.last())) {
            (Some(high), Some(d)) => Some(high * 10 + d),
            _ => None,
        }
    }
}

/// The byte that a text denotes: decimal digits, at least one, after an
/// optional plus sign, with a value of at most 255.
pub open spec fn octet(p: Seq<char>) -> Option<u8> {
    let digits = if p.len() > 0 && p[0] == '+' {
        p.skip(1)
    } else {
        p
    };
    match digits_value(digits) {
        Some(v) if digits.len() > 0 && v <= 255 => Some(v as u8),
        _ => None,
    }
}

/// The parts of a text between its dots.
pub open spec fn split_dots(s: Seq<char>) -> Seq<Seq<char>>
    decreases s.len(),
{
    if s.len() == 0 {
        seq![Seq::empty()]
    } else {
        let parts = split_dots(s.drop_last());
        if s.last() == '.' {
            parts.push(Seq::empty())
        } else {
            parts.update(parts.len() - 1, parts.last().push(s.last()))
        }
    }
}

/// The address that a text denotes: four bytes with dots between them.
pub open spec fn address_of(s: Seq<char>) -> Option<Ipv4Addr> {
    let parts = split_dots(s);
    if parts.len() != 4 {
        None
    } else {
        match (octet(parts[0]), octet(parts[1]), octet(parts[2]), octet(parts[3])) {
            (Some(a), Some(b), Some(c), Some(d)) => Some(Ipv4Addr([a, b, c, d])),
            _ => None,
        }
    }
}

/// The dotted notation of an address.
pub open spec fn dotted(a: Ipv4Addr) -> Seq<char> {
    decimal(a.0[0] as nat) + seq!['.'] + decimal(a.0[1] as nat) + seq!['.'] + decimal(
        a.0[2] as nat,
    ) + seq!['.'] + decimal(a.0[3] as nat)
}

/// The text of a byte string, with every sequence that is not UTF-8 replaced
/// by U+FFFD: the result of `String::from_utf8_lossy`.
pub uninterp spec fn utf8_lossy(bytes: Seq<u8>) -> Seq<char>;

/// The text of a byte string: UTF-8 is decoded as it stands.
pub open spec fn text_in(bytes: Seq<u8>) -> Seq<char> {
    if valid_utf8(bytes) {
        decode_utf8(bytes)
    } else {
        utf8_lossy(bytes)
    }
}

/// Calls `String::from_utf8_lossy`. The result depends on the bytes alone,
/// and UTF-8 is decoded as it stands. How many replacement characters stand
/// for bytes that are not UTF-8 is left to the name `utf8_lossy`.
#[verifier::external_body]
pub(crate) fn text_of(bytes: &[u8]) -> (text: String)
    ensures
        text@ == utf8_lossy(bytes@),
        valid_utf8(bytes@) ==> text@ == decode_utf8(bytes@),
{
    String::from_utf8_lossy(bytes).into_owned()
}

/// Appends the decimal notation of `n`.
pub fn push_decimal(out: &mut String, n: usize)
    ensures
        final(out)@ == old(out)@ + decimal(n as nat),
    decreases n,
{
    let d: usize = n % 10;
    if n >= 10 {
        push_decimal(out, n / 10);
    }
    let digits = "0123456789";
    proof {
        reveal_strlit("0123456789");
    }
    out.append(digits.substring_ascii(d, d + 1));
    assert(digits@.subrange(d as int, d + 1) =~= seq![digit_char(d as nat)]);
}

/// Reads a byte in decimal notation.
fn parse_octet(part: &Vec<char>) -> (r: Option<u8>)
    ensures
        r == octet(part@),
{
    let mut i: usize = 0;
    if part.len() > 0 && part[0] == '+' {
        i = 1;
    }
    let ghost start = i as int;
    let ghost digits = part@.skip(start);
    if i == part.len() {
        assert(digits =~= Seq::empty());
        return None;
    }
    assert(start == 0 ==> digits =~= part@);
    assert(digits.take(0) =~= Seq::empty());
    let mut value: u32 = 0;
    while i < part.len()
        invariant
            start <= i <= part.len(),
            0 <= start,
            digits == part@.skip(start),
            octet(part@) is Some ==> digits_value(digits) is Some && digits_value(digits)->0 <= 255,
            digits_value(digits.take(i - start)) == Some(value as nat),
            value <= 255,
        decreases part.len() - i,
    {
        let c: char = part[i];
        let ghost next = digits.take(i + 1 - start);
        assert(next.drop_last() =~= digits.take(i - start));
        if !('0' <= c && c <= '9') {
            proof {
                lemma_digits_prefix(digits, i + 1 - start);
            }
            return None;
        }
        value = value * 10 + (c as u32 - '0' as u32);
        if value > 255 {
            proof {
                lemma_digits_prefix(digits, i + 1 - start);
            }
            return None;
        }
        i = i + 1;
    }
    assert(digits.take(i - start) =~= digits);
    Some(value as u8)
}

/// Every prefix of a run of digits is one, and denotes no more.
proof fn lemma_digits_prefix(p: Seq<char>, n: int)
    requires
        0 <= n <= p.len(),
    ensures
        digits_value(p) matches Some(v) ==> digits_value(p.take(n)) is Some && digits_value(
            p.take(n),
        )->0 <= v,
    decreases p.len(),
{
    if n == p.len() {
        assert(p.take(n) =~= p);
    } else {
        lemma_digits_prefix(p.drop_last(), n);
        assert(p.drop_last().take(n) =~= p.take(n));
    }
}

/// The contents of a list of character runs.
pub open spec fn runs(parts: Seq<Vec<char>>) -> Seq<Seq<char>> {
    Seq::new(parts.len(), |i: int| parts[i]@)
}

/// Splits a text at its dots.
fn split(s: &str) -> (parts: Vec<Vec<char>>)
    ensures
        runs(parts@) == split_dots(s@),
{
    let mut parts: Vec<Vec<char>> = Vec::new();
    let mut part: Vec<char> = Vec::new();
    let mut chars = s.chars();
    let ghost mut seen: Seq<char> = Seq::empty();
    assert(runs(parts@).push(part@) =~= seq![Seq::empty()]);
    assert(seen + s@ =~= s@);
    loop
        invariant
            chars.obeys_prophetic_iter_laws(),
            seen + chars.remaining() == s@,
            runs(parts@).push(part@) == split_dots(seen),
        ensures
            runs(parts@).push(part@) == split_dots(s@),
        decreases s@.len() - seen.len(),
    {
        let ghost rest = chars.remaining();
        let c: char = match chars.next() {
            Some(c) => c,
            None => {
                assert(seen =~= s@);
                break;
            },
        };
        let ghost before = runs(parts@).push(part@);
        if c == '.' {
            parts.push(part);
            part = Vec::new();
            assert(runs(parts@).push(part@) =~= before.push(Seq::empty()));
        } else {
            let ghost old_part = part@;
            part.push(c);
            assert(before.last() == old_part);
            assert(runs(parts@).push(part@) =~= before.update(
                before.len() - 1,
                before.last().push(c),
            ));
        }
        proof {
            assert(seen.push(c).drop_last() =~= seen);
            assert(seen.push(c) + rest.drop_first() =~= seen + rest);
            seen = seen.push(c);
        }
    }
    let ghost before = runs(parts@).push(part@);
    parts.push(part);
    assert(runs(parts@) =~= before);
    parts
}

impl Ipv4Addr {
    /// Reads an address in dotted notation.
    pub fn parse(s: &str) -> (r: Option<Self>)
        ensures
            r == address_of(s@),
    {
        let parts: Vec<Vec<char>> = split(s);
        if parts.len() != 4 {
            return None;
        }
        let ghost texts = split_dots(s@);
        assert(forall|i: int| 0 <= i < 4 ==> runs(parts@)[i] == #[trigger] parts@[i]@);
        match (
            parse_octet(&parts[0]),
            parse_octet(&parts[1]),
            parse_octet(&parts[2]),
            parse_octet(&parts[3]),
        ) {
            (Some(a), Some(b), Some(c), Some(d)) => Some(Ipv4Addr([a, b, c, d])),
            _ => None,
        }
    }

    /// The address in dotted notation.
    pub fn to_string(&self) -> (text: String)
        ensures
            text@ == dotted(*self),
    {
        proof {
            reveal_strlit(".");
        }
        assert("."@ =~= seq!['.']);
        let mut text = String::new();
        push_decimal(&mut text, self.0[0] as usize);
        text.append(".");
        push_decimal(&mut text, self.0[1] as usize);
        text.append(".");
        push_decimal(&mut text, self.0[2] as usize);
        text.append(".");
        push_decimal(&mut text, self.0[3] as usize);
        assert(text@ =~= dotted(*self));
        text
    }
}

} // verus!
