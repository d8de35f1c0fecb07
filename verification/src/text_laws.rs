//! What holds of decimal numbers and dotted addresses as text.
use vstd::prelude::*;
use vstd::utf8::{decode_utf8, valid_utf8};

use crate::packet::Ipv4Addr;
use crate::text::{address_of, decimal, digits_value, dotted, octet, split_dots, text_in};

verus! {

/// A number reads back from its decimal notation.
pub proof fn law_decimal_reads_back(n: nat)
    ensures
        decimal(n).len() > 0,
        digits_value(decimal(n)) == Some(n),
        forall|i: int| 0 <= i < decimal(n).len() ==> '0' <= #[trigger] decimal(n)[i] <= '9',
    decreases n,
{
    if n < 10 {
        assert(decimal(n).drop_last() =~= Seq::empty());
        reveal_with_fuel(digits_value, 2);
    } else {
        law_decimal_reads_back(n / 10);
        assert(decimal(n).drop_last() =~= decimal(n / 10));
    }
}

/// The decimal notation of a byte denotes that byte.
proof fn lemma_octet(v: u8)
    ensures
        octet(decimal(v as nat)) == Some(v),
        no_dot(decimal(v as nat)),
{
    law_decimal_reads_back(v as nat);
}

spec fn no_dot(p: Seq<char>) -> bool {
    forall|i: int| 0 <= i < p.len() ==> #[trigger] p[i] != '.'
}

/// What follows a dot, without one of its own, is one more part.
proof fn lemma_split_more(s: Seq<char>, p: Seq<char>)
    requires
        no_dot(p),
    ensures
        split_dots(s + seq!['.'] + p) == split_dots(s).push(p),
    decreases p.len(),
{
    let t = s + seq!['.'] + p;
    if p.len() == 0 {
        assert(t.drop_last() =~= s);
        assert(p =~= Seq::empty());
    } else {
        let q = p.drop_last();
        lemma_split_more(s, q);
        assert(t.drop_last() =~= s + seq!['.'] + q);
        let parts = split_dots(s).push(q);
        assert(q.push(p.last()) =~= p);
        assert(parts.update(parts.len() - 1, p) =~= split_dots(s).push(p));
    }
}

/// A text without a dot is its only part.
proof fn lemma_split_one(p: Seq<char>)
    requires
        no_dot(p),
    ensures
        split_dots(p) == seq![p],
    decreases p.len(),
{
    if p.len() == 0 {
        assert(p =~= Seq::empty());
    } else {
        let q = p.drop_last();
        lemma_split_one(q);
        assert(q.push(p.last()) =~= p);
        assert(seq![q].update(0, p) =~= seq![p]);
    }
}

/// An address reads back from its dotted notation.
pub proof fn law_address_reads_back(a: Ipv4Addr)
    ensures
        address_of(dotted(a)) == Some(a),
{
    let p0 = decimal(a.0[0] as nat);
    let p1 = decimal(a.0[1] as nat);
    let p2 = decimal(a.0[2] as nat);
    let p3 = decimal(a.0[3] as nat);
    lemma_octet(a.0[0]);
    lemma_octet(a.0[1]);
    lemma_octet(a.0[2]);
    lemma_octet(a.0[3]);
    lemma_split_one(p0);
    let s1 = p0 + seq!['.'] + p1;
    let s2 = s1 + seq!['.'] + p2;
    lemma_split_more(p0, p1);
    lemma_split_more(s1, p2);
    lemma_split_more(s2, p3);
    assert(dotted(a) =~= s2 + seq!['.'] + p3);
    assert([a.0[0], a.0[1], a.0[2], a.0[3]] =~= a.0);
}

/// The decimal notation digit by digit: a number below ten is one digit, and
/// any other is the notation of its tens with the digit of its ones behind.
pub proof fn law_decimal_digit_by_digit(tens: nat, ones: nat)
    requires
        ones < 10,
    ensures
        decimal(ones) == seq![('0' as int + ones) as char],
        tens > 0 ==> decimal(tens * 10 + ones) == decimal(tens) + seq![
            ('0' as int + ones) as char,
        ],
{
    if tens > 0 {
        let n = tens * 10 + ones;
        assert(n / 10 == tens && n % 10 == ones);
        assert(decimal(n) =~= decimal(tens) + decimal(ones));
    }
}

/// The value of a run of digits digit by digit: one more digit makes ten
/// times as much and that digit, and a character that is none makes it no
/// number.
pub proof fn law_digits_add_up(p: Seq<char>, c: char)
    ensures
        digits_value(Seq::empty()) == Some(0nat),
        digits_value(p.push(c)) == (if digits_value(p) is Some && '0' <= c && c <= '9' {
            Some((digits_value(p)->0 * 10 + (c as int - '0' as int)) as nat)
        } else {
            None
        }),
{
    assert(p.push(c).drop_last() =~= p);
}

/// A byte is denoted by one or more digits of a value of at most 255, with or
/// without a plus sign before them, and by nothing else.
pub proof fn law_byte_notation(p: Seq<char>)
    ensures
        ({
            let digits = if p.len() > 0 && p[0] == '+' {
                p.subrange(1, p.len() as int)
            } else {
                p
            };
            &&& octet(p) is Some <==> {
                &&& digits.len() > 0
                &&& digits_value(digits) is Some
                &&& digits_value(digits)->0 <= 255
            }
            &&& octet(p) is Some ==> octet(p)->0 == digits_value(digits)->0
        }),
{
    if p.len() > 0 {
        assert(p.skip(1) =~= p.subrange(1, p.len() as int));
    }
}

/// Texts with dots between them.
pub open spec fn with_dots(parts: Seq<Seq<char>>) -> Seq<char>
    decreases parts.len(),
{
    if parts.len() == 0 {
        Seq::empty()
    } else if parts.len() == 1 {
        parts[0]
    } else {
        with_dots(parts.drop_last()) + seq!['.'] + parts.last()
    }
}

/// The parts of a text between its dots hold no dot, and with dots between
/// them make up the text.
pub proof fn law_parts_make_up_the_text(s: Seq<char>)
    ensures
        with_dots(split_dots(s)) == s,
        split_dots(s).len() > 0,
        forall|i: int, j: int|
            0 <= i < split_dots(s).len() && 0 <= j < split_dots(s)[i].len()
                ==> #[trigger] split_dots(s)[i][j] != '.',
    decreases s.len(),
{
    if s.len() == 0 {
        assert(s =~= Seq::empty());
    } else {
        let t = s.drop_last();
        let c = s.last();
        let parts = split_dots(t);
        law_parts_make_up_the_text(t);
        assert(s =~= t.push(c));
        if c == '.' {
            let more = parts.push(Seq::empty());
            assert(more.drop_last() =~= parts);
            assert(with_dots(more) =~= s);
        } else {
            let last = parts.last().push(c);
            let more = parts.update(parts.len() - 1, last);
            assert(more.drop_last() =~= parts.drop_last());
            assert(with_dots(more) =~= s);
        }
    }
}

/// An address is denoted by four bytes with dots between them, and by nothing
/// else: a text denotes one if and only if it falls into four parts at its
/// dots, each of which denotes a byte, and then these are its bytes.
pub proof fn law_address_notation(s: Seq<char>)
    ensures
        address_of(s) is Some <==> {
            &&& split_dots(s).len() == 4
            &&& forall|i: int| 0 <= i < 4 ==> octet(#[trigger] split_dots(s)[i]) is Some
        },
        address_of(s) is Some ==> forall|i: int|
            0 <= i < 4 ==> #[trigger] (address_of(s)->0).0[i] == octet(split_dots(s)[i])->0,
{
    let parts = split_dots(s);
    if parts.len() == 4 {
        assert(octet(parts[0]) is Some && octet(parts[1]) is Some && octet(parts[2]) is Some
            && octet(parts[3]) is Some ==> address_of(s) is Some);
    }
}

/// A number is its decimal notation without superfluous zeros, so that an
/// address is written in one way: the bytes in decimal, with dots.
pub proof fn law_address_is_written(a: Ipv4Addr)
    ensures
        split_dots(dotted(a)) == seq![
            decimal(a.0[0] as nat),
            decimal(a.0[1] as nat),
            decimal(a.0[2] as nat),
            decimal(a.0[3] as nat),
        ],
{
    let p0 = decimal(a.0[0] as nat);
    let p1 = decimal(a.0[1] as nat);
    let p2 = decimal(a.0[2] as nat);
    let p3 = decimal(a.0[3] as nat);
    lemma_octet(a.0[0]);
    lemma_octet(a.0[1]);
    lemma_octet(a.0[2]);
    lemma_octet(a.0[3]);
    lemma_split_one(p0);
    let s1 = p0 + seq!['.'] + p1;
    let s2 = s1 + seq!['.'] + p2;
    lemma_split_more(p0, p1);
    lemma_split_more(s1, p2);
    lemma_split_more(s2, p3);
    assert(dotted(a) =~= s2 + seq!['.'] + p3);
    assert(split_dots(dotted(a)) =~= seq![p0, p1, p2, p3]);
}

/// Valid UTF-8 is read as what it encodes.
pub proof fn law_text_is_decoded(bytes: Seq<u8>)
    requires
        valid_utf8(bytes),
    ensures
        text_in(bytes) == decode_utf8(bytes),
{
}

} // verus!
