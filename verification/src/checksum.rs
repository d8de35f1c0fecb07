//! The internet checksum: the one's complement of the one's complement sum
//! of the 16-bit big-endian words of a message.
use vstd::prelude::*;

verus! {

/// What the byte at place `i` of a message counts in the word sum: bytes at
/// even places are the high halves of their words.
pub open spec fn byte_weight(i: int) -> nat {
    if i % 2 == 0 {
        256
    } else {
        1
    }
}

/// The plain sum of the big-endian 16-bit words of `s`; an odd last byte is
/// the high half of a word whose low half is zero.
pub open spec fn word_sum(s: Seq<u8>) -> nat
    decreases s.len(),
{
    if s.len() == 0 {
        0
    } else {
        word_sum(s.drop_last()) + s.last() as nat * byte_weight(s.len() - 1)
    }
}

/// `sum` reduced to 16 bits with end-around carry: zero only for zero, and
/// otherwise the representative of `sum` modulo 65535 in 1..=65535.
pub open spec fn ones_complement_sum(sum: nat) -> nat {
    if sum == 0 {
        0
    } else {
        ((sum - 1) % 65535 + 1) as nat
    }
}

/// The internet checksum of `s`.
pub open spec fn internet_checksum(s: Seq<u8>) -> u16 {
    (65535 - ones_complement_sum(word_sum(s))) as u16
}

/// The contents of a list of byte slices.
pub open spec fn contents(chunks: Seq<&[u8]>) -> Seq<Seq<u8>> {
    Seq::new(chunks.len(), |i: int| chunks[i]@)
}

/// The message that a list of chunks makes up: the chunks one after the
/// other.
pub open spec fn joined(chunks: Seq<Seq<u8>>) -> Seq<u8>
    decreases chunks.len(),
{
    if chunks.len() == 0 {
        Seq::empty()
    } else {
        joined(chunks.drop_last()) + chunks.last()
    }
}

/// One more byte adds its weighted value.
pub proof fn lemma_word_sum_push(s: Seq<u8>, b: u8)
    ensures
        word_sum(s.push(b)) == word_sum(s) + b as nat * byte_weight(s.len() as int),
{
    assert(s.push(b).drop_last() == s);
}

/// The sum of a message that starts with whole words splits after them.
pub proof fn lemma_word_sum_concat(a: Seq<u8>, b: Seq<u8>)
    requires
        a.len() % 2 == 0,
    ensures
        word_sum(a + b) == word_sum(a) + word_sum(b),
    decreases b.len(),
{
    if b.len() == 0 {
        assert(a + b == a);
    } else {
        lemma_word_sum_concat(a, b.drop_last());
        assert((a + b).drop_last() == a + b.drop_last());
        assert((a + b).last() == b.last());
        assert(byte_weight((a + b).len() - 1) == byte_weight(b.len() - 1));
    }
}

/// A prefix never sums to more than the whole.
pub proof fn lemma_word_sum_prefix(s: Seq<u8>, n: int)
    requires
        0 <= n <= s.len(),
    ensures
        word_sum(s.take(n)) <= word_sum(s),
    decreases s.len(),
{
    if n == s.len() {
        assert(s.take(n) == s);
    } else {
        lemma_word_sum_prefix(s.drop_last(), n);
        assert(s.drop_last().take(n) == s.take(n));
    }
}

/// Replacing one byte moves the sum by the weighted difference.
pub proof fn lemma_word_sum_update(s: Seq<u8>, i: int, v: u8)
    requires
        0 <= i < s.len(),
    ensures
        word_sum(s.update(i, v)) == word_sum(s) + (v - s[i]) * byte_weight(i),
    decreases s.len(),
{
    let t = s.update(i, v);
    if i == s.len() - 1 {
        assert(t.drop_last() == s.drop_last());
        assert(v as nat * byte_weight(i) == s[i] as nat * byte_weight(i) + (v - s[i]) * byte_weight(
            i,
        )) by (nonlinear_arith);
    } else {
        lemma_word_sum_update(s.drop_last(), i, v);
        assert(t.drop_last() == s.drop_last().update(i, v));
        assert(t.last() == s.last());
    }
}

/// Every word is at most 65535.
pub proof fn lemma_word_sum_bound(s: Seq<u8>)
    ensures
        s.len() % 2 == 0 ==> word_sum(s) <= (s.len() / 2) * 65535,
        s.len() % 2 == 1 ==> word_sum(s) <= (s.len() / 2) * 65535 + 65280,
    decreases s.len(),
{
    if s.len() > 0 {
        lemma_word_sum_bound(s.drop_last());
        let b = s.last() as nat;
        assert(b * byte_weight(s.len() - 1) <= 255 * byte_weight(s.len() - 1)) by (nonlinear_arith)
            requires
                b <= 255,
        ;
    }
}

proof fn lemma_joined_step(chunks: Seq<Seq<u8>>, k: int)
    requires
        0 <= k < chunks.len(),
    ensures
        joined(chunks.take(k + 1)) == joined(chunks.take(k)) + chunks[k],
{
    assert(chunks.take(k + 1).drop_last() == chunks.take(k));
}

proof fn lemma_joined_grows(chunks: Seq<Seq<u8>>, k: int)
    requires
        0 <= k <= chunks.len(),
    ensures
        joined(chunks.take(k)).len() <= joined(chunks).len(),
        joined(chunks).take(joined(chunks.take(k)).len() as int) == joined(chunks.take(k)),
    decreases chunks.len() - k,
{
    if k == chunks.len() {
        assert(chunks.take(k) == chunks);
    } else {
        lemma_joined_grows(chunks, k + 1);
        lemma_joined_step(chunks, k);
        let a = joined(chunks.take(k));
        let b = joined(chunks.take(k + 1));
        assert(b.take(a.len() as int) == a);
        assert(joined(chunks).take(a.len() as int) == b.take(a.len() as int));
    }
}

/// One chunk is its own message.
pub proof fn lemma_joined_one(a: Seq<u8>)
    ensures
        joined(seq![a]) == a,
{
    reveal_with_fuel(joined, 2);
    assert(seq![a].drop_last() =~= Seq::<Seq<u8>>::empty());
    assert(Seq::<u8>::empty() + a =~= a);
}

/// Two chunks make up their concatenation.
pub proof fn lemma_joined_two(a: Seq<u8>, b: Seq<u8>)
    ensures
        joined(seq![a, b]) == a + b,
{
    lemma_joined_one(a);
    assert(seq![a, b].drop_last() =~= seq![a]);
}

/// The big-endian 16-bit word of two bytes.
fn word(high: u8, low: u8) -> (w: u32)
    ensures
        w == high * 256 + low,
{
    high as u32 * 256 + low as u32
}

/// The one's complement sum used by IPv4, ICMP, UDP and TCP.
///
/// The words are added up in 32 bits, so their sum has to fit there.
pub fn checksum(chunks: &[&[u8]]) -> (sum: u16)
    requires
        word_sum(joined(contents(chunks@))) <= u32::MAX,
    ensures
        sum == internet_checksum(joined(contents(chunks@))),
{
    let ghost parts = contents(chunks@);
    let mut sum: u32 = 0;
    // odd byte left over from a previous chunk
    let mut carry: Option<u8> = None;
    let mut k: usize = 0;
    assert(parts.take(0) =~= Seq::empty());
    while k < chunks.len()
        invariant
            parts == contents(chunks@),
            k <= chunks.len(),
            word_sum(joined(parts)) <= u32::MAX,
            carry is None ==> joined(parts.take(k as int)).len() % 2 == 0 && sum == word_sum(
                joined(parts.take(k as int)),
            ),
            carry matches Some(high) ==> joined(parts.take(k as int)).len() % 2 == 1 && high
                == joined(parts.take(k as int)).last() && sum == word_sum(
                joined(parts.take(k as int)).drop_last(),
            ),
        decreases chunks.len() - k,
    {
        let chunk: &[u8] = chunks[k];
        let ghost before = joined(parts.take(k as int));
        let ghost after = joined(parts.take(k + 1));
        proof {
            lemma_joined_step(parts, k as int);
            lemma_joined_grows(parts, k + 1);
            lemma_word_sum_prefix(joined(parts), after.len() as int);
        }
        if chunk.len() > 0 {
            let mut i: usize = 0;
            // the bytes of the message that are in `sum`
            let ghost mut done: Seq<u8> = before;
            if let Some(high) = carry {
                let low: u8 = chunk[0];
                proof {
                    done = before.push(low);
                    lemma_word_sum_push(before.drop_last(), high);
                    assert(before.drop_last().push(high) == before);
                    lemma_word_sum_push(before, low);
                    assert(after.take(done.len() as int) == done);
                    lemma_word_sum_prefix(after, done.len() as int);
                }
                sum = sum + word(high, low);
                carry = None;
                i = 1;
            }
            while chunk.len() - i >= 2
                invariant
                    i <= chunk.len(),
                    done.len() % 2 == 0,
                    sum == word_sum(done),
                    after == done + chunk@.skip(i as int),
                    word_sum(after) <= u32::MAX,
                decreases chunk.len() - i,
            {
                let ghost two = done.push(chunk[i as int]).push(chunk[i + 1]);
                proof {
                    lemma_word_sum_push(done, chunk[i as int]);
                    lemma_word_sum_push(done.push(chunk[i as int]), chunk[i + 1]);
                    assert(after.take(two.len() as int) == two);
                    lemma_word_sum_prefix(after, two.len() as int);
                }
                sum = sum + word(chunk[i], chunk[i + 1]);
                i = i + 2;
                proof {
                    assert(after == two + chunk@.skip(i as int));
                    done = two;
                }
            }
            if i < chunk.len() {
                carry = Some(chunk[i]);
                assert(after.drop_last() == done);
            } else {
                assert(after == done);
            }
        } else {
            assert(after == before);
        }
        k = k + 1;
    }
    assert(parts.take(k as int) == parts);
    if let Some(high) = carry {
        proof {
            lemma_word_sum_push(joined(parts).drop_last(), high);
            assert(joined(parts).drop_last().push(high) == joined(parts));
        }
        sum = sum + word(high, 0);
    }
    fold(sum)
}

/// Folds the carries of a sum of words back in and complements it.
fn fold(total: u32) -> (sum: u16)
    ensures
        sum == 65535 - ones_complement_sum(total as nat),
{
    let mut sum: u32 = total;
    while sum >> 16 != 0
        invariant
            ones_complement_sum(sum as nat) == ones_complement_sum(total as nat),
        decreases sum,
    {
        let ghost q = sum / 65536;
        let ghost r = sum % 65536;
        assert(sum >> 16 == sum / 65536 && sum & 0xFFFF == sum % 65536) by (bit_vector);
        assert(sum - 1 == (q + r - 1) + 65535 * q);
        assert((sum - 1) % 65535 == (q + r - 1) % 65535);
        sum = (sum & 0xFFFF) + (sum >> 16);
    }
    assert(sum >> 16 == 0 ==> sum <= 0xFFFF) by (bit_vector);
    let low: u16 = sum as u16;
    assert(!low == 0xFFFF - low) by (bit_vector);
    !low
}

} // verus!
