//! What holds of the internet checksum.
use vstd::prelude::*;

use crate::checksum::{
    byte_weight, internet_checksum, joined, lemma_word_sum_update, ones_complement_sum, word_sum,
};
use crate::wire::be16_bytes;

verus! {

/// Chunk boundaries do not matter: the checksum of a list of chunks is that
/// of the bytes they hold, however these are cut.
pub proof fn law_chunk_boundaries_do_not_matter(chunks: Seq<Seq<u8>>)
    ensures
        internet_checksum(joined(chunks)) == internet_checksum(chunks.flatten()),
{
    lemma_joined_flat(chunks);
}

proof fn lemma_joined_flat(chunks: Seq<Seq<u8>>)
    ensures
        joined(chunks) == chunks.flatten(),
    decreases chunks.len(),
{
    if chunks.len() > 0 {
        lemma_joined_flat(chunks.drop_last());
        chunks.drop_last().lemma_flatten_push(chunks.last());
        assert(chunks.drop_last().push(chunks.last()) =~= chunks);
    }
}

/// A message with a zero field verifies once its checksum is written there.
pub proof fn law_checksum_closes(s: Seq<u8>, i: int)
    requires
        0 <= i,
        i + 1 < s.len(),
        i % 2 == 0,
        s[i] == 0,
        s[i + 1] == 0,
    ensures
        ({
            let sum = be16_bytes(internet_checksum(s));
            internet_checksum(s.update(i, sum[0]).update(i + 1, sum[1])) == 0
        }),
{
    let sum = internet_checksum(s);
    lemma_field_written(s, i, sum);
    lemma_sums_to_zero(word_sum(s), sum);
}

/// Writing a number into a zero field adds it to the sum.
pub proof fn lemma_field_written(s: Seq<u8>, i: int, v: u16)
    requires
        0 <= i,
        i + 1 < s.len(),
        i % 2 == 0,
        s[i] == 0,
        s[i + 1] == 0,
    ensures
        word_sum(s.update(i, be16_bytes(v)[0]).update(i + 1, be16_bytes(v)[1])) == word_sum(s) + v,
{
    let bytes = be16_bytes(v);
    let t = s.update(i, bytes[0]);
    lemma_word_sum_update(s, i, bytes[0]);
    lemma_word_sum_update(t, i + 1, bytes[1]);
    assert(byte_weight(i) == 256 && byte_weight(i + 1) == 1);
    assert((bytes[0] - s[i]) * byte_weight(i) == v / 0x100 * 256);
    assert((bytes[1] - t[i + 1]) * byte_weight(i + 1) == v % 0x100);
}

/// A sum and the checksum of it add up to a message that verifies.
pub proof fn lemma_sums_to_zero(w: nat, sum: u16)
    requires
        sum == 65535 - ones_complement_sum(w) || sum == 65535 && ones_complement_sum(w) == 65535,
    ensures
        ones_complement_sum(w + sum as nat) == 65535,
{
    if w > 0 {
        let q = (w - 1) / 65535;
        let r = (w - 1) % 65535;
        assert(w - 1 == q * 65535 + r);
        if sum == 65535 - ones_complement_sum(w) {
            assert(w + sum - 1 == q * 65535 + 65534);
            assert((w + sum - 1) % 65535 == 65534);
        } else {
            assert(w + sum - 1 == (q + 1) * 65535 + 65534);
            assert((w + sum - 1) % 65535 == 65534);
        }
    }
}

/// A message that verifies no longer does when one of its bytes is changed.
pub proof fn law_corruption_is_detected(s: Seq<u8>, i: int, v: u8)
    requires
        internet_checksum(s) == 0,
        0 <= i < s.len(),
        v != s[i],
    ensures
        internet_checksum(s.update(i, v)) != 0,
{
    let t = s.update(i, v);
    lemma_word_sum_update(s, i, v);
    let w = word_sum(s);
    let d = (v - s[i]) * byte_weight(i);
    assert(d != 0 && -65535 < d < 65535);
    assert(w > 0 && (w - 1) % 65535 == 65534);
    if internet_checksum(t) == 0 {
        assert(word_sum(t) > 0 && (word_sum(t) - 1) % 65535 == 65534);
        assert(w % 65535 == 0);
        assert((w + d) % 65535 == 0);
        assert(d % 65535 == 0);
    }
}

} // verus!
