//! Sixteen-bit words as the link carries them, low byte first.

use vstd::prelude::*;

verus! {

/// The two bytes of `word`, low byte first.
pub open spec fn word_bytes(word: u16) -> Seq<u8> {
    seq![(word % 256) as u8, (word / 256) as u8]
}

/// The word whose low byte is `low` and whose high byte is `high`.
pub open spec fn word_of(low: u8, high: u8) -> u16 {
    (low + 256 * high) as u16
}

/// Appends the two bytes of `word`.
pub(crate) fn push_word(out: &mut Vec<u8>, word: u16)
    ensures
        final(out)@ == old(out)@ + word_bytes(word),
{
    out.push((word % 256) as u8);
    out.push((word / 256) as u8);
    proof {
        assert(out@ =~= old(out)@ + word_bytes(word));
    }
}

/// The word of two bytes.
pub(crate) fn read_word(low: u8, high: u8) -> (word: u16)
    ensures
        word == word_of(low, high),
{
    low as u16 + 256 * (high as u16)
}

/// Appends the bytes of `more`.
pub(crate) fn push_all(out: &mut Vec<u8>, more: &[u8])
    ensures
        final(out)@ == old(out)@ + more@,
{
    out.extend_from_slice(more);
    proof {
        assert(out@ =~= old(out)@ + more@);
    }
}

/// A word reads back from its two bytes.
pub proof fn lemma_word_reads_back(word: u16)
    ensures
        word_of(word_bytes(word)[0], word_bytes(word)[1]) == word,
{
}

/// Two bytes are those of the word they make.
pub proof fn lemma_word_writes_back(low: u8, high: u8)
    ensures
        word_bytes(word_of(low, high)) == seq![low, high],
{
    assert(word_bytes(word_of(low, high)) =~= seq![low, high]);
}

/// A word is on the link as its low byte and then its high byte, and a low and
/// a high byte make the word that is their sum, the high byte counting 256.
pub proof fn law_word_is_low_byte_first(word: u16, low: u8, high: u8)
    ensures
        word_bytes(word).len() == 2,
        word_bytes(word)[0] + 256 * word_bytes(word)[1] == word,
        word_of(low, high) == low + 256 * high,
{
}

} // verus!
