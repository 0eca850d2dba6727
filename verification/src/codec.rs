//! Persistence format for records: each word is encoded as 8 big-endian
//! bytes, concatenated with no header or framing. Decoding stops at the
//! first short read.

use vstd::prelude::*;

verus! {

/// The 8 big-endian bytes of one word, most significant first.
pub open spec fn be_bytes_of_word(w: u64) -> Seq<u8> {
    seq![
        (w >> 56) as u8,
        (w >> 48) as u8,
        (w >> 40) as u8,
        (w >> 32) as u8,
        (w >> 24) as u8,
        (w >> 16) as u8,
        (w >> 8) as u8,
        w as u8,
    ]
}

/// The word denoted by 8 big-endian bytes.
pub open spec fn word_of_be_bytes(b: Seq<u8>) -> u64 {
    (((b[0] as u64) << 56) | ((b[1] as u64) << 48) | ((b[2] as u64) << 40) | ((b[3] as u64) << 32)
        | ((b[4] as u64) << 24) | ((b[5] as u64) << 16) | ((b[6] as u64) << 8) | (b[7] as u64)) as u64
}

/// A whole record encoded as its words' big-endian bytes, in order.
pub open spec fn encoded(words: Seq<u64>) -> Seq<u8>
    decreases words.len(),
{
    if words.len() == 0 {
        Seq::empty()
    } else {
        be_bytes_of_word(words[0]) + encoded(words.skip(1))
    }
}

/// The words read back from a byte string, 8 bytes at a time; a trailing
/// fragment shorter than 8 bytes is dropped.
pub open spec fn decoded(bytes: Seq<u8>) -> Seq<u64>
    decreases bytes.len(),
{
    if bytes.len() < 8 {
        Seq::empty()
    } else {
        seq![word_of_be_bytes(bytes.take(8))] + decoded(bytes.skip(8))
    }
}

/// Reading back the 8 bytes of a word gives the word.
proof fn lemma_word_round_trip(w: u64)
    ensures
        word_of_be_bytes(be_bytes_of_word(w)) == w,
{
    let b = be_bytes_of_word(w);
    assert(((((w >> 56) as u8 as u64) << 56) | (((w >> 48) as u8 as u64) << 48)
        | (((w >> 40) as u8 as u64) << 40) | (((w >> 32) as u8 as u64) << 32)
        | (((w >> 24) as u8 as u64) << 24) | (((w >> 16) as u8 as u64) << 16)
        | (((w >> 8) as u8 as u64) << 8) | (w as u8 as u64)) == w) by (bit_vector);
}

/// Appending one word to a record appends its 8 bytes to the encoding.
proof fn lemma_encoded_snoc(words: Seq<u64>, w: u64)
    ensures
        encoded(words.push(w)) == encoded(words) + be_bytes_of_word(w),
    decreases words.len(),
{
    let p = words.push(w);
    if words.len() == 0 {
        assert(p[0] == w);
        assert(p.skip(1) =~= Seq::<u64>::empty());
        assert(encoded(p) == be_bytes_of_word(w) + encoded(Seq::<u64>::empty()));
        assert(encoded(p) =~= encoded(words) + be_bytes_of_word(w));
    } else {
        lemma_encoded_snoc(words.skip(1), w);
        assert(p.skip(1) =~= words.skip(1).push(w));
        assert(p[0] == words[0]);
        assert(encoded(p) == be_bytes_of_word(words[0]) + (encoded(words.skip(1)) + be_bytes_of_word(w)));
        assert(encoded(words) == be_bytes_of_word(words[0]) + encoded(words.skip(1)));
        assert(encoded(p) =~= encoded(words) + be_bytes_of_word(w));
    }
}

/// Decoding an encoded record gives the record back: the persistence format
/// loses nothing, for every record.
pub proof fn lemma_codec_round_trip(words: Seq<u64>)
    ensures
        decoded(encoded(words)) == words,
    decreases words.len(),
{
    if words.len() == 0 {
        assert(decoded(encoded(words)) =~= words);
    } else {
        let e = encoded(words);
        lemma_codec_round_trip(words.skip(1));
        lemma_word_round_trip(words[0]);
        assert(e.take(8) =~= be_bytes_of_word(words[0]));
        assert(e.skip(8) =~= encoded(words.skip(1)));
        assert(decoded(e) =~= words);
    }
}

/// Encodes a record for persistence: 8 big-endian bytes per word.
pub fn u64s_to_bytes(ints: &[u64]) -> (r: Vec<u8>)
    ensures
        r@ == encoded(ints@),
{
    let ghost gw = ints@;
    let mut out: Vec<u8> = Vec::new();
    let mut i: usize = 0;
    proof {
        assert(gw.take(0) =~= Seq::<u64>::empty());
    }
    while i < ints.len()
        invariant
            gw == ints@,
            0 <= i <= gw.len(),
            out@ == encoded(gw.take(i as int)),
        decreases gw.len() - i,
    {
        let w = ints[i];
        proof {
            lemma_encoded_snoc(gw.take(i as int), w);
            assert(gw.take(i + 1) =~= gw.take(i as int).push(w));
        }
        out.push((w >> 56) as u8);
        out.push((w >> 48) as u8);
        out.push((w >> 40) as u8);
        out.push((w >> 32) as u8);
        out.push((w >> 24) as u8);
        out.push((w >> 16) as u8);
        out.push((w >> 8) as u8);
        out.push(w as u8);
        proof {
            assert(out@ =~= encoded(gw.take(i as int)) + be_bytes_of_word(w));
        }
        i = i + 1;
    }
    proof {
        assert(gw.take(gw.len() as int) =~= gw);
    }
    out
}

/// Decodes a persisted byte string back into words, stopping at the first
/// short read.
pub fn bytes_to_u64s(bytes: &[u8]) -> (r: Vec<u64>)
    ensures
        r@ == decoded(bytes@),
{
    let ghost gb = bytes@;
    let mut out: Vec<u64> = Vec::new();
    let mut i: usize = 0;
    proof {
        assert(gb.skip(0) =~= gb);
    }
    while i < bytes.len() && bytes.len() - i >= 8
        invariant
            gb == bytes@,
            0 <= i <= gb.len(),
            i % 8 == 0,
            decoded(gb) == out@ + decoded(gb.skip(i as int)),
        decreases gb.len() - i,
    {
        let w: u64 = ((bytes[i] as u64) << 56) | ((bytes[i + 1] as u64) << 48)
            | ((bytes[i + 2] as u64) << 40) | ((bytes[i + 3] as u64) << 32)
            | ((bytes[i + 4] as u64) << 24) | ((bytes[i + 5] as u64) << 16)
            | ((bytes[i + 6] as u64) << 8) | (bytes[i + 7] as u64);
        proof {
            let rest = gb.skip(i as int);
            assert(rest.len() >= 8);
            assert forall|k: int| 0 <= k < 8 implies rest.take(8)[k] == gb[i + k] by {}
            assert(w == word_of_be_bytes(rest.take(8)));
            assert(rest.skip(8) =~= gb.skip(i + 8));
            assert(decoded(rest) == seq![w] + decoded(gb.skip(i + 8)));
            assert(out@.push(w) + decoded(gb.skip(i + 8)) =~= out@ + decoded(rest));
        }
        out.push(w);
        i = i + 8;
    }
    proof {
        assert(gb.skip(i as int).len() < 8);
        assert(decoded(gb.skip(i as int)) =~= Seq::<u64>::empty());
        assert(out@ + decoded(gb.skip(i as int)) =~= out@);
    }
    out
}

} // verus!
