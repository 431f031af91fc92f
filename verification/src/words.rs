//! Words of a string: the index at which the first word ends, and the first
//! word as a slice that borrows from the string.

use vstd::prelude::*;
use vstd::utf8::{
    decode_first_scalar, decode_utf8, decode_utf8_first_scalar, decode_utf8_split, encode_scalar,
    encode_utf8, encode_utf8_decode_utf8, encode_utf8_valid_utf8, is_char_boundary,
    is_char_boundary_iff_not_is_continuation_byte, is_char_boundary_start_end_of_seq,
    is_continuation_byte, length_of_first_scalar, pop_first_scalar, take_first_scalar, valid_utf8,
    valid_utf8_split,
};

verus! {

/// The byte that separates words.
pub const SPACE: u8 = 0x20;

/// Whether the first word of `text` ends at `end`: at the first separator, or
/// at the end where there is no separator.
pub open spec fn ends_first_word<T>(text: Seq<T>, separator: T, end: int) -> bool {
    &&& 0 <= end <= text.len()
    &&& forall|i: int| 0 <= i < end ==> text[i] != separator
    &&& end < text.len() ==> text[end] == separator
}

/// The first word ends at one index only.
pub proof fn lemma_first_word_end_unique<T>(text: Seq<T>, separator: T, a: int, b: int)
    requires
        ends_first_word(text, separator, a),
        ends_first_word(text, separator, b),
    ensures
        a == b,
{
}

/// The end of the first word lies between two characters.
pub proof fn lemma_first_word_end_is_boundary(chars: Seq<char>, end: int)
    requires
        ends_first_word(encode_utf8(chars), SPACE, end),
    ensures
        is_char_boundary(encode_utf8(chars), end),
{
    let bytes = encode_utf8(chars);
    encode_utf8_valid_utf8(chars);
    if end < bytes.len() {
        assert(!is_continuation_byte(bytes[end]));
        is_char_boundary_iff_not_is_continuation_byte(bytes, end);
    } else {
        is_char_boundary_start_end_of_seq(bytes);
    }
}

/// A space is encoded as the one byte `SPACE`, and nothing else is.
proof fn lemma_space_is_one_byte(scalar: u32)
    ensures
        scalar == 0x20 ==> encode_scalar(scalar) == seq![SPACE],
{
    if scalar == 0x20 {
        assert(0x20u32 & 0x7F == 0x20) by (bit_vector);
    }
}

/// Text that is encoded without the byte `SPACE` holds no space.
proof fn lemma_decoded_without_space(bytes: Seq<u8>)
    requires
        valid_utf8(bytes),
        forall|i: int| 0 <= i < bytes.len() ==> bytes[i] != SPACE,
    ensures
        forall|k: int| 0 <= k < decode_utf8(bytes).len() ==> decode_utf8(bytes)[k] != ' ',
    decreases bytes.len(),
{
    if bytes.len() > 0 {
        let first = decode_first_scalar(bytes) as char;
        let rest = pop_first_scalar(bytes);
        decode_utf8_first_scalar(bytes);
        lemma_space_is_one_byte(first as u32);
        if first == ' ' {
            assert(take_first_scalar(bytes)[0] == SPACE);
            assert(bytes[0] == SPACE);
        }
        assert(0 < length_of_first_scalar(bytes) <= bytes.len());
        assert forall|i: int| 0 <= i < rest.len() implies rest[i] != SPACE by {
            assert(rest[i] == bytes[i + length_of_first_scalar(bytes)]);
        }
        lemma_decoded_without_space(rest);
        assert forall|k: int| 0 <= k < decode_utf8(bytes).len() implies decode_utf8(bytes)[k]
            != ' ' by {
            if k > 0 {
                assert(decode_utf8(bytes)[k] == decode_utf8(rest)[k - 1]);
            }
        }
    }
}

/// Text whose encoding starts with the byte `SPACE` starts with a space.
proof fn lemma_decoded_leading_space(bytes: Seq<u8>)
    requires
        valid_utf8(bytes),
        bytes.len() > 0,
        bytes[0] == SPACE,
    ensures
        decode_utf8(bytes).len() > 0,
        decode_utf8(bytes)[0] == ' ',
{
    assert(0x20u8 & 0x7F == 0x20) by (bit_vector);
    assert(decode_first_scalar(bytes) == 0x20);
}

/// The index of the byte at which the first word of `s` ends: that of the
/// first space, or the length of `s` in bytes where it holds no space.
pub fn first_word_index(s: &String) -> (end: usize)
    ensures
        ends_first_word(encode_utf8(s@), SPACE, end as int),
{
    let bytes = s.as_str().as_bytes();
    let mut i: usize = 0;
    while i < bytes.len()
        invariant
            i <= bytes@.len(),
            bytes@ == encode_utf8(s@),
            forall|j: int| 0 <= j < i ==> bytes@[j] != SPACE,
        decreases bytes@.len() - i,
    {
        if bytes[i] == SPACE {
            return i;
        }
        i += 1;
    }
    i
}

/// The first word of `s`: what comes before the first space, or all of `s`
/// where it holds no space. In bytes, it ends where `first_word_index` says.
pub fn first_word(s: &String) -> (word: &str)
    ensures
        word@ == s@.take(word@.len() as int),
        ends_first_word(s@, ' ', word@.len() as int),
        encode_utf8(word@) == encode_utf8(s@).take(encode_utf8(word@).len() as int),
        ends_first_word(encode_utf8(s@), SPACE, encode_utf8(word@).len() as int),
{
    let end = first_word_index(s);
    proof {
        lemma_first_word_end_is_boundary(s@, end as int);
    }
    let (word, _) = s.as_str().split_at(end);
    proof {
        let bytes = encode_utf8(s@);
        let head = bytes.subrange(0, end as int);
        let tail = bytes.subrange(end as int, bytes.len() as int);
        encode_utf8_valid_utf8(s@);
        valid_utf8_split(bytes, end as int);
        decode_utf8_split(bytes, end as int);
        encode_utf8_decode_utf8(s@);
        encode_utf8_decode_utf8(word@);
        assert(head == encode_utf8(word@));
        assert(s@ =~= word@ + decode_utf8(tail));
        assert(word@ =~= s@.take(word@.len() as int));
        lemma_decoded_without_space(head);
        if end < bytes.len() {
            lemma_decoded_leading_space(tail);
            assert(s@[word@.len() as int] == decode_utf8(tail)[0]);
        } else {
            assert(tail =~= Seq::<u8>::empty());
        }
    }
    word
}

} // verus!
