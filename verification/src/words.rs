//! Finding the first word of a sentence.

use crate::text::{lemma_boundaries_at_ascii, lemma_text_bytes, substring};
use vstd::prelude::*;
use vstd::string::StringSliceAdditionalSpecFns;
use vstd::utf8::{decode_utf8, encode_utf8};

verus! {

/// The byte that separates words.
pub const SPACE: u8 = 32;

/// The first offset at or behind `from` at which `bytes` holds no space, or
/// the length of `bytes` if there is none.
pub open spec fn skip_spaces(bytes: Seq<u8>, from: int) -> int
    decreases bytes.len() - from,
{
    if 0 <= from < bytes.len() && bytes[from] == SPACE {
        skip_spaces(bytes, from + 1)
    } else {
        from
    }
}

/// The first offset at or behind `from` at which `bytes` holds a space, or
/// the length of `bytes` if there is none.
pub open spec fn skip_word(bytes: Seq<u8>, from: int) -> int
    decreases bytes.len() - from,
{
    if 0 <= from < bytes.len() && bytes[from] != SPACE {
        skip_word(bytes, from + 1)
    } else {
        from
    }
}

/// Where the first word of `bytes` starts.
pub open spec fn first_word_start(bytes: Seq<u8>) -> int {
    skip_spaces(bytes, 0)
}

/// Where the first word of `bytes` ends.
pub open spec fn first_word_end(bytes: Seq<u8>) -> int {
    skip_word(bytes, first_word_start(bytes))
}

/// The first word of `sentence`: what stands between the spaces at its
/// start and the next space, or its end. It is empty where `sentence` holds
/// nothing but spaces.
pub fn find_first_word(sentence: &String) -> (word: String)
    ensures
        ({
            let bytes = encode_utf8(sentence@);
            &&& 0 <= first_word_start(bytes) <= first_word_end(bytes) <= bytes.len()
            &&& word@ == decode_utf8(
                bytes.subrange(first_word_start(bytes), first_word_end(bytes)),
            )
        }),
{
    let text = sentence.as_str();
    let bytes = text.as_bytes();
    let len = bytes.len();
    proof {
        lemma_text_bytes(text);
    }
    let mut start: usize = 0;
    while start < len && bytes[start] == SPACE
        invariant
            start <= len,
            len == bytes@.len(),
            bytes@ == text.spec_bytes(),
            vstd::utf8::valid_utf8(bytes@),
            skip_spaces(bytes@, start as int) == first_word_start(bytes@),
            vstd::utf8::is_char_boundary(bytes@, start as int),
        decreases len - start,
    {
        proof {
            lemma_boundaries_at_ascii(bytes@, start as int);
        }
        start = start + 1;
    }
    let mut end: usize = start;
    while end < len && bytes[end] != SPACE
        invariant
            start <= end <= len,
            len == bytes@.len(),
            skip_word(bytes@, end as int) == first_word_end(bytes@),
            start as int == first_word_start(bytes@),
        decreases len - end,
    {
        end = end + 1;
    }
    proof {
        if end < len {
            lemma_boundaries_at_ascii(bytes@, end as int);
        } else {
            vstd::utf8::is_char_boundary_start_end_of_seq(bytes@);
        }
    }
    substring(text, start, end).to_owned()
}

} // verus!
