//! Plain-text building blocks: decimal numbers and fixed-width fields.

use vstd::prelude::*;
use vstd::string::StringSliceAdditionalSpecFns;
use vstd::utf8::{
    decode_utf8, encode_utf8, is_char_boundary, is_continuation_byte, pop_first_scalar, valid_utf8,
};

verus! {

/// The character that stands for the digit `d`.
pub open spec fn digit_char(d: nat) -> char {
    if d == 0 {
        '0'
    } else if d == 1 {
        '1'
    } else if d == 2 {
        '2'
    } else if d == 3 {
        '3'
    } else if d == 4 {
        '4'
    } else if d == 5 {
        '5'
    } else if d == 6 {
        '6'
    } else if d == 7 {
        '7'
    } else if d == 8 {
        '8'
    } else {
        '9'
    }
}

/// The decimal digits of `n`, most significant first, without leading zeros.
pub open spec fn decimal(n: nat) -> Seq<char>
    decreases n,
{
    if n < 10 {
        seq![digit_char(n)]
    } else {
        decimal(n / 10).push(digit_char(n % 10))
    }
}

/// `count` copies of `c`.
pub open spec fn repeated(c: char, count: nat) -> Seq<char> {
    Seq::new(count, |i: int| c)
}

/// How many fill characters bring a text of `len` characters to `width`.
pub open spec fn padding(len: nat, width: nat) -> nat {
    if len < width {
        (width - len) as nat
    } else {
        0
    }
}

/// `text` at the right of a field of `width` characters, filled with `fill`
/// on the left; a text that is too long is left as it is.
pub open spec fn right_justified(text: Seq<char>, width: nat, fill: char) -> Seq<char> {
    repeated(fill, padding(text.len(), width)) + text
}

/// `text` at the left of a field of `width` characters, filled with spaces
/// on the right; a text that is too long is left as it is.
pub open spec fn left_justified(text: Seq<char>, width: nat) -> Seq<char> {
    text + repeated(' ', padding(text.len(), width))
}

/// The texts that `parts` hold.
pub open spec fn texts_of(parts: Seq<String>) -> Seq<Seq<char>> {
    Seq::new(parts.len(), |i: int| parts[i]@)
}

/// The texts of `parts`, in order, with a comma and a space between each two.
pub open spec fn joined(parts: Seq<Seq<char>>) -> Seq<char>
    decreases parts.len(),
{
    if parts.len() == 0 {
        Seq::empty()
    } else if parts.len() == 1 {
        parts[0]
    } else {
        joined(parts.drop_last()) + seq![',', ' '] + parts.last()
    }
}

/// A listing of `parts` between square brackets: `[]` when there is none.
pub open spec fn bracketed(parts: Seq<Seq<char>>) -> Seq<char> {
    seq!['['] + joined(parts) + seq![']']
}

/// The digit `d` as a text of one character.
fn digit_text(d: usize) -> (text: &'static str)
    requires
        d < 10,
    ensures
        text@ == seq![digit_char(d as nat)],
{
    proof {
        reveal_strlit("0");
        reveal_strlit("1");
        reveal_strlit("2");
        reveal_strlit("3");
        reveal_strlit("4");
        reveal_strlit("5");
        reveal_strlit("6");
        reveal_strlit("7");
        reveal_strlit("8");
        reveal_strlit("9");
    }
    let text = if d == 0 {
        "0"
    } else if d == 1 {
        "1"
    } else if d == 2 {
        "2"
    } else if d == 3 {
        "3"
    } else if d == 4 {
        "4"
    } else if d == 5 {
        "5"
    } else if d == 6 {
        "6"
    } else if d == 7 {
        "7"
    } else if d == 8 {
        "8"
    } else {
        "9"
    };
    assert(text@ =~= seq![digit_char(d as nat)]);
    text
}

/// Appends the decimal form of `n` to `out`.
pub fn push_decimal(out: &mut String, n: usize)
    ensures
        final(out)@ == old(out)@ + decimal(n as nat),
    decreases n,
{
    if n >= 10 {
        push_decimal(out, n / 10);
    }
    out.append(digit_text(n % 10));
    assert(final(out)@ =~= old(out)@ + decimal(n as nat));
}

/// The number of digits in the decimal form of `n`.
pub fn decimal_len(n: usize) -> (len: usize)
    ensures
        len == decimal(n as nat).len(),
{
    let mut len: usize = 1;
    let mut rest: usize = n;
    while rest >= 10
        invariant
            1 <= len,
            len - 1 + rest <= n,
            decimal(n as nat).len() == decimal(rest as nat).len() + len - 1,
        decreases rest,
    {
        rest = rest / 10;
        len = len + 1;
    }
    len
}

/// Appends `count` copies of the single character that `fill` holds.
pub fn push_repeated(out: &mut String, fill: &str, count: usize)
    requires
        fill@.len() == 1,
    ensures
        final(out)@ == old(out)@ + repeated(fill@[0], count as nat),
{
    let mut done: usize = 0;
    while done < count
        invariant
            done <= count,
            fill@.len() == 1,
            out@ == old(out)@ + repeated(fill@[0], done as nat),
        decreases count - done,
    {
        out.append(fill);
        done = done + 1;
        assert(out@ =~= old(out)@ + repeated(fill@[0], done as nat));
    }
}

/// Appends the decimal form of `n`, right-justified in a field of `width`
/// characters that is filled with the single character of `fill`.
pub fn push_decimal_field(out: &mut String, n: usize, width: usize, fill: &str)
    requires
        fill@.len() == 1,
    ensures
        final(out)@ == old(out)@ + right_justified(decimal(n as nat), width as nat, fill@[0]),
{
    let len = decimal_len(n);
    if len < width {
        push_repeated(out, fill, width - len);
    } else {
        assert(repeated(fill@[0], 0) =~= Seq::<char>::empty());
    }
    push_decimal(out, n);
    assert(final(out)@ =~= old(out)@ + right_justified(
        decimal(n as nat),
        width as nat,
        fill@[0],
    ));
}

/// Appends `text`, left-justified in a field of `width` characters that is
/// filled with spaces.
pub fn push_left_justified(out: &mut String, text: &str, width: usize)
    ensures
        final(out)@ == old(out)@ + left_justified(text@, width as nat),
{
    let len = text.unicode_len();
    out.append(text);
    if len < width {
        proof {
            reveal_strlit(" ");
        }
        push_repeated(out, " ", width - len);
    } else {
        assert(repeated(' ', 0) =~= Seq::<char>::empty());
    }
    assert(final(out)@ =~= old(out)@ + left_justified(text@, width as nat));
}

/// The bytes of a text are valid UTF-8, and decoding them gives the text.
pub proof fn lemma_text_bytes(text: &str)
    ensures
        valid_utf8(text.spec_bytes()),
        decode_utf8(text.spec_bytes()) == text@,
{
    vstd::utf8::encode_utf8_valid_utf8(text@);
    vstd::utf8::encode_utf8_decode_utf8(text@);
}

/// In valid UTF-8 a byte below 128 is a character of its own: a character
/// starts at it and another one, or nothing, right behind it.
pub proof fn lemma_boundaries_at_ascii(bytes: Seq<u8>, index: int)
    requires
        valid_utf8(bytes),
        0 <= index < bytes.len(),
        bytes[index] < 128,
    ensures
        is_char_boundary(bytes, index),
        is_char_boundary(bytes, index + 1),
{
    vstd::utf8::is_char_boundary_iff_not_is_continuation_byte(bytes, index);
    if index + 1 == bytes.len() {
        vstd::utf8::is_char_boundary_start_end_of_seq(bytes);
    } else {
        vstd::utf8::valid_utf8_split(bytes, index);
        let suffix = bytes.subrange(index, bytes.len() as int);
        assert(suffix[0] == bytes[index]);
        assert(valid_utf8(suffix));
        let tail = pop_first_scalar(suffix);
        assert(tail =~= bytes.subrange(index + 1, bytes.len() as int));
        assert(valid_utf8(tail));
        assert(is_char_boundary(tail, 0));
        vstd::utf8::is_char_boundary_iff_not_is_continuation_byte(tail, 0);
        assert(tail[0] == bytes[index + 1]);
        assert(!is_continuation_byte(bytes[index + 1]));
        vstd::utf8::is_char_boundary_iff_not_is_continuation_byte(bytes, index + 1);
    }
}

/// The part of `text` from the byte offset `from` up to `to`.
pub fn substring<'a>(text: &'a str, from: usize, to: usize) -> (part: &'a str)
    requires
        from <= to <= text.spec_bytes().len(),
        is_char_boundary(text.spec_bytes(), from as int),
        is_char_boundary(text.spec_bytes(), to as int),
    ensures
        part.spec_bytes() == text.spec_bytes().subrange(from as int, to as int),
        part@ == decode_utf8(text.spec_bytes().subrange(from as int, to as int)),
{
    proof {
        lemma_text_bytes(text);
    }
    let (head, _) = text.split_at(to);
    assert(head.spec_bytes().len() == to);
    proof {
        lemma_text_bytes(head);
        vstd::utf8::valid_utf8_split(text.spec_bytes(), to as int);
        if from < to {
            vstd::utf8::is_char_boundary_iff_not_is_continuation_byte(
                text.spec_bytes(),
                from as int,
            );
            vstd::utf8::is_char_boundary_iff_not_is_continuation_byte(
                head.spec_bytes(),
                from as int,
            );
        } else {
            vstd::utf8::is_char_boundary_start_end_of_seq(head.spec_bytes());
        }
    }
    let (_, part) = head.split_at(from);
    proof {
        lemma_text_bytes(part);
        assert(part.spec_bytes() =~= text.spec_bytes().subrange(from as int, to as int));
    }
    part
}

} // verus!
