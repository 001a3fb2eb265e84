//! Offsets in bytes beside offsets in characters: where each character of a
//! text starts in the text's UTF-8 encoding.

use vstd::prelude::*;
use vstd::utf8::{encode_scalar, encode_utf8};

verus! {

/// The offset in bytes at which the character with offset `at` starts in the
/// UTF-8 encoding of `text`; for `at` the length of the text, the length of
/// the encoding.
pub open spec fn byte_offset(text: Seq<char>, at: int) -> nat {
    encode_utf8(text.take(at)).len()
}

/// The encoding of two texts put together is their encodings put together.
pub proof fn lemma_encode_concat(a: Seq<char>, b: Seq<char>)
    ensures
        encode_utf8(a + b) == encode_utf8(a) + encode_utf8(b),
    decreases a.len(),
{
    if a.len() == 0 {
        assert(a + b =~= b);
        assert(encode_utf8(a) + encode_utf8(b) =~= encode_utf8(b));
    } else {
        lemma_encode_concat(a.drop_first(), b);
        assert((a + b).drop_first() =~= a.drop_first() + b);
        assert(encode_utf8(a + b) =~= encode_utf8(a) + encode_utf8(b));
    }
}

/// The encoding of one character has one to four bytes.
pub proof fn lemma_encode_one(c: char)
    ensures
        encode_utf8(seq![c]) == encode_scalar(c as u32),
        1 <= encode_utf8(seq![c]).len() <= 4,
{
    reveal_with_fuel(encode_utf8, 2);
    assert(seq![c].drop_first() =~= Seq::<char>::empty());
    assert(encode_utf8(Seq::<char>::empty()) =~= Seq::<u8>::empty());
    assert(encode_utf8(seq![c]) =~= encode_scalar(seq![c][0] as u32) + encode_utf8(
        seq![c].drop_first(),
    ));
    assert(encode_utf8(seq![c]) =~= encode_scalar(c as u32));
}

/// The byte offset of the next character lies behind that of a character by
/// the length of its encoding.
pub proof fn lemma_byte_offset_step(text: Seq<char>, at: int)
    requires
        0 <= at < text.len(),
    ensures
        byte_offset(text, at + 1) == byte_offset(text, at) + encode_utf8(seq![text[at]]).len(),
        byte_offset(text, at) < byte_offset(text, at + 1),
{
    assert(text.take(at + 1) =~= text.take(at) + seq![text[at]]);
    lemma_encode_concat(text.take(at), seq![text[at]]);
    lemma_encode_one(text[at]);
}

/// Byte offsets rise with character offsets.
pub proof fn lemma_byte_offset_rises(text: Seq<char>, a: int, b: int)
    requires
        0 <= a <= b <= text.len(),
    ensures
        byte_offset(text, a) <= byte_offset(text, b),
        a < b ==> byte_offset(text, a) < byte_offset(text, b),
        byte_offset(text, 0) == 0,
        byte_offset(text, text.len() as int) == encode_utf8(text).len(),
    decreases b - a,
{
    assert(text.take(0) =~= Seq::<char>::empty());
    assert(text.take(text.len() as int) =~= text);
    if a < b {
        lemma_byte_offset_rises(text, a, b - 1);
        lemma_byte_offset_step(text, b - 1);
    }
}

/// A character starts no earlier in bytes than in characters.
pub proof fn lemma_byte_offset_at_least(text: Seq<char>, at: int)
    requires
        0 <= at <= text.len(),
    ensures
        at <= byte_offset(text, at),
    decreases at,
{
    if at > 0 {
        lemma_byte_offset_at_least(text, at - 1);
        lemma_byte_offset_step(text, at - 1);
    }
}

/// The bytes that encode a part of a text are those between the byte offsets
/// of its ends.
pub proof fn lemma_encode_part(text: Seq<char>, from: int, to: int)
    requires
        0 <= from <= to <= text.len(),
    ensures
        byte_offset(text, from) <= byte_offset(text, to) <= encode_utf8(text).len(),
        encode_utf8(text).subrange(byte_offset(text, from) as int, byte_offset(text, to) as int)
            == encode_utf8(text.subrange(from, to)),
{
    let head = text.take(from);
    let part = text.subrange(from, to);
    let tail = text.skip(to);
    assert(text =~= (head + part) + tail);
    assert(text.take(to) =~= head + part);
    lemma_encode_concat(head + part, tail);
    lemma_encode_concat(head, part);
    assert(encode_utf8(text).subrange(
        encode_utf8(head).len() as int,
        encode_utf8(head + part).len() as int,
    ) =~= encode_utf8(part));
}

/// Texts with the same encoding are the same text.
pub proof fn lemma_encode_injective(a: Seq<char>, b: Seq<char>)
    requires
        encode_utf8(a) == encode_utf8(b),
    ensures
        a == b,
{
    vstd::utf8::encode_utf8_decode_utf8(a);
    vstd::utf8::encode_utf8_decode_utf8(b);
}

/// The number of bytes that encode the character `c`.
pub fn utf8_width(c: char) -> (n: usize)
    ensures
        n == encode_utf8(seq![c]).len(),
        1 <= n <= 4,
{
    proof {
        lemma_encode_one(c);
        vstd::utf8::char_is_scalar(c);
    }
    let v = c as u32;
    if v <= 0x7F {
        1
    } else if v <= 0x7FF {
        2
    } else if v <= 0xFFFF {
        3
    } else {
        4
    }
}

/// The byte offset of each character of `chars`, and behind them the length
/// of the whole encoding.
pub(crate) fn byte_offsets(chars: &Vec<char>) -> (offsets: Vec<usize>)
    requires
        encode_utf8(chars@).len() <= usize::MAX,
    ensures
        offsets.len() == chars.len() + 1,
        forall|i: int| 0 <= i <= chars.len() ==> #[trigger] offsets[i] == byte_offset(chars@, i),
{
    let mut offsets: Vec<usize> = Vec::new();
    let mut total: usize = 0;
    let mut i: usize = 0;
    proof {
        lemma_byte_offset_rises(chars@, 0, 0);
    }
    offsets.push(0);
    while i < chars.len()
        invariant
            i <= chars.len(),
            encode_utf8(chars@).len() <= usize::MAX,
            offsets.len() == i + 1,
            total == byte_offset(chars@, i as int),
            forall|k: int| 0 <= k <= i ==> #[trigger] offsets[k] == byte_offset(chars@, k),
        decreases chars.len() - i,
    {
        proof {
            lemma_byte_offset_step(chars@, i as int);
            lemma_byte_offset_rises(chars@, i + 1, chars.len() as int);
        }
        total = total + utf8_width(chars[i]);
        offsets.push(total);
        i += 1;
    }
    offsets
}

} // verus!
