//! Text as bytes: searching, ASCII case folding, and cutting at character boundaries.

use vstd::prelude::*;
use vstd::utf8::*;

verus! {

/// `byte` in ASCII lower case.
pub open spec fn ascii_lower(byte: u8) -> u8 {
    if 'A' as u8 <= byte <= 'Z' as u8 {
        (byte + 32) as u8
    } else {
        byte
    }
}

/// `s` in ASCII lower case.
pub open spec fn lowercase(s: Seq<u8>) -> Seq<u8> {
    Seq::new(s.len(), |i: int| ascii_lower(s[i]))
}

/// `needle` occurs in `s` at `at`.
pub open spec fn occurs_at(s: Seq<u8>, needle: Seq<u8>, at: int) -> bool {
    &&& 0 <= at
    &&& at + needle.len() <= s.len()
    &&& s.subrange(at, at + needle.len()) == needle
}

/// The ASCII lower case of `bytes`.
pub fn to_lowercase(bytes: &[u8]) -> (result: Vec<u8>)
    ensures
        result@ == lowercase(bytes@),
{
    let mut result: Vec<u8> = Vec::new();
    let mut i: usize = 0;
    while i < bytes.len()
        invariant
            i <= bytes@.len(),
            result@ == lowercase(bytes@.take(i as int)),
        decreases bytes@.len() - i,
    {
        let byte: u8 = bytes[i];
        let lower: u8 = if 'A' as u8 <= byte && byte <= 'Z' as u8 {
            byte + 32
        } else {
            byte
        };
        result.push(lower);
        i += 1;
    }
    assert(bytes@.take(i as int) =~= bytes@);
    result
}

/// Whether `needle` occurs in `bytes` at `at`.
fn is_occurrence(bytes: &[u8], needle: &[u8], at: usize) -> (result: bool)
    requires
        at + needle@.len() <= bytes@.len(),
    ensures
        result == occurs_at(bytes@, needle@, at as int),
{
    let mut i: usize = 0;
    while i < needle.len()
        invariant
            i <= needle@.len(),
            at + needle@.len() <= bytes.len(),
            forall|j: int| 0 <= j < i ==> bytes@[at + j] == #[trigger] needle@[j],
        decreases needle@.len() - i,
    {
        if bytes[at + i] != needle[i] {
            assert(bytes@.subrange(at as int, at + needle@.len())[i as int] != needle@[i as int]);
            return false;
        }
        i += 1;
    }
    assert(bytes@.subrange(at as int, at + needle@.len()) =~= needle@);
    true
}

/// Finds the first occurrence of `needle` in `bytes` at or after `from`.
pub fn find_from(bytes: &[u8], needle: &[u8], from: usize) -> (result: Option<usize>)
    requires
        from <= bytes@.len(),
    ensures
        match result {
            Some(at) => from <= at && occurs_at(bytes@, needle@, at as int) && forall|i: int|
                from <= i < at ==> !#[trigger] occurs_at(bytes@, needle@, i),
            None => forall|i: int| from <= i ==> !#[trigger] occurs_at(bytes@, needle@, i),
        },
{
    let mut at: usize = from;
    while needle.len() <= bytes.len() - at
        invariant
            from <= at <= bytes@.len(),
            forall|i: int| from <= i < at ==> !#[trigger] occurs_at(bytes@, needle@, i),
        decreases bytes@.len() - at,
    {
        if is_occurrence(bytes, needle, at) {
            return Some(at);
        }
        if at == bytes.len() {
            return None;
        }
        at += 1;
    }
    None
}

/// The encoding of a text is the encodings of its parts, one after the other.
pub proof fn lemma_encode_concat(a: Seq<char>, b: Seq<char>)
    ensures
        encode_utf8(a + b) == encode_utf8(a) + encode_utf8(b),
    decreases a.len(),
{
    if a.len() == 0 {
        assert(a + b =~= b);
        assert(encode_utf8(a) + encode_utf8(b) =~= encode_utf8(b));
    } else {
        lemma_encode_concat(a.drop_first(), b);
        assert((a + b).drop_first() =~= a.drop_first() + b);
        assert((a + b)[0] == a[0]);
        assert(encode_utf8(a + b) =~= encode_utf8(a) + encode_utf8(b));
    }
}

/// From one character boundary, the next is as far as the character is long.
proof fn lemma_next_boundary(s: Seq<u8>, at: int)
    requires
        valid_utf8(s),
        is_char_boundary(s, at),
        0 <= at < s.len(),
    ensures
        valid_first_scalar(s.skip(at)),
        at + length_of_first_scalar(s.skip(at)) <= s.len(),
        is_char_boundary(s, at + length_of_first_scalar(s.skip(at))),
{
    valid_utf8_split(s, at);
    let rest = s.subrange(at, s.len() as int);
    assert(rest =~= s.skip(at));
    let next = at + length_of_first_scalar(rest);
    if next < s.len() {
        let tail = pop_first_scalar(rest);
        assert(valid_utf8(tail));
        assert(tail[0] == s[next]);
        is_char_boundary_iff_is_leading_byte(s, next);
        assert(is_leading_byte_width_1(s[next]) || is_leading_byte_width_2(s[next])
            || is_leading_byte_width_3(s[next]) || is_leading_byte_width_4(s[next]));
    } else {
        is_char_boundary_start_end_of_seq(s);
    }
}

/// Text that matches other text up to ASCII case, from a character boundary on, stops at one.
proof fn lemma_match_end_boundary(s: Seq<u8>, needle: Seq<u8>, at: int)
    requires
        valid_utf8(s),
        valid_utf8(needle),
        is_char_boundary(s, at),
        occurs_at(lowercase(s), lowercase(needle), at),
    ensures
        is_char_boundary(s, at + needle.len()),
    decreases needle.len(),
{
    if needle.len() > 0 {
        assert(lowercase(s).subrange(at, at + needle.len())[0] == lowercase(needle)[0]);
        lemma_next_boundary(s, at);
        let width = length_of_first_scalar(needle);
        let rest = pop_first_scalar(needle);
        assert(s.skip(at)[0] == s[at]);
        assert(length_of_first_scalar(s.skip(at)) == width);
        assert(lowercase(s).subrange(at + width, at + width + rest.len()) =~= lowercase(rest)) by {
            assert forall|i: int| 0 <= i < rest.len() implies lowercase(s)[at + width + i]
                == lowercase(rest)[i] by {
                assert(lowercase(s).subrange(at, at + needle.len())[width + i] == lowercase(
                    needle,
                )[width + i]);
            }
        }
        lemma_match_end_boundary(s, rest, at + width);
    }
}

/// An occurrence of non-empty text in other text, up to ASCII case, lies between character
/// boundaries.
pub proof fn lemma_match_boundaries(s: Seq<u8>, needle: Seq<u8>, at: int)
    requires
        valid_utf8(s),
        valid_utf8(needle),
        needle.len() > 0,
        occurs_at(lowercase(s), lowercase(needle), at),
    ensures
        is_char_boundary(s, at),
        is_char_boundary(s, at + needle.len()),
{
    assert(lowercase(s).subrange(at, at + needle.len())[0] == lowercase(needle)[0]);
    is_char_boundary_iff_not_is_continuation_byte(s, at);
    lemma_match_end_boundary(s, needle, at);
}

/// The part of `text` from byte `from` up to byte `to`.
pub fn text_range<'a>(text: &'a str, from: usize, to: usize) -> (result: &'a str)
    requires
        from <= to,
        is_char_boundary(encode_utf8(text@), from as int),
        is_char_boundary(encode_utf8(text@), to as int),
    ensures
        encode_utf8(result@) == encode_utf8(text@).subrange(from as int, to as int),
{
    broadcast use encode_utf8_valid_utf8;

    let ghost s = encode_utf8(text@);
    let (head, _) = text.split_at(to);
    proof {
        if from < to {
            is_char_boundary_iff_not_is_continuation_byte(s, from as int);
            is_char_boundary_iff_not_is_continuation_byte(encode_utf8(head@), from as int);
        } else {
            is_char_boundary_start_end_of_seq(encode_utf8(head@));
        }
    }
    let (_, part) = head.split_at(from);
    assert(encode_utf8(part@) =~= s.subrange(from as int, to as int));
    part
}

} // verus!
