//! Borrowed views of strings: the longer of two, and the first word of one.
//!
//! Lengths and positions are counted in bytes of the UTF-8 encoding, as
//! `str::len` counts them. The space is a single byte that occurs in no other
//! character's encoding, so the first word is the same whether the text is
//! read byte by byte or character by character; `lemma_word_bytes` proves it.

use vstd::prelude::*;
use vstd::string::StringSliceAdditionalSpecFns;
use vstd::utf8::*;

verus! {

/// The byte that encodes the space character, U+0020.
pub const SPACE: u8 = 0x20;

/// Index of the first occurrence of `x` in `s`, or `s.len()` where `s` does
/// not hold `x`.
pub open spec fn first_index<A>(s: Seq<A>, x: A) -> int
    decreases s.len(),
{
    if s.len() == 0 || s[0] == x {
        0
    } else {
        1 + first_index(s.drop_first(), x)
    }
}

/// `s` is free of `x` before position `n`, and at `n` it ends or holds `x`.
pub open spec fn is_first_index<A>(s: Seq<A>, x: A, n: int) -> bool {
    &&& 0 <= n <= s.len()
    &&& forall|j: int| 0 <= j < n ==> s[j] != x
    &&& n < s.len() ==> s[n] == x
}

/// `first_index(s, x)` is the one position of `s` that `is_first_index`
/// describes.
pub proof fn lemma_first_index<A>(s: Seq<A>, x: A, n: int)
    ensures
        first_index(s, x) == n <==> is_first_index(s, x, n),
    decreases s.len(),
{
    if s.len() != 0 && s[0] != x {
        let rest = s.drop_first();
        lemma_first_index(rest, x, n - 1);
        if is_first_index(rest, x, n - 1) {
            assert forall|j: int| 0 <= j < n implies s[j] != x by {
                if j > 0 {
                    assert(s[j] == rest[j - 1]);
                }
            }
        }
        if is_first_index(s, x, n) {
            assert forall|j: int| 0 <= j < n - 1 implies rest[j] != x by {
                assert(rest[j] == s[j + 1]);
            }
        }
    }
}

/// The UTF-8 encoding of a character other than the space holds no space
/// byte.
proof fn lemma_no_space_byte(c: char)
    requires
        c != ' ',
    ensures
        first_index(encode_scalar(c as u32), SPACE) == encode_scalar(c as u32).len(),
{
    let v = c as u32;
    let e = encode_scalar(v);
    assert(v <= 0x7F && v != 0x20 ==> (v & 0x7F) as u8 != 0x20) by (bit_vector);
    assert(0xC0u8 | ((v >> 6) & 0x1F) as u8 != 0x20) by (bit_vector);
    assert(0xE0u8 | ((v >> 12) & 0x0F) as u8 != 0x20) by (bit_vector);
    assert(0xF0u8 | ((v >> 18) & 0x7) as u8 != 0x20) by (bit_vector);
    assert(0x80u8 | (v & 0x3F) as u8 != 0x20) by (bit_vector);
    assert(0x80u8 | ((v >> 6) & 0x3F) as u8 != 0x20) by (bit_vector);
    assert(0x80u8 | ((v >> 12) & 0x3F) as u8 != 0x20) by (bit_vector);
    assert forall|j: int| 0 <= j < e.len() implies e[j] != SPACE by {}
    lemma_first_index(e, SPACE, e.len() as int);
}

/// Where `head` does not hold `x`, the first `x` of `head + tail` is the
/// first `x` of `tail`.
proof fn lemma_first_index_after<A>(head: Seq<A>, tail: Seq<A>, x: A)
    requires
        first_index(head, x) == head.len(),
    ensures
        first_index(head + tail, x) == head.len() + first_index(tail, x),
{
    let n = first_index(tail, x);
    let all = head + tail;
    lemma_first_index(head, x, head.len() as int);
    lemma_first_index(tail, x, n);
    assert forall|j: int| 0 <= j < head.len() + n implies all[j] != x by {
        if j >= head.len() {
            assert(all[j] == tail[j - head.len()]);
        }
    }
    if n < tail.len() {
        assert(all[head.len() + n] == tail[n]);
    }
    lemma_first_index(all, x, head.len() + n);
}

/// The text before the first space is encoded by the bytes before the first
/// space byte: cutting the characters and cutting the bytes give the same
/// word.
pub proof fn lemma_word_bytes(s: Seq<char>)
    ensures
        encode_utf8(s.take(first_index(s, ' '))) == encode_utf8(s).take(
            first_index(encode_utf8(s), SPACE),
        ),
    decreases s.len(),
{
    if s.len() > 0 && s[0] == ' ' {
        assert(encode_scalar(' ' as u32) =~= seq![SPACE]) by {
            assert((0x20u32 & 0x7F) as u8 == 0x20) by (bit_vector);
        }
    } else if s.len() > 0 {
        let head = encode_scalar(s[0] as u32);
        let rest = s.drop_first();
        let tail = encode_utf8(rest);
        let n = first_index(rest, ' ');
        let m = first_index(tail, SPACE);
        lemma_word_bytes(rest);
        lemma_no_space_byte(s[0]);
        lemma_first_index_after(head, tail, SPACE);
        lemma_first_index(rest, ' ', n);
        lemma_first_index(tail, SPACE, m);
        let word = s.take(1 + n);
        assert(word.drop_first() =~= rest.take(n));
        assert(encode_utf8(word) == head + tail.take(m));
        assert(head + tail.take(m) =~= (head + tail).take(head.len() + m));
    }
}

/// The longer of `x` and `y` by length in bytes; `y` where they are equally
/// long.
pub fn str_longest<'a>(x: &'a str, y: &'a str) -> (r: &'a str)
    ensures
        r == if x.spec_bytes().len() > y.spec_bytes().len() { x } else { y },
{
    if x.as_bytes().len() > y.as_bytes().len() {
        x
    } else {
        y
    }
}

/// Two runs of [`str_longest`] on one pair of strings return the same string.
pub proof fn lemma_str_longest_is_deterministic(x: &str, y: &str, first: &str, second: &str)
    requires
        call_ensures(str_longest, (x, y), first),
        call_ensures(str_longest, (x, y), second),
    ensures
        first == second,
{
}

/// The text of `s` before its first space; all of `s` where it has none.
///
/// The scan reads bytes and cuts at the first space byte. That cut never
/// falls inside a character, and the text before it is the text before the
/// first space character.
pub fn first_word(s: &str) -> (r: &str)
    ensures
        r@ == s@.take(first_index(s@, ' ')),
        r.spec_bytes() == s.spec_bytes().take(first_index(s.spec_bytes(), SPACE)),
{
    let bytes = s.as_bytes();
    let mut i: usize = 0;
    while i < bytes.len()
        invariant
            bytes@ == s.spec_bytes(),
            i <= bytes@.len(),
            forall|j: int| 0 <= j < i ==> bytes@[j] != SPACE,
        decreases bytes@.len() - i,
    {
        if bytes[i] == SPACE {
            proof {
                lemma_first_index(bytes@, SPACE, i as int);
                encode_utf8_valid_utf8(s@);
                is_char_boundary_iff_is_leading_byte(bytes@, i as int);
            }
            let (word, _) = s.split_at(i);
            proof {
                lemma_word_bytes(s@);
                encode_utf8_decode_utf8(word@);
                encode_utf8_decode_utf8(s@.take(first_index(s@, ' ')));
            }
            return word;
        }
        i += 1;
    }
    proof {
        lemma_first_index(bytes@, SPACE, bytes@.len() as int);
        lemma_word_bytes(s@);
        assert(bytes@.take(bytes@.len() as int) =~= bytes@);
        encode_utf8_decode_utf8(s@);
        encode_utf8_decode_utf8(s@.take(first_index(s@, ' ')));
    }
    s
}

/// Two runs of [`first_word`] on one string return the same text.
pub proof fn lemma_first_word_is_deterministic(s: &str, first: &str, second: &str)
    requires
        call_ensures(first_word, (s,), first),
        call_ensures(first_word, (s,), second),
    ensures
        first@ == second@,
        first.spec_bytes() == second.spec_bytes(),
{
}

} // verus!
