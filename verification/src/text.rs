//! Reading a `&str` one ASCII character at a time, through its UTF-8 bytes.

use vstd::prelude::*;
use vstd::utf8::*;

verus! {

/// Whether the character is in the ASCII range.
pub open spec fn is_ascii_char(c: char) -> bool {
    (c as u32) < 0x80
}

/// The single byte of an ASCII character is the character; the first byte
/// of any longer encoding is not in the ASCII range.
proof fn lemma_leading_byte(c: u32)
    by (bit_vector)
    ensures
        c <= 0x7f ==> leading_byte_width_1(c) == c as u8,
        leading_byte_width_2(c) >= 0x80u8,
        leading_byte_width_3(c) >= 0x80u8,
        leading_byte_width_4(c) >= 0x80u8,
{
}

/// The first byte of a text's encoding tells whether its first character is
/// ASCII, and is that character if so; the encoding of the rest follows it.
pub proof fn lemma_first_byte(s: Seq<char>)
    requires
        s.len() > 0,
    ensures
        encode_utf8(s).len() > 0,
        is_ascii_char(s[0]) <==> encode_utf8(s)[0] < 0x80,
        is_ascii_char(s[0]) ==> encode_utf8(s)[0] as char == s[0] && encode_utf8(s).skip(1)
            == encode_utf8(s.drop_first()),
{
    let c = s[0] as u32;
    lemma_leading_byte(c);
    char_is_scalar(s[0]);
    if is_ascii_char(s[0]) {
        let b = encode_utf8(s)[0];
        assert(b == c as u8);
        assert(b as u32 == c);
        char_u32_cast(s[0], c);
        assert(encode_utf8(s).skip(1) =~= encode_utf8(s.drop_first()));
    }
}

/// A run of ASCII characters at the start of a text is encoded byte for
/// character, and ends on a character boundary.
pub proof fn lemma_ascii_prefix(s: Seq<char>, n: int)
    requires
        0 <= n <= s.len(),
        forall|i: int| 0 <= i < n ==> is_ascii_char(#[trigger] s[i]),
    ensures
        n <= encode_utf8(s).len(),
        encode_utf8(s).take(n) == encode_utf8(s.take(n)),
        encode_utf8(s).skip(n) == encode_utf8(s.skip(n)),
        is_char_boundary(encode_utf8(s), n),
    decreases n,
{
    broadcast use encode_utf8_valid_utf8;

    let bytes = encode_utf8(s);
    if n == 0 {
        assert(bytes.take(0) =~= encode_utf8(s.take(0)));
        assert(bytes.skip(0) =~= bytes);
        assert(s.skip(0) =~= s);
    } else {
        lemma_first_byte(s);
        let tail = s.drop_first();
        assert forall|i: int| 0 <= i < n - 1 implies is_ascii_char(#[trigger] tail[i]) by {
            assert(tail[i] == s[i + 1]);
        }
        lemma_ascii_prefix(tail, n - 1);
        let tail_bytes = encode_utf8(tail);
        assert(tail_bytes == bytes.skip(1));
        assert(bytes.skip(n) =~= tail_bytes.skip(n - 1));
        assert(s.skip(n) =~= tail.skip(n - 1));
        assert(s.take(n).drop_first() =~= tail.take(n - 1));
        assert(s.take(n)[0] == s[0]);
        lemma_first_byte(s.take(n));
        assert(bytes.take(n) =~= encode_utf8(s.take(n))) by {
            assert(encode_utf8(s.take(n)).skip(1) == tail_bytes.take(n - 1));
            assert(encode_utf8(s.take(n)) =~= seq![encode_utf8(s.take(n))[0]] + encode_utf8(
                s.take(n),
            ).skip(1));
            assert(bytes.take(n) =~= seq![bytes[0]] + bytes.skip(1).take(n - 1));
        }
        assert(pop_first_scalar(bytes) =~= tail_bytes);
        assert(length_of_first_scalar(bytes) == 1);
    }
}

/// The number of bytes that the text takes.
pub fn encoded_len(s: &str) -> (n: usize)
    ensures
        n == encode_utf8(s@).len(),
{
    s.as_bytes().len()
}

/// The first character of `s`, if there is one and it is ASCII.
pub fn first_ascii(s: &str) -> (c: Option<char>)
    ensures
        match c {
            Some(ch) => s@.len() > 0 && s@[0] == ch && is_ascii_char(ch),
            None => s@.len() == 0 || !is_ascii_char(s@[0]),
        },
{
    let bytes = s.as_bytes();
    proof {
        if s@.len() > 0 {
            lemma_first_byte(s@);
        }
    }
    if bytes.len() == 0 {
        None
    } else {
        let b = bytes[0];
        if b < 0x80 {
            Some(b as char)
        } else {
            None
        }
    }
}

/// The text without its first `n` characters, which are all ASCII.
pub(crate) fn skip_ascii<'a>(s: &'a str, n: usize) -> (r: &'a str)
    requires
        n <= s@.len(),
        forall|i: int| 0 <= i < n ==> is_ascii_char(#[trigger] s@[i]),
    ensures
        r@ == s@.skip(n as int),
{
    broadcast use encode_utf8_decode_utf8;

    proof {
        lemma_ascii_prefix(s@, n as int);
    }
    let (_, r) = s.split_at(n);
    proof {
        assert(encode_utf8(r@) == encode_utf8(s@.skip(n as int)));
        assert(decode_utf8(encode_utf8(r@)) == r@);
    }
    r
}

/// The first `n` characters of the text, which are all ASCII.
pub(crate) fn take_ascii<'a>(s: &'a str, n: usize) -> (r: &'a str)
    requires
        n <= s@.len(),
        forall|i: int| 0 <= i < n ==> is_ascii_char(#[trigger] s@[i]),
    ensures
        r@ == s@.take(n as int),
{
    broadcast use encode_utf8_decode_utf8;

    proof {
        lemma_ascii_prefix(s@, n as int);
    }
    let (r, _) = s.split_at(n);
    proof {
        assert(encode_utf8(r@) == encode_utf8(s@.take(n as int)));
        assert(decode_utf8(encode_utf8(r@)) == r@);
    }
    r
}

/// Whether two texts hold the same characters.
pub fn same_text(a: &str, b: &str) -> (r: bool)
    ensures
        r == (a@ == b@),
{
    broadcast use encode_utf8_decode_utf8;

    let x = a.as_bytes();
    let y = b.as_bytes();
    proof {
        assert(decode_utf8(encode_utf8(a@)) == a@);
        assert(decode_utf8(encode_utf8(b@)) == b@);
    }
    if x.len() != y.len() {
        return false;
    }
    let mut i: usize = 0;
    while i < x.len()
        invariant
            i <= x.len(),
            x.len() == y.len(),
            x@ == encode_utf8(a@),
            y@ == encode_utf8(b@),
            decode_utf8(encode_utf8(a@)) == a@,
            decode_utf8(encode_utf8(b@)) == b@,
            forall|j: int| 0 <= j < i ==> x@[j] == y@[j],
        decreases x.len() - i,
    {
        if x[i] != y[i] {
            return false;
        }
        i += 1;
    }
    assert(x@ =~= y@);
    true
}

} // verus!
