//! Byte-level helpers shared by the codec: UTF-8 facts, byte appends and the
//! conversion of a byte vector into a `String`.
use std::string::FromUtf8Error;
use vstd::prelude::*;
use vstd::utf8::*;
use vstd::std_specs::iter::IteratorSpec;

verus! {

broadcast use vstd::utf8::group_utf8_lib;

/// std's error of `String::from_utf8`, kept inside decoding errors.
#[verifier::external_type_specification]
#[verifier::external_body]
pub struct ExFromUtf8Error(FromUtf8Error);

pub const CR: u8 = 0x0d;
pub const LF: u8 = 0x0a;
pub const SPACE: u8 = 0x20;
pub const HTAB: u8 = 0x09;
pub const CARET: u8 = 0x5e;
pub const DQUOTE: u8 = 0x22;
pub const APOSTROPHE: u8 = 0x27;
pub const LOWER_N: u8 = 0x6e;
pub const UPPER_N: u8 = 0x4e;

/// The UTF-8 bytes of a character sequence.
pub open spec fn utf8(s: Seq<char>) -> Seq<u8> {
    encode_utf8(s)
}

/// Relies on `String::from_utf8`: it succeeds exactly on valid UTF-8 and then
/// holds the characters that the bytes encode.
#[verifier::external_body]
pub(crate) fn string_from_utf8(v: Vec<u8>) -> (r: Result<String, FromUtf8Error>)
    ensures
        r is Ok <==> valid_utf8(v@),
        r matches Ok(s) ==> s@ == decode_utf8(v@),
{
    String::from_utf8(v)
}

/// Turns bytes that are known to be valid UTF-8 into a `String`.
pub(crate) fn string_of_valid(v: Vec<u8>) -> (r: String)
    requires
        valid_utf8(v@),
    ensures
        utf8(r@) == v@,
        r@ == decode_utf8(v@),
{
    let ghost b = v@;
    match string_from_utf8(v) {
        Ok(s) => {
            proof {
                decode_utf8_encode_utf8(b);
            }
            s
        },
        Err(_) => String::new(),
    }
}

/// Appends the bytes of `b` to `out`.
pub(crate) fn push_bytes(out: &mut Vec<u8>, b: &[u8])
    ensures
        final(out)@ == old(out)@ + b@,
{
    let n = b.len();
    let mut i: usize = 0;
    while i < n
        invariant
            n == b@.len(),
            i <= n,
            out@ == old(out)@ + b@.subrange(0, i as int),
        decreases n - i,
    {
        out.push(b[i]);
        i = i + 1;
        assert(out@ =~= old(out)@ + b@.subrange(0, i as int));
    }
    assert(b@.subrange(0, n as int) =~= b@);
}

/// Appends the UTF-8 bytes of `s` to `out`.
pub(crate) fn push_str(out: &mut Vec<u8>, s: &str)
    ensures
        final(out)@ == old(out)@ + utf8(s@),
{
    push_bytes(out, s.as_bytes());
}

/// Characters are equal exactly when their codes are.
pub proof fn lemma_char_code(a: char, b: char)
    ensures
        (a as u32 == b as u32) == (a == b),
{
    char_u32_cast(a, a as u32);
    char_u32_cast(b, b as u32);
}

/// The UTF-8 encoding of an ASCII character is that character's byte.
pub proof fn lemma_utf8_ascii_char(c: char)
    requires
        (c as u32) < 0x80,
    ensures
        encode_scalar(c as u32) == seq![(c as u32) as u8],
        utf8(seq![c]) == seq![(c as u32) as u8],
        ((c as u32) as u8) as u32 == c as u32,
{
    let v = c as u32;
    assert((v & 0x7F) as u8 == v as u8) by (bit_vector)
        requires
            v < 0x80,
    ;
    lemma_utf8_single(c);
}

/// Every byte of the encoding of a non-ASCII character has its high bit set.
pub proof fn lemma_utf8_non_ascii_char(c: char)
    requires
        (c as u32) >= 0x80,
    ensures
        forall|i: int|
            0 <= i < encode_scalar(c as u32).len() ==> #[trigger] encode_scalar(c as u32)[i]
                >= 0x80,
        encode_scalar(c as u32).len() >= 2,
{
    let v = c as u32;
    assert(0x80 | ((v & 0x3F) as u8) >= 0x80) by (bit_vector);
    assert(0x80 | (((v >> 6) & 0x3F) as u8) >= 0x80) by (bit_vector);
    assert(0x80 | (((v >> 12) & 0x3F) as u8) >= 0x80) by (bit_vector);
    assert(0xC0 | (((v >> 6) & 0x1F) as u8) >= 0x80) by (bit_vector);
    assert(0xE0 | (((v >> 12) & 0x0F) as u8) >= 0x80) by (bit_vector);
    assert(0xF0 | (((v >> 18) & 0x7) as u8) >= 0x80) by (bit_vector);
}

/// The encoding of a sequence splits at the first character.
pub proof fn lemma_utf8_cons(s: Seq<char>)
    requires
        s.len() > 0,
    ensures
        utf8(s) == encode_scalar(s[0] as u32) + utf8(s.drop_first()),
{
}

/// A single character encodes as its scalar encoding.
pub proof fn lemma_utf8_single(c: char)
    ensures
        utf8(seq![c]) == encode_scalar(c as u32),
{
    lemma_utf8_cons(seq![c]);
    assert(seq![c].drop_first() =~= Seq::<char>::empty());
    assert(utf8(Seq::<char>::empty()) =~= Seq::<u8>::empty());
    assert(utf8(seq![c]) =~= encode_scalar(c as u32));
}

/// Encoding distributes over concatenation.
pub proof fn lemma_utf8_concat(a: Seq<char>, b: Seq<char>)
    ensures
        utf8(a + b) == utf8(a) + utf8(b),
    decreases a.len(),
{
    if a.len() == 0 {
        assert(a + b =~= b);
        assert(utf8(a) =~= Seq::<u8>::empty());
        assert(utf8(a) + utf8(b) =~= utf8(b));
    } else {
        assert((a + b).drop_first() =~= a.drop_first() + b);
        lemma_utf8_concat(a.drop_first(), b);
        assert(utf8(a + b) =~= utf8(a) + utf8(b));
    }
}

/// A sequence of ASCII bytes is valid UTF-8.
pub proof fn lemma_ascii_valid(b: Seq<u8>)
    requires
        forall|i: int| 0 <= i < b.len() ==> #[trigger] b[i] < 0x80,
    ensures
        valid_utf8(b),
        decode_utf8(b).len() == b.len(),
    decreases b.len(),
{
    if b.len() > 0 {
        assert(is_leading_byte_width_1(b[0]));
        assert(pop_first_scalar(b) =~= b.drop_first());
        lemma_ascii_valid(b.drop_first());
    }
}

/// The characters of `s`.
pub(crate) fn chars_of(s: &str) -> (r: Vec<char>)
    ensures
        r@ == s@,
{
    let mut out: Vec<char> = Vec::new();
    let n = s.unicode_len();
    let mut i: usize = 0;
    let mut it = s.chars();
    proof {
        vstd::string::axiom_spec_iter(s);
    }
    assert(it.remaining() == s@);
    while i < n
        invariant
            n == s@.len(),
            i <= n,
            out@ == s@.subrange(0, i as int),
            it.remaining() == s@.subrange(i as int, n as int),
            it.obeys_prophetic_iter_laws(),
        decreases n - i,
    {
        let ghost before = it;
        let c = it.next();
        proof {
            vstd::string::next_postcondition(&before, &it, c);
        }
        match c {
            Some(c) => {
                out.push(c);
            },
            None => {
                return out;
            },
        }
        i = i + 1;
        assert(out@ =~= s@.subrange(0, i as int));
        assert(it.remaining() =~= s@.subrange(i as int, n as int));
    }
    assert(out@ =~= s@);
    out
}

/// The byte offset of the character at index `i` of `l`.
pub open spec fn boff(l: Seq<char>, i: int) -> int {
    utf8(l.subrange(0, i)).len() as int
}

/// The number of UTF-8 bytes of `c`.
pub(crate) fn char_width(c: char) -> (r: usize)
    ensures
        r == encode_scalar(c as u32).len(),
        1 <= r <= 4,
        r == 1 <==> (c as u32) < 0x80,
{
    proof {
        char_is_scalar(c);
    }
    let v = c as u32;
    if v < 0x80 {
        1
    } else if v < 0x800 {
        2
    } else if v < 0x10000 {
        3
    } else {
        4
    }
}

/// Byte offsets grow by the width of each character.
pub proof fn lemma_boff_step(l: Seq<char>, i: int)
    requires
        0 <= i < l.len(),
    ensures
        boff(l, i + 1) == boff(l, i) + encode_scalar(l[i] as u32).len(),
{
    assert(l.subrange(0, i + 1) =~= l.subrange(0, i) + seq![l[i]]);
    lemma_utf8_concat(l.subrange(0, i), seq![l[i]]);
    lemma_utf8_single(l[i]);
}

/// A byte offset lies within the encoding of the whole sequence.
pub proof fn lemma_boff_bound(l: Seq<char>, i: int)
    requires
        0 <= i <= l.len(),
    ensures
        0 <= boff(l, i) <= utf8(l).len(),
        boff(l, 0) == 0,
        boff(l, l.len() as int) == utf8(l).len(),
{
    assert(l =~= l.subrange(0, i) + l.subrange(i, l.len() as int));
    lemma_utf8_concat(l.subrange(0, i), l.subrange(i, l.len() as int));
    assert(l.subrange(0, 0) =~= Seq::<char>::empty());
    assert(utf8(Seq::<char>::empty()) =~= Seq::<u8>::empty());
    assert(l.subrange(0, l.len() as int) =~= l);
}

/// ASCII upper case of one character.
pub open spec fn upper_char(c: char) -> char {
    if 'a' <= c && c <= 'z' {
        ((c as u32) - 32) as char
    } else {
        c
    }
}

/// ASCII upper case of a text; other characters stay as they are.
pub open spec fn ascii_upper(s: Seq<char>) -> Seq<char> {
    s.map_values(|c: char| upper_char(c))
}

/// ASCII upper case of one byte.
pub open spec fn upper_byte(b: u8) -> u8 {
    if 0x61 <= b && b <= 0x7a {
        (b - 0x20) as u8
    } else {
        b
    }
}

/// Upper-casing the bytes of a text gives the bytes of the upper-cased text.
pub proof fn lemma_upper_utf8(s: Seq<char>)
    ensures
        utf8(ascii_upper(s)) == utf8(s).map_values(|b: u8| upper_byte(b)),
    decreases s.len(),
{
    if s.len() == 0 {
        assert(ascii_upper(s) =~= Seq::<char>::empty());
        assert(utf8(s).map_values(|b: u8| upper_byte(b)) =~= Seq::<u8>::empty());
    } else {
        let c = s[0];
        let rest = s.drop_first();
        lemma_upper_utf8(rest);
        assert(ascii_upper(s) =~= seq![upper_char(c)] + ascii_upper(rest));
        lemma_utf8_concat(seq![upper_char(c)], ascii_upper(rest));
        lemma_utf8_cons(s);
        lemma_utf8_single(upper_char(c));
        let es = encode_scalar(c as u32);
        if (c as u32) < 0x80 {
            lemma_utf8_ascii_char(c);
            if 'a' <= c && c <= 'z' {
                let u = ((c as u32) - 32) as char;
                char_u32_cast(u, ((c as u32) - 32) as u32);
                lemma_utf8_ascii_char(u);
                assert(upper_byte((c as u32) as u8) == (u as u32) as u8);
            } else {
                assert(upper_byte((c as u32) as u8) == (c as u32) as u8);
            }
        } else {
            lemma_utf8_non_ascii_char(c);
            assert(upper_char(c) == c);
            assert(es.map_values(|b: u8| upper_byte(b)) =~= es);
        }
        assert(utf8(s).map_values(|b: u8| upper_byte(b)) =~= es.map_values(|b: u8| upper_byte(b))
            + utf8(rest).map_values(|b: u8| upper_byte(b)));
        assert(utf8(ascii_upper(s)) =~= utf8(s).map_values(|b: u8| upper_byte(b)));
    }
}

/// The ASCII upper case of `s`: `a`-`z` become `A`-`Z`, every other
/// character stays. On the name alphabet this is the full upper case.
pub fn to_upper(s: &str) -> (r: String)
    ensures
        r@ == ascii_upper(s@),
{
    let b = s.as_bytes();
    let n = b.len();
    let mut out: Vec<u8> = Vec::new();
    let mut i: usize = 0;
    while i < n
        invariant
            n == b@.len(),
            i <= n,
            out@ == b@.subrange(0, i as int).map_values(|x: u8| upper_byte(x)),
        decreases n - i,
    {
        let x = b[i];
        let y = if 0x61 <= x && x <= 0x7a {
            x - 0x20
        } else {
            x
        };
        out.push(y);
        i = i + 1;
        assert(out@ =~= b@.subrange(0, i as int).map_values(|x: u8| upper_byte(x)));
    }
    proof {
        assert(b@.subrange(0, n as int) =~= b@);
        lemma_upper_utf8(s@);
    }
    string_of_valid(out)
}

/// A copy of a byte vector.
pub(crate) fn bytes_copy(b: &Vec<u8>) -> (r: Vec<u8>)
    ensures
        r@ == b@,
{
    let mut r: Vec<u8> = Vec::new();
    push_bytes(&mut r, b.as_slice());
    assert(r@ =~= b@);
    r
}

/// Appends the UTF-8 encoding of `c` to `out`.
pub(crate) fn push_char(out: &mut Vec<u8>, c: char)
    ensures
        final(out)@ == old(out)@ + utf8(seq![c]),
{
    proof {
        char_is_scalar(c);
        lemma_utf8_single(c);
    }
    let v = c as u32;
    if v <= 0x7F {
        out.push((v & 0x7F) as u8);
    } else if v <= 0x7FF {
        out.push(0xC0 | ((v >> 6) & 0x1F) as u8);
        out.push(0x80 | (v & 0x3F) as u8);
    } else if v <= 0xFFFF {
        out.push(0xE0 | ((v >> 12) & 0x0F) as u8);
        out.push(0x80 | ((v >> 6) & 0x3F) as u8);
        out.push(0x80 | (v & 0x3F) as u8);
    } else {
        out.push(0xF0 | ((v >> 18) & 0x7) as u8);
        out.push(0x80 | ((v >> 12) & 0x3F) as u8);
        out.push(0x80 | ((v >> 6) & 0x3F) as u8);
        out.push(0x80 | (v & 0x3F) as u8);
    }
    assert(out@ =~= old(out)@ + encode_scalar(v));
}

/// Upper-casing keeps a name character a name character.
pub proof fn lemma_upper_name_char(c: char)
    requires
        ('A' <= c && c <= 'Z') || ('a' <= c && c <= 'z') || ('0' <= c && c <= '9') || c == '-',
    ensures
        ({
            let u = upper_char(c);
            ('A' <= u && u <= 'Z') || ('a' <= u && u <= 'z') || ('0' <= u && u <= '9') || u == '-'
        }),
{
    if 'a' <= c && c <= 'z' {
        let v = ((c as u32) - 32) as u32;
        char_u32_cast(upper_char(c), v);
        assert(('A' as u32) <= v <= ('Z' as u32));
        char_u32_cast('A', 'A' as u32);
        char_u32_cast('Z', 'Z' as u32);
    }
}

/// A text without LF and CR encodes to bytes without LF and CR.
pub proof fn lemma_utf8_no_newline(s: Seq<char>)
    requires
        forall|i: int| 0 <= i < s.len() ==> #[trigger] s[i] != '\n' && s[i] != '\r',
    ensures
        forall|j: int| 0 <= j < utf8(s).len() ==> #[trigger] utf8(s)[j] != LF && utf8(s)[j] != CR,
    decreases s.len(),
{
    if s.len() > 0 {
        let c = s[0];
        let rest = s.drop_first();
        assert forall|i: int| 0 <= i < rest.len() implies #[trigger] rest[i] != '\n' && rest[i]
            != '\r' by {
            assert(rest[i] == s[i + 1]);
        }
        lemma_utf8_no_newline(rest);
        lemma_utf8_cons(s);
        let es = encode_scalar(c as u32);
        if (c as u32) < 0x80 {
            lemma_utf8_ascii_char(c);
            lemma_char_code(c, '\n');
            lemma_char_code(c, '\r');
        } else {
            lemma_utf8_non_ascii_char(c);
        }
        assert forall|j: int| 0 <= j < utf8(s).len() implies #[trigger] utf8(s)[j] != LF && utf8(
            s,
        )[j] != CR by {
            if j < es.len() {
                assert(utf8(s)[j] == es[j]);
            } else {
                assert(utf8(s)[j] == utf8(rest)[j - es.len()]);
            }
        }
    }
}

/// A name character encodes as one byte that is neither SP nor HTAB.
pub proof fn lemma_utf8_ascii_char_of_name(c: char)
    requires
        ('A' <= c && c <= 'Z') || ('a' <= c && c <= 'z') || ('0' <= c && c <= '9') || c == '-',
    ensures
        encode_scalar(c as u32).len() == 1,
        encode_scalar(c as u32)[0] != SPACE,
        encode_scalar(c as u32)[0] != HTAB,
{
    char_u32_cast(c, c as u32);
    char_u32_cast('A', 'A' as u32);
    char_u32_cast('z', 'z' as u32);
    assert((c as u32) < 0x80);
    lemma_utf8_ascii_char(c);
    lemma_char_code(c, ' ');
    lemma_char_code(c, '\t');
}

/// Upper-casing twice is upper-casing once.
pub proof fn lemma_upper_idem(s: Seq<char>)
    ensures
        ascii_upper(ascii_upper(s)) == ascii_upper(s),
{
    assert forall|i: int| 0 <= i < s.len() implies upper_char(upper_char(#[trigger] s[i]))
        == upper_char(s[i]) by {
        let c = s[i];
        if 'a' <= c && c <= 'z' {
            let v = ((c as u32) - 32) as u32;
            char_u32_cast(upper_char(c), v);
            char_u32_cast('a', 'a' as u32);
        }
    }
    assert(ascii_upper(ascii_upper(s)) =~= ascii_upper(s));
}

} // verus!
