//! Escaping of parameter values as RFC 6868 defines it: `^^` for `^`, `^n`
//! (or `^N`) for a line break and `^'` for a double quote.
use crate::text::{
    lemma_char_code, lemma_utf8_ascii_char, lemma_utf8_concat, lemma_utf8_cons, lemma_utf8_non_ascii_char,
    lemma_utf8_single,    string_of_valid, utf8, APOSTROPHE, CARET, CR, DQUOTE, LF, LOWER_N, UPPER_N,
};
use vstd::prelude::*;
use vstd::utf8::*;

verus! {

broadcast use vstd::utf8::group_utf8_lib;

/// The escaped form of a parameter value: `^` becomes `^^`, each of CRLF, CR
/// and LF becomes `^n`, and `"` becomes `^'`.
pub open spec fn escape_chars(s: Seq<char>) -> Seq<char>
    decreases s.len(),
{
    if s.len() == 0 {
        seq![]
    } else if s[0] == '^' {
        seq!['^', '^'] + escape_chars(s.drop_first())
    } else if s[0] == '\r' && s.len() > 1 && s[1] == '\n' {
        seq!['^', 'n'] + escape_chars(s.subrange(2, s.len() as int))
    } else if s[0] == '\r' || s[0] == '\n' {
        seq!['^', 'n'] + escape_chars(s.drop_first())
    } else if s[0] == '"' {
        seq!['^', '\''] + escape_chars(s.drop_first())
    } else {
        seq![s[0]] + escape_chars(s.drop_first())
    }
}

/// The decoded form of an escaped parameter value, read left to right:
/// `^^` gives `^`, `^n` and `^N` give LF, `^'` gives `"`, and any other `^`
/// stays as it is.
pub open spec fn unescape_chars(s: Seq<char>) -> Seq<char>
    decreases s.len(),
{
    if s.len() == 0 {
        seq![]
    } else if s[0] == '^' && s.len() > 1 && s[1] == '^' {
        seq!['^'] + unescape_chars(s.subrange(2, s.len() as int))
    } else if s[0] == '^' && s.len() > 1 && (s[1] == 'n' || s[1] == 'N') {
        seq!['\n'] + unescape_chars(s.subrange(2, s.len() as int))
    } else if s[0] == '^' && s.len() > 1 && s[1] == '\'' {
        seq!['"'] + unescape_chars(s.subrange(2, s.len() as int))
    } else {
        seq![s[0]] + unescape_chars(s.drop_first())
    }
}

/// `escape_chars` on the UTF-8 bytes of a value.
pub open spec fn escape_bytes(s: Seq<u8>) -> Seq<u8>
    decreases s.len(),
{
    if s.len() == 0 {
        seq![]
    } else if s[0] == CARET {
        seq![CARET, CARET] + escape_bytes(s.drop_first())
    } else if s[0] == CR && s.len() > 1 && s[1] == LF {
        seq![CARET, LOWER_N] + escape_bytes(s.subrange(2, s.len() as int))
    } else if s[0] == CR || s[0] == LF {
        seq![CARET, LOWER_N] + escape_bytes(s.drop_first())
    } else if s[0] == DQUOTE {
        seq![CARET, APOSTROPHE] + escape_bytes(s.drop_first())
    } else {
        seq![s[0]] + escape_bytes(s.drop_first())
    }
}

/// `unescape_chars` on the UTF-8 bytes of a value.
pub open spec fn unescape_bytes(s: Seq<u8>) -> Seq<u8>
    decreases s.len(),
{
    if s.len() == 0 {
        seq![]
    } else if s[0] == CARET && s.len() > 1 && s[1] == CARET {
        seq![CARET] + unescape_bytes(s.subrange(2, s.len() as int))
    } else if s[0] == CARET && s.len() > 1 && (s[1] == LOWER_N || s[1] == UPPER_N) {
        seq![LF] + unescape_bytes(s.subrange(2, s.len() as int))
    } else if s[0] == CARET && s.len() > 1 && s[1] == APOSTROPHE {
        seq![DQUOTE] + unescape_bytes(s.subrange(2, s.len() as int))
    } else {
        seq![s[0]] + unescape_bytes(s.drop_first())
    }
}

/// The first byte of an encoding tells whether the first character is ASCII.
proof fn lemma_utf8_head(s: Seq<char>)
    requires
        s.len() > 0,
    ensures
        utf8(s).len() > 0,
        (s[0] as u32) < 0x80 ==> utf8(s)[0] == (s[0] as u32) as u8 && utf8(s).drop_first() == utf8(
            s.drop_first(),
        ),
        (s[0] as u32) >= 0x80 ==> utf8(s)[0] >= 0x80,
{
    lemma_utf8_cons(s);
    if (s[0] as u32) < 0x80 {
        lemma_utf8_ascii_char(s[0]);
        assert(utf8(s).drop_first() =~= utf8(s.drop_first()));
    } else {
        lemma_utf8_non_ascii_char(s[0]);
    }
}

/// Bytes with the high bit set pass through escaping unchanged.
proof fn lemma_escape_bytes_high_prefix(p: Seq<u8>, e: Seq<u8>)
    requires
        forall|i: int| 0 <= i < p.len() ==> #[trigger] p[i] >= 0x80,
    ensures
        escape_bytes(p + e) == p + escape_bytes(e),
    decreases p.len(),
{
    if p.len() == 0 {
        assert(p + e =~= e);
        assert(p + escape_bytes(e) =~= escape_bytes(e));
    } else {
        assert((p + e)[0] == p[0]);
        assert((p + e).drop_first() =~= p.drop_first() + e);
        lemma_escape_bytes_high_prefix(p.drop_first(), e);
        assert(escape_bytes(p + e) =~= p + escape_bytes(e));
    }
}

/// Bytes with the high bit set pass through unescaping unchanged.
proof fn lemma_unescape_bytes_high_prefix(p: Seq<u8>, e: Seq<u8>)
    requires
        forall|i: int| 0 <= i < p.len() ==> #[trigger] p[i] >= 0x80,
    ensures
        unescape_bytes(p + e) == p + unescape_bytes(e),
    decreases p.len(),
{
    if p.len() == 0 {
        assert(p + e =~= e);
        assert(p + unescape_bytes(e) =~= unescape_bytes(e));
    } else {
        assert((p + e)[0] == p[0]);
        assert((p + e).drop_first() =~= p.drop_first() + e);
        lemma_unescape_bytes_high_prefix(p.drop_first(), e);
        assert(unescape_bytes(p + e) =~= p + unescape_bytes(e));
    }
}

/// Two ASCII characters encode as their two bytes.
proof fn lemma_utf8_pair(a: char, b: char)
    requires
        (a as u32) < 0x80,
        (b as u32) < 0x80,
    ensures
        utf8(seq![a, b]) == seq![(a as u32) as u8, (b as u32) as u8],
{
    lemma_utf8_ascii_char(a);
    lemma_utf8_ascii_char(b);
    assert(seq![a, b] =~= seq![a] + seq![b]);
    lemma_utf8_concat(seq![a], seq![b]);
}

/// Escaping the bytes of a text gives the bytes of the escaped text.
pub proof fn lemma_escape_utf8(s: Seq<char>)
    ensures
        utf8(escape_chars(s)) == escape_bytes(utf8(s)),
    decreases s.len(),
{
    if s.len() == 0 {
        assert(utf8(s) =~= Seq::<u8>::empty());
        assert(escape_chars(s) =~= Seq::<char>::empty());
    } else {
        let b = utf8(s);
        let rest = s.drop_first();
        lemma_utf8_head(s);
        lemma_escape_utf8(rest);
        if (s[0] as u32) >= 0x80 {
            lemma_utf8_cons(s);
            lemma_utf8_non_ascii_char(s[0]);
            lemma_escape_bytes_high_prefix(encode_scalar(s[0] as u32), utf8(rest));
            lemma_utf8_concat(seq![s[0]], escape_chars(rest));
            lemma_utf8_single(s[0]);
            assert(s[0] != '^' && s[0] != '\r' && s[0] != '\n' && s[0] != '"');
            assert(escape_chars(s) == seq![s[0]] + escape_chars(rest));
            assert(escape_bytes(b) == encode_scalar(s[0] as u32) + escape_bytes(utf8(rest)));
        } else {
            assert(b == seq![b[0]] + b.drop_first());
            if s[0] == '\r' && s.len() > 1 && s[1] == '\n' {
                let rest2 = s.subrange(2, s.len() as int);
                lemma_utf8_head(rest);
                assert(rest.drop_first() =~= rest2);
                lemma_escape_utf8(rest2);
                assert(b.subrange(2, b.len() as int) =~= utf8(rest2));
                lemma_utf8_pair('^', 'n');
                lemma_utf8_concat(seq!['^', 'n'], escape_chars(rest2));
                assert(b[0] == CR);
                assert(b[1] == LF);
                assert(escape_chars(s) == seq!['^', 'n'] + escape_chars(rest2));
                assert(utf8(escape_chars(s)) == escape_bytes(utf8(s)));
            } else if s[0] == '\r' && rest.len() > 0 {
                lemma_utf8_head(rest);
                lemma_utf8_pair('^', 'n');
                lemma_utf8_concat(seq!['^', 'n'], escape_chars(rest));
                assert(b[0] == CR);
                assert(b[1] != LF);
                assert(utf8(escape_chars(s)) == escape_bytes(utf8(s)));
            } else if s[0] == '^' || s[0] == '\r' || s[0] == '\n' || s[0] == '"' {
                lemma_utf8_pair('^', 'n');
                lemma_utf8_pair('^', '^');
                lemma_utf8_pair('^', '\'');
                lemma_utf8_concat(seq!['^', 'n'], escape_chars(rest));
                lemma_utf8_concat(seq!['^', '^'], escape_chars(rest));
                lemma_utf8_concat(seq!['^', '\''], escape_chars(rest));
                assert(utf8(escape_chars(s)) == escape_bytes(utf8(s)));
            } else {
                lemma_utf8_ascii_char(s[0]);
                lemma_utf8_concat(seq![s[0]], escape_chars(rest));
                lemma_char_code(s[0], '^');
                lemma_char_code(s[0], '\r');
                lemma_char_code(s[0], '\n');
                lemma_char_code(s[0], '"');
                assert(b[0] != CARET && b[0] != CR && b[0] != LF && b[0] != DQUOTE);
                assert(escape_bytes(b) == seq![b[0]] + escape_bytes(utf8(rest)));
                assert(utf8(escape_chars(s)) == escape_bytes(utf8(s)));
            }
        }
    }
}

/// Unescaping the bytes of a text gives the bytes of the unescaped text.
pub proof fn lemma_unescape_utf8(s: Seq<char>)
    ensures
        utf8(unescape_chars(s)) == unescape_bytes(utf8(s)),
    decreases s.len(),
{
    if s.len() == 0 {
        assert(utf8(s) =~= Seq::<u8>::empty());
        assert(unescape_chars(s) =~= Seq::<char>::empty());
    } else {
        let b = utf8(s);
        let rest = s.drop_first();
        lemma_utf8_head(s);
        lemma_unescape_utf8(rest);
        if (s[0] as u32) >= 0x80 {
            lemma_utf8_cons(s);
            lemma_utf8_non_ascii_char(s[0]);
            lemma_unescape_bytes_high_prefix(encode_scalar(s[0] as u32), utf8(rest));
            lemma_utf8_concat(seq![s[0]], unescape_chars(rest));
            lemma_utf8_single(s[0]);
            assert(s[0] != '^');
            assert(unescape_chars(s) == seq![s[0]] + unescape_chars(rest));
            assert(unescape_bytes(b) == encode_scalar(s[0] as u32) + unescape_bytes(utf8(rest)));
        } else {
            assert(b == seq![b[0]] + b.drop_first());
            if s[0] == '^' && rest.len() > 0 {
                lemma_utf8_head(rest);
                let rest2 = s.subrange(2, s.len() as int);
                assert(rest.drop_first() =~= rest2);
                lemma_unescape_utf8(rest2);
                if (rest[0] as u32) < 0x80 {
                    assert(b.subrange(2, b.len() as int) =~= utf8(rest2));
                }
                lemma_utf8_ascii_char('^');
                lemma_utf8_ascii_char('\n');
                lemma_utf8_ascii_char('"');
                lemma_utf8_concat(seq!['^'], unescape_chars(rest2));
                lemma_utf8_concat(seq!['\n'], unescape_chars(rest2));
                lemma_utf8_concat(seq!['"'], unescape_chars(rest2));
                lemma_utf8_concat(seq!['^'], unescape_chars(rest));
                lemma_char_code(rest[0], '^');
                lemma_char_code(rest[0], 'n');
                lemma_char_code(rest[0], 'N');
                lemma_char_code(rest[0], '\'');
                assert(b[0] == CARET);
                if (rest[0] as u32) < 0x80 {
                    assert(b[1] as u32 == rest[0] as u32);
                } else {
                    assert(b[1] >= 0x80);
                }
                assert(utf8(unescape_chars(s)) == unescape_bytes(utf8(s)));
            } else {
                lemma_utf8_ascii_char(s[0]);
                lemma_utf8_concat(seq![s[0]], unescape_chars(rest));
                lemma_char_code(s[0], '^');
                assert(unescape_bytes(b) == seq![b[0]] + unescape_bytes(utf8(rest)));
            }
        }
    }
}

/// Unescaping undoes escaping for every text without a carriage return
/// (escaping folds CRLF and CR into the same `^n` as LF).
pub proof fn lemma_unescape_escape(s: Seq<char>)
    requires
        !s.contains('\r'),
    ensures
        unescape_chars(escape_chars(s)) == s,
    decreases s.len(),
{
    if s.len() > 0 {
        let rest = s.drop_first();
        assert(!rest.contains('\r')) by {
            if rest.contains('\r') {
                let k = choose|k: int| 0 <= k < rest.len() && rest[k] == '\r';
                assert(s[k + 1] == '\r');
            }
        }
        assert(s[0] != '\r');
        lemma_unescape_escape(rest);
        let e = escape_chars(s);
        let er = escape_chars(rest);
        if s[0] == '^' || s[0] == '\n' || s[0] == '"' {
            assert(e.subrange(2, e.len() as int) =~= er);
        } else {
            assert(e.drop_first() =~= er);
        }
        assert(unescape_chars(e) =~= s);
    } else {
        assert(escape_chars(s) =~= Seq::<char>::empty());
    }
}

/// Decodes the RFC 6868 escapes of a parameter value.
pub fn unescape_param_value(escaped: &str) -> (r: String)
    ensures
        r@ == unescape_chars(escaped@),
{
    let b = escaped.as_bytes();
    let n = b.len();
    let mut out: Vec<u8> = Vec::new();
    let mut i: usize = 0;
    assert(b@.subrange(0, n as int) =~= b@);
    while i < n
        invariant
            n == b@.len(),
            i <= n,
            out@ + unescape_bytes(b@.subrange(i as int, n as int)) == unescape_bytes(b@),
        decreases n - i,
    {
        let ghost rest = b@.subrange(i as int, n as int);
        let c = b[i];
        if c == CARET && i + 1 < n && (b[i + 1] == CARET || b[i + 1] == LOWER_N || b[i + 1] == UPPER_N
            || b[i + 1] == APOSTROPHE) {
            let d = b[i + 1];
            if d == CARET {
                out.push(CARET);
            } else if d == APOSTROPHE {
                out.push(DQUOTE);
            } else {
                out.push(LF);
            }
            assert(rest.subrange(2, rest.len() as int) =~= b@.subrange(i + 2, n as int));
            i = i + 2;
        } else {
            out.push(c);
            assert(rest.drop_first() =~= b@.subrange(i + 1, n as int));
            i = i + 1;
        }
        assert(out@ + unescape_bytes(b@.subrange(i as int, n as int)) =~= unescape_bytes(b@));
    }
    proof {
        assert(b@.subrange(n as int, n as int) =~= Seq::<u8>::empty());
        assert(out@ =~= unescape_bytes(b@));
        lemma_unescape_utf8(escaped@);
    }
    string_of_valid(out)
}

/// Applies the RFC 6868 escapes to a parameter value.
pub fn escape_param_value(unescaped: &str) -> (r: String)
    ensures
        r@ == escape_chars(unescaped@),
{
    let b = unescaped.as_bytes();
    let n = b.len();
    let mut out: Vec<u8> = Vec::new();
    let mut i: usize = 0;
    assert(b@.subrange(0, n as int) =~= b@);
    while i < n
        invariant
            n == b@.len(),
            i <= n,
            out@ + escape_bytes(b@.subrange(i as int, n as int)) == escape_bytes(b@),
        decreases n - i,
    {
        let ghost rest = b@.subrange(i as int, n as int);
        let c = b[i];
        if c == CR && i + 1 < n && b[i + 1] == LF {
            out.push(CARET);
            out.push(LOWER_N);
            assert(rest.subrange(2, rest.len() as int) =~= b@.subrange(i + 2, n as int));
            i = i + 2;
        } else {
            if c == CARET {
                out.push(CARET);
                out.push(CARET);
            } else if c == CR || c == LF {
                out.push(CARET);
                out.push(LOWER_N);
            } else if c == DQUOTE {
                out.push(CARET);
                out.push(APOSTROPHE);
            } else {
                out.push(c);
            }
            assert(rest.drop_first() =~= b@.subrange(i + 1, n as int));
            i = i + 1;
        }
        assert(out@ + escape_bytes(b@.subrange(i as int, n as int)) =~= escape_bytes(b@));
    }
    proof {
        assert(b@.subrange(n as int, n as int) =~= Seq::<u8>::empty());
        assert(out@ =~= escape_bytes(b@));
        lemma_escape_utf8(unescaped@);
    }
    string_of_valid(out)
}

} // verus!
