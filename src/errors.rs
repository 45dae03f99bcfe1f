//! The errors of decoding.
use crate::line_lexer::Item;
use crate::text::{push_bytes, push_str, string_from_utf8, utf8};
use vstd::prelude::*;
use vstd::utf8::{decode_utf8, is_char_boundary, valid_utf8};

verus! {

broadcast use vstd::utf8::group_utf8_lib;

/// Why decoding stopped.
#[derive(Debug)]
pub enum Error {
    /// The lexer or the parser rejected a line: the message (empty when the
    /// lexer's own message is in the second field), the offending text, its
    /// byte offset in the logical line, and the line with its number.
    Malformed(String, String, usize, (String, u32)),
    /// A raw line did not end in CRLF: its bytes, the line number, and whether
    /// another line follows.
    CRLF(Vec<u8>, u32, bool),
    /// The input ended inside a component: its name and the line number.
    UnexpectedEOF(String, u32),
    /// A logical line was not valid UTF-8: its bytes.
    Utf8(Vec<u8>),
}

/// An error as the specification sees it.
pub enum ErrorView {
    Malformed(Seq<char>, Seq<char>, int, Seq<char>, u32),
    Crlf(Seq<u8>, u32, bool),
    Eof(Seq<char>, u32),
    Utf8(Seq<u8>),
}

impl Error {
    pub open spec fn view(&self) -> ErrorView {
        match self {
            Error::Malformed(msg, val, pos, line) => ErrorView::Malformed(
                msg@,
                val@,
                *pos as int,
                line.0@,
                line.1,
            ),
            Error::CRLF(b, n, more) => ErrorView::Crlf(b@, *n, *more),
            Error::UnexpectedEOF(name, n) => ErrorView::Eof(name@, *n),
            Error::Utf8(b) => ErrorView::Utf8(b@),
        }
    }

    /// A malformed-input error about item `i` of `line`.
    pub fn new(i: Item, msg: String, line: (String, u32)) -> (r: Error)
        ensures
            r@ == ErrorView::Malformed(msg@, i.val@, i.pos as int, line.0@, line.1),
    {
        Error::Malformed(msg, i.val, i.pos, line)
    }

    /// A line without CR before its LF.
    pub fn crlf_error(bytes: Vec<u8>, linenum: u32, has_next: bool) -> (r: Error)
        ensures
            r@ == ErrorView::Crlf(bytes@, linenum, has_next),
    {
        Error::CRLF(bytes, linenum, has_next)
    }

    /// The input ended inside component `msg`.
    pub fn eof_error(msg: String, l: u32) -> (r: Error)
        ensures
            r@ == ErrorView::Eof(msg@, l),
    {
        Error::UnexpectedEOF(msg, l)
    }
}

/// How many bytes of context a message shows on each side.
pub const ERROR_CONTEXT_RADIUS: usize = 20;

/// The decimal digits of `n`.
pub open spec fn dec(n: nat) -> Seq<u8>
    decreases n,
{
    if n < 10 {
        seq![(0x30 + n) as u8]
    } else {
        dec(n / 10) + seq![(0x30 + n % 10) as u8]
    }
}

fn push_dec(out: &mut Vec<u8>, n: u32)
    ensures
        final(out)@ == old(out)@ + dec(n as nat),
    decreases n,
{
    if n >= 10 {
        push_dec(out, n / 10);
    }
    out.push((0x30 + n % 10) as u8);
}

/// The smallest character boundary at or after `i`.
pub open spec fn up_boundary(c: Seq<u8>, i: int) -> int
    decreases c.len() - i,
{
    if i >= c.len() {
        c.len() as int
    } else if i <= 0 || is_char_boundary(c, i) {
        if i <= 0 {
            0
        } else {
            i
        }
    } else {
        up_boundary(c, i + 1)
    }
}

/// The largest character boundary at or before `i`.
pub open spec fn down_boundary(c: Seq<u8>, i: int) -> int
    decreases i,
{
    if i <= 0 {
        0
    } else if i >= c.len() {
        c.len() as int
    } else if is_char_boundary(c, i) {
        i
    } else {
        down_boundary(c, i - 1)
    }
}

/// The width that the leading byte `b` announces.
pub open spec fn lead_width(b: u8) -> int {
    if b < 0x80 {
        1
    } else if b < 0xE0 {
        2
    } else if b < 0xF0 {
        3
    } else {
        4
    }
}

pub open spec fn min(a: int, b: int) -> int {
    if a < b {
        a
    } else {
        b
    }
}

/// The start of the pointed-at octets, moved down to a character boundary.
pub open spec fn win_start(c: Seq<u8>, at_start: int) -> int {
    down_boundary(c, min(at_start, c.len() as int))
}

/// The end of the pointed-at octets, moved up to a character boundary.
pub open spec fn win_end(c: Seq<u8>, q1: int, at_end: int) -> int {
    up_boundary(c, if at_end < q1 {
        q1
    } else {
        min(at_end, c.len() as int)
    })
}

/// Up to 20 bytes before `q1`, with `...` in front when cut.
pub open spec fn prefix_of(c: Seq<u8>, q1: int) -> Seq<u8> {
    if q1 > 20 {
        seq![0x2e, 0x2e, 0x2e] + c.subrange(up_boundary(c, q1 - 20), q1)
    } else {
        c.subrange(0, q1)
    }
}

/// The text from `q1` up to 20 bytes past `q2`, with `...` after it when cut.
pub open spec fn suffix_of(c: Seq<u8>, q1: int, q2: int) -> Seq<u8> {
    if c.len() > 20 + q2 {
        c.subrange(q1, down_boundary(c, q2 + 20)) + seq![0x2e, 0x2e, 0x2e]
    } else if q1 < c.len() {
        c.subrange(q1, c.len() as int)
    } else {
        seq![]
    }
}

/// A one-line diagnostic for line `no` with text `c`, pointing at the
/// octets `at_start..at_end`: `line N: <TAB>msg: ` and up to 20 bytes of context on
/// each side, `...` where it is cut, the octets themselves between `>` and
/// `<`, or `<HERE>` at the end of the line. Cuts move to the nearest
/// character boundary inside the window.
pub open spec fn render(no: u32, msg: Seq<u8>, c: Seq<u8>, at_start: int, at_end: int) -> Seq<u8> {
    let q1 = win_start(c, at_start);
    let q2 = win_end(c, q1, at_end);
    let prefix = prefix_of(c, q1);
    let suffix = suffix_of(c, q1, q2);
    let k = min(q2 - q1, suffix.len() as int);
    let head = utf8("line "@) + dec(no as nat) + utf8(": \t"@) + msg + utf8(": "@) + prefix;
    if suffix.len() == 0 {
        head + utf8("<HERE>\n"@)
    } else if suffix.len() == 1 {
        head + utf8(" >"@) + suffix.subrange(0, k) + utf8("<\n"@)
    } else {
        head + utf8(" >"@) + suffix.subrange(0, k) + utf8("< "@) + suffix.subrange(
            k,
            suffix.len() as int,
        ) + utf8("\n"@)
    }
}

/// The message of an error as bytes; `None` for an error whose text comes
/// from the UTF-8 decoder.
pub open spec fn error_text(e: ErrorView) -> Option<Seq<u8>> {
    match e {
        ErrorView::Malformed(msg, val, pos, line, no) => {
            let c = utf8(line);
            if msg.len() == 0 {
                let x = if 0 <= pos < c.len() {
                    lead_width(c[pos])
                } else {
                    0
                };
                Some(render(no, utf8(val), c, pos, min(pos + x, c.len() as int)))
            } else {
                Some(render(no, utf8(msg), c, pos, min(pos + utf8(val).len(), c.len() as int)))
            }
        },
        ErrorView::Crlf(b, no, _) => {
            if b.len() == 0 {
                Some(
                    utf8("line "@) + dec(no as nat) + utf8(
                        ": expected CR ('\\r') before LF in empty line"@,
                    ),
                )
            } else if valid_utf8(b) {
                Some(
                    render(
                        no,
                        utf8("expected CR ('\\r') before LF"@),
                        b,
                        b.len() as int,
                        b.len() as int,
                    ),
                )
            } else {
                None
            }
        },
        ErrorView::Eof(name, no) => Some(
            utf8("line "@) + dec(no as nat) + utf8(
                ": Unexpected end of file or stream, expected END:"@,
            ) + utf8(name),
        ),
        ErrorView::Utf8(_) => None,
    }
}

fn lead_width_of(b: u8) -> (r: usize)
    ensures
        r == lead_width(b),
{
    if b < 0x80 {
        1
    } else if b < 0xE0 {
        2
    } else if b < 0xF0 {
        3
    } else {
        4
    }
}

fn up_boundary_of(c: &str, i: usize) -> (r: usize)
    ensures
        r == up_boundary(utf8(c@), i as int),
{
    let n = c.as_bytes().len();
    let mut j = i;
    if j == 0 {
        return 0;
    }
    while j < n && !c.is_char_boundary(j)
        invariant
            n == utf8(c@).len(),
            0 < j,
            up_boundary(utf8(c@), i as int) == up_boundary(utf8(c@), j as int),
        decreases n - j,
    {
        j = j + 1;
    }
    if j >= n {
        n
    } else {
        j
    }
}

fn down_boundary_of(c: &str, i: usize) -> (r: usize)
    ensures
        r == down_boundary(utf8(c@), i as int),
{
    let n = c.as_bytes().len();
    if i >= n {
        return if i == 0 {
            0
        } else {
            n
        };
    }
    let mut j = i;
    while j > 0 && !c.is_char_boundary(j)
        invariant
            n == utf8(c@).len(),
            j < n,
            down_boundary(utf8(c@), i as int) == down_boundary(utf8(c@), j as int),
        decreases j,
    {
        j = j - 1;
    }
    j
}

fn push_range(out: &mut Vec<u8>, b: &[u8], from: usize, to: usize)
    requires
        from <= to <= b@.len(),
    ensures
        final(out)@ == old(out)@ + b@.subrange(from as int, to as int),
{
    let mut i = from;
    while i < to
        invariant
            from <= i <= to <= b@.len(),
            out@ == old(out)@ + b@.subrange(from as int, i as int),
        decreases to - i,
    {
        out.push(b[i]);
        i = i + 1;
        assert(out@ =~= old(out)@ + b@.subrange(from as int, i as int));
    }
}

proof fn lemma_down_props(c: Seq<u8>, i: int)
    requires
        0 <= i <= c.len(),
    ensures
        0 <= down_boundary(c, i) <= i,
        down_boundary(c, i) == 0 || down_boundary(c, i) == c.len() || is_char_boundary(
            c,
            down_boundary(c, i),
        ),
    decreases i,
{
    if i > 0 && i < c.len() && !is_char_boundary(c, i) {
        lemma_down_props(c, i - 1);
    }
}

proof fn lemma_down_ge(c: Seq<u8>, i: int, k: int)
    requires
        0 <= k <= i < c.len(),
        k == 0 || is_char_boundary(c, k),
    ensures
        k <= down_boundary(c, i),
    decreases i,
{
    if i > 0 && !is_char_boundary(c, i) && i > k {
        lemma_down_ge(c, i - 1, k);
    }
}

proof fn lemma_up_props(c: Seq<u8>, i: int)
    requires
        0 <= i <= c.len(),
    ensures
        i <= up_boundary(c, i) <= c.len(),
        up_boundary(c, i) == 0 || up_boundary(c, i) == c.len() || is_char_boundary(
            c,
            up_boundary(c, i),
        ),
    decreases c.len() - i,
{
    if i < c.len() && i > 0 && !is_char_boundary(c, i) {
        lemma_up_props(c, i + 1);
    }
}

proof fn lemma_up_le(c: Seq<u8>, i: int, k: int)
    requires
        0 <= i <= k <= c.len(),
        k == c.len() || is_char_boundary(c, k),
    ensures
        up_boundary(c, i) <= k,
    decreases c.len() - i,
{
    if i < c.len() && i > 0 && !is_char_boundary(c, i) && i < k {
        lemma_up_le(c, i + 1, k);
    }
}

fn window(ctx: &str, at_start: usize, at_end: usize) -> (r: (usize, usize))
    ensures
        r.0 == win_start(utf8(ctx@), at_start as int),
        r.1 == win_end(utf8(ctx@), r.0 as int, at_end as int),
        r.0 <= r.1 <= utf8(ctx@).len(),
        r.0 == 0 || r.0 == utf8(ctx@).len() || is_char_boundary(utf8(ctx@), r.0 as int),
        r.1 == 0 || r.1 == utf8(ctx@).len() || is_char_boundary(utf8(ctx@), r.1 as int),
{
    let len = ctx.as_bytes().len();
    let ghost cs = utf8(ctx@);
    let lo = if at_start < len {
        at_start
    } else {
        len
    };
    let q1 = down_boundary_of(ctx, lo);
    proof {
        lemma_down_props(cs, lo as int);
    }
    let hi = if at_end < q1 {
        q1
    } else if at_end < len {
        at_end
    } else {
        len
    };
    let q2 = up_boundary_of(ctx, hi);
    proof {
        lemma_up_props(cs, hi as int);
    }
    (q1, q2)
}

fn prefix_bytes(ctx: &str, q1: usize) -> (r: Vec<u8>)
    requires
        q1 <= utf8(ctx@).len(),
        q1 == 0 || q1 == utf8(ctx@).len() || is_char_boundary(utf8(ctx@), q1 as int),
    ensures
        r@ == prefix_of(utf8(ctx@), q1 as int),
{
    let c = ctx.as_bytes();
    let ghost cs = utf8(ctx@);
    let mut prefix: Vec<u8> = Vec::new();
    if q1 > ERROR_CONTEXT_RADIUS {
        let a = up_boundary_of(ctx, q1 - ERROR_CONTEXT_RADIUS);
        proof {
            lemma_up_props(cs, q1 - 20);
            lemma_up_le(cs, q1 - 20, q1 as int);
        }
        prefix.push(0x2e);
        prefix.push(0x2e);
        prefix.push(0x2e);
        push_range(&mut prefix, c, a, q1);
        assert(prefix@ =~= prefix_of(cs, q1 as int));
    } else {
        push_range(&mut prefix, c, 0, q1);
        assert(prefix@ =~= prefix_of(cs, q1 as int));
    }
    prefix
}

fn suffix_bytes(ctx: &str, q1: usize, q2: usize) -> (r: Vec<u8>)
    requires
        q1 <= q2 <= utf8(ctx@).len(),
        q2 == 0 || q2 == utf8(ctx@).len() || is_char_boundary(utf8(ctx@), q2 as int),
    ensures
        r@ == suffix_of(utf8(ctx@), q1 as int, q2 as int),
{
    let c = ctx.as_bytes();
    let len = c.len();
    let ghost cs = utf8(ctx@);
    let mut suffix: Vec<u8> = Vec::new();
    if len > ERROR_CONTEXT_RADIUS && q2 < len - ERROR_CONTEXT_RADIUS {
        let z = down_boundary_of(ctx, q2 + ERROR_CONTEXT_RADIUS);
        proof {
            lemma_down_props(cs, q2 + 20);
            lemma_down_ge(cs, q2 + 20, q2 as int);
        }
        push_range(&mut suffix, c, q1, z);
        suffix.push(0x2e);
        suffix.push(0x2e);
        suffix.push(0x2e);
        assert(suffix@ =~= suffix_of(cs, q1 as int, q2 as int));
    } else if q1 < len {
        push_range(&mut suffix, c, q1, len);
        assert(suffix@ =~= suffix_of(cs, q1 as int, q2 as int));
    } else {
        assert(suffix@ =~= suffix_of(cs, q1 as int, q2 as int));
    }
    suffix
}

/// Builds `render(no, msg, ctx, at_start, at_end)`.
#[verifier::rlimit(40)]
fn render_into(out: &mut Vec<u8>, no: u32, msg: &[u8], ctx: &str, at_start: usize, at_end: usize)
    ensures
        final(out)@ == old(out)@ + render(no, msg@, utf8(ctx@), at_start as int, at_end as int),
{
    let (q1, q2) = window(ctx, at_start, at_end);
    let prefix = prefix_bytes(ctx, q1);
    let suffix = suffix_bytes(ctx, q1, q2);
    let k = if q2 - q1 < suffix.len() {
        q2 - q1
    } else {
        suffix.len()
    };
    let ghost before = out@;
    push_str(out, "line ");
    push_dec(out, no);
    push_str(out, ": \t");
    push_bytes(out, msg);
    push_str(out, ": ");
    push_bytes(out, prefix.as_slice());
    let ghost head = utf8("line "@) + dec(no as nat) + utf8(": \t"@) + msg@ + utf8(": "@)
        + prefix@;
    assert(out@ =~= before + head);
    if suffix.len() == 0 {
        push_str(out, "<HERE>\n");
        assert(out@ =~= before + (head + utf8("<HERE>\n"@)));
    } else if suffix.len() == 1 {
        push_str(out, " >");
        push_range(out, suffix.as_slice(), 0, k);
        push_str(out, "<\n");
        assert(out@ =~= before + (head + utf8(" >"@) + suffix@.subrange(0, k as int) + utf8(
            "<\n"@,
        )));
    } else {
        push_str(out, " >");
        push_range(out, suffix.as_slice(), 0, k);
        push_str(out, "< ");
        push_range(out, suffix.as_slice(), k, suffix.len());
        push_str(out, "\n");
        assert(out@ =~= before + (head + utf8(" >"@) + suffix@.subrange(0, k as int) + utf8(
            "< "@,
        ) + suffix@.subrange(k as int, suffix@.len() as int) + utf8("\n"@)));
    }
    assert(out@ =~= before + render(no, msg@, utf8(ctx@), at_start as int, at_end as int));
}

/// The message that std's UTF-8 decoder gives for the bytes `b`.
pub uninterp spec fn utf8_error_message(b: Seq<u8>) -> Seq<char>;

/// Relies on `String::from_utf8`: for bytes that are not valid UTF-8 it
/// fails, and the `Display` of its error is the decoder's message, which
/// depends on the bytes alone.
#[verifier::external_body]
fn utf8_error_text(b: &Vec<u8>) -> (r: String)
    ensures
        !valid_utf8(b@) ==> r@ == utf8_error_message(b@),
{
    match String::from_utf8(b.clone()) {
        Err(e) => e.to_string(),
        Ok(_) => String::new(),
    }
}

impl Error {
    /// The one-line diagnostic of this error.
    pub fn message(&self) -> (r: String)
        ensures
            error_text(self@) matches Some(t) ==> r@ == decode_utf8(t),
            self@ matches ErrorView::Utf8(b) ==> (!valid_utf8(b) ==> r@ == utf8_error_message(b)),
            self@ matches ErrorView::Crlf(b, _, _) ==> (!valid_utf8(b) ==> r@ == utf8_error_message(
                b,
            )),
    {
        proof {
            lemma_error_text_valid(self@);
        }
        let mut out: Vec<u8> = Vec::new();
        match self {
            Error::Utf8(b) => {
                return utf8_error_text(b);
            },
            Error::UnexpectedEOF(name, no) => {
                push_str(&mut out, "line ");
                push_dec(&mut out, *no);
                push_str(&mut out, ": Unexpected end of file or stream, expected END:");
                push_str(&mut out, name.as_str());
                assert(Some(out@) == error_text(self@));
            },
            Error::CRLF(b, no, _) => {
                if b.len() == 0 {
                    push_str(&mut out, "line ");
                    push_dec(&mut out, *no);
                    push_str(&mut out, ": expected CR ('\\r') before LF in empty line");
                    assert(Some(out@) == error_text(self@));
                } else {
                    let copy = crate::text::bytes_copy(b);
                    match string_from_utf8(copy) {
                        Err(_) => {
                            return utf8_error_text(b);
                        },
                        Ok(s) => {
                            proof {
                                vstd::utf8::decode_utf8_encode_utf8(b@);
                            }
                            let n = s.as_str().as_bytes().len();
                            let msg = "expected CR ('\\r') before LF".as_bytes();
                            render_into(&mut out, *no, msg, s.as_str(), n, n);
                            assert(Some(out@) == error_text(self@));
                        },
                    }
                }
            },
            Error::Malformed(msg, val, pos, line) => {
                let c = line.0.as_str().as_bytes();
                if msg.as_str().as_bytes().len() == 0 {
                    proof {
                        vstd::utf8::encode_utf8_decode_utf8(msg@);
                    }
                    let x: usize = if *pos < c.len() {
                        lead_width_of(c[*pos])
                    } else {
                        0
                    };
                    let at_end = if *pos >= c.len() || x > c.len() - *pos {
                        c.len()
                    } else {
                        *pos + x
                    };
                    assert(msg@.len() == 0);
                    render_into(&mut out, line.1, val.as_str().as_bytes(), line.0.as_str(), *pos, at_end);
                    assert(Some(out@) == error_text(self@));
                } else {
                    let vl = val.as_str().as_bytes().len();
                    let at_end = if *pos >= c.len() || vl > c.len() - *pos {
                        c.len()
                    } else {
                        *pos + vl
                    };
                    assert(msg@.len() != 0);
                    render_into(&mut out, line.1, msg.as_str().as_bytes(), line.0.as_str(), *pos, at_end);
                    assert(Some(out@) == error_text(self@));
                }
            },
        }
        let ghost t = out@;
        assert(error_text(self@) == Some(t));
        match string_from_utf8(out) {
            Ok(s) => s,
            Err(_) => String::new(),
        }
    }
}

proof fn lemma_dec_ascii(n: nat)
    ensures
        forall|i: int| 0 <= i < dec(n).len() ==> #[trigger] dec(n)[i] < 0x80,
    decreases n,
{
    if n >= 10 {
        lemma_dec_ascii(n / 10);
        let d = dec(n / 10);
        assert forall|i: int| 0 <= i < dec(n).len() implies #[trigger] dec(n)[i] < 0x80 by {
            if i < d.len() {
                assert(dec(n)[i] == d[i]);
            }
        }
    }
}

/// A piece of valid UTF-8 between two character boundaries is valid.
proof fn lemma_slice_valid(c: Seq<u8>, a: int, b: int)
    requires
        valid_utf8(c),
        0 <= a <= b <= c.len(),
        a == 0 || a == c.len() || is_char_boundary(c, a),
        b == 0 || b == c.len() || is_char_boundary(c, b),
    ensures
        valid_utf8(c.subrange(a, b)),
{
    vstd::utf8::is_char_boundary_start_end_of_seq(c);
    vstd::utf8::valid_utf8_split(c, b);
    let head = c.subrange(0, b);
    vstd::utf8::is_char_boundary_start_end_of_seq(head);
    if 0 < a < b {
        vstd::utf8::is_char_boundary_iff_not_is_continuation_byte(c, a);
        vstd::utf8::is_char_boundary_iff_not_is_continuation_byte(head, a);
        assert(head[a] == c[a]);
    }
    vstd::utf8::valid_utf8_split(head, a);
    assert(head.subrange(a, b) =~= c.subrange(a, b));
}

proof fn lemma_dots_valid()
    ensures
        valid_utf8(seq![0x2eu8, 0x2e, 0x2e]),
{
    crate::text::lemma_ascii_valid(seq![0x2eu8, 0x2e, 0x2e]);
}

/// Rendering valid text gives valid text.
proof fn lemma_render_valid(no: u32, msg: Seq<u8>, c: Seq<u8>, at_start: int, at_end: int)
    requires
        valid_utf8(msg),
        valid_utf8(c),
    ensures
        valid_utf8(render(no, msg, c, at_start, at_end)),
{
    let len = c.len() as int;
    let lo = min(at_start, len);
    let q1 = win_start(c, at_start);
    let m1c = if lo < 0 { 0 } else { lo };
    lemma_down_props(c, m1c);
    assert(q1 == down_boundary(c, m1c));
    let hi = if at_end < q1 {
        q1
    } else {
        min(at_end, len)
    };
    lemma_up_props(c, hi);
    let q2 = win_end(c, q1, at_end);
    let prefix = prefix_of(c, q1);
    let suffix = suffix_of(c, q1, q2);
    let k = min(q2 - q1, suffix.len() as int);
    lemma_dots_valid();
    if q1 > 20 {
        lemma_up_props(c, q1 - 20);
        lemma_up_le(c, q1 - 20, q1);
        lemma_slice_valid(c, up_boundary(c, q1 - 20), q1);
        vstd::utf8::valid_utf8_concat(seq![0x2eu8, 0x2e, 0x2e], c.subrange(up_boundary(c, q1 - 20), q1));
    } else {
        lemma_slice_valid(c, 0, q1);
    }
    let (s0, s1) = if len > 20 + q2 {
        let z = down_boundary(c, q2 + 20);
        lemma_down_props(c, q2 + 20);
        lemma_down_ge(c, q2 + 20, q2);
        lemma_slice_valid(c, q1, q2);
        lemma_slice_valid(c, q2, z);
        vstd::utf8::valid_utf8_concat(c.subrange(q2, z), seq![0x2eu8, 0x2e, 0x2e]);
        assert(suffix.subrange(0, k) =~= c.subrange(q1, q2));
        assert(suffix.subrange(k, suffix.len() as int) =~= c.subrange(q2, z) + seq![0x2eu8, 0x2e, 0x2e]);
        (c.subrange(q1, q2), c.subrange(q2, z) + seq![0x2eu8, 0x2e, 0x2e])
    } else if q1 < len {
        lemma_slice_valid(c, q1, q2);
        lemma_slice_valid(c, q2, len);
        assert(suffix.subrange(0, k) =~= c.subrange(q1, q2));
        assert(suffix.subrange(k, suffix.len() as int) =~= c.subrange(q2, len));
        (c.subrange(q1, q2), c.subrange(q2, len))
    } else {
        (Seq::<u8>::empty(), Seq::<u8>::empty())
    };
    crate::text::lemma_ascii_valid(Seq::<u8>::empty());
    lemma_dec_ascii(no as nat);
    crate::text::lemma_ascii_valid(dec(no as nat));
    let h0 = utf8("line "@);
    let h1 = h0 + dec(no as nat);
    let h2 = h1 + utf8(": \t"@);
    let h3 = h2 + msg;
    let h4 = h3 + utf8(": "@);
    let head = h4 + prefix;
    vstd::utf8::valid_utf8_concat(h0, dec(no as nat));
    vstd::utf8::valid_utf8_concat(h1, utf8(": \t"@));
    vstd::utf8::valid_utf8_concat(h2, msg);
    vstd::utf8::valid_utf8_concat(h3, utf8(": "@));
    vstd::utf8::valid_utf8_concat(h4, prefix);
    if suffix.len() == 0 {
        vstd::utf8::valid_utf8_concat(head, utf8("<HERE>\n"@));
    } else if suffix.len() == 1 {
        let a = head + utf8(" >"@);
        vstd::utf8::valid_utf8_concat(head, utf8(" >"@));
        vstd::utf8::valid_utf8_concat(a, s0);
        vstd::utf8::valid_utf8_concat(a + s0, utf8("<\n"@));
    } else {
        let a = head + utf8(" >"@);
        vstd::utf8::valid_utf8_concat(head, utf8(" >"@));
        vstd::utf8::valid_utf8_concat(a, s0);
        vstd::utf8::valid_utf8_concat(a + s0, utf8("< "@));
        vstd::utf8::valid_utf8_concat(a + s0 + utf8("< "@), s1);
        vstd::utf8::valid_utf8_concat(a + s0 + utf8("< "@) + s1, utf8("\n"@));
    }
}

/// Every message this library writes itself is valid UTF-8.
proof fn lemma_error_text_valid(e: ErrorView)
    ensures
        error_text(e) matches Some(t) ==> valid_utf8(t),
{
    match e {
        ErrorView::Malformed(msg, val, pos, line, no) => {
            let c = utf8(line);
            let x = if 0 <= pos < c.len() {
                lead_width(c[pos])
            } else {
                0
            };
            lemma_render_valid(no, utf8(val), c, pos, min(pos + x, c.len() as int));
            lemma_render_valid(no, utf8(msg), c, pos, min(pos + utf8(val).len(), c.len() as int));
        },
        ErrorView::Crlf(b, no, _) => {
            lemma_dec_ascii(no as nat);
            crate::text::lemma_ascii_valid(dec(no as nat));
            let h = utf8("line "@) + dec(no as nat);
            vstd::utf8::valid_utf8_concat(utf8("line "@), dec(no as nat));
            vstd::utf8::valid_utf8_concat(h, utf8(": expected CR ('\\r') before LF in empty line"@));
            if b.len() > 0 && valid_utf8(b) {
                lemma_render_valid(no, utf8("expected CR ('\\r') before LF"@), b, b.len() as int, b.len() as int);
            }
        },
        ErrorView::Eof(name, no) => {
            lemma_dec_ascii(no as nat);
            crate::text::lemma_ascii_valid(dec(no as nat));
            let h = utf8("line "@) + dec(no as nat);
            let w = utf8(": Unexpected end of file or stream, expected END:"@);
            vstd::utf8::valid_utf8_concat(utf8("line "@), dec(no as nat));
            vstd::utf8::valid_utf8_concat(h, w);
            vstd::utf8::valid_utf8_concat(h + w, utf8(name));
        },
        ErrorView::Utf8(_) => {},
    }
}

} // verus!
