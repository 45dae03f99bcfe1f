//! Decoding: the line reader that splits and unfolds raw lines, and the parser
//! that builds component trees from the items of the line lexer.
use crate::errors::{Error, ErrorView};
use crate::encoder::{comp_bytes, comps_bytes, lemma_unfolded_prop_line, prop_line, props_bytes};
use crate::line_lexer::{
    control_char, item_ok, lemma_lex_begin_line, lemma_lex_end_line, lemma_lex_run_ok, lex_line, Item, ItemType,
    LexItem, LineLexer,
};
use crate::model::{
    comp_ok, entries_add, lemma_entries_add_names, name_ok, prop_ok, upper_name, Component, CompView, Parameters,
    PropView, Property,
};
use crate::rfc6868::{unescape_chars, unescape_param_value};
use crate::text::{
    ascii_upper, lemma_upper_name_char, lemma_utf8_concat, lemma_utf8_no_newline, utf8, string_from_utf8, to_upper, upper_char, CR, HTAB, LF, SPACE,
};
use vstd::prelude::*;
use vstd::utf8::{decode_utf8, valid_utf8};

verus! {

/// The end of the raw line that starts at `at`: the first LF at or after
/// `at`, or the end of the input.
pub open spec fn raw_end(b: Seq<u8>, at: int) -> int
    decreases b.len() - at,
{
    if 0 <= at < b.len() && b[at] != LF {
        raw_end(b, at + 1)
    } else {
        at
    }
}

/// What reading one logical line yields.
pub enum ReadView {
    /// No more input.
    Eof,
    /// A raw line without CR before LF: its bytes and whether more follows.
    Crlf(Seq<u8>, bool),
    /// An unfolded line, where the next line starts, and how many raw lines
    /// it took.
    Line(Seq<u8>, int, int),
}

/// Reads the logical line at byte `at`: one raw line without its CRLF, with
/// every following raw line that starts with SP or HTAB appended after
/// dropping that first byte. An empty raw line is allowed only as the very
/// last one, where it reads as the end of the input.
pub open spec fn read_unfolded(b: Seq<u8>, at: int) -> ReadView
    decreases b.len() - at,
{
    if !(0 <= at < b.len()) {
        ReadView::Eof
    } else {
        let e = raw_end(b, at);
        let nxt = if e < b.len() {
            e + 1
        } else {
            e
        };
        let more = nxt < b.len();
        let raw = b.subrange(at, e);
        if raw.len() == 0 {
            if more {
                ReadView::Crlf(raw, true)
            } else {
                ReadView::Eof
            }
        } else if raw.last() != CR {
            ReadView::Crlf(raw, more)
        } else if more && (b[nxt] == SPACE || b[nxt] == HTAB) && nxt > at {
            match read_unfolded(b, nxt) {
                ReadView::Line(c, n2, k) => ReadView::Line(raw.drop_last() + c.drop_first(), n2, k + 1),
                other => other,
            }
        } else {
            ReadView::Line(raw.drop_last(), nxt, 1)
        }
    }
}

/// One element of the decoded stream: an item with its logical line and line
/// number, or what ended the stream.
pub enum Tok {
    Item(LexItem, Seq<char>, u32),
    Crlf(Seq<u8>, u32, bool),
    BadUtf8(Seq<u8>),
    Eof(u32),
}

/// An item as the parser sees it: names in upper case, parameter values
/// unescaped.
pub open spec fn normalize(it: LexItem) -> LexItem {
    if it.0 == ItemType::CompName || it.0 == ItemType::Id {
        (it.0, it.1, ascii_upper(it.2))
    } else if it.0 == ItemType::ParamValue {
        (it.0, it.1, unescape_chars(it.2))
    } else {
        it
    }
}

pub open spec fn line_toks(items: Seq<LexItem>, text: Seq<char>, no: u32) -> Seq<Tok> {
    items.map_values(|it: LexItem| Tok::Item(normalize(it), text, no))
}

/// The stream that the input `b` decodes to from byte `at`, where the next
/// raw line has number `no`.
pub open spec fn stream(b: Seq<u8>, at: int, no: int) -> Seq<Tok>
    decreases b.len() - at,
{
    match read_unfolded(b, at) {
        ReadView::Eof => seq![Tok::Eof(no as u32)],
        ReadView::Crlf(x, more) => seq![Tok::Crlf(x, no as u32, more)],
        ReadView::Line(c, n2, k) => {
            if !valid_utf8(c) {
                seq![Tok::BadUtf8(c)]
            } else if at < n2 <= b.len() {
                line_toks(lex_line(decode_utf8(c)), decode_utf8(c), no as u32) + stream(
                    b,
                    n2,
                    no + k,
                )
            } else {
                seq![]
            }
        },
    }
}

/// The error that an element ends the parse with when it comes where the
/// grammar has no place for it.
pub open spec fn stray(t: Tok) -> ErrorView {
    match t {
        Tok::Item(it, text, no) => if it.0 == ItemType::Error {
            ErrorView::Malformed(seq![], it.2, it.1, text, no)
        } else {
            ErrorView::Malformed("unexpected item"@, it.2, it.1, text, no)
        },
        Tok::Crlf(x, no, more) => ErrorView::Crlf(x, no, more),
        Tok::BadUtf8(b) => ErrorView::Utf8(b),
        Tok::Eof(no) => ErrorView::Eof(seq![], no),
    }
}

pub open spec fn is_item(t: Tok, ty: ItemType) -> bool {
    t matches Tok::Item(it, _, _) && it.0 == ty
}

pub open spec fn item_of(t: Tok) -> LexItem {
    match t {
        Tok::Item(it, _, _) => it,
        _ => (ItemType::Error, 0, seq![]),
    }
}

pub type Parsed<T> = (Result<T, ErrorView>, Seq<Tok>);

/// The rest of a property line after its name: parameter names and values
/// up to the property value.
pub open spec fn parse_prop(t: Seq<Tok>, p: PropView, last: Option<Seq<char>>) -> Parsed<
    PropView,
>
    decreases t.len(),
{
    if t.len() == 0 {
        (Err(ErrorView::Eof(seq![], 0)), t)
    } else if is_item(t[0], ItemType::Id) {
        parse_prop(t.drop_first(), p, Some(item_of(t[0]).2))
    } else if is_item(t[0], ItemType::ParamValue) && last is Some {
        parse_prop(
            t.drop_first(),
            PropView { params: entries_add(p.params, last->0, item_of(t[0]).2), ..p },
            last,
        )
    } else if is_item(t[0], ItemType::PropValue) {
        (Ok(PropView { value: item_of(t[0]).2, ..p }), t.drop_first())
    } else {
        (Err(stray(t[0])), t)
    }
}

/// The end line of component `c`, after its `END`: the name must repeat.
pub open spec fn parse_end(t: Seq<Tok>, c: CompView) -> Parsed<CompView> {
    if t.len() == 0 {
        (Err(ErrorView::Eof(seq![], 0)), t)
    } else if let Tok::Item(it, text, no) = t[0] {
        if it.0 != ItemType::CompName {
            (Err(stray(t[0])), t)
        } else if it.2 == c.name {
            (Ok(c), t.drop_first())
        } else {
            (
                Err(
                    ErrorView::Malformed(
                        "expected \"END:"@ + c.name + "\""@,
                        it.2,
                        it.1,
                        text,
                        no,
                    ),
                ),
                t,
            )
        }
    } else {
        (Err(stray(t[0])), t)
    }
}

/// A component after its `BEGIN`: its name, then properties and nested
/// components up to its end line.
pub open spec fn parse_comp(t: Seq<Tok>) -> Parsed<CompView>
    decreases t.len(), 1int,
{
    if t.len() == 0 {
        (Err(ErrorView::Eof(seq![], 0)), t)
    } else if is_item(t[0], ItemType::CompName) {
        parse_body(t.drop_first(), CompView { name: item_of(t[0]).2, props: seq![], subs: seq![] })
    } else {
        (Err(stray(t[0])), t)
    }
}

/// The contents of component `c` so far, up to its end line.
pub open spec fn parse_body(t: Seq<Tok>, c: CompView) -> Parsed<CompView>
    decreases t.len(), 0int,
{
    if t.len() == 0 {
        (Err(ErrorView::Eof(c.name, 0)), t)
    } else {
        match t[0] {
            Tok::Eof(no) => (Err(ErrorView::Eof(c.name, no)), t),
            Tok::Item(it, text, no) => {
                if it.0 == ItemType::Begin {
                    let (r, rest) = parse_comp(t.drop_first());
                    match r {
                        Ok(sub) => if rest.len() < t.len() {
                            parse_body(rest, CompView { subs: c.subs.push(sub), ..c })
                        } else {
                            (Err(ErrorView::Eof(c.name, 0)), rest)
                        },
                        Err(e) => (Err(e), rest),
                    }
                } else if it.0 == ItemType::Id {
                    let p = PropView {
                        name: it.2,
                        value: seq![],
                        params: seq![],
                        old_line: Some((text, no)),
                    };
                    let (r, rest) = parse_prop(t.drop_first(), p, None);
                    match r {
                        Ok(prop) => if rest.len() < t.len() {
                            parse_body(rest, CompView { props: c.props.push(prop), ..c })
                        } else {
                            (Err(ErrorView::Eof(c.name, 0)), rest)
                        },
                        Err(e) => (Err(e), rest),
                    }
                } else if it.0 == ItemType::End {
                    parse_end(t.drop_first(), c)
                } else {
                    (Err(stray(t[0])), t)
                }
            },
            _ => (Err(stray(t[0])), t),
        }
    }
}

/// The next top-level component, or `None` at the end of the input.
pub open spec fn parse_next(t: Seq<Tok>) -> Parsed<Option<CompView>> {
    if t.len() == 0 {
        (Ok(None), t)
    } else {
        match t[0] {
            Tok::Eof(_) => (Ok(None), t),
            Tok::Item(it, text, no) => {
                if it.0 == ItemType::Begin {
                    let (r, rest) = parse_comp(t.drop_first());
                    match r {
                        Ok(c) => (Ok(Some(c)), rest),
                        Err(e) => (Err(e), rest),
                    }
                } else if it.0 == ItemType::End || it.0 == ItemType::Id {
                    (Err(ErrorView::Malformed("expected BEGIN"@, it.2, it.1, text, no)), t)
                } else {
                    (Err(stray(t[0])), t)
                }
            },
            _ => (Err(stray(t[0])), t),
        }
    }
}

/// A raw read of one logical line.
enum Raw {
    Eof,
    Crlf(Vec<u8>, bool),
    Line(Vec<u8>, usize, usize),
}

impl Raw {
    spec fn view(&self) -> ReadView {
        match self {
            Raw::Eof => ReadView::Eof,
            Raw::Crlf(x, more) => ReadView::Crlf(x@, *more),
            Raw::Line(c, n2, k) => ReadView::Line(c@, *n2 as int, *k as int),
        }
    }
}

fn raw_line_end(b: &Vec<u8>, at: usize) -> (r: usize)
    requires
        at <= b@.len(),
    ensures
        r == raw_end(b@, at as int),
        at <= r <= b@.len(),
{
    let mut e = at;
    while e < b.len() && b[e] != LF
        invariant
            at <= e <= b@.len(),
            raw_end(b@, at as int) == raw_end(b@, e as int),
        decreases b@.len() - e,
    {
        e = e + 1;
    }
    e
}

fn copy_range(b: &Vec<u8>, from: usize, to: usize) -> (r: Vec<u8>)
    requires
        from <= to <= b@.len(),
    ensures
        r@ == b@.subrange(from as int, to as int),
{
    let mut out: Vec<u8> = Vec::new();
    let mut i = from;
    while i < to
        invariant
            from <= i <= to <= b@.len(),
            out@ == b@.subrange(from as int, i as int),
        decreases to - i,
    {
        out.push(b[i]);
        i = i + 1;
        assert(out@ =~= b@.subrange(from as int, i as int));
    }
    out
}

/// Reads the logical line at `at`.
fn read_from(b: &Vec<u8>, at: usize) -> (r: Raw)
    requires
        at <= b@.len(),
    ensures
        r@ == read_unfolded(b@, at as int),
        r matches Raw::Line(_, n2, k) ==> at < n2 <= b@.len() && 1 <= k <= n2 - at,
    decreases b@.len() - at,
{
    if at >= b.len() {
        return Raw::Eof;
    }
    let e = raw_line_end(b, at);
    let nxt = if e < b.len() {
        e + 1
    } else {
        e
    };
    let more = nxt < b.len();
    if e == at {
        assert(b@.subrange(at as int, e as int).len() == 0);
        if more {
            let empty: Vec<u8> = Vec::new();
            assert(empty@ =~= b@.subrange(at as int, e as int));
            return Raw::Crlf(empty, true);
        } else {
            return Raw::Eof;
        }
    }
    if b[e - 1] != CR {
        let raw = copy_range(b, at, e);
        return Raw::Crlf(raw, more);
    }
    let mut line = copy_range(b, at, e - 1);
    assert(line@ =~= b@.subrange(at as int, e as int).drop_last());
    if more && (b[nxt] == SPACE || b[nxt] == HTAB) {
        match read_from(b, nxt) {
            Raw::Line(c, n2, k) => {
                let ghost before = line@;
                let mut i: usize = 1;
                while i < c.len()
                    invariant
                        1 <= i <= c@.len() || (c@.len() == 0 && i == 1),
                        line@ == before + c@.subrange(1, i as int),
                    decreases c@.len() - i,
                {
                    line.push(c[i]);
                    i = i + 1;
                    assert(line@ =~= before + c@.subrange(1, i as int));
                }
                proof {
                    if c@.len() > 0 {
                        assert(c@.subrange(1, c@.len() as int) =~= c@.drop_first());
                    } else {
                        assert(c@.subrange(1, 1) =~= c@.drop_first());
                    }
                }
                Raw::Line(line, n2, k + 1)
            },
            other => other,
        }
    } else {
        Raw::Line(line, nxt, 1)
    }
}

/// A decoder of content lines held in memory: it yields the top-level
/// components one by one.
pub struct Parser {
    input: Vec<u8>,
    rpos: usize,
    next_line: u32,
    line: (String, u32),
    lexer: Option<LineLexer>,
    failed: bool,
}

impl Parser {
    /// The elements still to come.
    pub closed spec fn toks(&self) -> Seq<Tok> {
        if self.failed {
            seq![]
        } else {
            let pending = match self.lexer {
                Some(lx) => line_toks(lx.items(), self.line.0@, self.line.1),
                None => seq![],
            };
            pending + stream(self.input@, self.rpos as int, self.next_line as int)
        }
    }

    /// The logical line read last, with its number.
    pub closed spec fn current_line(&self) -> (Seq<char>, u32) {
        (self.line.0@, self.line.1)
    }

    pub closed spec fn wf(&self) -> bool {
        &&& self.rpos <= self.input@.len()
        &&& self.input@.len() < u32::MAX
        &&& self.next_line <= self.rpos + 1
        &&& self.lexer matches Some(lx) ==> lx.wf() && lx.line.1 == self.line.1 && lx.text()
            == self.line.0@
    }

    /// The elements still to come satisfy `item_ok`.
    proof fn lemma_wf_toks_ok(&self)
        requires
            self.wf(),
        ensures
            toks_ok(self.toks()),
    {
        if !self.failed {
            lemma_stream_ok(self.input@, self.rpos as int, self.next_line as int);
            match self.lexer {
                Some(lx) => {
                    lemma_lex_run_ok(lx.chars@, lx.state, lx.pos as int);
                    lemma_line_toks_ok(lx.items(), self.line.0@, self.line.1);
                    lemma_toks_ok_concat(
                        line_toks(lx.items(), self.line.0@, self.line.1),
                        stream(self.input@, self.rpos as int, self.next_line as int),
                    );
                },
                None => {
                    assert(self.toks() =~= stream(
                        self.input@,
                        self.rpos as int,
                        self.next_line as int,
                    ));
                },
            }
        }
    }

    /// A parser over `input`.
    pub fn new(input: Vec<u8>) -> (r: Parser)
        requires
            input@.len() < u32::MAX,
        ensures
            r.wf(),
            r.toks() == stream(input@, 0, 1),
    {
        Parser {
            input,
            rpos: 0,
            next_line: 1,
            line: (String::new(), 0),
            lexer: None,
            failed: false,
        }
    }

    /// Reads the next logical line into a fresh lexer: `false` at the end
    /// of the input.
    fn load_line(&mut self) -> (r: Result<bool, Error>)
        requires
            old(self).wf(),
            !old(self).failed,
            old(self).lexer is None,
        ensures
            final(self).wf(),
            !final(self).failed,
            ({
                let t = old(self).toks();
                &&& r matches Ok(true) ==> final(self).toks() == t && final(self).lexer is Some
                    && final(self).rpos > old(self).rpos && final(self).input == old(self).input
                &&& r matches Ok(false) ==> t.len() > 0 && t[0] == Tok::Eof(final(self).line.1)
                    && final(self).toks() == t
                &&& r matches Err(e) ==> t.len() > 0 && e@ == stray(t[0]) && !(t[0] is Eof)
                    && !(t[0] is Item)
            }),
    {
        self.line.1 = self.next_line;
        match read_from(&self.input, self.rpos) {
            Raw::Eof => Ok(false),
            Raw::Crlf(x, more) => Err(Error::crlf_error(x, self.line.1, more)),
            Raw::Line(c, n2, k) => {
                self.rpos = n2;
                self.next_line = self.next_line + k as u32;
                let copy = crate::text::bytes_copy(&c);
                match string_from_utf8(c) {
                    Err(_) => Err(Error::Utf8(copy)),
                    Ok(s) => {
                        self.line.0 = s.clone();
                        self.lexer = Some(LineLexer::new(self.line.1, s));
                        Ok(true)
                    },
                }
            },
        }
    }

    /// The next item of the stream, with names upper-cased and parameter
    /// values unescaped; `None` at the end of the input.
    #[verifier::rlimit(40)]
    fn get_next_item(&mut self) -> (r: Result<Option<Item>, Error>)
        requires
            old(self).wf(),
            !old(self).failed,
        ensures
            final(self).wf(),
            !final(self).failed,
            ({
                let t = old(self).toks();
                &&& r matches Ok(None) ==> t.len() > 0 && t[0] == Tok::Eof(final(self).line.1)
                    && final(self).toks() == t
                &&& r matches Ok(Some(x)) ==> t.len() > 0 && t[0] == Tok::Item(
                    x@,
                    final(self).current_line().0,
                    final(self).current_line().1,
                ) && x@.0 != ItemType::Error && final(self).toks() == t.drop_first()
                &&& r matches Err(e) ==> t.len() > 0 && e@ == stray(t[0]) && !(t[0] is Eof)
                    && !(t[0] matches Tok::Item(it, _, _) && it.0 != ItemType::Error)
            }),
    {
        let ghost t0 = self.toks();
        loop
            invariant
                self.wf(),
                !self.failed,
                self.toks() == t0,
                t0 == old(self).toks(),
            decreases 2 * (self.input@.len() - self.rpos) + if self.lexer is Some {
                1int
            } else {
                0int
            },
        {
            if self.lexer.is_none() {
                if !self.load_line()? {
                    return Ok(None);
                }
            }
            let mut lx = match self.lexer.take() {
                Some(lx) => lx,
                None => {
                    return Ok(None);
                },
            };
            let ghost items = lx.items();
            match lx.next_item() {
                None => {
                    assert(self.toks() =~= t0);
                },
                Some(mut i) => {
                    assert(t0[0] == Tok::Item(normalize(items[0]), self.line.0@, self.line.1));
                    if i.typ == ItemType::Error {
                        return Err(Error::new(i, String::new(), (self.line.0.clone(), self.line.1)));
                    }
                    if i.typ == ItemType::CompName || i.typ == ItemType::Id {
                        i.val = to_upper(i.val.as_str());
                    } else if i.typ == ItemType::ParamValue {
                        i.val = unescape_param_value(i.val.as_str());
                    }
                    if i.typ != ItemType::CompName && i.typ != ItemType::PropValue {
                        self.lexer = Some(lx);
                    }
                    assert(self.toks() =~= t0.drop_first());
                    return Ok(Some(i));
                },
            }
        }
    }

    /// The rest of a property line after its name `name`.
    fn parse_property(&mut self, name: String) -> (r: Result<Property, Error>)
        requires
            old(self).wf(),
            !old(self).failed,
        ensures
            final(self).wf(),
            !final(self).failed,
            ({
                let p = PropView {
                    name: name@,
                    value: seq![],
                    params: seq![],
                    old_line: Some(old(self).current_line()),
                };
                let (res, rest) = parse_prop(old(self).toks(), p, None);
                &&& r matches Ok(q) ==> res == Ok::<PropView, ErrorView>(q@) && final(self).toks()
                    == rest && rest.len() < old(self).toks().len()
                &&& r matches Err(e) ==> res == Err::<PropView, ErrorView>(e@)
            }),
    {
        let mut out = Property {
            name,
            value: String::new(),
            parameters: Parameters::new(),
            old_line: Some((self.line.0.clone(), self.line.1)),
        };
        let mut last: Option<String> = None;
        let ghost p0 = out@;
        let ghost t0 = self.toks();
        loop
            invariant
                self.wf(),
                !self.failed,
                parse_prop(t0, p0, None) == parse_prop(
                    self.toks(),
                    out@,
                    match last {
                        Some(n) => Some(n@),
                        None => None,
                    },
                ),
                t0 == old(self).toks(),
                p0 == (PropView {
                    name: name@,
                    value: seq![],
                    params: seq![],
                    old_line: Some(old(self).current_line()),
                }),
                self.toks().len() <= t0.len(),
            decreases self.toks().len(),
        {
            let ghost t = self.toks();
            match self.get_next_item()? {
                Some(item) => {
                    if item.typ == ItemType::Id {
                        last = Some(item.val);
                    } else if item.typ == ItemType::ParamValue && last.is_some() {
                        let pname = match &last {
                            Some(n) => n.clone(),
                            None => String::new(),
                        };
                        out.parameters.add(pname, item.val);
                    } else if item.typ == ItemType::PropValue {
                        out.value = item.val;
                        return Ok(out);
                    } else {
                        return Err(
                            Error::new(
                                item,
                                String::from_str("unexpected item"),
                                (self.line.0.clone(), self.line.1),
                            ),
                        );
                    }
                },
                None => {
                    return Err(Error::eof_error(String::new(), self.line.1));
                },
            }
        }
    }

    /// The end line of `out`, whose `END` was just read.
    fn parse_end(&mut self, out: Component) -> (r: Result<Component, Error>)
        requires
            old(self).wf(),
            !old(self).failed,
        ensures
            final(self).wf(),
            !final(self).failed,
            ({
                let (res, rest) = parse_end(old(self).toks(), out@);
                &&& r matches Ok(c) ==> res == Ok::<CompView, ErrorView>(c@) && final(self).toks()
                    == rest && rest.len() < old(self).toks().len()
                &&& r matches Err(e) ==> res == Err::<CompView, ErrorView>(e@)
            }),
    {
        match self.get_next_item()? {
            Some(item) => {
                if item.typ != ItemType::CompName {
                    Err(
                        Error::new(
                            item,
                            String::from_str("unexpected item"),
                            (self.line.0.clone(), self.line.1),
                        ),
                    )
                } else if item.val == out.name {
                    Ok(out)
                } else {
                    let mut msg = String::from_str("expected \"END:");
                    msg.append(out.name.as_str());
                    msg.append("\"");
                    Err(Error::new(item, msg, (self.line.0.clone(), self.line.1)))
                }
            },
            None => Err(Error::eof_error(String::new(), self.line.1)),
        }
    }

    /// The component whose `BEGIN` was just read.
    fn parse_component(&mut self) -> (r: Result<Component, Error>)
        requires
            old(self).wf(),
            !old(self).failed,
        ensures
            final(self).wf(),
            !final(self).failed,
            ({
                let (res, rest) = parse_comp(old(self).toks());
                &&& r matches Ok(c) ==> res == Ok::<CompView, ErrorView>(c@) && final(self).toks()
                    == rest && rest.len() < old(self).toks().len()
                &&& r matches Err(e) ==> res == Err::<CompView, ErrorView>(e@)
            }),
        decreases old(self).toks().len(),
    {
        let ghost t0 = self.toks();
        let name = match self.get_next_item()? {
            Some(i) => {
                if i.typ != ItemType::CompName {
                    return Err(
                        Error::new(
                            i,
                            String::from_str("unexpected item"),
                            (self.line.0.clone(), self.line.1),
                        ),
                    );
                }
                i.val
            },
            None => {
                return Err(Error::eof_error(String::new(), self.line.1));
            },
        };
        let mut out = Component { name, properties: Vec::new(), sub_components: Vec::new() };
        assert(out@.props =~= Seq::<PropView>::empty());
        assert(out@.subs =~= Seq::<CompView>::empty());
        loop
            invariant
                self.wf(),
                !self.failed,
                parse_comp(t0) == parse_body(self.toks(), out@),
                t0 == old(self).toks(),
                self.toks().len() < t0.len(),
            decreases self.toks().len(),
        {
            let ghost t = self.toks();
            match self.get_next_item()? {
                None => {
                    return Err(Error::eof_error(out.name.clone(), self.line.1));
                },
                Some(i) => {
                    if i.typ == ItemType::Begin {
                        let sub = self.parse_component()?;
                        let ghost before = out@;
                        out.sub_components.push(sub);
                        assert(out@.props =~= before.props);
                        assert(out@.subs =~= before.subs.push(sub@));
                    } else if i.typ == ItemType::Id {
                        let p = self.parse_property(i.val)?;
                        let ghost before = out@;
                        out.properties.push(p);
                        assert(out@.props =~= before.props.push(p@));
                        assert(out@.subs =~= before.subs);
                    } else if i.typ == ItemType::End {
                        return self.parse_end(out);
                    } else {
                        return Err(
                            Error::new(
                                i,
                                String::from_str("unexpected item"),
                                (self.line.0.clone(), self.line.1),
                            ),
                        );
                    }
                },
            }
        }
    }

    /// The next top-level component, `None` at the end of the input. After an
    /// error the parser yields `None`.
    pub fn next_component(&mut self) -> (r: Result<Option<Component>, Error>)
        requires
            old(self).wf(),
        ensures
            final(self).wf(),
            ({
                let (res, rest) = parse_next(old(self).toks());
                &&& r matches Ok(Some(c)) ==> res == Ok::<Option<CompView>, ErrorView>(Some(c@))
                    && final(self).toks() == rest
                &&& r matches Ok(None) ==> res == Ok::<Option<CompView>, ErrorView>(None)
                    && final(self).toks() == old(self).toks()
                &&& r matches Err(e) ==> res == Err::<Option<CompView>, ErrorView>(e@)
                    && final(self).toks().len() == 0
            }),
            r matches Ok(Some(c)) ==> comp_ok(c@),
    {
        proof {
            self.lemma_wf_toks_ok();
            lemma_parse_next_ok(self.toks());
        }
        if self.failed {
            return Ok(None);
        }
        let r = self.next_component_inner();
        if r.is_err() {
            self.failed = true;
            self.lexer = None;
        }
        r
    }

    fn next_component_inner(&mut self) -> (r: Result<Option<Component>, Error>)
        requires
            old(self).wf(),
            !old(self).failed,
        ensures
            final(self).wf(),
            !final(self).failed,
            ({
                let (res, rest) = parse_next(old(self).toks());
                &&& r matches Ok(Some(c)) ==> res == Ok::<Option<CompView>, ErrorView>(Some(c@))
                    && final(self).toks() == rest
                &&& r matches Ok(None) ==> res == Ok::<Option<CompView>, ErrorView>(None)
                    && final(self).toks() == old(self).toks()
                &&& r matches Err(e) ==> res == Err::<Option<CompView>, ErrorView>(e@)
            }),
    {
        match self.get_next_item()? {
            None => Ok(None),
            Some(i) => {
                if i.typ == ItemType::Begin {
                    Ok(Some(self.parse_component()?))
                } else if i.typ == ItemType::End || i.typ == ItemType::Id {
                    Err(
                        Error::new(
                            i,
                            String::from_str("expected BEGIN"),
                            (self.line.0.clone(), self.line.1),
                        ),
                    )
                } else {
                    Err(
                        Error::new(
                            i,
                            String::from_str("unexpected item"),
                            (self.line.0.clone(), self.line.1),
                        ),
                    )
                }
            },
        }
    }
}

/// The raw line from `at` ends at the first LF.
proof fn lemma_raw_end(b: Seq<u8>, at: int, k: int)
    requires
        0 <= at <= k <= b.len(),
        forall|i: int| at <= i < k ==> b[i] != LF,
        k == b.len() || b[k] == LF,
    ensures
        raw_end(b, at) == k,
    decreases k - at,
{
    if at < k {
        lemma_raw_end(b, at + 1, k);
    }
}

/// Empty input decodes to the empty stream.
pub proof fn lemma_empty_input()
    ensures
        stream(seq![], 0, 1) == seq![Tok::Eof(1)],
        parse_next(stream(seq![], 0, 1)).0 == Ok::<Option<CompView>, ErrorView>(None),
{
}

/// A lone LF decodes to the empty stream, just as empty input does.
pub proof fn lemma_lone_lf()
    ensures
        stream(seq![LF], 0, 1) == seq![Tok::Eof(1)],
        parse_next(stream(seq![LF], 0, 1)).0 == Ok::<Option<CompView>, ErrorView>(None),
{
    lemma_raw_end(seq![LF], 0, 0);
}

/// A non-empty raw line that ends in LF without CR before it is a CRLF
/// violation, and inside a component it ends the parse with that error.
pub proof fn lemma_lf_without_cr(b: Seq<u8>, at: int, no: int, c: CompView, e: int)
    requires
        0 <= at < e < b.len(),
        b[e] == LF,
        forall|i: int| at <= i < e ==> b[i] != LF,
        b[e - 1] != CR,
    ensures
        read_unfolded(b, at) == ReadView::Crlf(b.subrange(at, e), e + 1 < b.len()),
        parse_body(stream(b, at, no), c).0 == Err::<CompView, ErrorView>(
            ErrorView::Crlf(b.subrange(at, e), no as u32, e + 1 < b.len()),
        ),
{
    lemma_raw_end(b, at, e);
}

/// Unfolding joins the bytes of a line and its continuation whatever they
/// are, before any UTF-8 check: a fold may split a multi-byte character,
/// which the joined line then holds whole. The input `r` that follows is any
/// that does not continue the line.
pub proof fn lemma_unfold_joins(x: Seq<u8>, y: Seq<u8>, r: Seq<u8>)
    requires
        forall|i: int| 0 <= i < x.len() ==> x[i] != LF,
        forall|i: int| 0 <= i < y.len() ==> y[i] != LF,
        r.len() > 0 ==> r[0] != SPACE && r[0] != HTAB,
    ensures
        ({
            let b = x + seq![CR, LF, SPACE] + y + seq![CR, LF] + r;
            read_unfolded(b, 0) == ReadView::Line(x + y, (x.len() + y.len() + 5) as int, 2)
        }),
{
    let b = x + seq![CR, LF, SPACE] + y + seq![CR, LF] + r;
    let n = x.len() as int;
    assert(b[n] == CR && b[n + 1] == LF && b[n + 2] == SPACE);
    assert forall|i: int| 0 <= i < n implies b[i] != LF by {
        assert(b[i] == x[i]);
    }
    lemma_raw_end(b, 0, n + 1);
    let m = n + 3 + y.len();
    assert(b[m] == CR && b[m + 1] == LF);
    assert forall|i: int| n + 2 <= i < m implies b[i] != LF by {
        if i > n + 2 {
            assert(b[i] == y[i - n - 3]);
        }
    }
    lemma_raw_end(b, n + 2, m + 1);
    if r.len() > 0 {
        assert(b[m + 2] == r[0]);
    }
    assert(b.subrange(0, n + 1).drop_last() =~= x);
    assert(b.subrange(n + 2, m + 1).drop_last() =~= seq![SPACE] + y);
    assert((seq![SPACE] + y).drop_first() =~= y);
    assert(read_unfolded(b, n + 2) == ReadView::Line(seq![SPACE] + y, m + 2, 1));
}

/// The CRLF rule of the line reader, for the raw line that starts at `at`
/// (the bytes before the next LF, or the tail without one): a non-empty raw
/// line must end in CR, else it is a CRLF violation carrying its bytes and
/// whether more input follows; an empty raw line is a violation when more
/// follows and the end of the input otherwise; a continuation line is held
/// to the same rule, and its violation is the logical line's. A violation
/// or the end is the whole rest of the decoded stream, and the violation
/// carries the number of the logical line.
pub proof fn lemma_crlf_rule(b: Seq<u8>, at: int, no: int)
    requires
        0 <= at < b.len(),
    ensures
        ({
            let e = raw_end(b, at);
            let raw = b.subrange(at, e);
            let more = e + 1 < b.len();
            &&& raw.len() > 0 && raw.last() != CR ==> read_unfolded(b, at) == ReadView::Crlf(raw, more)
            &&& raw.len() == 0 && more ==> read_unfolded(b, at) == ReadView::Crlf(raw, true)
            &&& raw.len() == 0 && !more ==> read_unfolded(b, at) == ReadView::Eof
            &&& raw.len() > 0 && raw.last() == CR && more && (b[e + 1] == SPACE || b[e + 1] == HTAB)
                && read_unfolded(b, e + 1) is Crlf ==> read_unfolded(b, at) == read_unfolded(
                b,
                e + 1,
            )
            &&& read_unfolded(b, at) matches ReadView::Crlf(x, m) ==> stream(b, at, no) == seq![
                Tok::Crlf(x, no as u32, m),
            ]
            &&& read_unfolded(b, at) is Eof ==> stream(b, at, no) == seq![Tok::Eof(no as u32)]
        }),
{
    lemma_raw_end_bounds(b, at);
}

/// An element whose item, if any, satisfies `item_ok`.
pub open spec fn tok_ok(t: Tok) -> bool {
    match t {
        Tok::Item(it, _, _) => item_ok(it) && ((it.0 == ItemType::CompName || it.0 == ItemType::Id)
            ==> ascii_upper(it.2) == it.2),
        _ => true,
    }
}

pub open spec fn toks_ok(t: Seq<Tok>) -> bool {
    forall|i: int| 0 <= i < t.len() ==> tok_ok(#[trigger] t[i])
}

proof fn lemma_toks_ok_drop(t: Seq<Tok>)
    requires
        toks_ok(t),
        t.len() > 0,
    ensures
        toks_ok(t.drop_first()),
        tok_ok(t[0]),
{
    assert forall|i: int| 0 <= i < t.drop_first().len() implies tok_ok(#[trigger] t.drop_first()[i]) by {
        assert(t.drop_first()[i] == t[i + 1]);
    }
}

proof fn lemma_normalize_ok(it: LexItem)
    requires
        item_ok(it),
    ensures
        item_ok(normalize(it)),
        (it.0 == ItemType::CompName || it.0 == ItemType::Id) ==> ascii_upper(normalize(it).2)
            == normalize(it).2,
{
    if it.0 == ItemType::CompName || it.0 == ItemType::Id {
        crate::text::lemma_upper_idem(it.2);
        let u = ascii_upper(it.2);
        assert forall|i: int| 0 <= i < u.len() implies crate::model::name_char(#[trigger] u[i]) by {
            lemma_upper_name_char(it.2[i]);
        }
    }
}

proof fn lemma_line_toks_ok(items: Seq<LexItem>, text: Seq<char>, no: u32)
    requires
        forall|i: int| 0 <= i < items.len() ==> item_ok(#[trigger] items[i]),
    ensures
        toks_ok(line_toks(items, text, no)),
{
    assert forall|i: int| 0 <= i < line_toks(items, text, no).len() implies tok_ok(
        #[trigger] line_toks(items, text, no)[i],
    ) by {
        lemma_normalize_ok(items[i]);
    }
}

proof fn lemma_toks_ok_concat(a: Seq<Tok>, b: Seq<Tok>)
    requires
        toks_ok(a),
        toks_ok(b),
    ensures
        toks_ok(a + b),
{
    assert forall|i: int| 0 <= i < (a + b).len() implies tok_ok(#[trigger] (a + b)[i]) by {
        if i >= a.len() {
            assert((a + b)[i] == b[i - a.len()]);
        }
    }
}

/// Every item of a decoded stream satisfies `item_ok`.
pub proof fn lemma_stream_ok(b: Seq<u8>, at: int, no: int)
    ensures
        toks_ok(stream(b, at, no)),
    decreases b.len() - at,
{
    match read_unfolded(b, at) {
        ReadView::Line(c, n2, k) => {
            if valid_utf8(c) && at < n2 <= b.len() {
                let l = decode_utf8(c);
                lemma_lex_run_ok(l, crate::line_lexer::LexState::PropName, 0);
                lemma_line_toks_ok(lex_line(l), l, no as u32);
                lemma_stream_ok(b, n2, no + k);
                lemma_toks_ok_concat(line_toks(lex_line(l), l, no as u32), stream(b, n2, no + k));
            }
        },
        _ => {},
    }
}

proof fn lemma_prop_ok(t: Seq<Tok>, p: PropView, last: Option<Seq<char>>)
    requires
        toks_ok(t),
        upper_name(p.name),
        forall|i: int| 0 <= i < p.params.len() ==> upper_name(#[trigger] p.params[i].0),
        last matches Some(n) ==> upper_name(n),
    ensures
        parse_prop(t, p, last).0 matches Ok(q) ==> prop_ok(q),
        toks_ok(parse_prop(t, p, last).1),
    decreases t.len(),
{
    if t.len() > 0 {
        lemma_toks_ok_drop(t);
        if is_item(t[0], ItemType::Id) {
            lemma_prop_ok(t.drop_first(), p, Some(item_of(t[0]).2));
        } else if is_item(t[0], ItemType::ParamValue) && last is Some {
            lemma_entries_add_names(p.params, last->0, item_of(t[0]).2);
            lemma_prop_ok(
                t.drop_first(),
                PropView { params: entries_add(p.params, last->0, item_of(t[0]).2), ..p },
                last,
            );
        }
    }
}

proof fn lemma_comp_ok(t: Seq<Tok>)
    requires
        toks_ok(t),
    ensures
        parse_comp(t).0 matches Ok(c) ==> comp_ok(c),
        toks_ok(parse_comp(t).1),
    decreases t.len(), 1int,
{
    if t.len() > 0 {
        lemma_toks_ok_drop(t);
        if is_item(t[0], ItemType::CompName) {
            let c = CompView { name: item_of(t[0]).2, props: seq![], subs: seq![] };
            lemma_body_ok(t.drop_first(), c);
        }
    }
}

#[verifier::spinoff_prover]
proof fn lemma_body_ok(t: Seq<Tok>, c: CompView)
    requires
        toks_ok(t),
        upper_name(c.name),
        forall|i: int| 0 <= i < c.props.len() ==> prop_ok(#[trigger] c.props[i]),
        forall|i: int| 0 <= i < c.subs.len() ==> comp_ok(#[trigger] c.subs[i]),
    ensures
        parse_body(t, c).0 matches Ok(d) ==> comp_ok(d),
        toks_ok(parse_body(t, c).1),
    decreases t.len(), 0int,
{
    if t.len() > 0 {
        lemma_toks_ok_drop(t);
        if let Tok::Item(it, text, no) = t[0] {
            if it.0 == ItemType::Begin {
                lemma_comp_ok(t.drop_first());
                let (r, rest) = parse_comp(t.drop_first());
                if let Ok(sub) = r {
                    if rest.len() < t.len() {
                        let c2 = CompView { subs: c.subs.push(sub), ..c };
                        assert forall|i: int| 0 <= i < c2.subs.len() implies comp_ok(
                            #[trigger] c2.subs[i],
                        ) by {
                            if i < c.subs.len() {
                                assert(c2.subs[i] == c.subs[i]);
                            }
                        }
                        lemma_body_ok(rest, c2);
                    }
                }
            } else if it.0 == ItemType::Id {
                let p = PropView {
                    name: it.2,
                    value: seq![],
                    params: seq![],
                    old_line: Some((text, no)),
                };
                lemma_prop_ok(t.drop_first(), p, None);
                let (r, rest) = parse_prop(t.drop_first(), p, None);
                if let Ok(prop) = r {
                    if rest.len() < t.len() {
                        let c2 = CompView { props: c.props.push(prop), ..c };
                        assert forall|i: int| 0 <= i < c2.props.len() implies prop_ok(
                            #[trigger] c2.props[i],
                        ) by {
                            if i < c.props.len() {
                                assert(c2.props[i] == c.props[i]);
                            }
                        }
                        lemma_body_ok(rest, c2);
                    }
                }
            } else if it.0 == ItemType::End {
                let t2 = t.drop_first();
                if t2.len() > 0 {
                    lemma_toks_ok_drop(t2);
                }
            }
        }
    }
}

/// Every component that parsing yields has legal, non-empty names
/// throughout, and every property in it has a non-empty value.
pub proof fn lemma_parse_next_ok(t: Seq<Tok>)
    requires
        toks_ok(t),
    ensures
        parse_next(t).0 matches Ok(Some(c)) ==> comp_ok(c),
        toks_ok(parse_next(t).1),
{
    if t.len() > 0 {
        lemma_toks_ok_drop(t);
        lemma_comp_ok(t.drop_first());
    }
}

pub open spec fn shift(r: ReadView, d: int) -> ReadView {
    match r {
        ReadView::Line(c, n2, k) => ReadView::Line(c, n2 + d, k),
        other => other,
    }
}

proof fn lemma_raw_end_shift(p: Seq<u8>, r: Seq<u8>, i: int)
    requires
        0 <= i <= r.len(),
    ensures
        raw_end(p + r, p.len() + i) == p.len() + raw_end(r, i),
    decreases r.len() - i,
{
    if i < r.len() {
        assert((p + r)[p.len() + i] == r[i]);
        lemma_raw_end_shift(p, r, i + 1);
    }
}

proof fn lemma_raw_end_bounds(r: Seq<u8>, i: int)
    requires
        0 <= i <= r.len(),
    ensures
        i <= raw_end(r, i) <= r.len(),
    decreases r.len() - i,
{
    if i < r.len() && r[i] != LF {
        lemma_raw_end_bounds(r, i + 1);
    }
}

proof fn lemma_read_shift(p: Seq<u8>, r: Seq<u8>, i: int)
    requires
        0 <= i <= r.len(),
    ensures
        read_unfolded(p + r, p.len() + i) == shift(read_unfolded(r, i), p.len() as int),
    decreases r.len() - i,
{
    let b = p + r;
    let at = p.len() + i;
    if i < r.len() {
        lemma_raw_end_shift(p, r, i);
        lemma_raw_end_bounds(r, i);
        let e = raw_end(r, i);
        assert(b.subrange(at, p.len() + e) =~= r.subrange(i, e));
        let nxt = if e < r.len() {
            e + 1
        } else {
            e
        };
        if nxt < r.len() {
            assert(b[p.len() + nxt] == r[nxt]);
            lemma_read_shift(p, r, nxt);
        }
    }
}

/// Decoding from byte `p.len() + i` of `p + r` is decoding `r` from `i`.
proof fn lemma_stream_shift(p: Seq<u8>, r: Seq<u8>, i: int, no: int)
    requires
        0 <= i <= r.len(),
    ensures
        stream(p + r, p.len() + i, no) == stream(r, i, no),
    decreases r.len() - i,
{
    lemma_read_shift(p, r, i);
    match read_unfolded(r, i) {
        ReadView::Line(c, n2, k) => {
            if valid_utf8(c) && i < n2 <= r.len() {
                lemma_stream_shift(p, r, n2, no + k);
            }
        },
        _ => {},
    }
}

/// A line `x` followed by CRLF and by input that does not start with a
/// continuation decodes to the items of `x`, then to the rest.
proof fn lemma_stream_line(x: Seq<u8>, r: Seq<u8>, no: int)
    requires
        x.len() > 0,
        forall|i: int| 0 <= i < x.len() ==> x[i] != LF,
        r.len() > 0 ==> r[0] != SPACE && r[0] != HTAB,
        valid_utf8(x),
    ensures
        stream(x + seq![CR, LF] + r, 0, no) == line_toks(lex_line(decode_utf8(x)), decode_utf8(x), no as u32)
            + stream(r, 0, no + 1),
{
    let p = x + seq![CR, LF];
    let b = p + r;
    let n = x.len() as int;
    assert(b[n] == CR && b[n + 1] == LF);
    assert forall|i: int| 0 <= i < n implies b[i] != LF by {
        assert(b[i] == x[i]);
    }
    lemma_raw_end(b, 0, n + 1);
    assert(b.subrange(0, n + 1).drop_last() =~= x);
    if r.len() > 0 {
        assert(b[n + 2] == r[0]);
    }
    assert(read_unfolded(b, 0) == ReadView::Line(x, n + 2, 1));
    lemma_stream_shift(p, r, 0, no + 1);
    assert(p.len() + 0 == n + 2);
}

/// A property that its own line holds unfolded: no parameters, a legal upper
/// case name other than `BEGIN` and `END`, a value without control
/// characters, and `NAME:VALUE` within 75 octets.
pub open spec fn simple_prop(p: PropView) -> bool {
    &&& name_ok(p.name)
    &&& ascii_upper(p.name) == p.name
    &&& p.name != seq!['B', 'E', 'G', 'I', 'N']
    &&& p.name != seq!['E', 'N', 'D']
    &&& p.params.len() == 0
    &&& p.value.len() > 0
    &&& forall|i: int| 0 <= i < p.value.len() ==> !control_char(#[trigger] p.value[i])
    &&& utf8(p.name).len() + 1 + utf8(p.value).len() <= 75
}

/// A component tree of simple properties whose names are legal and upper
/// case.
pub open spec fn simple_tree(c: CompView) -> bool
    decreases c,
{
    &&& name_ok(c.name)
    &&& ascii_upper(c.name) == c.name
    &&& forall|i: int| 0 <= i < c.props.len() ==> simple_prop(#[trigger] c.props[i])
    &&& forall|i: int| 0 <= i < c.subs.len() ==> simple_tree(#[trigger] c.subs[i])
}

/// Two properties that agree but for the line they were read from.
pub open spec fn same_prop(a: PropView, b: PropView) -> bool {
    a.name == b.name && a.value == b.value && a.params == b.params
}

/// Two component trees that agree but for the lines their properties were
/// read from.
pub open spec fn same_tree(a: CompView, b: CompView) -> bool
    decreases a,
{
    &&& a.name == b.name
    &&& a.props.len() == b.props.len()
    &&& forall|i: int| 0 <= i < a.props.len() ==> same_prop(#[trigger] a.props[i], b.props[i])
    &&& a.subs.len() == b.subs.len()
    &&& forall|i: int| 0 <= i < a.subs.len() ==> same_tree(#[trigger] a.subs[i], b.subs[i])
}

/// The number of lines a component tree takes.
pub open spec fn comp_lines(c: CompView) -> int
    decreases c,
{
    2 + c.props.len() + subs_lines(c.subs)
}

pub open spec fn subs_lines(cs: Seq<CompView>) -> int
    decreases cs,
{
    if cs.len() == 0 {
        0
    } else {
        subs_lines(cs.drop_last()) + comp_lines(cs.last())
    }
}

/// Property `p` as read back from line `no`.
pub open spec fn reread_prop(p: PropView, no: int) -> PropView {
    PropView { old_line: Some((p.name + ":"@ + p.value, no as u32)), ..p }
}

pub open spec fn reread_props(ps: Seq<PropView>, no: int) -> Seq<PropView> {
    Seq::new(ps.len(), |i: int| reread_prop(ps[i], no + i))
}

/// Component tree `c` as read back when its first line is line `no`.
pub open spec fn reread(c: CompView, no: int) -> CompView
    decreases c,
{
    CompView {
        name: c.name,
        props: reread_props(c.props, no + 1),
        subs: reread_subs(c.subs, no + 1 + c.props.len()),
    }
}

pub open spec fn reread_subs(cs: Seq<CompView>, no: int) -> Seq<CompView>
    decreases cs,
{
    if cs.len() == 0 {
        seq![]
    } else {
        reread_subs(cs.drop_last(), no).push(reread(cs.last(), no + subs_lines(cs.drop_last())))
    }
}

/// `WORD:NAME` as bytes: valid, free of line breaks, and decoding to its
/// characters.
proof fn lemma_comp_line_bytes(word: Seq<char>, n: Seq<char>)
    requires
        name_ok(n),
        forall|i: int| 0 <= i < word.len() ==> #[trigger] word[i] != '\n' && word[i] != '\r',
    ensures
        utf8(word + n) == utf8(word) + utf8(n),
        valid_utf8(utf8(word + n)),
        decode_utf8(utf8(word + n)) == word + n,
        forall|j: int| 0 <= j < utf8(word + n).len() ==> #[trigger] utf8(word + n)[j] != LF,
{
    lemma_utf8_concat(word, n);
    assert forall|i: int| 0 <= i < (word + n).len() implies #[trigger] (word + n)[i] != '\n' && (
    word + n)[i] != '\r' by {
        if i >= word.len() {
            assert((word + n)[i] == n[i - word.len()]);
            assert(crate::model::name_char(n[i - word.len()]));
        }
    }
    lemma_utf8_no_newline(word + n);
    vstd::utf8::encode_utf8_valid_utf8(word + n);
    vstd::utf8::encode_utf8_decode_utf8(word + n);
}

/// `WORD` and a value without control characters, as bytes: valid, free of
/// line breaks, and decoding to its characters.
proof fn lemma_value_line_bytes(word: Seq<char>, v: Seq<char>)
    requires
        forall|i: int| 0 <= i < word.len() ==> #[trigger] word[i] != '\n' && word[i] != '\r',
        forall|i: int| 0 <= i < v.len() ==> !control_char(#[trigger] v[i]),
    ensures
        valid_utf8(utf8(word + v)),
        decode_utf8(utf8(word + v)) == word + v,
        forall|j: int| 0 <= j < utf8(word + v).len() ==> #[trigger] utf8(word + v)[j] != LF,
{
    assert forall|i: int| 0 <= i < (word + v).len() implies #[trigger] (word + v)[i] != '\n' && (
    word + v)[i] != '\r' by {
        if i >= word.len() {
            assert((word + v)[i] == v[i - word.len()]);
            assert(!control_char(v[i - word.len()]));
        }
    }
    lemma_utf8_no_newline(word + v);
    vstd::utf8::encode_utf8_valid_utf8(word + v);
    vstd::utf8::encode_utf8_decode_utf8(word + v);
}

proof fn lemma_word_bytes()
    ensures
        utf8("BEGIN:"@).len() == 6,
        utf8("BEGIN:"@)[0] == 0x42,
        utf8("END:"@)[0] == 0x45,
        utf8("END:"@).len() == 4,
        forall|i: int| 0 <= i < "BEGIN:"@.len() ==> #[trigger] "BEGIN:"@[i] != '\n' && "BEGIN:"@[i]
            != '\r',
        forall|i: int| 0 <= i < "END:"@.len() ==> #[trigger] "END:"@[i] != '\n' && "END:"@[i]
            != '\r',
{
    reveal_strlit("BEGIN:");
    reveal_strlit("END:");
    assert(vstd::utf8::is_ascii_chars("BEGIN:"@));
    assert(vstd::utf8::is_ascii_chars("END:"@));
    vstd::utf8::is_ascii_chars_encode_utf8("BEGIN:"@);
    vstd::utf8::is_ascii_chars_encode_utf8("END:"@);
    crate::text::lemma_utf8_cons("BEGIN:"@);
    crate::text::lemma_utf8_ascii_char('B');
    crate::text::lemma_utf8_cons("END:"@);
    crate::text::lemma_utf8_ascii_char('E');
}

/// The encoding of a component starts with the `B` of `BEGIN`.
proof fn lemma_comp_bytes_first(c: CompView)
    ensures
        comp_bytes(c).len() > 0,
        comp_bytes(c)[0] == 0x42,
{
    lemma_word_bytes();
}

proof fn lemma_comps_bytes_first(cs: Seq<CompView>)
    ensures
        comps_bytes(cs).len() > 0 ==> comps_bytes(cs)[0] == 0x42,
    decreases cs.len(),
{
    if cs.len() > 0 {
        lemma_comps_bytes_first(cs.drop_last());
        lemma_comp_bytes_first(cs.last());
        if comps_bytes(cs.drop_last()).len() == 0 {
            assert(comps_bytes(cs) =~= comp_bytes(cs.last()));
        }
    }
}

proof fn lemma_reread_subs_len(cs: Seq<CompView>, no: int)
    ensures
        reread_subs(cs, no).len() == cs.len(),
    decreases cs.len(),
{
    if cs.len() > 0 {
        lemma_reread_subs_len(cs.drop_last(), no);
    }
}

/// The elements of a component line `WORD:NAME` followed by more input.
#[verifier::spinoff_prover]
proof fn lemma_comp_line_toks(word: Seq<char>, n: Seq<char>, typ: ItemType, after: Seq<u8>, no: int)
    requires
        name_ok(n),
        ascii_upper(n) == n,
        (word == "BEGIN:"@ && typ == ItemType::Begin) || (word == "END:"@ && typ == ItemType::End),
        after.len() > 0 ==> after[0] != SPACE && after[0] != HTAB,
    ensures
        ({
            let t = stream(utf8(word + n) + seq![CR, LF] + after, 0, no);
            &&& t.len() >= 2 + stream(after, 0, no + 1).len()
            &&& is_item(t[0], typ)
            &&& is_item(t.drop_first()[0], ItemType::CompName)
            &&& item_of(t.drop_first()[0]).2 == n
            &&& t.drop_first().drop_first() == stream(after, 0, no + 1)
        }),
{
    lemma_word_bytes();
    lemma_comp_line_bytes(word, n);
    if typ == ItemType::Begin {
        lemma_lex_begin_line(n);
    } else {
        lemma_lex_end_line(n);
    }
    let x = utf8(word + n);
    lemma_stream_line(x, after, no);
    let l = word + n;
    let lt = line_toks(lex_line(l), l, no as u32);
    let t = stream(x + seq![CR, LF] + after, 0, no);
    assert(t == lt + stream(after, 0, no + 1));
    assert(t.drop_first().drop_first() =~= stream(after, 0, no + 1));
    assert(t.drop_first()[0] == lt[1]);
}

/// The elements of the line of a simple property followed by more input.
#[verifier::spinoff_prover]
proof fn lemma_prop_line_toks(p: PropView, r: Seq<u8>, m: int)
    requires
        simple_prop(p),
        r.len() > 0 ==> r[0] != SPACE && r[0] != HTAB,
    ensures
        ({
            let t = stream(prop_line(p) + r, 0, m);
            &&& prop_line(p).len() > 0
            &&& prop_line(p)[0] != SPACE && prop_line(p)[0] != HTAB
            &&& t.len() >= 2 + stream(r, 0, m + 1).len()
            &&& is_item(t[0], ItemType::Id)
            &&& item_of(t[0]).2 == p.name
            &&& t[0] matches Tok::Item(_, text, no) && text == p.name + ":"@ + p.value && no == m as u32
            &&& is_item(t.drop_first()[0], ItemType::PropValue)
            &&& item_of(t.drop_first()[0]).2 == p.value
            &&& t.drop_first().drop_first() == stream(r, 0, m + 1)
        }),
{
    lemma_unfolded_prop_line(p);
    let text = p.name + ":"@ + p.value;
    reveal_strlit(":");
    assert(":"@ =~= seq![':']);
    assert forall|i: int| 0 <= i < (p.name + ":"@).len() implies #[trigger] (p.name + ":"@)[i]
        != '\n' && (p.name + ":"@)[i] != '\r' by {
        if i < p.name.len() {
            assert((p.name + ":"@)[i] == p.name[i]);
            assert(crate::model::name_char(p.name[i]));
        }
    }
    lemma_value_line_bytes(p.name + ":"@, p.value);
    let x = utf8(text);
    assert(prop_line(p) + r =~= x + seq![CR, LF] + r);
    crate::text::lemma_utf8_cons(text);
    assert(text[0] == p.name[0]);
    crate::text::lemma_utf8_ascii_char_of_name(p.name[0]);
    assert(prop_line(p)[0] == x[0]);
    lemma_stream_line(x, r, m);
    crate::line_lexer::lemma_lex_prop_line(p.name, p.value);
    assert(p.name + seq![':'] + p.value == text);
    let lt = line_toks(lex_line(text), text, m as u32);
    let t = stream(prop_line(p) + r, 0, m);
    assert(t == lt + stream(r, 0, m + 1));
    assert(t.drop_first().drop_first() =~= stream(r, 0, m + 1));
    assert(t.drop_first()[0] == lt[1]);
}

/// Parsing the line of a simple property inside component `cv`.
#[verifier::spinoff_prover]
proof fn lemma_prop_step(p: PropView, r: Seq<u8>, m: int, cv: CompView)
    requires
        simple_prop(p),
        r.len() > 0 ==> r[0] != SPACE && r[0] != HTAB,
    ensures
        ({
            let t = stream(prop_line(p) + r, 0, m);
            let rest = stream(r, 0, m + 1);
            &&& rest.len() < t.len()
            &&& parse_body(t, cv) == parse_body(rest, CompView { props: cv.props.push(reread_prop(p, m)), ..cv })
        }),
{
    lemma_prop_line_toks(p, r, m);
    let t = stream(prop_line(p) + r, 0, m);
    let q = PropView {
        name: p.name,
        value: seq![],
        params: seq![],
        old_line: Some((p.name + ":"@ + p.value, m as u32)),
    };
    assert(parse_prop(t.drop_first(), q, None) == (
        Ok::<PropView, ErrorView>(PropView { value: p.value, ..q }),
        stream(r, 0, m + 1),
    ));
    assert(p.params =~= Seq::<(Seq<char>, Seq<Seq<char>>)>::empty());
    assert(PropView { value: p.value, ..q } == reread_prop(p, m));
}

#[verifier::spinoff_prover]
proof fn lemma_simple_props(
    ps: Seq<PropView>,
    name: Seq<char>,
    pre: Seq<PropView>,
    r: Seq<u8>,
    m: int,
)
    requires
        forall|i: int| 0 <= i < ps.len() ==> simple_prop(#[trigger] ps[i]),
        r.len() > 0 ==> r[0] != SPACE && r[0] != HTAB,
    ensures
        parse_body(
            stream(props_bytes(ps) + r, 0, m),
            CompView { name, props: pre, subs: seq![] },
        ) == parse_body(
            stream(r, 0, m + ps.len()),
            CompView { name, props: pre + reread_props(ps, m), subs: seq![] },
        ),
        stream(r, 0, m + ps.len()).len() <= stream(props_bytes(ps) + r, 0, m).len(),
    decreases ps.len(),
{
    if ps.len() == 0 {
        assert(props_bytes(ps) + r =~= r);
        assert(pre + reread_props(ps, m) =~= pre);
    } else {
        let dl = ps.drop_last();
        let p = ps.last();
        assert forall|i: int| 0 <= i < dl.len() implies simple_prop(#[trigger] dl[i]) by {
            assert(dl[i] == ps[i]);
        }
        let m1 = m + dl.len();
        lemma_prop_line_toks(p, r, m1);
        let rest = prop_line(p) + r;
        lemma_simple_props(dl, name, pre, rest, m);
        assert(props_bytes(ps) + r =~= props_bytes(dl) + rest);
        let cv = CompView { name, props: pre + reread_props(dl, m), subs: seq![] };
        lemma_prop_step(p, r, m1, cv);
        assert((pre + reread_props(dl, m)).push(reread_prop(p, m1)) =~= pre + reread_props(ps, m));
    }
}

/// How the encoding of a simple tree splits into its lines.
#[verifier::spinoff_prover]
proof fn lemma_comp_bytes_split(c: CompView, r: Seq<u8>)
    requires
        simple_tree(c),
        r.len() > 0 ==> r[0] != SPACE && r[0] != HTAB,
    ensures
        ({
            let e_r = utf8("END:"@ + c.name) + seq![CR, LF] + r;
            let after_props = comps_bytes(c.subs) + e_r;
            let after = props_bytes(c.props) + after_props;
            &&& comp_bytes(c) + r == utf8("BEGIN:"@ + c.name) + seq![CR, LF] + after
            &&& after_props.len() > 0 && after_props[0] != SPACE && after_props[0] != HTAB
            &&& after.len() > 0 && after[0] != SPACE && after[0] != HTAB
            &&& e_r.len() > 0 && e_r[0] != SPACE && e_r[0] != HTAB
        }),
{
    let n = c.name;
    lemma_word_bytes();
    let crlf = seq![CR, LF];
    let x = utf8("BEGIN:"@ + n);
    let y = utf8("END:"@ + n);
    let p_bytes = props_bytes(c.props);
    let s_bytes = comps_bytes(c.subs);
    let e_r = y + crlf + r;
    let after_props = s_bytes + e_r;
    let after = p_bytes + after_props;
    lemma_comp_line_bytes("BEGIN:"@, n);
    lemma_comp_line_bytes("END:"@, n);
    assert(comp_bytes(c) + r =~= x + crlf + after);
    assert(e_r[0] == y[0]);
    lemma_comps_bytes_first(c.subs);
    if s_bytes.len() == 0 {
        assert(after_props =~= e_r);
    } else {
        assert(after_props[0] == s_bytes[0]);
    }
    lemma_props_bytes_first(c.props);
    if p_bytes.len() == 0 {
        assert(after =~= after_props);
    } else {
        assert(after[0] == p_bytes[0]);
    }
}

#[verifier::spinoff_prover]
proof fn lemma_simple_comp(c: CompView, r: Seq<u8>, no: int)
    requires
        simple_tree(c),
        r.len() > 0 ==> r[0] != SPACE && r[0] != HTAB,
    ensures
        ({
            let t = stream(comp_bytes(c) + r, 0, no);
            let rest = stream(r, 0, no + comp_lines(c));
            &&& t.len() > 0
            &&& is_item(t[0], ItemType::Begin)
            &&& parse_comp(t.drop_first()) == (Ok::<CompView, ErrorView>(reread(c, no)), rest)
            &&& rest.len() + 4 <= t.len()
        }),
    decreases c,
{
    let n = c.name;
    let e_r = utf8("END:"@ + n) + seq![CR, LF] + r;
    let after_props = comps_bytes(c.subs) + e_r;
    let after = props_bytes(c.props) + after_props;
    lemma_comp_bytes_split(c, r);
    lemma_comp_line_toks("BEGIN:"@, n, ItemType::Begin, after, no);
    // the properties
    lemma_simple_props(c.props, n, seq![], after_props, no + 1);
    let mp = no + 1 + c.props.len();
    let pv = Seq::<PropView>::empty() + reread_props(c.props, no + 1);
    assert(pv =~= reread_props(c.props, no + 1));
    // the sub-components
    lemma_simple_subs(c.subs, n, pv, seq![], e_r, mp);
    let m = mp + subs_lines(c.subs);
    assert(Seq::<CompView>::empty() + reread_subs(c.subs, mp) =~= reread_subs(c.subs, mp));
    // the end line
    lemma_comp_line_toks("END:"@, n, ItemType::End, r, m);
    let te = stream(e_r, 0, m);
    let done = CompView { name: n, props: pv, subs: reread_subs(c.subs, mp) };
    assert(done == reread(c, no));
    assert(parse_body(te, done) == (Ok::<CompView, ErrorView>(done), stream(r, 0, m + 1)));
}

#[verifier::spinoff_prover]
proof fn lemma_simple_subs(
    cs: Seq<CompView>,
    name: Seq<char>,
    props: Seq<PropView>,
    pre: Seq<CompView>,
    r: Seq<u8>,
    m: int,
)
    requires
        forall|i: int| 0 <= i < cs.len() ==> simple_tree(#[trigger] cs[i]),
        r.len() > 0 ==> r[0] != SPACE && r[0] != HTAB,
    ensures
        parse_body(stream(comps_bytes(cs) + r, 0, m), CompView { name, props, subs: pre })
            == parse_body(
            stream(r, 0, m + subs_lines(cs)),
            CompView { name, props, subs: pre + reread_subs(cs, m) },
        ),
        stream(r, 0, m + subs_lines(cs)).len() <= stream(comps_bytes(cs) + r, 0, m).len(),
    decreases cs,
{
    if cs.len() == 0 {
        assert(comps_bytes(cs) + r =~= r);
        assert(pre + reread_subs(cs, m) =~= pre);
    } else {
        let dl = cs.drop_last();
        let last = cs.last();
        assert forall|i: int| 0 <= i < dl.len() implies simple_tree(#[trigger] dl[i]) by {
            assert(dl[i] == cs[i]);
        }
        let x = comp_bytes(last) + r;
        lemma_comp_bytes_first(last);
        assert(x[0] == 0x42);
        lemma_simple_subs(dl, name, props, pre, x, m);
        assert(comps_bytes(cs) + r =~= comps_bytes(dl) + x);
        let m1 = m + subs_lines(dl);
        lemma_simple_comp(last, r, m1);
        assert((pre + reread_subs(dl, m)).push(reread(last, m1)) =~= pre + reread_subs(cs, m));
    }
}

proof fn lemma_props_bytes_first(ps: Seq<PropView>)
    requires
        forall|i: int| 0 <= i < ps.len() ==> simple_prop(#[trigger] ps[i]),
    ensures
        props_bytes(ps).len() > 0 ==> props_bytes(ps)[0] != SPACE && props_bytes(ps)[0] != HTAB,
    decreases ps.len(),
{
    if ps.len() > 0 {
        let dl = ps.drop_last();
        assert forall|i: int| 0 <= i < dl.len() implies simple_prop(#[trigger] dl[i]) by {
            assert(dl[i] == ps[i]);
        }
        lemma_props_bytes_first(dl);
        if props_bytes(dl).len() == 0 {
            let p = ps.last();
            lemma_unfolded_prop_line(p);
            let text = p.name + ":"@ + p.value;
            crate::text::lemma_utf8_cons(text);
            assert(text[0] == p.name[0]);
            crate::text::lemma_utf8_ascii_char_of_name(p.name[0]);
            assert(props_bytes(ps) =~= prop_line(p));
        }
    }
}

/// Re-reading keeps a tree the same but for the lines of its properties.
proof fn lemma_reread_same(c: CompView, no: int)
    ensures
        same_tree(reread(c, no), c),
    decreases c,
{
    lemma_reread_subs_same(c.subs, no + 1 + c.props.len());
}

proof fn lemma_reread_subs_same(cs: Seq<CompView>, no: int)
    ensures
        reread_subs(cs, no).len() == cs.len(),
        forall|i: int| 0 <= i < cs.len() ==> same_tree(#[trigger] reread_subs(cs, no)[i], cs[i]),
    decreases cs,
{
    if cs.len() > 0 {
        let dl = cs.drop_last();
        lemma_reread_subs_same(dl, no);
        lemma_reread_same(cs.last(), no + subs_lines(dl));
        assert forall|i: int| 0 <= i < cs.len() implies same_tree(
            #[trigger] reread_subs(cs, no)[i],
            cs[i],
        ) by {
            if i < dl.len() {
                assert(reread_subs(cs, no)[i] == reread_subs(dl, no)[i]);
                assert(cs[i] == dl[i]);
            }
        }
    }
}

/// Encoding and then decoding a component tree of simple properties gives
/// it back, as the only component, the same but for the lines its
/// properties were read from.
pub proof fn lemma_round_trip(c: CompView)
    requires
        simple_tree(c),
    ensures
        ({
            let (res, rest) = parse_next(stream(comp_bytes(c), 0, 1));
            &&& res matches Ok(Some(d)) && same_tree(d, c)
            &&& parse_next(rest).0 == Ok::<Option<CompView>, ErrorView>(None)
        }),
{
    lemma_simple_comp(c, seq![], 1);
    assert(comp_bytes(c) + Seq::<u8>::empty() =~= comp_bytes(c));
    lemma_reread_same(c, 1);
}

} // verus!
