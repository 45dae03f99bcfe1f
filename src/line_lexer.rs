//! The lexer of one logical line: a pull-driven state machine that yields the
//! typed items of a property line or of a `BEGIN`/`END` line.
use crate::model::{name_char, name_ok};
use crate::text::{
    ascii_upper, boff, char_width, chars_of, lemma_boff_bound, lemma_boff_step, upper_char, utf8,
};
use vstd::prelude::*;

verus! {

/// The kind of a lexer item.
#[derive(Clone, Copy, Debug, PartialEq, Eq, Structural)]
pub enum ItemType {
    /// The lexer stopped on malformed input; the value is the message.
    Error,
    /// A value of a property parameter (escapes still in it).
    ParamValue,
    /// The value of a property.
    PropValue,
    /// A property or parameter name.
    Id,
    /// The `BEGIN` of a component line.
    Begin,
    /// The `END` of a component line.
    End,
    /// The name of a component.
    CompName,
}

/// An item: its kind, the byte offset where it starts in the logical line,
/// its text and the line number.
#[derive(Clone, Debug)]
pub struct Item {
    pub typ: ItemType,
    pub pos: usize,
    pub val: String,
    pub line: u32,
}

/// An item as the specification sees it: kind, byte offset and text.
pub type LexItem = (ItemType, int, Seq<char>);

impl Item {
    pub open spec fn view(&self) -> LexItem {
        (self.typ, self.pos as int, self.val@)
    }
}

/// The states of the lexer.
#[derive(Clone, Copy, Debug, PartialEq, Eq, Structural)]
pub enum LexState {
    PropName,
    BeforeCompName,
    CompName,
    BeforeValue,
    ParamName,
    BeforeParamValue,
    ParamValue,
    ParamQValue,
    AfterParamValue,
    Value,
    Stop,
}

/// Which characters end a run of value characters.
#[derive(Clone, Copy, Debug, PartialEq, Eq, Structural)]
pub enum RunKind {
    /// An unquoted parameter value ends at `"`, `,`, `;` or `:`.
    Param,
    /// A quoted parameter value ends at `"`.
    Quoted,
    /// A property value runs to the end of the line.
    Value,
}

/// A control character: below space other than HTAB, or DEL.
pub open spec fn control_char(c: char) -> bool {
    (c < ' ' && c != '\t') || c == '\x7f'
}

/// A character that a run of the given kind takes.
pub open spec fn run_char(c: char, k: RunKind) -> bool {
    !control_char(c) && match k {
        RunKind::Param => c != '"' && c != ',' && c != ';' && c != ':',
        RunKind::Quoted => c != '"',
        RunKind::Value => true,
    }
}

/// The end of the run of name characters that starts at `p`.
pub open spec fn name_end(l: Seq<char>, p: int) -> int
    decreases l.len() - p,
{
    if 0 <= p < l.len() && name_char(l[p]) {
        name_end(l, p + 1)
    } else {
        p
    }
}

/// The end of the run of value characters of kind `k` that starts at `p`.
pub open spec fn run_end(l: Seq<char>, p: int, k: RunKind) -> int
    decreases l.len() - p,
{
    if 0 <= p < l.len() && run_char(l[p], k) {
        run_end(l, p + 1, k)
    } else {
        p
    }
}

pub open spec fn err_item(b: int, msg: Seq<char>) -> Option<LexItem> {
    Some((ItemType::Error, b, msg))
}

/// One transition of the lexer from `st` at character index `pos`: the item it
/// emits, if any, the next state and the next index. Every item starts at the
/// current start, which is `pos` except inside a quoted value, where it is the
/// opening quote.
pub open spec fn lex_step(l: Seq<char>, st: LexState, pos: int) -> (Option<LexItem>, LexState, int) {
    let start = if st == LexState::ParamQValue {
        pos - 1
    } else {
        pos
    };
    let b = boff(l, start);
    let at = |c: char| pos < l.len() && l[pos] == c;
    match st {
        LexState::PropName => {
            let e = name_end(l, pos);
            let t = l.subrange(pos, e);
            if e == pos {
                (
                    err_item(b, "expected one or more alphanumerical characters or '-'"@),
                    LexState::Stop,
                    pos,
                )
            } else if ascii_upper(t) == seq!['B', 'E', 'G', 'I', 'N'] {
                (Some((ItemType::Begin, b, t)), LexState::BeforeCompName, e)
            } else if ascii_upper(t) == seq!['E', 'N', 'D'] {
                (Some((ItemType::End, b, t)), LexState::BeforeCompName, e)
            } else {
                (Some((ItemType::Id, b, t)), LexState::BeforeValue, e)
            }
        },
        LexState::BeforeCompName => {
            if at(':') {
                (None, LexState::CompName, pos + 1)
            } else {
                (err_item(b, "expected ':'"@), LexState::Stop, pos)
            }
        },
        LexState::CompName => {
            let e = name_end(l, pos);
            if pos >= l.len() {
                (err_item(b, "component name can't have length 0"@), LexState::Stop, pos)
            } else if e == l.len() {
                (Some((ItemType::CompName, b, l.subrange(pos, e))), LexState::Stop, e)
            } else {
                (
                    err_item(
                        boff(l, e),
                        "unexpected character, expected eol, alphanumeric or '-'"@,
                    ),
                    LexState::Stop,
                    e,
                )
            }
        },
        LexState::BeforeValue => {
            if at(':') {
                (None, LexState::Value, pos + 1)
            } else if at(';') {
                (None, LexState::ParamName, pos + 1)
            } else {
                (err_item(b, "expected ':' or ';'"@), LexState::Stop, pos)
            }
        },
        LexState::ParamName => {
            let e = name_end(l, pos);
            if e == pos {
                (err_item(b, "name must not be empty"@), LexState::Stop, pos)
            } else {
                (Some((ItemType::Id, b, l.subrange(pos, e))), LexState::BeforeParamValue, e)
            }
        },
        LexState::BeforeParamValue => {
            if at('=') {
                (None, LexState::ParamValue, pos + 1)
            } else {
                (err_item(b, "expected '='"@), LexState::Stop, pos)
            }
        },
        LexState::ParamValue => {
            if at('"') {
                (None, LexState::ParamQValue, pos + 1)
            } else {
                let e = run_end(l, pos, RunKind::Param);
                (Some((ItemType::ParamValue, b, l.subrange(pos, e))), LexState::AfterParamValue, e)
            }
        },
        LexState::ParamQValue => {
            let e = run_end(l, pos, RunKind::Quoted);
            if e < l.len() && l[e] == '"' {
                (
                    Some((ItemType::ParamValue, b, l.subrange(pos, e))),
                    LexState::AfterParamValue,
                    e + 1,
                )
            } else {
                (
                    err_item(b, "expected '\"' or other non-control-characters"@),
                    LexState::Stop,
                    e,
                )
            }
        },
        LexState::AfterParamValue => {
            if at(':') {
                (None, LexState::Value, pos + 1)
            } else if at(';') {
                (None, LexState::ParamName, pos + 1)
            } else if at(',') {
                (None, LexState::ParamValue, pos + 1)
            } else {
                (err_item(b, "expected ',', ':' or ';'"@), LexState::Stop, pos)
            }
        },
        LexState::Value => {
            let e = run_end(l, pos, RunKind::Value);
            if pos >= l.len() {
                (err_item(b, "property value can't have length 0"@), LexState::Stop, pos)
            } else if e == l.len() {
                (Some((ItemType::PropValue, b, l.subrange(pos, e))), LexState::Stop, e)
            } else {
                (err_item(b, "unexpected character, expected eol"@), LexState::Stop, e)
            }
        },
        LexState::Stop => (None, LexState::Stop, pos),
    }
}

/// What is left to scan from `st` at `pos`, as a number that each transition
/// lowers.
pub open spec fn lex_measure(l: Seq<char>, st: LexState, pos: int) -> int {
    2 * (l.len() - pos) + if st == LexState::ParamValue {
        1int
    } else {
        0int
    }
}

pub open spec fn opt_seq(i: Option<LexItem>) -> Seq<LexItem> {
    match i {
        Some(x) => seq![x],
        None => seq![],
    }
}

/// The items that the lexer yields from state `st` at index `pos` until it stops.
pub open spec fn lex_run(l: Seq<char>, st: LexState, pos: int) -> Seq<LexItem>
    decreases lex_measure(l, st, pos),
{
    if st == LexState::Stop || !(0 <= pos <= l.len()) {
        seq![]
    } else {
        let (item, st2, pos2) = lex_step(l, st, pos);
        if st2 != LexState::Stop && 0 <= pos2 <= l.len() && lex_measure(l, st2, pos2) < lex_measure(
            l,
            st,
            pos,
        ) {
            opt_seq(item) + lex_run(l, st2, pos2)
        } else {
            opt_seq(item)
        }
    }
}

/// All items of a logical line.
pub open spec fn lex_line(l: Seq<char>) -> Seq<LexItem> {
    lex_run(l, LexState::PropName, 0)
}

fn is_name_char(c: char) -> (r: bool)
    ensures
        r == name_char(c),
{
    ('A' <= c && c <= 'Z') || ('a' <= c && c <= 'z') || ('0' <= c && c <= '9') || c == '-'
}

fn is_run_char(c: char, k: RunKind) -> (r: bool)
    ensures
        r == run_char(c, k),
{
    !((c < ' ' && c != '\t') || c == '\x7f') && match k {
        RunKind::Param => c != '"' && c != ',' && c != ';' && c != ':',
        RunKind::Quoted => c != '"',
        RunKind::Value => true,
    }
}

/// The lexer of one logical line.
#[derive(Debug)]
pub struct LineLexer {
    /// The line being scanned and its line number.
    pub line: (String, u32),
    /// The characters of the line.
    pub chars: Vec<char>,
    /// The state the next transition starts from.
    pub state: LexState,
    /// The character index of the scan.
    pub pos: usize,
    /// The byte offset of `pos`.
    pub bpos: usize,
}

impl LineLexer {
    /// The characters of the line.
    pub open spec fn text(&self) -> Seq<char> {
        self.chars@
    }

    /// The items still to come.
    pub open spec fn items(&self) -> Seq<LexItem> {
        lex_run(self.chars@, self.state, self.pos as int)
    }

    pub open spec fn wf(&self) -> bool {
        &&& self.chars@ == self.line.0@
        &&& self.pos <= self.chars@.len()
        &&& self.bpos == boff(self.chars@, self.pos as int)
        &&& utf8(self.chars@).len() <= usize::MAX
        &&& self.state == LexState::ParamQValue ==> self.pos >= 1 && self.chars@[self.pos - 1]
            == '"'
    }

    /// A lexer at the start of `input`, line number `line`.
    pub fn new(line: u32, input: String) -> (r: LineLexer)
        ensures
            r.wf(),
            r.line == (input, line),
            r.text() == input@,
            r.items() == lex_line(input@),
    {
        let chars = chars_of(input.as_str());
        let nbytes = input.as_str().as_bytes().len();
        assert(nbytes == utf8(chars@).len());
        proof {
            lemma_boff_bound(chars@, 0);
        }
        LineLexer { line: (input, line), chars, state: LexState::PropName, pos: 0, bpos: 0 }
    }

    /// The line and its number.
    pub fn get_line(&self) -> (r: (String, u32))
        ensures
            r == self.line,
    {
        (self.line.0.clone(), self.line.1)
    }

    /// The end of the name run from `p`, with its byte offset.
    fn scan_name(&self, p: usize, bp: usize) -> (r: (usize, usize))
        requires
            self.wf(),
            p <= self.chars@.len(),
            bp == boff(self.chars@, p as int),
        ensures
            r.0 == name_end(self.chars@, p as int),
            p <= r.0 <= self.chars@.len(),
            r.1 == boff(self.chars@, r.0 as int),
    {
        let n = self.chars.len();
        let mut e = p;
        let mut be = bp;
        while e < n && is_name_char(self.chars[e])
            invariant
                self.wf(),
                n == self.chars@.len(),
                p <= e <= n,
                be == boff(self.chars@, e as int),
                name_end(self.chars@, p as int) == name_end(self.chars@, e as int),
            decreases n - e,
        {
            proof {
                lemma_boff_step(self.chars@, e as int);
                lemma_boff_bound(self.chars@, e + 1);
            }
            be = be + char_width(self.chars[e]);
            e = e + 1;
        }
        (e, be)
    }

    /// The end of the value run of kind `k` from `p`, with its byte offset.
    fn scan_run(&self, p: usize, bp: usize, k: RunKind) -> (r: (usize, usize))
        requires
            self.wf(),
            p <= self.chars@.len(),
            bp == boff(self.chars@, p as int),
        ensures
            r.0 == run_end(self.chars@, p as int, k),
            p <= r.0 <= self.chars@.len(),
            r.1 == boff(self.chars@, r.0 as int),
    {
        let n = self.chars.len();
        let mut e = p;
        let mut be = bp;
        while e < n && is_run_char(self.chars[e], k)
            invariant
                self.wf(),
                n == self.chars@.len(),
                p <= e <= n,
                be == boff(self.chars@, e as int),
                run_end(self.chars@, p as int, k) == run_end(self.chars@, e as int, k),
            decreases n - e,
        {
            proof {
                lemma_boff_step(self.chars@, e as int);
                lemma_boff_bound(self.chars@, e + 1);
            }
            be = be + char_width(self.chars[e]);
            e = e + 1;
        }
        (e, be)
    }

    /// Whether the characters `a..e` equal the upper-case word `w` after ASCII
    /// upper-casing.
    fn upper_equals(&self, a: usize, e: usize, w: &Vec<char>) -> (r: bool)
        requires
            a <= e <= self.chars@.len(),
            forall|i: int| 0 <= i < w@.len() ==> 'A' <= #[trigger] w@[i] && w@[i] <= 'Z',
        ensures
            r == (ascii_upper(self.chars@.subrange(a as int, e as int)) == w@),
    {
        let ghost t = self.chars@.subrange(a as int, e as int);
        if e - a != w.len() {
            assert(ascii_upper(t).len() != w@.len());
            return false;
        }
        let mut i: usize = 0;
        while i < w.len()
            invariant
                a <= e <= self.chars@.len(),
                e - a == w@.len(),
                t == self.chars@.subrange(a as int, e as int),
                forall|i: int| 0 <= i < w@.len() ==> 'A' <= #[trigger] w@[i] && w@[i] <= 'Z',
                i <= w@.len(),
                forall|j: int| 0 <= j < i ==> upper_char(#[trigger] t[j]) == w@[j],
            decreases w@.len() - i,
        {
            let c = self.chars[a + i];
            let wc = w[i];
            assert(t[i as int] == c);
            proof {
                vstd::utf8::char_u32_cast(c, c as u32);
                vstd::utf8::char_u32_cast(wc, wc as u32);
                if 'a' <= c && c <= 'z' {
                    vstd::utf8::char_u32_cast(upper_char(c), (c as u32 - 32) as u32);
                }
            }
            let same = c == wc || ((c as u32) == (wc as u32) + 32 && 'a' <= c && c <= 'z');
            assert(same == (upper_char(c) == wc));
            if !same {
                assert(ascii_upper(t)[i as int] != w@[i as int]);
                return false;
            }
            i = i + 1;
        }
        assert(ascii_upper(t) =~= w@);
        true
    }

    /// The text of the characters `a..e`.
    fn text_of(&self, a: usize, e: usize) -> (r: String)
        requires
            self.wf(),
            a <= e <= self.chars@.len(),
        ensures
            r@ == self.chars@.subrange(a as int, e as int),
    {
        self.line.0.as_str().substring_char(a, e).to_owned()
    }

    fn item(&self, typ: ItemType, pos: usize, val: String) -> (r: Item)
        ensures
            r.typ == typ,
            r.pos == pos,
            r.val == val,
            r.line == self.line.1,
    {
        Item { typ, pos, val, line: self.line.1 }
    }

    fn error(&mut self, pos: usize, msg: &str) -> (r: Item)
        ensures
            r@ == (ItemType::Error, pos as int, msg@),
            r.line == old(self).line.1,
            final(self).state == LexState::Stop,
            final(self).line == old(self).line,
            final(self).chars == old(self).chars,
            final(self).pos == old(self).pos,
            final(self).bpos == old(self).bpos,
    {
        self.state = LexState::Stop;
        Item { typ: ItemType::Error, pos, val: String::from_str(msg), line: self.line.1 }
    }

    fn at(&self, c: char) -> (r: bool)
        requires
            self.pos <= self.chars@.len(),
        ensures
            r == (self.pos < self.chars@.len() && self.chars@[self.pos as int] == c),
    {
        self.pos < self.chars.len() && self.chars[self.pos] == c
    }

    /// Consumes one ASCII character that `at` has just seen.
    fn skip_one(&mut self, next: LexState)
        requires
            old(self).wf(),
            old(self).pos < old(self).chars@.len(),
            (old(self).chars@[old(self).pos as int] as u32) < 0x80,
            next == LexState::ParamQValue ==> old(self).chars@[old(self).pos as int] == '"',
        ensures
            final(self).wf(),
            final(self).pos == old(self).pos + 1,
            final(self).state == next,
            final(self).chars == old(self).chars,
            final(self).line == old(self).line,
    {
        proof {
            lemma_boff_step(self.chars@, self.pos as int);
            lemma_boff_bound(self.chars@, self.pos + 1);
        }
        let w = char_width(self.chars[self.pos]);
        assert(self.bpos + w <= utf8(self.chars@).len());
        let n = self.chars.len();
        assert(self.pos < n);
        self.bpos = self.bpos + w;
        self.pos = self.pos + 1;
        self.state = next;
    }

    /// Runs one transition.
    fn step(&mut self) -> (r: Option<Item>)
        requires
            old(self).wf(),
            old(self).state != LexState::Stop,
        ensures
            final(self).wf(),
            final(self).line == old(self).line,
            final(self).chars == old(self).chars,
            ({
                let (it, st2, p2) = lex_step(old(self).chars@, old(self).state, old(self).pos as int);
                &&& r matches Some(x) ==> it == Some(x@) && x.line == old(self).line.1 && ((x.typ
                    == ItemType::CompName || x.typ == ItemType::PropValue) ==> final(self).state
                    == LexState::Stop)
                &&& r is None ==> it is None
                &&& final(self).state == st2
                &&& final(self).state != LexState::Stop ==> final(self).pos == p2 && lex_measure(
                    old(self).chars@,
                    st2,
                    p2,
                ) < lex_measure(old(self).chars@, old(self).state, old(self).pos as int)
            }),
    {
        let ghost l = self.chars@;
        let pos = self.pos;
        let bpos = self.bpos;
        proof {
            lemma_boff_bound(l, pos as int);
        }
        match self.state {
            LexState::PropName => {
                let (e, be) = self.scan_name(pos, bpos);
                if e == pos {
                    return Some(
                        self.error(bpos, "expected one or more alphanumerical characters or '-'"),
                    );
                }
                let val = self.text_of(pos, e);
                let begin = vec!['B', 'E', 'G', 'I', 'N'];
                let end = vec!['E', 'N', 'D'];
                assert(begin@ =~= seq!['B', 'E', 'G', 'I', 'N']);
                assert(end@ =~= seq!['E', 'N', 'D']);
                let typ = if self.upper_equals(pos, e, &begin) {
                    self.state = LexState::BeforeCompName;
                    ItemType::Begin
                } else if self.upper_equals(pos, e, &end) {
                    self.state = LexState::BeforeCompName;
                    ItemType::End
                } else {
                    self.state = LexState::BeforeValue;
                    ItemType::Id
                };
                self.pos = e;
                self.bpos = be;
                Some(self.item(typ, bpos, val))
            },
            LexState::BeforeCompName => {
                if self.at(':') {
                    self.skip_one(LexState::CompName);
                    None
                } else {
                    Some(self.error(bpos, "expected ':'"))
                }
            },
            LexState::CompName => {
                if pos >= self.chars.len() {
                    return Some(self.error(bpos, "component name can't have length 0"));
                }
                let (e, be) = self.scan_name(pos, bpos);
                if e == self.chars.len() {
                    let val = self.text_of(pos, e);
                    self.pos = e;
                    self.bpos = be;
                    self.state = LexState::Stop;
                    Some(self.item(ItemType::CompName, bpos, val))
                } else {
                    self.pos = e;
                    self.bpos = be;
                    Some(
                        self.error(be, "unexpected character, expected eol, alphanumeric or '-'"),
                    )
                }
            },
            LexState::BeforeValue => {
                if self.at(':') {
                    self.skip_one(LexState::Value);
                    None
                } else if self.at(';') {
                    self.skip_one(LexState::ParamName);
                    None
                } else {
                    Some(self.error(bpos, "expected ':' or ';'"))
                }
            },
            LexState::ParamName => {
                let (e, be) = self.scan_name(pos, bpos);
                if e == pos {
                    return Some(self.error(bpos, "name must not be empty"));
                }
                let val = self.text_of(pos, e);
                self.pos = e;
                self.bpos = be;
                self.state = LexState::BeforeParamValue;
                Some(self.item(ItemType::Id, bpos, val))
            },
            LexState::BeforeParamValue => {
                if self.at('=') {
                    self.skip_one(LexState::ParamValue);
                    None
                } else {
                    Some(self.error(bpos, "expected '='"))
                }
            },
            LexState::ParamValue => {
                if self.at('"') {
                    self.skip_one(LexState::ParamQValue);
                    None
                } else {
                    let (e, be) = self.scan_run(pos, bpos, RunKind::Param);
                    let val = self.text_of(pos, e);
                    self.pos = e;
                    self.bpos = be;
                    self.state = LexState::AfterParamValue;
                    Some(self.item(ItemType::ParamValue, bpos, val))
                }
            },
            LexState::ParamQValue => {
                proof {
                    lemma_boff_step(l, pos - 1);
                    crate::text::lemma_utf8_ascii_char('"');
                }
                let start = bpos - 1;
                let (e, be) = self.scan_run(pos, bpos, RunKind::Quoted);
                if e < self.chars.len() && self.chars[e] == '"' {
                    let val = self.text_of(pos, e);
                    self.state = LexState::AfterParamValue;
                    self.pos = e;
                    self.bpos = be;
                    self.skip_one(LexState::AfterParamValue);
                    Some(self.item(ItemType::ParamValue, start, val))
                } else {
                    self.pos = e;
                    self.bpos = be;
                    Some(self.error(start, "expected '\"' or other non-control-characters"))
                }
            },
            LexState::AfterParamValue => {
                if self.at(':') {
                    self.skip_one(LexState::Value);
                    None
                } else if self.at(';') {
                    self.skip_one(LexState::ParamName);
                    None
                } else if self.at(',') {
                    self.skip_one(LexState::ParamValue);
                    None
                } else {
                    Some(self.error(bpos, "expected ',', ':' or ';'"))
                }
            },
            LexState::Value => {
                if pos >= self.chars.len() {
                    return Some(self.error(bpos, "property value can't have length 0"));
                }
                let (e, be) = self.scan_run(pos, bpos, RunKind::Value);
                if e == self.chars.len() {
                    let val = self.text_of(pos, e);
                    self.pos = e;
                    self.bpos = be;
                    self.state = LexState::Stop;
                    Some(self.item(ItemType::PropValue, bpos, val))
                } else {
                    self.pos = e;
                    self.bpos = be;
                    Some(self.error(bpos, "unexpected character, expected eol"))
                }
            },
            LexState::Stop => None,
        }
    }

    /// The next item of the line, or `None` once the lexer has stopped.
    pub fn next_item(&mut self) -> (r: Option<Item>)
        requires
            old(self).wf(),
        ensures
            final(self).wf(),
            final(self).line == old(self).line,
            final(self).text() == old(self).text(),
            old(self).items().len() == 0 ==> r is None && final(self).items().len() == 0,
            old(self).items().len() > 0 ==> (r matches Some(x) && x@ == old(self).items()[0]
                && x.line == old(self).line.1 && final(self).items() == old(
                self,
            ).items().drop_first()),
            r matches Some(x) && (x.typ == ItemType::CompName || x.typ == ItemType::PropValue)
                ==> final(self).items().len() == 0,
    {
        loop
            invariant
                self.wf(),
                self.line == old(self).line,
                self.chars == old(self).chars,
                self.items() == old(self).items(),
            decreases lex_measure(self.chars@, self.state, self.pos as int) + 2,
        {
            if self.state == LexState::Stop {
                return None;
            }
            let ghost before = self.items();
            let ghost st = self.state;
            let ghost p = self.pos as int;
            let r = self.step();
            proof {
                let (it, st2, p2) = lex_step(self.chars@, st, p);
                if self.state == LexState::Stop {
                    assert(before == opt_seq(it));
                } else {
                    assert(before == opt_seq(it) + self.items());
                }
            }
            match r {
                Some(x) => {
                    proof {
                        assert(before[0] == x@);
                        if self.state == LexState::Stop {
                            assert(self.items() =~= before.drop_first());
                        } else {
                            assert(self.items() =~= before.drop_first());
                        }
                    }
                    return Some(x);
                },
                None => {},
            }
            assert(self.items() =~= before);
        }
    }
}

/// What every item of the lexer satisfies: names are non-empty runs of name
/// characters, and property values are not empty.
pub open spec fn item_ok(it: LexItem) -> bool {
    &&& (it.0 == ItemType::CompName || it.0 == ItemType::Id) ==> name_ok(it.2)
    &&& it.0 == ItemType::PropValue ==> it.2.len() > 0
}

proof fn lemma_name_end(l: Seq<char>, p: int)
    requires
        0 <= p <= l.len(),
    ensures
        p <= name_end(l, p) <= l.len(),
        forall|i: int| p <= i < name_end(l, p) ==> name_char(#[trigger] l[i]),
    decreases l.len() - p,
{
    if p < l.len() && name_char(l[p]) {
        lemma_name_end(l, p + 1);
    }
}

proof fn lemma_run_end(l: Seq<char>, p: int, k: RunKind)
    requires
        0 <= p <= l.len(),
    ensures
        p <= run_end(l, p, k) <= l.len(),
    decreases l.len() - p,
{
    if p < l.len() && run_char(l[p], k) {
        lemma_run_end(l, p + 1, k);
    }
}

proof fn lemma_step_ok(l: Seq<char>, st: LexState, pos: int)
    requires
        0 <= pos <= l.len(),
    ensures
        lex_step(l, st, pos).0 matches Some(it) ==> item_ok(it),
{
    lemma_name_end(l, pos);
    lemma_run_end(l, pos, RunKind::Value);
    let e = name_end(l, pos);
    assert forall|i: int| 0 <= i < l.subrange(pos, e).len() implies name_char(
        #[trigger] l.subrange(pos, e)[i],
    ) by {
        assert(l.subrange(pos, e)[i] == l[pos + i]);
    }
}

/// Every item the lexer yields from any state satisfies `item_ok`.
pub proof fn lemma_lex_run_ok(l: Seq<char>, st: LexState, pos: int)
    ensures
        forall|i: int|
            0 <= i < lex_run(l, st, pos).len() ==> item_ok(#[trigger] lex_run(l, st, pos)[i]),
    decreases lex_measure(l, st, pos),
{
    if st != LexState::Stop && 0 <= pos <= l.len() {
        let (item, st2, pos2) = lex_step(l, st, pos);
        lemma_step_ok(l, st, pos);
        if st2 != LexState::Stop && 0 <= pos2 <= l.len() && lex_measure(l, st2, pos2)
            < lex_measure(l, st, pos) {
            lemma_lex_run_ok(l, st2, pos2);
            let a = opt_seq(item);
            let b = lex_run(l, st2, pos2);
            assert forall|i: int| 0 <= i < (a + b).len() implies item_ok(#[trigger] (a + b)[i]) by {
                if i >= a.len() {
                    assert((a + b)[i] == b[i - a.len()]);
                }
            }
        }
    }
}

proof fn lemma_name_end_exact(l: Seq<char>, p: int, e: int)
    requires
        0 <= p <= e <= l.len(),
        forall|i: int| p <= i < e ==> name_char(#[trigger] l[i]),
        e == l.len() || !name_char(l[e]),
    ensures
        name_end(l, p) == e,
    decreases e - p,
{
    if p < e {
        lemma_name_end_exact(l, p + 1, e);
    }
}

/// The items of a component line `WORD:NAME`, where `WORD` is `BEGIN` or
/// `END` as `w` says.
proof fn lemma_lex_comp_line(w: Seq<char>, n: Seq<char>, typ: ItemType)
    requires
        name_ok(n),
        (w == seq!['B', 'E', 'G', 'I', 'N'] && typ == ItemType::Begin) || (w == seq!['E', 'N', 'D']
            && typ == ItemType::End),
    ensures
        ({
            let it = lex_line(w + seq![':'] + n);
            &&& it.len() == 2
            &&& it[0].0 == typ
            &&& it[1].0 == ItemType::CompName
            &&& it[1].2 == n
        }),
{
    let l = w + seq![':'] + n;
    let k = w.len() as int;
    assert(l[k] == ':');
    assert forall|i: int| 0 <= i < k implies name_char(#[trigger] l[i]) by {
        assert(l[i] == w[i]);
    }
    lemma_name_end_exact(l, 0, k);
    assert forall|i: int| k + 1 <= i < l.len() implies name_char(#[trigger] l[i]) by {
        assert(l[i] == n[i - k - 1]);
    }
    lemma_name_end_exact(l, k + 1, l.len() as int);
    assert(l.subrange(0, k) =~= w);
    assert(ascii_upper(l.subrange(0, k)) =~= w);
    assert(ascii_upper(w).len() == w.len());
    assert(l.subrange(k + 1, l.len() as int) =~= n);
    let c = lex_run(l, LexState::CompName, k + 1);
    assert(c == seq![(ItemType::CompName, boff(l, k + 1), n)]);
    assert(lex_run(l, LexState::BeforeCompName, k) == c);
    assert(lex_run(l, LexState::PropName, 0) == seq![(typ, boff(l, 0), w)] + c);
}

/// The items of `BEGIN:NAME`: `Begin`, then the name.
pub proof fn lemma_lex_begin_line(n: Seq<char>)
    requires
        name_ok(n),
    ensures
        ({
            let it = lex_line("BEGIN:"@ + n);
            &&& it.len() == 2
            &&& it[0].0 == ItemType::Begin
            &&& it[1].0 == ItemType::CompName
            &&& it[1].2 == n
        }),
{
    reveal_strlit("BEGIN:");
    assert("BEGIN:"@ =~= seq!['B', 'E', 'G', 'I', 'N'] + seq![':']);
    lemma_lex_comp_line(seq!['B', 'E', 'G', 'I', 'N'], n, ItemType::Begin);
}

/// The items of `END:NAME`: `End`, then the name.
pub proof fn lemma_lex_end_line(n: Seq<char>)
    requires
        name_ok(n),
    ensures
        ({
            let it = lex_line("END:"@ + n);
            &&& it.len() == 2
            &&& it[0].0 == ItemType::End
            &&& it[1].0 == ItemType::CompName
            &&& it[1].2 == n
        }),
{
    reveal_strlit("END:");
    assert("END:"@ =~= seq!['E', 'N', 'D'] + seq![':']);
    lemma_lex_comp_line(seq!['E', 'N', 'D'], n, ItemType::End);
}

proof fn lemma_run_end_exact(l: Seq<char>, p: int, k: RunKind)
    requires
        0 <= p <= l.len(),
        forall|i: int| p <= i < l.len() ==> run_char(#[trigger] l[i], k),
    ensures
        run_end(l, p, k) == l.len(),
    decreases l.len() - p,
{
    if p < l.len() {
        lemma_run_end_exact(l, p + 1, k);
    }
}

/// The items of a property line `NAME:VALUE` whose name is already upper
/// case and is neither `BEGIN` nor `END`, and whose value is free of control
/// characters: the name, then the value.
pub proof fn lemma_lex_prop_line(n: Seq<char>, v: Seq<char>)
    requires
        name_ok(n),
        ascii_upper(n) == n,
        n != seq!['B', 'E', 'G', 'I', 'N'],
        n != seq!['E', 'N', 'D'],
        v.len() > 0,
        forall|i: int| 0 <= i < v.len() ==> !control_char(#[trigger] v[i]),
    ensures
        ({
            let it = lex_line(n + seq![':'] + v);
            &&& it.len() == 2
            &&& it[0].0 == ItemType::Id
            &&& it[0].2 == n
            &&& it[1].0 == ItemType::PropValue
            &&& it[1].2 == v
        }),
{
    let l = n + seq![':'] + v;
    let k = n.len() as int;
    assert(l[k] == ':');
    assert forall|i: int| 0 <= i < k implies name_char(#[trigger] l[i]) by {
        assert(l[i] == n[i]);
    }
    lemma_name_end_exact(l, 0, k);
    assert forall|i: int| k + 1 <= i < l.len() implies run_char(#[trigger] l[i], RunKind::Value) by {
        assert(l[i] == v[i - k - 1]);
    }
    lemma_run_end_exact(l, k + 1, RunKind::Value);
    assert(l.subrange(0, k) =~= n);
    assert(l.subrange(k + 1, l.len() as int) =~= v);
    let c = lex_run(l, LexState::Value, k + 1);
    assert(c == seq![(ItemType::PropValue, boff(l, k + 1), v)]);
    assert(lex_run(l, LexState::BeforeValue, k) == c);
    assert(lex_run(l, LexState::PropName, 0) == seq![(ItemType::Id, boff(l, 0), n)] + c);
}

} // verus!
