//! Encoding of component trees as content lines, folded at 75 octets.
use crate::model::{comp_view, CompView, Component, PropView, Property};
use crate::rfc6868::{escape_chars, escape_param_value};
use crate::text::{
    ascii_upper, chars_of, push_bytes, push_str, string_of_valid, to_upper, utf8, CR, LF, SPACE,
};
use vstd::prelude::*;
use vstd::utf8::{is_char_boundary, length_of_first_scalar, pop_first_scalar, valid_utf8};

verus! {

broadcast use vstd::utf8::group_utf8_lib;

/// The most octets a physical line may hold, its CRLF not counted.
pub const FOLDING_LENGTH: usize = 75;

/// The largest character boundary of `data` that is at most `i`.
pub open spec fn cut(data: Seq<u8>, i: int) -> int
    decreases i,
{
    if i <= 0 {
        0
    } else if is_char_boundary(data, i) {
        i
    } else {
        cut(data, i - 1)
    }
}

/// Appends `data` to the physical line `buf`, folding as needed: while the
/// line would grow past 75 octets, it is ended after as many octets of
/// `data` as fit without splitting a character, and a new line starts with a
/// single space. Gives the completed lines (with their CRLF) and the new
/// current line.
pub open spec fn fold_seg(buf: Seq<u8>, data: Seq<u8>) -> (Seq<u8>, Seq<u8>)
    decreases data.len(), buf.len(),
{
    if buf.len() + data.len() <= FOLDING_LENGTH {
        (seq![], buf + data)
    } else {
        let d = cut(data, FOLDING_LENGTH - buf.len());
        if 0 <= d <= data.len() && (d > 0 || buf.len() > 1) {
            let (e, b) = fold_seg(seq![SPACE], data.subrange(d, data.len() as int));
            (buf + data.subrange(0, d) + seq![CR, LF] + e, b)
        } else {
            (seq![], buf + data)
        }
    }
}

/// `fold_seg` over a list of segments, one after the other.
pub open spec fn fold_all(buf: Seq<u8>, segs: Seq<Seq<char>>) -> (Seq<u8>, Seq<u8>)
    decreases segs.len(),
{
    if segs.len() == 0 {
        (seq![], buf)
    } else {
        let (e1, b1) = fold_seg(buf, utf8(segs[0]));
        let (e2, b2) = fold_all(b1, segs.drop_first());
        (e1 + e2, b2)
    }
}

/// An escaped parameter value, in double quotes when it holds `,`, `;` or `:`.
pub open spec fn quoted(e: Seq<char>) -> Seq<Seq<char>> {
    if e.contains(',') || e.contains(';') || e.contains(':') {
        seq!["\""@, e, "\""@]
    } else {
        seq![e]
    }
}

/// The segments of the values of one parameter, separated by commas.
pub open spec fn values_segs(vs: Seq<Seq<char>>) -> Seq<Seq<char>>
    decreases vs.len(),
{
    if vs.len() == 0 {
        seq![]
    } else {
        values_segs(vs.drop_last()) + (if vs.len() > 1 {
            seq![","@]
        } else {
            seq![]
        }) + quoted(escape_chars(vs.last()))
    }
}

/// The segments of the parameters: `;NAME=` and the values of each.
pub open spec fn params_segs(e: Seq<(Seq<char>, Seq<Seq<char>>)>) -> Seq<Seq<char>>
    decreases e.len(),
{
    if e.len() == 0 {
        seq![]
    } else {
        params_segs(e.drop_last()) + seq![";"@, ascii_upper(e.last().0), "="@] + values_segs(
            e.last().1,
        )
    }
}

/// The segments of a property line: name, parameters, `:` and the value.
pub open spec fn prop_segments(p: PropView) -> Seq<Seq<char>> {
    seq![ascii_upper(p.name)] + params_segs(p.params) + seq![":"@, p.value]
}

/// The folded lines of a property.
pub open spec fn prop_line(p: PropView) -> Seq<u8> {
    let (e, b) = fold_all(seq![], prop_segments(p));
    e + b + seq![CR, LF]
}

pub open spec fn props_bytes(ps: Seq<PropView>) -> Seq<u8>
    decreases ps.len(),
{
    if ps.len() == 0 {
        seq![]
    } else {
        props_bytes(ps.drop_last()) + prop_line(ps.last())
    }
}

/// The encoding of a component tree: `BEGIN:NAME`, its properties, its
/// sub-components, `END:NAME`, each line ending in CRLF. Names are written
/// in ASCII upper case, which is upper case for the name alphabet.
pub open spec fn comp_bytes(c: CompView) -> Seq<u8>
    decreases c,
{
    utf8("BEGIN:"@) + utf8(ascii_upper(c.name)) + seq![CR, LF] + props_bytes(c.props) + comps_bytes(
        c.subs,
    ) + utf8("END:"@) + utf8(ascii_upper(c.name)) + seq![CR, LF]
}

pub open spec fn comps_bytes(cs: Seq<CompView>) -> Seq<u8>
    decreases cs,
{
    if cs.len() == 0 {
        seq![]
    } else {
        comps_bytes(cs.drop_last()) + comp_bytes(cs.last())
    }
}

/// A boundary at or below the limit is never passed over by `cut`.
proof fn lemma_cut_at_least(data: Seq<u8>, i: int, k: int)
    requires
        0 <= k <= i,
        is_char_boundary(data, k),
    ensures
        k <= cut(data, i) <= i,
    decreases i,
{
    if i > 0 && !is_char_boundary(data, i) {
        lemma_cut_at_least(data, i - 1, k);
    }
}

/// `cut` lands on a character boundary.
proof fn lemma_cut_boundary(data: Seq<u8>, i: int)
    requires
        valid_utf8(data),
    ensures
        cut(data, i) <= i || i < 0,
        cut(data, i) >= 0,
        is_char_boundary(data, cut(data, i)),
    decreases i,
{
    if i > 0 && !is_char_boundary(data, i) {
        lemma_cut_boundary(data, i - 1);
    }
}

/// In valid UTF-8 there is a boundary within the first four octets.
proof fn lemma_first_boundary(data: Seq<u8>)
    requires
        valid_utf8(data),
        data.len() > 0,
    ensures
        1 <= length_of_first_scalar(data) <= 4,
        length_of_first_scalar(data) <= data.len(),
        is_char_boundary(data, length_of_first_scalar(data)),
{
    let k = length_of_first_scalar(data);
    assert(pop_first_scalar(data) =~= data.subrange(k, data.len() as int));
    assert(is_char_boundary(pop_first_scalar(data), 0));
}

/// Writes content lines into a byte buffer.
pub struct Encoder {
    out: Vec<u8>,
}

fn needs_quotes(s: &str) -> (r: bool)
    ensures
        r == (s@.contains(',') || s@.contains(';') || s@.contains(':')),
{
    let cs = chars_of(s);
    let mut i: usize = 0;
    while i < cs.len()
        invariant
            cs@ == s@,
            i <= cs@.len(),
            forall|j: int| 0 <= j < i ==> cs@[j] != ',' && cs@[j] != ';' && cs@[j] != ':',
        decreases cs@.len() - i,
    {
        let c = cs[i];
        if c == ',' || c == ';' || c == ':' {
            assert(s@[i as int] == c);
            return true;
        }
        i = i + 1;
    }
    false
}

/// The segments of a property line, in order.
fn segments(property: &Property) -> (r: Vec<String>)
    ensures
        r@.map_values(|s: String| s@) == prop_segments(property@),
{
    let mut segs: Vec<String> = Vec::new();
    segs.push(to_upper(property.name.as_str()));
    let entries = &property.parameters.entries;
    let ghost e = property.parameters@;
    let n = entries.len();
    let mut i: usize = 0;
    assert(segs@.map_values(|s: String| s@) =~= seq![ascii_upper(property.name@)] + params_segs(
        e.subrange(0, 0),
    ));
    while i < n
        invariant
            n == entries@.len(),
            e == property.parameters@,
            e.len() == n,
            entries == property.parameters.entries,
            i <= n,
            segs@.map_values(|s: String| s@) == seq![ascii_upper(property.name@)] + params_segs(
                e.subrange(0, i as int),
            ),
        decreases n - i,
    {
        let ghost before = segs@.map_values(|s: String| s@);
        let key = &entries[i].0;
        let values = &entries[i].1;
        let ghost vs = e[i as int].1;
        assert(e.subrange(0, i + 1).drop_last() =~= e.subrange(0, i as int));
        assert(e.subrange(0, i + 1).last() == e[i as int]);
        segs.push(String::from_str(";"));
        segs.push(to_upper(key.as_str()));
        segs.push(String::from_str("="));
        let ghost mid = segs@.map_values(|s: String| s@);
        assert(mid =~= before + seq![";"@, ascii_upper(e[i as int].0), "="@] + values_segs(
            vs.subrange(0, 0),
        ));
        let m = values.len();
        let mut j: usize = 0;
        while j < m
            invariant
                m == values@.len(),
                vs.len() == m,
                forall|k: int| 0 <= k < m ==> #[trigger] vs[k] == values@[k]@,
                j <= m,
                segs@.map_values(|s: String| s@) == before + seq![
                    ";"@,
                    ascii_upper(e[i as int].0),
                    "="@,
                ] + values_segs(vs.subrange(0, j as int)),
            decreases m - j,
        {
            let ghost inner = segs@.map_values(|s: String| s@);
            assert(vs.subrange(0, j + 1).drop_last() =~= vs.subrange(0, j as int));
            assert(vs.subrange(0, j + 1).last() == values@[j as int]@);
            if j > 0 {
                segs.push(String::from_str(","));
            }
            let escaped = escape_param_value(values[j].as_str());
            assert(values_segs(vs.subrange(0, j + 1)) == values_segs(vs.subrange(0, j as int)) + (
            if j + 1 > 1 {
                seq![","@]
            } else {
                seq![]
            }) + quoted(escaped@));
            let ghost ev = escaped@;
            let ghost comma: Seq<Seq<char>> = if j > 0 {
                seq![","@]
            } else {
                seq![]
            };
            assert(segs@.map_values(|s: String| s@) =~= inner + comma);
            let ghost with_comma = segs@;
            if needs_quotes(escaped.as_str()) {
                segs.push(String::from_str("\""));
                segs.push(escaped);
                segs.push(String::from_str("\""));
                assert(segs@.map_values(|s: String| s@) =~= inner + comma + seq![
                    "\""@,
                    ev,
                    "\""@,
                ]);
            } else {
                segs.push(escaped);
                assert(segs@.map_values(|s: String| s@) =~= inner + comma + seq![ev]);
            }
            j = j + 1;
            assert(segs@.map_values(|s: String| s@) =~= before + seq![
                ";"@,
                ascii_upper(e[i as int].0),
                "="@,
            ] + values_segs(vs.subrange(0, j as int)));
        }
        assert(vs.subrange(0, m as int) =~= vs);
        i = i + 1;
        assert(segs@.map_values(|s: String| s@) =~= seq![ascii_upper(property.name@)]
            + params_segs(e.subrange(0, i as int)));
    }
    assert(e.subrange(0, n as int) =~= e);
    segs.push(String::from_str(":"));
    segs.push(property.value.clone());
    assert(segs@.map_values(|s: String| s@) =~= prop_segments(property@));
    segs
}

impl Encoder {
    /// The bytes written so far.
    pub closed spec fn bytes(&self) -> Seq<u8> {
        self.out@
    }

    /// An encoder that appends to `writer`.
    pub fn new(writer: Vec<u8>) -> (r: Encoder)
        ensures
            r.bytes() == writer@,
    {
        Encoder { out: writer }
    }

    /// The buffer with everything written.
    pub fn into_writer(self) -> (r: Vec<u8>)
        ensures
            r@ == self.bytes(),
    {
        self.out
    }

    /// Appends `data` to the physical line `buf`, writing out every line
    /// that fills up.
    fn write_folded(&mut self, buf: &mut Vec<u8>, data: &str)
        requires
            old(buf)@.len() <= FOLDING_LENGTH,
        ensures
            final(buf)@.len() <= FOLDING_LENGTH,
            final(self).bytes() == old(self).bytes() + fold_seg(old(buf)@, utf8(data@)).0,
            final(buf)@ == fold_seg(old(buf)@, utf8(data@)).1,
    {
        let mut rest: &str = data;
        let ghost emitted: Seq<u8> = seq![];
        while rest.as_bytes().len() > FOLDING_LENGTH - buf.len()
            invariant
                buf@.len() <= FOLDING_LENGTH,
                valid_utf8(utf8(rest@)),
                self.out@ == old(self).out@ + emitted,
                fold_seg(old(buf)@, utf8(data@)).0 == emitted + fold_seg(buf@, utf8(rest@)).0,
                fold_seg(old(buf)@, utf8(data@)).1 == fold_seg(buf@, utf8(rest@)).1,
            decreases utf8(rest@).len(), buf@.len(),
        {
            let ghost r = utf8(rest@);
            let mut dlen = FOLDING_LENGTH - buf.len();
            proof {
                lemma_first_boundary(r);
                if buf@.len() <= 71 {
                    lemma_cut_at_least(r, dlen as int, length_of_first_scalar(r));
                }
                lemma_cut_boundary(r, dlen as int);
            }
            while !rest.is_char_boundary(dlen)
                invariant
                    r == utf8(rest@),
                    valid_utf8(r),
                    cut(r, (FOLDING_LENGTH - buf@.len()) as int) == cut(r, dlen as int),
                    dlen <= FOLDING_LENGTH,
                decreases dlen,
            {
                proof {
                    vstd::utf8::is_char_boundary_start_end_of_seq(r);
                }
                dlen = dlen - 1;
            }
            proof {
                lemma_cut_boundary(r, (FOLDING_LENGTH - buf@.len()) as int);
                vstd::utf8::valid_utf8_split(r, dlen as int);
            }
            let (head, tail) = rest.split_at(dlen);
            let ghost before = self.out@;
            push_bytes(&mut self.out, buf.as_slice());
            push_str(&mut self.out, head);
            self.out.push(CR);
            self.out.push(LF);
            proof {
                vstd::utf8::decode_utf8_encode_utf8(r.subrange(dlen as int, r.len() as int));
                vstd::utf8::decode_utf8_encode_utf8(r.subrange(0, dlen as int));
                vstd::utf8::encode_utf8_decode_utf8(head@);
                vstd::utf8::encode_utf8_decode_utf8(tail@);
                emitted = emitted + buf@ + r.subrange(0, dlen as int) + seq![CR, LF];
            }
            assert(self.out@ =~= old(self).out@ + emitted);
            buf.clear();
            buf.push(SPACE);
            assert(buf@ =~= seq![SPACE]);
            rest = tail;
        }
        let ghost b_end = buf@;
        assert(fold_seg(b_end, utf8(rest@)).0 =~= Seq::<u8>::empty());
        assert(emitted + Seq::<u8>::empty() =~= emitted);
        push_str(buf, rest);
    }

    /// Writes one property as its folded lines.
    pub fn encode_property(&mut self, property: &Property)
        ensures
            final(self).bytes() == old(self).bytes() + prop_line(property@),
    {
        let segs = segments(property);
        let ghost sv = segs@.map_values(|s: String| s@);
        let mut buf: Vec<u8> = Vec::new();
        let n = segs.len();
        let mut i: usize = 0;
        let ghost emitted: Seq<u8> = seq![];
        assert(sv.subrange(0, n as int) =~= sv);
        while i < n
            invariant
                n == segs@.len(),
                sv == segs@.map_values(|s: String| s@),
                sv == prop_segments(property@),
                i <= n,
                buf@.len() <= FOLDING_LENGTH,
                self.out@ == old(self).out@ + emitted,
                fold_all(seq![], sv).0 == emitted + fold_all(buf@, sv.subrange(i as int, n as int)).0,
                fold_all(seq![], sv).1 == fold_all(buf@, sv.subrange(i as int, n as int)).1,
            decreases n - i,
        {
            let ghost b0 = buf@;
            let ghost rest = sv.subrange(i as int, n as int);
            assert(rest[0] == segs@[i as int]@);
            assert(rest.drop_first() =~= sv.subrange(i + 1, n as int));
            self.write_folded(&mut buf, segs[i].as_str());
            proof {
                emitted = emitted + fold_seg(b0, utf8(rest[0])).0;
            }
            i = i + 1;
        }
        push_bytes(&mut self.out, buf.as_slice());
        self.out.push(CR);
        self.out.push(LF);
        assert(self.out@ =~= old(self).out@ + prop_line(property@));
    }

    /// Writes a component tree. Names are upper-cased by their ASCII
    /// letters: a name of the name alphabet (which `check` and every
    /// constructor demand) comes out wholly upper case, while other
    /// characters of an illegal name are written unchanged.
    pub fn encode(&mut self, component: &Component)
        ensures
            final(self).bytes() == old(self).bytes() + comp_bytes(component@),
        decreases component,
    {
        let name = to_upper(component.name.as_str());
        push_str(&mut self.out, "BEGIN:");
        push_str(&mut self.out, name.as_str());
        self.out.push(CR);
        self.out.push(LF);
        let ghost head = self.out@;
        let ghost pv = component@.props;
        let n = component.properties.len();
        let mut i: usize = 0;
        assert(pv.subrange(0, 0) =~= Seq::<PropView>::empty());
        while i < n
            invariant
                n == component.properties@.len(),
                pv == component@.props,
                pv.len() == n,
                i <= n,
                self.out@ == head + props_bytes(pv.subrange(0, i as int)),
            decreases n - i,
        {
            assert(pv.subrange(0, i + 1).drop_last() =~= pv.subrange(0, i as int));
            assert(pv[i as int] == component.properties@[i as int]@);
            self.encode_property(&component.properties[i]);
            i = i + 1;
        }
        assert(pv.subrange(0, n as int) =~= pv);
        let ghost mid = self.out@;
        let ghost cv = component@.subs;
        let m = component.sub_components.len();
        let mut j: usize = 0;
        assert(cv.subrange(0, 0) =~= Seq::<CompView>::empty());
        while j < m
            invariant
                m == component.sub_components@.len(),
                cv == component@.subs,
                cv.len() == m,
                j <= m,
                self.out@ == mid + comps_bytes(cv.subrange(0, j as int)),
            decreases m - j,
        {
            assert(cv.subrange(0, j + 1).drop_last() =~= cv.subrange(0, j as int));
            assert(cv[j as int] == comp_view(component.sub_components@[j as int]));
            self.encode(&component.sub_components[j]);
            j = j + 1;
        }
        assert(cv.subrange(0, m as int) =~= cv);
        push_str(&mut self.out, "END:");
        push_str(&mut self.out, name.as_str());
        self.out.push(CR);
        self.out.push(LF);
        assert(self.out@ =~= old(self).out@ + comp_bytes(component@));
    }

    /// Writes several component trees, one after the other.
    pub fn encode_all(&mut self, components: &Vec<Component>)
        ensures
            final(self).bytes() == old(self).bytes() + comps_bytes(
                components@.map_values(|c: Component| c@),
            ),
    {
        let ghost cv = components@.map_values(|c: Component| c@);
        let n = components.len();
        let mut i: usize = 0;
        assert(cv.subrange(0, 0) =~= Seq::<CompView>::empty());
        while i < n
            invariant
                n == components@.len(),
                cv == components@.map_values(|c: Component| c@),
                i <= n,
                self.out@ == old(self).out@ + comps_bytes(cv.subrange(0, i as int)),
            decreases n - i,
        {
            assert(cv.subrange(0, i + 1).drop_last() =~= cv.subrange(0, i as int));
            self.encode(&components[i]);
            i = i + 1;
        }
        assert(cv.subrange(0, n as int) =~= cv);
    }

    /// Appends the encoding of `component` to `writer`.
    pub fn encode_into_writer(writer: &mut Vec<u8>, component: &Component)
        ensures
            final(writer)@ == old(writer)@ + comp_bytes(component@),
    {
        let mut e = Encoder { out: Vec::new() };
        e.encode(component);
        push_bytes(writer, e.out.as_slice());
    }
}

/// Folding keeps valid UTF-8 valid.
proof fn lemma_fold_seg_valid(buf: Seq<u8>, data: Seq<u8>)
    requires
        valid_utf8(buf),
        valid_utf8(data),
    ensures
        valid_utf8(fold_seg(buf, data).0),
        valid_utf8(fold_seg(buf, data).1),
    decreases data.len(), buf.len(),
{
    vstd::utf8::valid_utf8_concat(buf, data);
    if buf.len() + data.len() > FOLDING_LENGTH {
        let d = cut(data, FOLDING_LENGTH - buf.len());
        if 0 <= d <= data.len() && (d > 0 || buf.len() > 1) {
            lemma_cut_boundary(data, FOLDING_LENGTH - buf.len());
            vstd::utf8::valid_utf8_split(data, d);
            let tail = data.subrange(d, data.len() as int);
            crate::text::lemma_ascii_valid(seq![SPACE]);
            crate::text::lemma_ascii_valid(seq![CR, LF]);
            lemma_fold_seg_valid(seq![SPACE], tail);
            let (e, b) = fold_seg(seq![SPACE], tail);
            let head = data.subrange(0, d);
            vstd::utf8::valid_utf8_concat(buf, head);
            vstd::utf8::valid_utf8_concat(buf + head, seq![CR, LF]);
            vstd::utf8::valid_utf8_concat(buf + head + seq![CR, LF], e);
        }
    }
}

proof fn lemma_fold_all_valid(buf: Seq<u8>, segs: Seq<Seq<char>>)
    requires
        valid_utf8(buf),
    ensures
        valid_utf8(fold_all(buf, segs).0),
        valid_utf8(fold_all(buf, segs).1),
    decreases segs.len(),
{
    if segs.len() > 0 {
        lemma_fold_seg_valid(buf, utf8(segs[0]));
        let (e1, b1) = fold_seg(buf, utf8(segs[0]));
        lemma_fold_all_valid(b1, segs.drop_first());
        vstd::utf8::valid_utf8_concat(e1, fold_all(b1, segs.drop_first()).0);
    }
}

proof fn lemma_prop_line_valid(p: PropView)
    ensures
        valid_utf8(prop_line(p)),
{
    crate::text::lemma_ascii_valid(Seq::<u8>::empty());
    crate::text::lemma_ascii_valid(seq![CR, LF]);
    lemma_fold_all_valid(seq![], prop_segments(p));
    let (e, b) = fold_all(seq![], prop_segments(p));
    vstd::utf8::valid_utf8_concat(e, b);
    vstd::utf8::valid_utf8_concat(e + b, seq![CR, LF]);
}

proof fn lemma_props_valid(ps: Seq<PropView>)
    ensures
        valid_utf8(props_bytes(ps)),
    decreases ps.len(),
{
    if ps.len() == 0 {
        crate::text::lemma_ascii_valid(Seq::<u8>::empty());
    } else {
        lemma_props_valid(ps.drop_last());
        lemma_prop_line_valid(ps.last());
        vstd::utf8::valid_utf8_concat(props_bytes(ps.drop_last()), prop_line(ps.last()));
    }
}

/// The encoding of a component tree is valid UTF-8.
pub proof fn lemma_comp_bytes_valid(c: CompView)
    ensures
        valid_utf8(comp_bytes(c)),
    decreases c,
{
    crate::text::lemma_ascii_valid(seq![CR, LF]);
    lemma_props_valid(c.props);
    lemma_comps_valid(c.subs);
    let a = utf8("BEGIN:"@);
    let n = utf8(ascii_upper(c.name));
    let z = utf8("END:"@);
    let crlf = seq![CR, LF];
    vstd::utf8::valid_utf8_concat(a, n);
    vstd::utf8::valid_utf8_concat(a + n, crlf);
    vstd::utf8::valid_utf8_concat(a + n + crlf, props_bytes(c.props));
    vstd::utf8::valid_utf8_concat(a + n + crlf + props_bytes(c.props), comps_bytes(c.subs));
    let x = a + n + crlf + props_bytes(c.props) + comps_bytes(c.subs);
    vstd::utf8::valid_utf8_concat(x, z);
    vstd::utf8::valid_utf8_concat(x + z, n);
    vstd::utf8::valid_utf8_concat(x + z + n, crlf);
}

proof fn lemma_comps_valid(cs: Seq<CompView>)
    ensures
        valid_utf8(comps_bytes(cs)),
    decreases cs,
{
    if cs.len() == 0 {
        crate::text::lemma_ascii_valid(Seq::<u8>::empty());
    } else {
        lemma_comps_valid(cs.drop_last());
        lemma_comp_bytes_valid(cs.last());
        vstd::utf8::valid_utf8_concat(comps_bytes(cs.drop_last()), comp_bytes(cs.last()));
    }
}

/// Anything that component trees can be encoded into.
pub trait ComponentEncode {
    /// The bytes written so far.
    spec fn encoded(&self) -> Seq<u8>;

    /// Appends the encoding of `component`.
    fn encode_component(&mut self, component: &Component)
        ensures
            final(self).encoded() == old(self).encoded() + comp_bytes(component@),
    ;
}

impl ComponentEncode for Vec<u8> {
    open spec fn encoded(&self) -> Seq<u8> {
        self@
    }

    fn encode_component(&mut self, component: &Component) {
        Encoder::encode_into_writer(self, component);
    }
}

impl Component {
    /// The encoding of this component tree as a string.
    pub fn encode_to_string(&self) -> (r: String)
        ensures
            utf8(r@) == comp_bytes(self@),
    {
        let mut e = Encoder::new(Vec::new());
        e.encode(self);
        let bytes = e.into_writer();
        proof {
            lemma_comp_bytes_valid(self@);
            assert(bytes@ =~= comp_bytes(self@));
        }
        string_of_valid(bytes)
    }
}

/// No run of octets other than CR and LF is longer than 75, counting `cur`
/// octets already in the current line.
pub open spec fn runs_ok(b: Seq<u8>, cur: int) -> bool
    decreases b.len(),
{
    if b.len() == 0 {
        true
    } else if b[0] == CR || b[0] == LF {
        runs_ok(b.drop_first(), 0)
    } else {
        cur + 1 <= FOLDING_LENGTH && runs_ok(b.drop_first(), cur + 1)
    }
}

/// The length of the current line after `b`, starting with `cur`.
pub open spec fn end_run(b: Seq<u8>, cur: int) -> int
    decreases b.len(),
{
    if b.len() == 0 {
        cur
    } else if b[0] == CR || b[0] == LF {
        end_run(b.drop_first(), 0)
    } else {
        end_run(b.drop_first(), cur + 1)
    }
}

/// Every physical line of `b` has at most 75 octets, CRLF not counted.
pub open spec fn short_lines(b: Seq<u8>) -> bool {
    runs_ok(b, 0)
}

proof fn lemma_runs_concat(a: Seq<u8>, b: Seq<u8>, cur: int)
    ensures
        runs_ok(a + b, cur) == (runs_ok(a, cur) && runs_ok(b, end_run(a, cur))),
    decreases a.len(),
{
    if a.len() == 0 {
        assert(a + b =~= b);
    } else {
        assert((a + b).drop_first() =~= a.drop_first() + b);
        assert((a + b)[0] == a[0]);
        if a[0] == CR || a[0] == LF {
            lemma_runs_concat(a.drop_first(), b, 0);
        } else {
            lemma_runs_concat(a.drop_first(), b, cur + 1);
        }
    }
}

proof fn lemma_end_run_lf(a: Seq<u8>, cur: int)
    requires
        a.len() > 0,
        a.last() == LF,
    ensures
        end_run(a, cur) == 0,
    decreases a.len(),
{
    if a.len() == 1 {
        assert(a[0] == LF);
        assert(a.drop_first().len() == 0);
        reveal_with_fuel(end_run, 2);
    } else {
        assert(a.drop_first().last() == LF);
        if a[0] == CR || a[0] == LF {
            lemma_end_run_lf(a.drop_first(), 0);
        } else {
            lemma_end_run_lf(a.drop_first(), cur + 1);
        }
    }
}

/// A line of at most 75 octets, then CRLF.
proof fn lemma_short_line(x: Seq<u8>, cur: int)
    requires
        0 <= cur,
        x.len() + cur <= FOLDING_LENGTH,
    ensures
        runs_ok(x + seq![CR, LF], cur),
        end_run(x + seq![CR, LF], cur) == 0,
    decreases x.len(),
{
    if x.len() == 0 {
        assert(x + seq![CR, LF] =~= seq![CR, LF]);
        assert(seq![CR, LF].drop_first() =~= seq![LF]);
        assert(seq![LF].drop_first() =~= Seq::<u8>::empty());
        reveal_with_fuel(runs_ok, 3);
        reveal_with_fuel(end_run, 3);
    } else {
        assert((x + seq![CR, LF]).drop_first() =~= x.drop_first() + seq![CR, LF]);
        assert((x + seq![CR, LF])[0] == x[0]);
        if x[0] == CR || x[0] == LF {
            lemma_short_line(x.drop_first(), 0);
        } else {
            lemma_short_line(x.drop_first(), cur + 1);
        }
    }
}

/// Folding never lets a line pass 75 octets: what it emits is whole lines
/// of at most 75 octets, and the current line stays within 75.
proof fn lemma_fold_seg_short(buf: Seq<u8>, data: Seq<u8>)
    requires
        buf.len() <= FOLDING_LENGTH,
    ensures
        ({
            let (e, b) = fold_seg(buf, data);
            &&& short_lines(e)
            &&& e.len() == 0 || e.last() == LF
        }),
    decreases data.len(), buf.len(),
{
    if buf.len() + data.len() > FOLDING_LENGTH {
        let d = cut(data, FOLDING_LENGTH - buf.len());
        if 0 <= d <= data.len() && (d > 0 || buf.len() > 1) {
            lemma_cut_le(data, FOLDING_LENGTH - buf.len());
            let tail = data.subrange(d, data.len() as int);
            lemma_fold_seg_short(seq![SPACE], tail);
            let (e2, b2) = fold_seg(seq![SPACE], tail);
            let x = buf + data.subrange(0, d);
            lemma_short_line(x, 0);
            lemma_runs_concat(x + seq![CR, LF], e2, 0);
            assert(x + seq![CR, LF] + e2 == buf + data.subrange(0, d) + seq![CR, LF] + e2);
            if e2.len() > 0 {
                assert((x + seq![CR, LF] + e2).last() == e2.last());
            } else {
                assert(x + seq![CR, LF] + e2 =~= x + seq![CR, LF]);
            }
        }
    }
}

proof fn lemma_cut_le(data: Seq<u8>, i: int)
    ensures
        cut(data, i) <= i || cut(data, i) == 0,
        cut(data, i) >= 0,
    decreases i,
{
    if i > 0 && !is_char_boundary(data, i) {
        lemma_cut_le(data, i - 1);
    }
}

proof fn lemma_fold_seg_buf(buf: Seq<u8>, data: Seq<u8>)
    requires
        buf.len() <= FOLDING_LENGTH,
        valid_utf8(data),
    ensures
        fold_seg(buf, data).1.len() <= FOLDING_LENGTH,
    decreases data.len(), buf.len(),
{
    if buf.len() + data.len() > FOLDING_LENGTH {
        let d = cut(data, FOLDING_LENGTH - buf.len());
        lemma_first_boundary(data);
        if buf.len() <= 71 {
            lemma_cut_at_least(data, FOLDING_LENGTH - buf.len(), length_of_first_scalar(data));
        }
        lemma_cut_boundary(data, FOLDING_LENGTH - buf.len());
        if 0 <= d <= data.len() && (d > 0 || buf.len() > 1) {
            vstd::utf8::valid_utf8_split(data, d);
            lemma_fold_seg_buf(seq![SPACE], data.subrange(d, data.len() as int));
        }
    }
}

proof fn lemma_fold_all_short(buf: Seq<u8>, segs: Seq<Seq<char>>)
    requires
        buf.len() <= FOLDING_LENGTH,
    ensures
        ({
            let (e, b) = fold_all(buf, segs);
            &&& short_lines(e)
            &&& e.len() == 0 || e.last() == LF
            &&& b.len() <= FOLDING_LENGTH
        }),
    decreases segs.len(),
{
    if segs.len() > 0 {
        let data = utf8(segs[0]);
        lemma_fold_seg_short(buf, data);
        lemma_fold_seg_buf(buf, data);
        let (e1, b1) = fold_seg(buf, data);
        lemma_fold_all_short(b1, segs.drop_first());
        let (e2, b2) = fold_all(b1, segs.drop_first());
        lemma_runs_concat(e1, e2, 0);
        if e1.len() > 0 {
            lemma_end_run_lf(e1, 0);
        }
        if e2.len() > 0 {
            assert((e1 + e2).last() == e2.last());
        } else {
            assert(e1 + e2 =~= e1);
        }
    }
}

/// Every physical line of a folded property has at most 75 octets.
pub proof fn lemma_prop_line_short(p: PropView)
    ensures
        short_lines(prop_line(p)),
        prop_line(p).last() == LF,
{
    lemma_fold_all_short(seq![], prop_segments(p));
    let (e, b) = fold_all(seq![], prop_segments(p));
    lemma_short_line(b, 0);
    lemma_runs_concat(e, b + seq![CR, LF], 0);
    if e.len() > 0 {
        lemma_end_run_lf(e, 0);
    }
    assert(e + b + seq![CR, LF] =~= e + (b + seq![CR, LF]));
}

proof fn lemma_props_short(ps: Seq<PropView>)
    ensures
        short_lines(props_bytes(ps)),
        props_bytes(ps).len() == 0 || props_bytes(ps).last() == LF,
    decreases ps.len(),
{
    if ps.len() > 0 {
        lemma_props_short(ps.drop_last());
        lemma_prop_line_short(ps.last());
        let a = props_bytes(ps.drop_last());
        lemma_runs_concat(a, prop_line(ps.last()), 0);
        if a.len() > 0 {
            lemma_end_run_lf(a, 0);
        }
    }
}

/// Component names short enough for `BEGIN:` and the name to fit one line.
pub open spec fn names_fit(c: CompView) -> bool
    decreases c,
{
    &&& utf8(ascii_upper(c.name)).len() <= 69
    &&& forall|i: int| 0 <= i < c.subs.len() ==> names_fit(#[trigger] c.subs[i])
}

/// Every physical line that encoding a component tree emits has at most 75
/// octets, CRLF not counted, as long as each component name fits beside
/// `BEGIN:` (the component lines themselves are never folded).
pub proof fn lemma_comp_bytes_short(c: CompView)
    requires
        names_fit(c),
    ensures
        short_lines(comp_bytes(c)),
        comp_bytes(c).last() == LF,
    decreases c,
{
    lemma_props_short(c.props);
    lemma_comps_short(c.subs);
    let n = utf8(ascii_upper(c.name));
    let begin = utf8("BEGIN:"@);
    let end = utf8("END:"@);
    lemma_word_lengths();
    lemma_short_line(begin + n, 0);
    lemma_short_line(end + n, 0);
    let x = begin + n + seq![CR, LF];
    let y = props_bytes(c.props);
    let z = comps_bytes(c.subs);
    let w = end + n + seq![CR, LF];
    lemma_runs_concat(x, y, 0);
    lemma_runs_concat(x + y, z, 0);
    lemma_runs_concat(x + y + z, w, 0);
    lemma_end_run_lf(x, 0);
    if y.len() > 0 {
        lemma_end_run_lf(x + y, 0);
        assert((x + y).last() == y.last());
    } else {
        assert(x + y =~= x);
    }
    if z.len() > 0 {
        assert((x + y + z).last() == z.last());
        lemma_end_run_lf(x + y + z, 0);
    } else {
        assert(x + y + z =~= x + y);
    }
    assert(begin + n + seq![CR, LF] =~= x);
    assert(end + n + seq![CR, LF] =~= w);
    assert(comp_bytes(c) =~= x + y + z + w);
    assert((x + y + z + w).last() == w.last());
}

/// The lengths of the fixed words of the component lines.
proof fn lemma_word_lengths()
    ensures
        utf8("BEGIN:"@).len() == 6,
        utf8("END:"@).len() == 4,
{
    reveal_strlit("BEGIN:");
    reveal_strlit("END:");
    assert(vstd::utf8::is_ascii_chars("BEGIN:"@));
    assert(vstd::utf8::is_ascii_chars("END:"@));
    vstd::utf8::is_ascii_chars_encode_utf8("BEGIN:"@);
    vstd::utf8::is_ascii_chars_encode_utf8("END:"@);
}

proof fn lemma_comps_short(cs: Seq<CompView>)
    requires
        forall|i: int| 0 <= i < cs.len() ==> names_fit(#[trigger] cs[i]),
    ensures
        short_lines(comps_bytes(cs)),
        comps_bytes(cs).len() == 0 || comps_bytes(cs).last() == LF,
    decreases cs,
{
    if cs.len() > 0 {
        assert forall|i: int| 0 <= i < cs.drop_last().len() implies names_fit(
            #[trigger] cs.drop_last()[i],
        ) by {
            assert(cs.drop_last()[i] == cs[i]);
        }
        lemma_comps_short(cs.drop_last());
        lemma_comp_bytes_short(cs.last());
        let a = comps_bytes(cs.drop_last());
        lemma_runs_concat(a, comp_bytes(cs.last()), 0);
        if a.len() > 0 {
            lemma_end_run_lf(a, 0);
        }
    }
}

/// Each fold point that folding picks lies on a character boundary.
pub proof fn lemma_fold_point_boundary(data: Seq<u8>, limit: int)
    requires
        valid_utf8(data),
    ensures
        is_char_boundary(data, cut(data, limit)),
{
    lemma_cut_boundary(data, limit);
}

/// A property without parameters whose line fits in 75 octets is written
/// unfolded: `NAME:VALUE` and CRLF.
pub proof fn lemma_unfolded_prop_line(p: PropView)
    requires
        p.params.len() == 0,
        utf8(ascii_upper(p.name)).len() + 1 + utf8(p.value).len() <= FOLDING_LENGTH,
    ensures
        prop_line(p) == utf8(ascii_upper(p.name) + ":"@ + p.value) + seq![CR, LF],
{
    reveal_strlit(":");
    crate::text::lemma_utf8_ascii_char(':');
    assert(":"@ =~= seq![':']);
    let n = utf8(ascii_upper(p.name));
    let colon = utf8(":"@);
    let v = utf8(p.value);
    assert(colon.len() == 1);
    let segs = prop_segments(p);
    assert(params_segs(p.params) =~= Seq::<Seq<char>>::empty());
    assert(segs =~= seq![ascii_upper(p.name), ":"@, p.value]);
    assert(segs.drop_first() =~= seq![":"@, p.value]);
    assert(segs.drop_first().drop_first() =~= seq![p.value]);
    assert(segs.drop_first().drop_first().drop_first() =~= Seq::<Seq<char>>::empty());
    assert(Seq::<u8>::empty() + n =~= n);
    let e: Seq<u8> = seq![];
    assert(fold_seg(e, n) == (e, n));
    assert(fold_seg(n, colon) == (e, n + colon));
    assert(fold_seg(n + colon, v) == (e, n + colon + v));
    assert(fold_all(n + colon + v, Seq::<Seq<char>>::empty()) == (e, n + colon + v));
    assert(fold_all(n + colon, seq![p.value]) == (e + e, n + colon + v));
    assert(fold_all(n, seq![":"@, p.value]) == (e + (e + e), n + colon + v));
    assert(fold_all(e, segs) == (e + (e + (e + e)), n + colon + v));
    assert(e + (e + (e + e)) =~= e);
    crate::text::lemma_utf8_concat(ascii_upper(p.name), ":"@);
    crate::text::lemma_utf8_concat(ascii_upper(p.name) + ":"@, p.value);
    assert(prop_line(p) =~= utf8(ascii_upper(p.name) + ":"@ + p.value) + seq![CR, LF]);
}

/// In valid UTF-8, the bytes from just after an LF, or from the start, up to
/// a CR, or to the end, are valid UTF-8 on their own.
pub proof fn lemma_physical_line_valid(b: Seq<u8>, i: int, j: int)
    requires
        valid_utf8(b),
        0 <= i <= j <= b.len(),
        i == 0 || b[i - 1] == LF,
        j == b.len() || b[j] == CR,
    ensures
        valid_utf8(b.subrange(i, j)),
{
    let tail = b.subrange(i, b.len() as int);
    if i == 0 {
        assert(tail =~= b);
    } else {
        vstd::utf8::is_char_boundary_iff_not_is_continuation_byte(b, i - 1);
        vstd::utf8::valid_utf8_split(b, i - 1);
        let t = b.subrange(i - 1, b.len() as int);
        assert(t[0] == LF);
        assert(vstd::utf8::is_leading_byte_width_1(t[0]));
        assert(pop_first_scalar(t) =~= tail);
    }
    assert(valid_utf8(tail));
    if j < b.len() {
        assert(tail[j - i] == CR);
        vstd::utf8::is_char_boundary_iff_not_is_continuation_byte(tail, j - i);
    } else {
        vstd::utf8::is_char_boundary_start_end_of_seq(tail);
    }
    vstd::utf8::valid_utf8_split(tail, j - i);
    assert(tail.subrange(0, j - i) =~= b.subrange(i, j));
}

/// Every physical line that encoding a component tree emits is valid UTF-8
/// on its own, so no fold splits a character.
pub proof fn lemma_comp_lines_valid(c: CompView)
    ensures
        forall|i: int, j: int|
            #![trigger comp_bytes(c).subrange(i, j)]
            0 <= i <= j <= comp_bytes(c).len() && (i == 0 || comp_bytes(c)[i - 1] == LF) && (j
                == comp_bytes(c).len() || comp_bytes(c)[j] == CR) ==> valid_utf8(
                comp_bytes(c).subrange(i, j),
            ),
{
    lemma_comp_bytes_valid(c);
    assert forall|i: int, j: int|
        #![trigger comp_bytes(c).subrange(i, j)]
        0 <= i <= j <= comp_bytes(c).len() && (i == 0 || comp_bytes(c)[i - 1] == LF) && (j
            == comp_bytes(c).len() || comp_bytes(c)[j] == CR) implies valid_utf8(
        comp_bytes(c).subrange(i, j),
    ) by {
        lemma_physical_line_valid(comp_bytes(c), i, j);
    }
}

/// In valid UTF-8 a character boundary lies among any four consecutive
/// positions.
proof fn lemma_boundary_near(data: Seq<u8>, i: int)
    requires
        valid_utf8(data),
        0 <= i <= data.len(),
    ensures
        exists|k: int| i - 3 <= k <= i && 0 <= k && is_char_boundary(data, k),
    decreases data.len(),
{
    if i <= 3 {
        assert(is_char_boundary(data, 0));
    } else {
        lemma_first_boundary(data);
        let w = length_of_first_scalar(data);
        let rest = pop_first_scalar(data);
        if i <= w {
            assert(is_char_boundary(data, w));
        } else {
            lemma_boundary_near(rest, i - w);
            let k2 = choose|k: int| i - w - 3 <= k <= i - w && 0 <= k && is_char_boundary(rest, k);
            if k2 == 0 {
                assert(is_char_boundary(data, w));
            } else {
                assert(is_char_boundary(data, w + k2));
            }
        }
    }
}

/// What writing one piece of data does to the current line: when the line
/// still fits in 75 octets nothing is written; otherwise a line of 72 to 75
/// octets is completed at a character boundary of the data, and the rest
/// continues on a new line that starts with a single space.
pub proof fn lemma_fold_seg_shape(buf: Seq<u8>, data: Seq<u8>)
    requires
        valid_utf8(data),
        buf.len() <= FOLDING_LENGTH,
    ensures
        (fold_seg(buf, data).0.len() == 0) <==> (buf.len() + data.len() <= FOLDING_LENGTH),
        buf.len() + data.len() <= FOLDING_LENGTH ==> fold_seg(buf, data).1 == buf + data,
        buf.len() + data.len() > FOLDING_LENGTH ==> ({
            let d = cut(data, FOLDING_LENGTH - buf.len());
            let rest = data.subrange(d, data.len() as int);
            &&& 72 <= buf.len() + d <= FOLDING_LENGTH
            &&& is_char_boundary(data, d)
            &&& fold_seg(buf, data).0 == buf + data.subrange(0, d) + seq![CR, LF] + fold_seg(
                seq![SPACE],
                rest,
            ).0
            &&& fold_seg(buf, data).1 == fold_seg(seq![SPACE], rest).1
        }),
{
    if buf.len() + data.len() > FOLDING_LENGTH {
        let lim = FOLDING_LENGTH - buf.len();
        lemma_boundary_near(data, lim);
        let k = choose|k: int| lim - 3 <= k <= lim && 0 <= k && is_char_boundary(data, k);
        lemma_cut_at_least(data, lim, k);
        lemma_cut_boundary(data, lim);
        let d = cut(data, lim);
        lemma_first_boundary(data);
        if buf.len() <= 71 {
            lemma_cut_at_least(data, lim, length_of_first_scalar(data));
        }
        assert(d > 0 || buf.len() > 1);
    }
}

} // verus!
