//! Components, properties and parameters, and the rule for legal names.
use crate::text::{ascii_upper, push_char, push_str, string_of_valid, utf8};
use vstd::prelude::*;

verus! {

broadcast use vstd::utf8::group_utf8_lib;

/// A character of the name alphabet: `A-Z`, `a-z`, `0-9` and `-`.
pub open spec fn name_char(c: char) -> bool {
    ('A' <= c && c <= 'Z') || ('a' <= c && c <= 'z') || ('0' <= c && c <= '9') || c == '-'
}

/// The first character of `s` outside the name alphabet, if there is one.
pub open spec fn name_violation(s: Seq<char>) -> Option<char>
    decreases s.len(),
{
    if s.len() == 0 {
        None
    } else if !name_char(s[0]) {
        Some(s[0])
    } else {
        name_violation(s.drop_first())
    }
}

/// Returns the first character of `name` that is not allowed in a name, or
/// `None` when every character is allowed.
pub fn is_valid_name(name: &str) -> (r: Option<char>)
    ensures
        r == name_violation(name@),
{
    let n = name.unicode_len();
    let mut i: usize = 0;
    assert(name@.subrange(0, n as int) =~= name@);
    while i < n
        invariant
            n == name@.len(),
            i <= n,
            name_violation(name@) == name_violation(name@.subrange(i as int, n as int)),
        decreases n - i,
    {
        let c = name.get_char(i);
        let ghost rest = name@.subrange(i as int, n as int);
        assert(rest[0] == c);
        if !(('A' <= c && c <= 'Z') || ('a' <= c && c <= 'z') || ('0' <= c && c <= '9') || c
            == '-') {
            return Some(c);
        }
        assert(rest.drop_first() =~= name@.subrange(i + 1, n as int));
        i = i + 1;
    }
    None
}

/// Which kind of name an `InvalidNameError` is about.
#[derive(Debug, Clone, Copy, PartialEq, Eq)]
pub enum NameType {
    Component,
    Property,
    Parameter,
}

/// A name that holds a character outside the name alphabet.
#[derive(Debug)]
pub struct InvalidNameError {
    pub typ: NameType,
    pub violation: char,
    pub name: String,
}

/// The parameters of a property: each name with its values, names unique, in
/// the order in which they were first added.
#[derive(Debug)]
pub struct Parameters {
    pub entries: Vec<(String, Vec<String>)>,
}

/// The values of a parameter as character sequences.
pub open spec fn values_view(v: Seq<String>) -> Seq<Seq<char>> {
    v.map_values(|s: String| s@)
}

/// The entries of a parameter map as character sequences.
pub open spec fn entries_view(e: Seq<(String, Vec<String>)>) -> Seq<(Seq<char>, Seq<Seq<char>>)> {
    e.map_values(|p: (String, Vec<String>)| (p.0@, values_view(p.1@)))
}

/// The position of the entry called `name`, if there is one.
pub open spec fn entry_index(e: Seq<(Seq<char>, Seq<Seq<char>>)>, name: Seq<char>) -> Option<int>
    decreases e.len(),
{
    if e.len() == 0 {
        None
    } else if e.last().0 == name {
        Some(e.len() - 1)
    } else {
        entry_index(e.drop_last(), name)
    }
}

/// The entries after `value` was added to the parameter `name`: appended to
/// its values when it exists, else as a new entry at the end.
pub open spec fn entries_add(
    e: Seq<(Seq<char>, Seq<Seq<char>>)>,
    name: Seq<char>,
    value: Seq<char>,
) -> Seq<(Seq<char>, Seq<Seq<char>>)> {
    match entry_index(e, name) {
        Some(k) => e.update(k, (name, e[k].1.push(value))),
        None => e.push((name, seq![value])),
    }
}

/// No two entries share a name.
pub open spec fn names_unique(e: Seq<(Seq<char>, Seq<Seq<char>>)>) -> bool {
    forall|i: int, j: int| 0 <= i < j < e.len() ==> e[i].0 != e[j].0
}

proof fn lemma_entry_index(e: Seq<(Seq<char>, Seq<Seq<char>>)>, name: Seq<char>)
    ensures
        entry_index(e, name) matches Some(k) ==> 0 <= k < e.len() && e[k].0 == name,
        entry_index(e, name) is None ==> forall|i: int| 0 <= i < e.len() ==> e[i].0 != name,
    decreases e.len(),
{
    if e.len() > 0 {
        lemma_entry_index(e.drop_last(), name);
        if e.last().0 != name {
            assert forall|i: int| 0 <= i < e.len() - 1 implies e[i] == #[trigger] e.drop_last()[
                i
            ] by {}
            if entry_index(e, name) is None {
                assert forall|i: int| 0 <= i < e.len() implies e[i].0 != name by {
                    if i < e.len() - 1 {
                        assert(e[i] == e.drop_last()[i]);
                    }
                }
            }
        }
    }
}

/// Compares two strings by their characters.
pub(crate) fn str_eq(a: &str, b: &str) -> (r: bool)
    ensures
        r == (a@ == b@),
{
    let x = a.as_bytes();
    let y = b.as_bytes();
    assert(x@ == vstd::utf8::encode_utf8(a@));
    assert(y@ == vstd::utf8::encode_utf8(b@));
    proof {
        vstd::utf8::encode_utf8_decode_utf8(a@);
        vstd::utf8::encode_utf8_decode_utf8(b@);
    }
    if x.len() != y.len() {
        assert(x@.len() != y@.len());
        return false;
    }
    let mut i: usize = 0;
    while i < x.len()
        invariant
            x@.len() == y@.len(),
            x@ == vstd::utf8::encode_utf8(a@),
            y@ == vstd::utf8::encode_utf8(b@),
            i <= x@.len(),
            forall|j: int| 0 <= j < i ==> x@[j] == y@[j],
        decreases x@.len() - i,
    {
        if x[i] != y[i] {
            assert(x@[i as int] != y@[i as int]);
            assert(x@ != y@);
            return false;
        }
        i = i + 1;
    }
    assert(x@ =~= y@);
    true
}

impl Parameters {
    pub open spec fn view(&self) -> Seq<(Seq<char>, Seq<Seq<char>>)> {
        entries_view(self.entries@)
    }

    /// No parameter name occurs twice.
    pub open spec fn wf(&self) -> bool {
        names_unique(self@)
    }

    pub fn new() -> (r: Parameters)
        ensures
            r@ == Seq::<(Seq<char>, Seq<Seq<char>>)>::empty(),
            r.wf(),
    {
        Parameters { entries: Vec::new() }
    }

    /// The number of distinct parameter names.
    pub fn len(&self) -> (r: usize)
        ensures
            r == self@.len(),
    {
        self.entries.len()
    }

    /// Finds the position of the entry called `name`.
    fn position(&self, name: &str) -> (r: Option<usize>)
        ensures
            r matches Some(k) ==> entry_index(self@, name@) == Some(k as int),
            r is None ==> entry_index(self@, name@) is None,
    {
        let mut i: usize = self.entries.len();
        assert(self@.subrange(0, i as int) =~= self@);
        while i > 0
            invariant
                i <= self.entries@.len(),
                self@.len() == self.entries@.len(),
                entry_index(self@, name@) == entry_index(self@.subrange(0, i as int), name@),
            decreases i,
        {
            let ghost sub = self@.subrange(0, i as int);
            assert(sub.last() == self@[i - 1]);
            if str_eq(self.entries[i - 1].0.as_str(), name) {
                return Some(i - 1);
            }
            assert(sub.drop_last() =~= self@.subrange(0, i - 1));
            i = i - 1;
        }
        None
    }

    /// The values of the parameter `name`, if it is present.
    pub fn get(&self, name: &str) -> (r: Option<&Vec<String>>)
        ensures
            r matches Some(v) ==> entry_index(self@, name@) matches Some(k) && values_view(v@)
                == self@[k].1,
            r is None ==> entry_index(self@, name@) is None,
    {
        proof {
            lemma_entry_index(self@, name@);
        }
        assert(self@.len() == self.entries@.len());
        match self.position(name) {
            Some(k) => Some(&self.entries[k].1),
            None => None,
        }
    }

    /// Appends `value` to the values of the parameter `name`, creating the
    /// parameter when it is not there yet.
    pub fn add(&mut self, name: String, value: String)
        ensures
            final(self)@ == entries_add(old(self)@, name@, value@),
            old(self).wf() ==> final(self).wf(),
    {
        proof {
            lemma_entry_index(self@, name@);
        }
        match self.position(name.as_str()) {
            Some(k) => {
                let mut entry = self.entries.remove(k);
                entry.1.push(value);
                self.entries.insert(k, entry);
                assert(self.entries@ =~= old(self).entries@.update(k as int, entry));
                assert(values_view(entry.1@) =~= old(self)@[k as int].1.push(value@));
                assert(self@ =~= entries_add(old(self)@, name@, value@));
            },
            None => {
                let mut values: Vec<String> = Vec::new();
                values.push(value);
                self.entries.push((name, values));
                assert(values_view(values@) =~= seq![value@]);
                assert(self@ =~= entries_add(old(self)@, name@, value@));
            },
        }
    }
}

/// A named value with parameters: one content line.
#[derive(Debug)]
pub struct Property {
    pub name: String,
    pub value: String,
    pub parameters: Parameters,
    /// The logical line this property was read from, and its line number.
    pub old_line: Option<(String, u32)>,
}

/// A named container of properties and nested components.
#[derive(Debug)]
pub struct Component {
    pub name: String,
    pub properties: Vec<Property>,
    pub sub_components: Vec<Component>,
}

/// What an `InvalidNameError` reports: the kind of name, the name and the
/// offending character.
pub type NameFault = (NameType, Seq<char>, char);

impl InvalidNameError {
    pub open spec fn fault(&self) -> NameFault {
        (self.typ, self.name@, self.violation)
    }

    /// The message: `<kind> name "<name>" is invalid: character '<c>' is not
    /// allowed`.
    pub fn message(&self) -> (r: String)
        ensures
            r@ == name_type_text(self.typ) + " name \""@ + self.name@ + "\" is invalid: character '"@
                + seq![self.violation] + "' is not allowed"@,
    {
        let mut out: Vec<u8> = Vec::new();
        push_str(&mut out, name_type_str(self.typ));
        push_str(&mut out, " name \"");
        push_str(&mut out, self.name.as_str());
        push_str(&mut out, "\" is invalid: character '");
        push_char(&mut out, self.violation);
        push_str(&mut out, "' is not allowed");
        let ghost parts = name_type_text(self.typ) + " name \""@ + self.name@
            + "\" is invalid: character '"@ + seq![self.violation] + "' is not allowed"@;
        proof {
            let a = name_type_text(self.typ);
            let b = " name \""@;
            let c = self.name@;
            let d = "\" is invalid: character '"@;
            let e = seq![self.violation];
            let f = "' is not allowed"@;
            crate::text::lemma_utf8_concat(a, b);
            crate::text::lemma_utf8_concat(a + b, c);
            crate::text::lemma_utf8_concat(a + b + c, d);
            crate::text::lemma_utf8_concat(a + b + c + d, e);
            crate::text::lemma_utf8_concat(a + b + c + d + e, f);
        }
        assert(out@ =~= utf8(parts));
        string_of_valid(out)
    }
}

/// The word for a kind of name.
pub open spec fn name_type_text(t: NameType) -> Seq<char> {
    match t {
        NameType::Component => "component"@,
        NameType::Property => "property"@,
        NameType::Parameter => "parameter"@,
    }
}

fn name_type_str(t: NameType) -> (r: &'static str)
    ensures
        r@ == name_type_text(t),
{
    match t {
        NameType::Component => "component",
        NameType::Property => "property",
        NameType::Parameter => "parameter",
    }
}

/// The first parameter name, in entry order, that holds an illegal character.
pub open spec fn params_violation(e: Seq<(Seq<char>, Seq<Seq<char>>)>) -> Option<NameFault>
    decreases e.len(),
{
    if e.len() == 0 {
        None
    } else if let Some(c) = name_violation(e[0].0) {
        Some((NameType::Parameter, e[0].0, c))
    } else {
        params_violation(e.drop_first())
    }
}

/// The first illegal name of a property: its own name, then its parameter names.
pub open spec fn prop_violation(p: Property) -> Option<NameFault> {
    if let Some(c) = name_violation(p.name@) {
        Some((NameType::Property, p.name@, c))
    } else {
        params_violation(p.parameters@)
    }
}

/// The first illegal name among properties, in order.
pub open spec fn props_violation(ps: Seq<Property>) -> Option<NameFault>
    decreases ps.len(),
{
    if ps.len() == 0 {
        None
    } else if let Some(f) = prop_violation(ps[0]) {
        Some(f)
    } else {
        props_violation(ps.drop_first())
    }
}

/// The first illegal name of a component tree: its own name, then its
/// properties, then its sub-components depth first.
pub open spec fn comp_violation(c: Component) -> Option<NameFault>
    decreases c,
{
    if let Some(ch) = name_violation(c.name@) {
        Some((NameType::Component, c.name@, ch))
    } else if let Some(f) = props_violation(c.properties@) {
        Some(f)
    } else {
        comps_violation(c.sub_components@)
    }
}

/// The first illegal name among component trees, in order.
pub open spec fn comps_violation(cs: Seq<Component>) -> Option<NameFault>
    decreases cs,
{
    if cs.len() == 0 {
        None
    } else if let Some(f) = comp_violation(cs[0]) {
        Some(f)
    } else {
        comps_violation(cs.drop_first())
    }
}

/// The properties of `ps` called `name`, in order.
pub open spec fn props_named(ps: Seq<Property>, name: Seq<char>) -> Seq<Property>
    decreases ps.len(),
{
    if ps.len() == 0 {
        seq![]
    } else if ps.last().name@ == name {
        props_named(ps.drop_last(), name).push(ps.last())
    } else {
        props_named(ps.drop_last(), name)
    }
}

fn check_name(name: &String, typ: NameType) -> (r: Result<(), InvalidNameError>)
    ensures
        r is Ok <==> name_violation(name@) is None,
        r matches Err(e) ==> name_violation(name@) matches Some(c) && e.fault() == (typ, name@, c),
{
    match is_valid_name(name.as_str()) {
        Some(c) => Err(InvalidNameError { typ, violation: c, name: name.clone() }),
        None => Ok(()),
    }
}

fn check_params(p: &Parameters) -> (r: Result<(), InvalidNameError>)
    ensures
        r is Ok <==> params_violation(p@) is None,
        r matches Err(e) ==> params_violation(p@) == Some(e.fault()),
{
    let n = p.entries.len();
    let mut i: usize = 0;
    assert(p@.subrange(0, n as int) =~= p@);
    while i < n
        invariant
            n == p.entries@.len(),
            n == p@.len(),
            i <= n,
            params_violation(p@) == params_violation(p@.subrange(i as int, n as int)),
        decreases n - i,
    {
        let ghost rest = p@.subrange(i as int, n as int);
        assert(rest[0].0 == p.entries@[i as int].0@);
        check_name(&p.entries[i].0, NameType::Parameter)?;
        assert(rest.drop_first() =~= p@.subrange(i + 1, n as int));
        i = i + 1;
    }
    Ok(())
}

impl Property {
    /// A property without parameters.
    pub fn new_empty(name: String, value: String) -> (r: Result<Property, InvalidNameError>)
        ensures
            r is Ok <==> name_violation(name@) is None,
            r matches Err(e) ==> e.fault() == (NameType::Property, name@, name_violation(name@)->0),
            r matches Ok(p) ==> p.name == name && p.value == value && p.parameters@.len() == 0
                && p.old_line is None,
    {
        let r = Self::new(name, value, Parameters::new());
        proof {
            if r is Ok {
                assert(params_violation(r->Ok_0.parameters@) is None);
            }
        }
        r
    }

    /// A property built from its parts, once every name in it is legal.
    pub fn new(name: String, value: String, parameters: Parameters) -> (r: Result<
        Property,
        InvalidNameError,
    >)
        ensures
            ({
                let p = Property { name, value, parameters, old_line: None };
                &&& r is Ok <==> prop_violation(p) is None
                &&& r matches Err(e) ==> prop_violation(p) == Some(e.fault())
                &&& r matches Ok(q) ==> q == p
            }),
    {
        let x = Property { name, value, parameters, old_line: None };
        x.check()?;
        Ok(x)
    }

    /// Checks the property name and every parameter name.
    pub fn check(&self) -> (r: Result<(), InvalidNameError>)
        ensures
            r is Ok <==> prop_violation(*self) is None,
            r matches Err(e) ==> prop_violation(*self) == Some(e.fault()),
    {
        check_name(&self.name, NameType::Property)?;
        check_params(&self.parameters)
    }

    /// Adds a value to the parameter `name`, once `name` is legal.
    pub fn add_param(&mut self, name: String, value: String) -> (r: Result<(), InvalidNameError>)
        ensures
            r is Ok <==> name_violation(name@) is None,
            r matches Err(e) ==> e.fault() == (NameType::Parameter, name@, name_violation(
                name@,
            )->0) && *final(self) == *old(self),
            r is Ok ==> final(self).parameters@ == entries_add(
                old(self).parameters@,
                name@,
                value@,
            ) && final(self).name == old(self).name && final(self).value == old(self).value
                && final(self).old_line == old(self).old_line,
            old(self).parameters.wf() ==> final(self).parameters.wf(),
    {
        check_name(&name, NameType::Parameter)?;
        self.parameters.add(name, value);
        Ok(())
    }

    /// The values of the parameter `name`, if it is present.
    pub fn get_param_value(&self, name: &str) -> (r: Option<&Vec<String>>)
        ensures
            r matches Some(v) ==> entry_index(self.parameters@, name@) matches Some(k)
                && values_view(v@) == self.parameters@[k].1,
            r is None ==> entry_index(self.parameters@, name@) is None,
    {
        self.parameters.get(name)
    }
}

impl Component {
    /// A component without properties or sub-components.
    pub fn new_empty(name: String) -> (r: Result<Component, InvalidNameError>)
        ensures
            r is Ok <==> name_violation(name@) is None,
            r matches Err(e) ==> e.fault() == (NameType::Component, name@, name_violation(
                name@,
            )->0),
            r matches Ok(c) ==> c.name == name && c.properties@.len() == 0
                && c.sub_components@.len() == 0,
    {
        let r = Self::new(name, Vec::new(), Vec::new());
        proof {
            if r is Ok {
                assert(props_violation(r->Ok_0.properties@) is None);
                assert(comps_violation(r->Ok_0.sub_components@) is None);
            }
        }
        r
    }

    /// A component built from its parts, once every name in the tree is legal.
    pub fn new(name: String, properties: Vec<Property>, sub_components: Vec<Component>) -> (r:
        Result<Component, InvalidNameError>)
        ensures
            ({
                let c = Component { name, properties, sub_components };
                &&& r is Ok <==> comp_violation(c) is None
                &&& r matches Err(e) ==> comp_violation(c) == Some(e.fault())
                &&& r matches Ok(d) ==> d == c
            }),
    {
        let c = Component { name, properties, sub_components };
        c.check()?;
        Ok(c)
    }

    /// Checks every name in the tree: the component's, its properties' and
    /// parameters', and those of its sub-components.
    pub fn check(&self) -> (r: Result<(), InvalidNameError>)
        ensures
            r is Ok <==> comp_violation(*self) is None,
            r matches Err(e) ==> comp_violation(*self) == Some(e.fault()),
        decreases self,
    {
        check_name(&self.name, NameType::Component)?;
        let n = self.properties.len();
        let mut i: usize = 0;
        assert(self.properties@.subrange(0, n as int) =~= self.properties@);
        while i < n
            invariant
                n == self.properties@.len(),
                i <= n,
                name_violation(self.name@) is None,
                props_violation(self.properties@) == props_violation(
                    self.properties@.subrange(i as int, n as int),
                ),
            decreases n - i,
        {
            let ghost rest = self.properties@.subrange(i as int, n as int);
            assert(rest[0] == self.properties@[i as int]);
            self.properties[i].check()?;
            assert(rest.drop_first() =~= self.properties@.subrange(i + 1, n as int));
            i = i + 1;
        }
        let m = self.sub_components.len();
        let mut j: usize = 0;
        assert(self.sub_components@.subrange(0, m as int) =~= self.sub_components@);
        while j < m
            invariant
                m == self.sub_components@.len(),
                j <= m,
                name_violation(self.name@) is None,
                props_violation(self.properties@) is None,
                comps_violation(self.sub_components@) == comps_violation(
                    self.sub_components@.subrange(j as int, m as int),
                ),
            decreases m - j,
        {
            let ghost rest = self.sub_components@.subrange(j as int, m as int);
            assert(rest[0] == self.sub_components@[j as int]);
            self.sub_components[j].check()?;
            assert(rest.drop_first() =~= self.sub_components@.subrange(j + 1, m as int));
            j = j + 1;
        }
        Ok(())
    }

    /// All properties whose name equals `name` (compared as given, so
    /// parsed data needs an upper-case `name`), in order.
    pub fn find_property(&self, name: &str) -> (r: Vec<&Property>)
        ensures
            r@.map_values(|p: &Property| *p) == props_named(self.properties@, name@),
    {
        let mut out: Vec<&Property> = Vec::new();
        let n = self.properties.len();
        let mut i: usize = 0;
        while i < n
            invariant
                n == self.properties@.len(),
                i <= n,
                out@.map_values(|p: &Property| *p) == props_named(
                    self.properties@.subrange(0, i as int),
                    name@,
                ),
            decreases n - i,
        {
            let p = &self.properties[i];
            let ghost next = self.properties@.subrange(0, i + 1);
            assert(next.drop_last() =~= self.properties@.subrange(0, i as int));
            assert(next.last() == *p);
            let ghost before = out@;
            if str_eq(p.name.as_str(), name) {
                out.push(p);
                assert(out@.map_values(|p: &Property| *p) =~= before.map_values(
                    |p: &Property| *p,
                ).push(*p));
            }
            i = i + 1;
        }
        assert(self.properties@.subrange(0, n as int) =~= self.properties@);
        out
    }

    /// Appends a property.
    pub fn add_property(&mut self, p: Property)
        ensures
            final(self).properties@ == old(self).properties@.push(p),
            final(self).name == old(self).name,
            final(self).sub_components == old(self).sub_components,
    {
        self.properties.push(p);
    }

    /// Appends a sub-component.
    pub fn add_sub_component(&mut self, c: Component)
        ensures
            final(self).sub_components@ == old(self).sub_components@.push(c),
            final(self).name == old(self).name,
            final(self).properties == old(self).properties,
    {
        self.sub_components.push(c);
    }
}

/// A property as the specification sees it.
pub struct PropView {
    pub name: Seq<char>,
    pub value: Seq<char>,
    pub params: Seq<(Seq<char>, Seq<Seq<char>>)>,
    pub old_line: Option<(Seq<char>, u32)>,
}

/// A component tree as the specification sees it.
pub struct CompView {
    pub name: Seq<char>,
    pub props: Seq<PropView>,
    pub subs: Seq<CompView>,
}

impl Property {
    pub open spec fn view(&self) -> PropView {
        PropView {
            name: self.name@,
            value: self.value@,
            params: self.parameters@,
            old_line: match self.old_line {
                Some(l) => Some((l.0@, l.1)),
                None => None,
            },
        }
    }
}

/// The view of a component tree.
pub open spec fn comp_view(c: Component) -> CompView
    decreases c,
{
    CompView {
        name: c.name@,
        props: c.properties@.map_values(|p: Property| p@),
        subs: Seq::new(
            c.sub_components@.len(),
            |i: int|
                if 0 <= i < c.sub_components@.len() {
                    comp_view(c.sub_components@[i])
                } else {
                    CompView { name: seq![], props: seq![], subs: seq![] }
                },
        ),
    }
}

impl Component {
    pub open spec fn view(&self) -> CompView {
        comp_view(*self)
    }
}

/// A non-empty name of legal characters.
pub open spec fn name_ok(s: Seq<char>) -> bool {
    s.len() > 0 && forall|i: int| 0 <= i < s.len() ==> name_char(#[trigger] s[i])
}

/// A legal name that is already upper case.
pub open spec fn upper_name(s: Seq<char>) -> bool {
    name_ok(s) && ascii_upper(s) == s
}

/// A property whose names are legal and upper case and whose value is not
/// empty.
pub open spec fn prop_ok(p: PropView) -> bool {
    &&& upper_name(p.name)
    &&& p.value.len() > 0
    &&& forall|i: int| 0 <= i < p.params.len() ==> upper_name(#[trigger] p.params[i].0)
}

/// A component tree whose names are all legal and upper case and whose
/// property values are not empty.
pub open spec fn comp_ok(c: CompView) -> bool
    decreases c,
{
    &&& upper_name(c.name)
    &&& forall|i: int| 0 <= i < c.props.len() ==> prop_ok(#[trigger] c.props[i])
    &&& forall|i: int| 0 <= i < c.subs.len() ==> comp_ok(#[trigger] c.subs[i])
}

/// Adding a value under a legal name keeps every parameter name legal.
pub proof fn lemma_entries_add_names(
    e: Seq<(Seq<char>, Seq<Seq<char>>)>,
    name: Seq<char>,
    value: Seq<char>,
)
    requires
        forall|i: int| 0 <= i < e.len() ==> upper_name(#[trigger] e[i].0),
        upper_name(name),
    ensures
        ({
            let r = entries_add(e, name, value);
            forall|i: int| 0 <= i < r.len() ==> upper_name(#[trigger] r[i].0)
        }),
{
    lemma_entry_index(e, name);
    let r = entries_add(e, name, value);
    assert forall|i: int| 0 <= i < r.len() implies upper_name(#[trigger] r[i].0) by {
        if i < e.len() {
            if entry_index(e, name) == Some(i) {
                assert(r[i].0 == name);
            } else {
                assert(r[i] == e[i]);
            }
        }
    }
}

} // verus!
