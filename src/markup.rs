use vstd::prelude::*;

use crate::address::same_chars;
use crate::text::{append_chars, chars_of, string_of};

verus! {

/// One structural event of a markup fragment. `Empty` is a self-closing tag.
#[derive(Clone, Debug)]
pub enum XmlEvent {
    Start(String, Vec<(String, String)>),
    Empty(String, Vec<(String, String)>),
    Text(String),
    End(String),
    Eof,
}

/// A fatal fault while binding an element.
#[derive(Clone, Copy, Debug, PartialEq, Eq, Structural)]
pub enum BindError {
    /// The input ended before the element's end tag.
    UnexpectedEndOfInput,
    /// A required attribute is absent from its tag.
    MissingRequiredAttribute,
    /// The binder was started on an event that opens no element.
    NotAStartTag,
    /// An element is closed by an end tag of another name.
    MismatchedEndTag,
}

/// An attribute that an element schema reads.
pub struct AttrSpec {
    pub name: String,
    pub required: bool,
}

/// What the binder reads of one element: its attributes, whether it keeps its text, and
/// the child elements it knows, each with its own schema.
pub struct ElementSchema {
    pub name: String,
    pub attrs: Vec<AttrSpec>,
    pub text: bool,
    pub children: Vec<ElementSchema>,
}

/// A bound element: the value of each schema attribute (in schema order), its text and the
/// recognized children, in the order read.
pub struct Element {
    pub name: String,
    pub attrs: Vec<Option<String>>,
    pub text: String,
    pub children: Vec<Element>,
}

/// The value of the first attribute named `name`.
pub open spec fn lookup(attrs: Seq<(String, String)>, name: Seq<char>) -> Option<Seq<char>>
    decreases attrs.len(),
{
    if attrs.len() == 0 {
        None
    } else if attrs[0].0@ == name {
        Some(attrs[0].1@)
    } else {
        lookup(attrs.drop_first(), name)
    }
}

/// Some required attribute of `spec` is absent from `attrs`.
pub open spec fn missing_required(spec: Seq<AttrSpec>, attrs: Seq<(String, String)>) -> bool {
    exists|k: int| 0 <= k < spec.len() && #[trigger] spec[k].required && lookup(attrs, spec[k].name@) is None
}

/// Position just after the end tag that closes `d` open elements, scanning from `i`.
pub open spec fn close(ev: Seq<XmlEvent>, i: int, d: nat) -> Option<int>
    decreases ev.len() - i,
{
    if i < 0 || i >= ev.len() || d == 0 {
        None
    } else {
        match ev[i] {
            XmlEvent::Start(_, _) => close(ev, i + 1, d + 1),
            XmlEvent::End(_) => if d == 1 {
                Some(i + 1)
            } else {
                close(ev, i + 1, (d - 1) as nat)
            },
            XmlEvent::Eof => None,
            _ => close(ev, i + 1, d),
        }
    }
}

/// The text directly inside the open element, scanning from `i` with `d` elements open:
/// text of nested elements is not counted.
pub open spec fn own_text(ev: Seq<XmlEvent>, i: int, d: nat) -> Seq<char>
    decreases ev.len() - i,
{
    if i < 0 || i >= ev.len() || d == 0 {
        seq![]
    } else {
        match ev[i] {
            XmlEvent::Start(_, _) => own_text(ev, i + 1, d + 1),
            XmlEvent::End(_) => if d == 1 {
                seq![]
            } else {
                own_text(ev, i + 1, (d - 1) as nat)
            },
            XmlEvent::Text(t) => (if d == 1 {
                t@
            } else {
                seq![]
            }) + own_text(ev, i + 1, d),
            XmlEvent::Eof => seq![],
            _ => own_text(ev, i + 1, d),
        }
    }
}

/// The text directly inside the element that starts at `i`.
pub open spec fn element_text(ev: Seq<XmlEvent>, i: int) -> Seq<char> {
    if 0 <= i < ev.len() && ev[i] is Start {
        own_text(ev, i + 1, 1)
    } else {
        seq![]
    }
}

proof fn lemma_own_text_compose(ev: Seq<XmlEvent>, i: int, k: nat, d: nat)
    requires
        k >= 1,
        d >= 1,
    ensures
        close(ev, i, k) matches Some(j) ==> own_text(ev, i, k + d) == own_text(ev, j, d),
    decreases ev.len() - i,
{
    if 0 <= i < ev.len() {
        match ev[i] {
            XmlEvent::Start(_, _) => {
                lemma_own_text_compose(ev, i + 1, k + 1, d);
                assert((k + 1 + d) as nat == (k + d + 1) as nat);
            },
            XmlEvent::End(_) => {
                if k > 1 {
                    lemma_own_text_compose(ev, i + 1, (k - 1) as nat, d);
                    assert((k - 1 + d) as nat == (k + d - 1) as nat);
                }
            },
            XmlEvent::Text(t) => {
                lemma_own_text_compose(ev, i + 1, k, d);
                assert(Seq::<char>::empty() + own_text(ev, i + 1, k + d) =~= own_text(ev, i + 1, k + d));
            },
            XmlEvent::Eof => {},
            _ => {
                lemma_own_text_compose(ev, i + 1, k, d);
            },
        }
    }
}

/// Position just after the element that starts at `i`.
pub open spec fn element_end(ev: Seq<XmlEvent>, i: int) -> Option<int> {
    if 0 <= i < ev.len() {
        match ev[i] {
            XmlEvent::Start(_, _) => close(ev, i + 1, 1),
            XmlEvent::Empty(_, _) => Some(i + 1),
            _ => None,
        }
    } else {
        None
    }
}

pub open spec fn tag_name(e: XmlEvent) -> Seq<char> {
    match e {
        XmlEvent::Start(n, _) => n@,
        XmlEvent::Empty(n, _) => n@,
        _ => seq![],
    }
}

pub open spec fn tag_attrs(e: XmlEvent) -> Seq<(String, String)> {
    match e {
        XmlEvent::Start(_, a) => a@,
        XmlEvent::Empty(_, a) => a@,
        _ => seq![],
    }
}

proof fn lemma_close_compose(ev: Seq<XmlEvent>, i: int, k: nat, d: nat)
    requires
        k >= 1,
        d >= 1,
    ensures
        close(ev, i, k) matches Some(j) ==> close(ev, i, k + d) == close(ev, j, d),
        close(ev, i, k) is None ==> close(ev, i, k + d) is None,
    decreases ev.len() - i,
{
    if 0 <= i < ev.len() {
        match ev[i] {
            XmlEvent::Start(_, _) => {
                lemma_close_compose(ev, i + 1, k + 1, d);
                assert((k + 1 + d) as nat == (k + d + 1) as nat);
            },
            XmlEvent::End(_) => {
                if k > 1 {
                    lemma_close_compose(ev, i + 1, (k - 1) as nat, d);
                    assert((k - 1 + d) as nat == (k + d - 1) as nat);
                }
            },
            XmlEvent::Eof => {},
            _ => {
                lemma_close_compose(ev, i + 1, k, d);
            },
        }
    }
}

proof fn lemma_close_after(ev: Seq<XmlEvent>, i: int, d: nat)
    ensures
        close(ev, i, d) matches Some(j) ==> i < j <= ev.len(),
    decreases ev.len() - i,
{
    if 0 <= i < ev.len() && d > 0 {
        match ev[i] {
            XmlEvent::Start(_, _) => lemma_close_after(ev, i + 1, d + 1),
            XmlEvent::End(_) => if d > 1 {
                lemma_close_after(ev, i + 1, (d - 1) as nat);
            },
            XmlEvent::Eof => {},
            _ => lemma_close_after(ev, i + 1, d),
        }
    }
}

/// Skips the rest of an element whose start tag stands just before `i`.
fn skip_element(ev: &Vec<XmlEvent>, i: usize) -> (r: Option<usize>)
    requires
        i >= 1,
    ensures
        r matches Some(j) ==> close(ev@, i as int, 1) == Some(j as int),
        r is None ==> close(ev@, i as int, 1) is None,
{
    let mut depth: usize = 1;
    let mut k: usize = i;
    while k < ev.len()
        invariant
            depth >= 1,
            i >= 1,
            depth <= k - i + 1,
            i <= k,
            close(ev@, i as int, 1) == close(ev@, k as int, depth as nat),
        decreases ev.len() - k,
    {
        match &ev[k] {
            XmlEvent::Start(_, _) => {
                depth = depth + 1;
            },
            XmlEvent::End(_) => {
                if depth == 1 {
                    return Some(k + 1);
                }
                depth = depth - 1;
            },
            XmlEvent::Eof => {
                return None;
            },
            _ => {},
        }
        k = k + 1;
    }
    None
}

/// The value of the first attribute named `name`.
fn find_attr(attrs: &Vec<(String, String)>, name: &String) -> (r: Option<String>)
    ensures
        r matches Some(v) ==> lookup(attrs@, name@) == Some(v@),
        r is None ==> lookup(attrs@, name@) is None,
{
    let want = chars_of(name.as_str());
    let mut i: usize = 0;
    assert(attrs@.skip(0) =~= attrs@);
    while i < attrs.len()
        invariant
            i <= attrs.len(),
            want@ == name@,
            lookup(attrs@, name@) == lookup(attrs@.skip(i as int), name@),
        decreases attrs.len() - i,
    {
        let have = chars_of(attrs[i].0.as_str());
        assert(attrs@.skip(i as int)[0] == attrs@[i as int]);
        assert(attrs@.skip(i as int).drop_first() =~= attrs@.skip(i + 1));
        if same_chars(&have, &want) {
            return Some(attrs[i].1.clone());
        }
        i = i + 1;
    }
    assert(attrs@.skip(i as int).len() == 0);
    None
}

/// Reads the schema's attributes from a tag, in schema order; unknown attributes are
/// ignored.
fn bind_attrs(spec: &Vec<AttrSpec>, attrs: &Vec<(String, String)>) -> (r: Result<
    Vec<Option<String>>,
    BindError,
>)
    ensures
        r is Err <==> missing_required(spec@, attrs@),
        r is Err ==> r == Err::<Vec<Option<String>>, BindError>(
            BindError::MissingRequiredAttribute,
        ),
        r matches Ok(v) ==> v.len() == spec.len() && forall|k: int|
            0 <= k < v.len() ==> match #[trigger] v@[k] {
                Some(s) => lookup(attrs@, spec@[k].name@) == Some(s@),
                None => lookup(attrs@, spec@[k].name@) is None,
            },
{
    let mut out: Vec<Option<String>> = Vec::new();
    let mut k: usize = 0;
    while k < spec.len()
        invariant
            k <= spec.len(),
            out.len() == k,
            forall|m: int| 0 <= m < k ==> !(#[trigger] spec@[m].required && lookup(attrs@, spec@[m].name@) is None),
            forall|m: int|
                0 <= m < k ==> match #[trigger] out@[m] {
                    Some(s) => lookup(attrs@, spec@[m].name@) == Some(s@),
                    None => lookup(attrs@, spec@[m].name@) is None,
                },
        decreases spec.len() - k,
    {
        let v = find_attr(attrs, &spec[k].name);
        if v.is_none() && spec[k].required {
            assert(missing_required(spec@, attrs@));
            return Err(BindError::MissingRequiredAttribute);
        }
        out.push(v);
        k = k + 1;
    }
    Ok(out)
}

/// The schema declares a child named `name`.
pub open spec fn is_declared_child(schema: &ElementSchema, name: Seq<char>) -> bool {
    exists|m: int| 0 <= m < schema.children.len() && #[trigger] schema.children@[m].name@ == name
}

/// Position of the first child schema named `name`, from `k` on.
pub open spec fn child_index(children: Seq<ElementSchema>, name: Seq<char>, k: int) -> Option<int>
    decreases children.len() - k,
{
    if k < 0 || k >= children.len() {
        None
    } else if children[k].name@ == name {
        Some(k)
    } else {
        child_index(children, name, k + 1)
    }
}

pub open spec fn end_name(e: XmlEvent) -> Seq<char> {
    match e {
        XmlEvent::End(n) => n@,
        _ => seq![],
    }
}

/// Binding the element at `pos` by `schema` succeeds: its tag has every required attribute,
/// and, for a start tag, its content binds up to an end tag of its own name.
pub open spec fn bind_ok(schema: ElementSchema, ev: Seq<XmlEvent>, pos: int) -> bool
    decreases ev.len() - pos, 0int,
{
    if 0 <= pos < ev.len() {
        match ev[pos] {
            XmlEvent::Start(n, a) => !missing_required(schema.attrs@, a@) && content_ok(
                schema,
                ev,
                pos + 1,
                n@,
            ),
            XmlEvent::Empty(_, a) => !missing_required(schema.attrs@, a@),
            _ => false,
        }
    } else {
        false
    }
}

/// The content of an element named `name`, from `i` on, binds: every child that the schema
/// knows binds, every other child is closed, and the element ends with an end tag of its
/// own name before the input ends.
pub open spec fn content_ok(schema: ElementSchema, ev: Seq<XmlEvent>, i: int, name: Seq<char>) -> bool
    decreases ev.len() - i, 1int,
{
    if 0 <= i < ev.len() {
        match ev[i] {
            XmlEvent::Text(_) => content_ok(schema, ev, i + 1, name),
            XmlEvent::End(n) => n@ == name,
            XmlEvent::Eof => false,
            _ => {
                let known = match child_index(schema.children@, tag_name(ev[i]), 0) {
                    Some(k) => 0 <= k < schema.children.len() && bind_ok(schema.children@[k], ev, i),
                    None => true,
                };
                known && match element_end(ev, i) {
                    Some(j) => i < j <= ev.len() && content_ok(schema, ev, j, name),
                    None => false,
                }
            },
        }
    } else {
        false
    }
}

/// Positions of the children that the schema knows, in the content from `i` on.
pub open spec fn child_positions(schema: ElementSchema, ev: Seq<XmlEvent>, i: int) -> Seq<int>
    decreases ev.len() - i,
{
    if 0 <= i < ev.len() {
        match ev[i] {
            XmlEvent::Text(_) => child_positions(schema, ev, i + 1),
            XmlEvent::End(_) => seq![],
            XmlEvent::Eof => seq![],
            _ => {
                let rest = match element_end(ev, i) {
                    Some(j) => if i < j <= ev.len() {
                        child_positions(schema, ev, j)
                    } else {
                        seq![]
                    },
                    None => seq![],
                };
                if child_index(schema.children@, tag_name(ev[i]), 0) is Some {
                    seq![i] + rest
                } else {
                    rest
                }
            },
        }
    } else {
        seq![]
    }
}

/// Positions of the children of the element at `pos` that the schema knows, in order.
pub open spec fn element_children(schema: ElementSchema, ev: Seq<XmlEvent>, pos: int) -> Seq<int> {
    if 0 <= pos < ev.len() && ev[pos] is Start {
        child_positions(schema, ev, pos + 1)
    } else {
        seq![]
    }
}

/// `e` is what binding the tag at `p` by `schema` reads of it: its name, the value of each
/// schema attribute and, where the schema keeps it, its text.
pub open spec fn bound_as(e: Element, schema: ElementSchema, ev: Seq<XmlEvent>, p: int) -> bool {
    &&& e.name@ == tag_name(ev[p])
    &&& e.attrs.len() == schema.attrs.len()
    &&& forall|k: int|
        0 <= k < e.attrs.len() ==> match #[trigger] e.attrs@[k] {
            Some(s) => lookup(tag_attrs(ev[p]), schema.attrs@[k].name@) == Some(s@),
            None => lookup(tag_attrs(ev[p]), schema.attrs@[k].name@) is None,
        }
    &&& e.text@ == (if schema.text {
        element_text(ev, p)
    } else {
        Seq::<char>::empty()
    })
}

/// `c` is the child at `p` bound by the child schema of its name.
pub open spec fn child_bound(schema: ElementSchema, ev: Seq<XmlEvent>, p: int, c: Element) -> bool {
    match child_index(schema.children@, tag_name(ev[p]), 0) {
        Some(m) => 0 <= m < schema.children.len() && bound_as(c, schema.children@[m], ev, p),
        None => false,
    }
}

/// The element at `pos` is closed, by an end tag of its own name for a start tag.
pub open spec fn end_name_matches(ev: Seq<XmlEvent>, pos: int) -> bool {
    match element_end(ev, pos) {
        Some(j) => ev[pos] is Empty || end_name(ev[j - 1]) == tag_name(ev[pos]),
        None => false,
    }
}

proof fn lemma_child_index(children: Seq<ElementSchema>, name: Seq<char>, k: int)
    ensures
        child_index(children, name, k) matches Some(m) ==> k <= m < children.len(),
    decreases children.len() - k,
{
    if 0 <= k < children.len() && children[k].name@ != name {
        lemma_child_index(children, name, k + 1);
    }
}

proof fn lemma_flat_content(schema: ElementSchema, ev: Seq<XmlEvent>, i: int, name: Seq<char>)
    requires
        schema.children.len() == 0,
        i >= 1,
    ensures
        content_ok(schema, ev, i, name) == match close(ev, i, 1) {
            Some(j) => end_name(ev[j - 1]) == name,
            None => false,
        },
    decreases ev.len() - i,
{
    if 0 <= i < ev.len() {
        match ev[i] {
            XmlEvent::Text(_) => lemma_flat_content(schema, ev, i + 1, name),
            XmlEvent::End(_) => {},
            XmlEvent::Eof => {},
            XmlEvent::Start(_, _) => {
                lemma_close_compose(ev, i + 1, 1, 1);
                lemma_close_after(ev, i + 1, 1);
                match close(ev, i + 1, 1) {
                    Some(j) => lemma_flat_content(schema, ev, j, name),
                    None => {},
                }
            },
            XmlEvent::Empty(_, _) => lemma_flat_content(schema, ev, i + 1, name),
        }
    }
}

/// For a schema without children, binding succeeds exactly where the tag has every required
/// attribute and the element is closed by an end tag of its own name.
pub proof fn lemma_flat_bind_ok(schema: ElementSchema, ev: Seq<XmlEvent>, pos: int)
    requires
        schema.children.len() == 0,
    ensures
        bind_ok(schema, ev, pos) == (0 <= pos < ev.len() && (ev[pos] is Start || ev[pos] is Empty)
            && !missing_required(schema.attrs@, tag_attrs(ev[pos])) && end_name_matches(ev, pos)),
{
    if 0 <= pos < ev.len() && ev[pos] is Start {
        lemma_flat_content(schema, ev, pos + 1, tag_name(ev[pos]));
    }
}

/// Position of the child schema named `name`.
fn find_child(schema: &ElementSchema, name: &String) -> (r: Option<usize>)
    ensures
        r matches Some(k) ==> k < schema.children.len() && schema.children@[k as int].name@ == name@,
        r matches Some(k) ==> child_index(schema.children@, name@, 0) == Some(k as int),
        r is None ==> child_index(schema.children@, name@, 0) is None,
{
    let want = chars_of(name.as_str());
    let mut k: usize = 0;
    while k < schema.children.len()
        invariant
            k <= schema.children.len(),
            want@ == name@,
            child_index(schema.children@, name@, 0) == child_index(schema.children@, name@, k as int),
        decreases schema.children.len() - k,
    {
        let have = chars_of(schema.children[k].name.as_str());
        if same_chars(&have, &want) {
            return Some(k);
        }
        k = k + 1;
    }
    None
}

/// Position of the first start tag (or self-closing tag) named `name`.
pub fn find_start(ev: &Vec<XmlEvent>, name: &str) -> (r: Option<usize>)
    ensures
        r matches Some(k) ==> k < ev.len() && (ev@[k as int] is Start || ev@[k as int] is Empty)
            && tag_name(ev@[k as int]) == name@ && forall|j: int|
            0 <= j < k ==> !((ev@[j] is Start || ev@[j] is Empty) && tag_name(#[trigger] ev@[j]) == name@),
        r is None ==> forall|j: int|
            0 <= j < ev.len() ==> !((ev@[j] is Start || ev@[j] is Empty) && tag_name(#[trigger] ev@[j]) == name@),
{
    let want = chars_of(name);
    let mut i: usize = 0;
    while i < ev.len()
        invariant
            i <= ev.len(),
            want@ == name@,
            forall|j: int|
                0 <= j < i ==> !((ev@[j] is Start || ev@[j] is Empty) && tag_name(#[trigger] ev@[j]) == name@),
        decreases ev.len() - i,
    {
        match &ev[i] {
            XmlEvent::Start(n, _) | XmlEvent::Empty(n, _) => {
                let have = chars_of(n.as_str());
                if same_chars(&have, &want) {
                    return Some(i);
                }
            },
            _ => {},
        }
        i = i + 1;
    }
    None
}

/// Binds the element that starts at `pos` by `schema`: reads the attributes that the
/// schema names, the text where the schema keeps it, binds each child that the schema
/// knows and skips every other child with its whole subtree. On success returns the
/// element and the position just after its end.
/// A self-closing tag completes at once. A start tag is always read up to its own end tag,
/// also where the schema declares no children and no text, so that the events after the
/// element stay in step; what lies inside is then skipped.
pub fn bind(schema: &ElementSchema, ev: &Vec<XmlEvent>, pos: usize) -> (r: Result<
    (Element, usize),
    BindError,
>)
    ensures
        r matches Ok((e, j)) ==> element_end(ev@, pos as int) == Some(j as int) && e.name@ == tag_name(
            ev@[pos as int],
        ) && e.attrs.len() == schema.attrs.len() && forall|k: int|
            0 <= k < e.attrs.len() ==> match #[trigger] e.attrs@[k] {
                Some(s) => lookup(tag_attrs(ev@[pos as int]), schema.attrs@[k].name@) == Some(s@),
                None => lookup(tag_attrs(ev@[pos as int]), schema.attrs@[k].name@) is None,
            },
        r matches Ok((e, j)) ==> e.text@ == (if schema.text {
            element_text(ev@, pos as int)
        } else {
            Seq::<char>::empty()
        }),
        r matches Ok((e, j)) ==> forall|k: int|
            0 <= k < e.children.len() ==> is_declared_child(schema, #[trigger] e.children@[k].name@),
        r matches Ok((e, j)) ==> bound_as(e, *schema, ev@, pos as int),
        r matches Ok((e, j)) ==> e.children.len() == element_children(*schema, ev@, pos as int).len()
            && forall|k: int|
            0 <= k < e.children.len() ==> child_bound(
                *schema,
                ev@,
                element_children(*schema, ev@, pos as int)[k],
                #[trigger] e.children@[k],
            ),
        r is Ok <==> bind_ok(*schema, ev@, pos as int),
        element_end(ev@, pos as int) is None ==> r is Err,
        schema.children.len() == 0 && pos < ev.len() && ev@[pos as int] is Start && !missing_required(
            schema.attrs@,
            tag_attrs(ev@[pos as int]),
        ) && element_end(ev@, pos as int) is None ==> r == Err::<(Element, usize), BindError>(
            BindError::UnexpectedEndOfInput,
        ),
        pos < ev.len() && (ev@[pos as int] is Start || ev@[pos as int] is Empty) && missing_required(
            schema.attrs@,
            tag_attrs(ev@[pos as int]),
        ) ==> r == Err::<(Element, usize), BindError>(BindError::MissingRequiredAttribute),
    decreases ev.len() - pos,
{
    if pos >= ev.len() {
        return Err(BindError::NotAStartTag);
    }
    let (name, attrs, empty) = match &ev[pos] {
        XmlEvent::Start(n, a) => (n, a, false),
        XmlEvent::Empty(n, a) => (n, a, true),
        _ => {
            return Err(BindError::NotAStartTag);
        },
    };
    let values = match bind_attrs(&schema.attrs, attrs) {
        Ok(v) => v,
        Err(e) => {
            return Err(e);
        },
    };
    let mut text: Vec<char> = Vec::new();
    let mut children: Vec<Element> = Vec::new();
    if empty {
        return Ok((Element { name: name.clone(), attrs: values, text: string_of(&text), children }, pos + 1));
    }
    let mut i: usize = pos + 1;
    let ghost mut ps: Seq<int> = seq![];
    assert(text@ + own_text(ev@, i as int, 1) =~= own_text(ev@, i as int, 1));
    assert(ps + child_positions(*schema, ev@, i as int) =~= child_positions(*schema, ev@, i as int));
    while i < ev.len()
        invariant
            pos < i <= ev.len(),
            ev@[pos as int] is Start,
            close(ev@, pos + 1, 1) == close(ev@, i as int, 1),
            !missing_required(schema.attrs@, tag_attrs(ev@[pos as int])),
            name@ == tag_name(ev@[pos as int]),
            values.len() == schema.attrs.len(),
            forall|k: int|
                0 <= k < values.len() ==> match #[trigger] values@[k] {
                    Some(s) => lookup(tag_attrs(ev@[pos as int]), schema.attrs@[k].name@) == Some(s@),
                    None => lookup(tag_attrs(ev@[pos as int]), schema.attrs@[k].name@) is None,
                },
            schema.text ==> own_text(ev@, pos + 1, 1) == text@ + own_text(ev@, i as int, 1),
            forall|k: int|
                0 <= k < children.len() ==> is_declared_child(schema, #[trigger] children@[k].name@),
            bind_ok(*schema, ev@, pos as int) == content_ok(*schema, ev@, i as int, name@),
            !schema.text ==> text@.len() == 0,
            child_positions(*schema, ev@, pos + 1) == ps + child_positions(*schema, ev@, i as int),
            children.len() == ps.len(),
            forall|k: int| 0 <= k < children.len() ==> child_bound(*schema, ev@, ps[k], #[trigger] children@[k]),
        decreases ev.len() - i,
    {
        match &ev[i] {
            XmlEvent::Text(t) => {
                let ghost before = text@;
                if schema.text {
                    let tc = chars_of(t.as_str());
                    append_chars(&mut text, &tc);
                }
                proof {
                    if schema.text {
                        assert(before + (t@ + own_text(ev@, i + 1, 1)) =~= text@ + own_text(ev@, i + 1, 1));
                    }
                }
                i = i + 1;
            },
            XmlEvent::Start(n, _) | XmlEvent::Empty(n, _) => {
                let is_start = ev[i] matches XmlEvent::Start(_, _);
                let next = match find_child(schema, n) {
                    Some(k) => match bind(&schema.children[k], ev, i) {
                        Ok((c, j)) => {
                            assert(schema.children@[k as int].name@ == c.name@);
                            proof {
                                if is_start {
                                    lemma_close_after(ev@, i + 1, 1);
                                }
                                assert(child_positions(*schema, ev@, i as int) == seq![i as int] + child_positions(*schema, ev@, j as int));
                                assert(ps + child_positions(*schema, ev@, i as int) =~= ps.push(i as int) + child_positions(*schema, ev@, j as int));
                                assert(child_bound(*schema, ev@, i as int, c));
                                ps = ps.push(i as int);
                            }
                            children.push(c);
                            j
                        },
                        Err(e) => {
                            return Err(e);
                        },
                    },
                    None => {
                        if is_start {
                            match skip_element(ev, i + 1) {
                                Some(j) => j,
                                None => {
                                    proof {
                                        lemma_close_compose(ev@, i + 1, 1, 1);
                                    }
                                    return Err(BindError::UnexpectedEndOfInput);
                                },
                            }
                        } else {
                            i + 1
                        }
                    },
                };
                proof {
                    if is_start {
                        lemma_close_compose(ev@, i + 1, 1, 1);
                        lemma_close_after(ev@, i + 1, 1);
                        lemma_own_text_compose(ev@, i + 1, 1, 1);
                    }
                }
                assert(forall|k: int| 0 <= k < children.len() ==> child_bound(*schema, ev@, ps[k], #[trigger] children@[k]));
                assert(next > i);
                i = next;
            },
            XmlEvent::End(n) => {
                let have = chars_of(n.as_str());
                let want = chars_of(name.as_str());
                if !same_chars(&have, &want) {
                    return Err(BindError::MismatchedEndTag);
                }
                assert(text@ + Seq::<char>::empty() =~= text@);
                assert(ps + Seq::<int>::empty() =~= ps);
                return Ok((Element { name: name.clone(), attrs: values, text: string_of(&text), children }, i + 1));
            },
            XmlEvent::Eof => {
                return Err(BindError::UnexpectedEndOfInput);
            },
        }
    }
    Err(BindError::UnexpectedEndOfInput)
}

/// The markup form of one character: the five reserved characters become entities.
pub open spec fn escape_char(c: char) -> Seq<char> {
    if c == '&' {
        seq!['&', 'a', 'm', 'p', ';']
    } else if c == '<' {
        seq!['&', 'l', 't', ';']
    } else if c == '>' {
        seq!['&', 'g', 't', ';']
    } else if c == '"' {
        seq!['&', 'q', 'u', 'o', 't', ';']
    } else if c == '\'' {
        seq!['&', 'a', 'p', 'o', 's', ';']
    } else {
        seq![c]
    }
}

/// `s` with each reserved character escaped.
pub open spec fn escape(s: Seq<char>) -> Seq<char>
    decreases s.len(),
{
    if s.len() == 0 {
        seq![]
    } else {
        escape(s.drop_last()) + escape_char(s.last())
    }
}

/// ` name="value"` for each attribute, in order.
pub open spec fn attrs_text(attrs: Seq<(String, String)>) -> Seq<char>
    decreases attrs.len(),
{
    if attrs.len() == 0 {
        seq![]
    } else {
        attrs_text(attrs.drop_last()) + seq![' '] + attrs.last().0@ + seq!['=', '"'] + escape(
            attrs.last().1@,
        ) + seq!['"']
    }
}

pub proof fn lemma_attrs_text_push(a: Seq<(String, String)>, x: (String, String))
    ensures
        attrs_text(a.push(x)) == attrs_text(a) + seq![' '] + x.0@ + seq!['=', '"'] + escape(x.1@)
            + seq!['"'],
{
    assert(a.push(x).drop_last() =~= a);
}

/// A start tag, or a self-closing tag where `empty`.
pub open spec fn start_tag_text(name: Seq<char>, attrs: Seq<(String, String)>, empty: bool) -> Seq<
    char,
> {
    seq!['<'] + name + attrs_text(attrs) + if empty {
        seq!['/', '>']
    } else {
        seq!['>']
    }
}

pub open spec fn end_tag_text(name: Seq<char>) -> Seq<char> {
    seq!['<', '/'] + name + seq!['>']
}

fn push_escaped(out: &mut Vec<char>, s: &str)
    ensures
        final(out)@ == old(out)@ + escape(s@),
{
    let v = chars_of(s);
    let ghost base = out@;
    let mut i: usize = 0;
    assert(v@.take(0) =~= Seq::<char>::empty());
    assert(base + escape(Seq::<char>::empty()) =~= base);
    while i < v.len()
        invariant
            i <= v.len(),
            v@ == s@,
            out@ == base + escape(v@.take(i as int)),
        decreases v.len() - i,
    {
        let c = v[i];
        let ghost w = v@.take(i + 1);
        assert(w.drop_last() =~= v@.take(i as int));
        assert(w.last() == c);
        if c == '&' {
            out.push('&');
            out.push('a');
            out.push('m');
            out.push('p');
            out.push(';');
        } else if c == '<' {
            out.push('&');
            out.push('l');
            out.push('t');
            out.push(';');
        } else if c == '>' {
            out.push('&');
            out.push('g');
            out.push('t');
            out.push(';');
        } else if c == '"' {
            out.push('&');
            out.push('q');
            out.push('u');
            out.push('o');
            out.push('t');
            out.push(';');
        } else if c == '\'' {
            out.push('&');
            out.push('a');
            out.push('p');
            out.push('o');
            out.push('s');
            out.push(';');
        } else {
            out.push(c);
        }
        i = i + 1;
        assert(out@ =~= base + escape(v@.take(i as int)));
    }
    assert(v@.take(i as int) =~= v@);
}

/// Writes a start tag with the given attributes, in order; self-closing where `empty`.
pub fn write_start_tag(out: &mut Vec<char>, name: &str, attrs: &Vec<(String, String)>, empty: bool)
    ensures
        final(out)@ == old(out)@ + start_tag_text(name@, attrs@, empty),
{
    out.push('<');
    let n = chars_of(name);
    append_chars(out, &n);
    let ghost base = out@;
    let mut i: usize = 0;
    assert(attrs@.take(0) =~= Seq::<(String, String)>::empty());
    assert(base + attrs_text(Seq::<(String, String)>::empty()) =~= base);
    while i < attrs.len()
        invariant
            i <= attrs.len(),
            out@ == base + attrs_text(attrs@.take(i as int)),
        decreases attrs.len() - i,
    {
        let ghost w = attrs@.take(i + 1);
        assert(w.drop_last() =~= attrs@.take(i as int));
        assert(w.last() == attrs@[i as int]);
        out.push(' ');
        let k = chars_of(attrs[i].0.as_str());
        append_chars(out, &k);
        out.push('=');
        out.push('"');
        push_escaped(out, attrs[i].1.as_str());
        out.push('"');
        i = i + 1;
        assert(out@ =~= base + attrs_text(attrs@.take(i as int)));
    }
    assert(attrs@.take(i as int) =~= attrs@);
    if empty {
        out.push('/');
    }
    out.push('>');
    assert(out@ =~= old(out)@ + start_tag_text(name@, attrs@, empty));
}

/// Writes text content, escaped.
pub fn write_text_node(out: &mut Vec<char>, text: &str)
    ensures
        final(out)@ == old(out)@ + escape(text@),
{
    push_escaped(out, text);
}

pub fn write_end_tag(out: &mut Vec<char>, name: &str)
    ensures
        final(out)@ == old(out)@ + end_tag_text(name@),
{
    out.push('<');
    out.push('/');
    let n = chars_of(name);
    append_chars(out, &n);
    out.push('>');
    assert(out@ =~= old(out)@ + end_tag_text(name@));
}

} // verus!
