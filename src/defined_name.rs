use vstd::prelude::*;

use crate::address::{
    adjust_address_spec, all_name_chars, decimal_digits, decimal_value, fmt_address, fmt_sheet,
    is_coord_char, is_name_char, lemma_address_round_trip, lemma_cells_round_trip,
    parse_address_spec, quote_body, quote_piece, Address, AddressView, Axis, EditMode,
};
use crate::markup::{
    attrs_text, bind, element_end, end_name_matches, lemma_attrs_text_push, lemma_flat_bind_ok,
    missing_required, element_text, end_tag_text, escape, lookup, tag_attrs,
    write_end_tag, write_start_tag, write_text_node, AttrSpec, BindError, ElementSchema, XmlEvent,
};
use crate::text::{append_chars, chars_of, string_of};
use crate::value::{text_u32, StringValue, UInt32Value};

verus! {

/// Where the splitter stands after some characters of a reference list.
pub struct SplitState {
    pub in_single: bool,
    pub in_double: bool,
    pub depth: int,
    pub cur: Seq<char>,
    pub done: Seq<Seq<char>>,
}

pub open spec fn split_start() -> SplitState {
    SplitState { in_single: false, in_double: false, depth: 0, cur: seq![], done: seq![] }
}

/// One character: parentheses nest, a single quote toggles the quoted sheet name, a double
/// quote toggles a string literal and is kept only inside a sheet name or parentheses, and
/// a comma outside all of these ends a token.
pub open spec fn split_step(st: SplitState, c: char) -> SplitState {
    if c == '(' {
        SplitState { depth: st.depth + 1, cur: st.cur.push(c), ..st }
    } else if c == ')' {
        SplitState { depth: st.depth - 1, cur: st.cur.push(c), ..st }
    } else if c == '\'' {
        SplitState { in_single: !st.in_single, cur: st.cur.push(c), ..st }
    } else if c == '"' {
        SplitState {
            in_double: !st.in_double,
            cur: if st.in_single || st.depth != 0 { st.cur.push(c) } else { st.cur },
            ..st
        }
    } else if c == ',' && !st.in_single && !st.in_double && st.depth == 0 {
        SplitState { cur: seq![], done: st.done.push(st.cur), ..st }
    } else {
        SplitState { cur: st.cur.push(c), ..st }
    }
}

/// The splitter's state after reading `s` from state `st`.
pub open spec fn run_from(st: SplitState, s: Seq<char>) -> SplitState
    decreases s.len(),
{
    if s.len() == 0 {
        st
    } else {
        split_step(run_from(st, s.drop_last()), s.last())
    }
}

pub open spec fn split_run(s: Seq<char>) -> SplitState {
    run_from(split_start(), s)
}

/// The tokens of a comma-separated reference list; a last empty token is left out.
pub open spec fn split_spec(s: Seq<char>) -> Seq<Seq<char>> {
    let st = split_run(s);
    if st.cur.len() > 0 {
        st.done.push(st.cur)
    } else {
        st.done
    }
}

/// Splits a reference list at the commas that stand outside quotes and parentheses.
pub fn split_str(value: &str) -> (r: Vec<String>)
    ensures
        r@.len() == split_spec(value@).len(),
        forall|i: int| 0 <= i < r@.len() ==> #[trigger] r@[i]@ == split_spec(value@)[i],
{
    let s = chars_of(value);
    let mut in_single = false;
    let mut in_double = false;
    let mut depth: i128 = 0;
    let mut cur: Vec<char> = Vec::new();
    let mut result: Vec<String> = Vec::new();
    let mut i: usize = 0;
    while i < s.len()
        invariant
            i <= s.len(),
            s@ == value@,
            -(i as int) <= depth <= i as int,
            ({
                let st = split_run(s@.take(i as int));
                &&& st.in_single == in_single
                &&& st.in_double == in_double
                &&& st.depth == depth as int
                &&& st.cur == cur@
                &&& st.done.len() == result@.len()
                &&& forall|j: int| 0 <= j < result@.len() ==> #[trigger] result@[j]@ == st.done[j]
            }),
        decreases s.len() - i,
    {
        let c = s[i];
        assert(s@.take(i + 1).drop_last() =~= s@.take(i as int));
        assert(s@.take(i + 1).len() > 0);
        assert(s@.take(i + 1).last() == c);
        if c == '(' {
            depth = depth + 1;
            cur.push(c);
        } else if c == ')' {
            depth = depth - 1;
            cur.push(c);
        } else if c == '\'' {
            in_single = !in_single;
            cur.push(c);
        } else if c == '"' {
            in_double = !in_double;
            if in_single || depth != 0 {
                cur.push(c);
            }
        } else if c == ',' && !in_single && !in_double && depth == 0 {
            let tok = string_of(&cur);
            result.push(tok);
            cur = Vec::new();
        } else {
            cur.push(c);
        }
        i = i + 1;
    }
    assert(s@.take(i as int) =~= s@);
    if cur.len() > 0 {
        let tok = string_of(&cur);
        result.push(tok);
    }
    result
}

/// What a named range holds: a literal text, or a list of references (empty when none).
#[derive(Clone, Debug)]
pub enum DefinedValue {
    Literal(String),
    References(Vec<Address>),
}

pub enum ValueView {
    Literal(Seq<char>),
    References(Seq<AddressView>),
}

pub open spec fn views_of(v: Seq<Address>) -> Seq<AddressView> {
    v.map_values(|a: Address| a@)
}

impl View for DefinedValue {
    type V = ValueView;

    open spec fn view(&self) -> ValueView {
        match self {
            DefinedValue::Literal(s) => ValueView::Literal(s@),
            DefinedValue::References(v) => ValueView::References(views_of(v@)),
        }
    }
}

/// The value that a list of tokens gives after the references `base`: every token a
/// reference gives `base` followed by those references; otherwise the last token that is no reference is kept as a literal.
pub open spec fn bind_tokens(base: Seq<AddressView>, toks: Seq<Seq<char>>) -> ValueView
    decreases toks.len(),
{
    if toks.len() == 0 {
        ValueView::References(base)
    } else {
        let prev = bind_tokens(base, toks.drop_last());
        match parse_address_spec(toks.last()) {
            None => ValueView::Literal(toks.last()),
            Some(a) => match prev {
                ValueView::Literal(l) => ValueView::Literal(l),
                ValueView::References(v) => ValueView::References(v.push(a)),
            },
        }
    }
}

/// The references that a value holds: none for a literal.
pub open spec fn refs_of(v: ValueView) -> Seq<AddressView> {
    match v {
        ValueView::References(r) => r,
        ValueView::Literal(_) => seq![],
    }
}

/// The texts of the references, joined by commas.
pub open spec fn join_refs(v: Seq<AddressView>) -> Seq<char>
    decreases v.len(),
{
    if v.len() == 0 {
        seq![]
    } else if v.len() == 1 {
        fmt_address(v[0])
    } else {
        join_refs(v.drop_last()) + seq![','] + fmt_address(v.last())
    }
}

/// The text that a value is written as.
pub open spec fn value_text(v: ValueView) -> Seq<char> {
    match v {
        ValueView::Literal(l) => l,
        ValueView::References(r) => join_refs(r),
    }
}

/// The references that are left after a structural edit, each adjusted, in their order.
pub open spec fn adjust_list(
    v: Seq<AddressView>,
    sheet: Seq<char>,
    axis: Axis,
    at: int,
    delta: int,
    mode: EditMode,
) -> Seq<AddressView>
    decreases v.len(),
{
    if v.len() == 0 {
        seq![]
    } else {
        let prev = adjust_list(v.drop_last(), sheet, axis, at, delta, mode);
        match adjust_address_spec(v.last(), sheet, axis, at, delta, mode) {
            Some(b) => prev.push(b),
            None => prev,
        }
    }
}

/// A value after a structural edit: a literal is never touched.
pub open spec fn adjust_value(
    v: ValueView,
    sheet: Seq<char>,
    axis: Axis,
    at: int,
    delta: int,
    mode: EditMode,
) -> ValueView {
    match v {
        ValueView::Literal(l) => ValueView::Literal(l),
        ValueView::References(r) => ValueView::References(
            adjust_list(r, sheet, axis, at, delta, mode),
        ),
    }
}

/// Neither a literal nor any reference.
pub open spec fn is_empty_value(v: ValueView) -> bool {
    v matches ValueView::References(r) && r.len() == 0
}

pub open spec fn defined_name_tag() -> Seq<char> {
    seq!['d', 'e', 'f', 'i', 'n', 'e', 'd', 'N', 'a', 'm', 'e']
}

pub open spec fn name_attr() -> Seq<char> {
    seq!['n', 'a', 'm', 'e']
}

pub open spec fn local_sheet_id_attr() -> Seq<char> {
    seq!['l', 'o', 'c', 'a', 'l', 'S', 'h', 'e', 'e', 't', 'I', 'd']
}

pub open spec fn name_attr_text(name: Seq<char>) -> Seq<char> {
    seq![' '] + name_attr() + seq!['=', '"'] + escape(name) + seq!['"']
}

/// The attributes of a named range: `name`, then `localSheetId`, each only where it is set.
pub open spec fn defined_name_attrs_text(d: DefinedNameView) -> Seq<char> {
    (match d.name {
        Some(n) => name_attr_text(n),
        None => seq![],
    }) + match d.local_sheet_id {
        Some(id) => seq![' '] + local_sheet_id_attr() + seq!['=', '"'] + escape(
            decimal_digits(id as nat),
        ) + seq!['"'],
        None => seq![],
    }
}

/// The markup of a named range.
pub open spec fn defined_name_text(d: DefinedNameView) -> Seq<char> {
    seq!['<'] + defined_name_tag() + defined_name_attrs_text(d) + seq!['>'] + escape(
        value_text(d.value),
    ) + end_tag_text(defined_name_tag())
}

/// A named range: a name, an optional sheet it is local to, and what it refers to.
#[derive(Clone, Debug)]
pub struct DefinedName {
    name: StringValue,
    value: DefinedValue,
    local_sheet_id: UInt32Value,
}

pub struct DefinedNameView {
    pub name: Option<Seq<char>>,
    pub value: ValueView,
    pub local_sheet_id: Option<u32>,
}

impl View for DefinedName {
    type V = DefinedNameView;

    closed spec fn view(&self) -> DefinedNameView {
        DefinedNameView {
            name: match self.name.value {
                Some(n) => Some(n@),
                None => None,
            },
            value: self.value@,
            local_sheet_id: self.local_sheet_id.value,
        }
    }
}

impl Default for DefinedName {
    fn default() -> (r: DefinedName)
        ensures
            r@.name is None,
            is_empty_value(r@.value),
            r@.local_sheet_id is None,
    {
        DefinedName::new()
    }
}

impl DefinedName {
    /// A named range with no name, no value and no local sheet.
    pub fn new() -> (r: DefinedName)
        ensures
            r@.name is None,
            is_empty_value(r@.value),
            r@.local_sheet_id is None,
    {
        let refs: Vec<Address> = Vec::new();
        assert(views_of(refs@) =~= Seq::<AddressView>::empty());
        DefinedName {
            name: StringValue::new(),
            value: DefinedValue::References(refs),
            local_sheet_id: UInt32Value::new(),
        }
    }

    /// The name, empty when unset.
    pub fn get_name(&self) -> (r: String)
        ensures
            r@ == match self@.name {
                Some(n) => n,
                None => Seq::<char>::empty(),
            },
    {
        self.name.get_value()
    }

    pub fn set_name(&mut self, value: String)
        ensures
            final(self)@.name == Some(value@),
            final(self)@.value == old(self)@.value,
            final(self)@.local_sheet_id == old(self)@.local_sheet_id,
    {
        self.name.set_value(value);
    }

    /// The local sheet index, 0 when unset.
    pub fn get_local_sheet_id(&self) -> (r: u32)
        ensures
            r == match self@.local_sheet_id {
                Some(v) => v,
                None => 0,
            },
    {
        self.local_sheet_id.get_value()
    }

    pub fn set_local_sheet_id(&mut self, value: u32)
        ensures
            final(self)@.local_sheet_id == Some(value),
            final(self)@.name == old(self)@.name,
            final(self)@.value == old(self)@.value,
    {
        self.local_sheet_id.set_value(value);
    }

    /// Reads a comma-separated reference list. Where every token is a reference, those
    /// references are added after the ones already held (a literal is cleared); otherwise the
    /// value becomes the last token that is not a reference, as a literal.
    pub fn set_address(&mut self, value: &str)
        ensures
            final(self)@.value == bind_tokens(refs_of(old(self)@.value), split_spec(value@)),
            final(self)@.name == old(self)@.name,
            final(self)@.local_sheet_id == old(self)@.local_sheet_id,
    {
        let list = split_str(value);
        let ghost toks = split_spec(value@);
        let ghost base = refs_of(self@.value);
        let mut literal: Option<String> = None;
        let mut refs: Vec<Address> = self.copy_refs();
        let mut i: usize = 0;
        assert(toks.take(0) =~= Seq::<Seq<char>>::empty());
        while i < list.len()
            invariant
                i <= list.len() == toks.len(),
                forall|j: int| 0 <= j < list@.len() ==> #[trigger] list@[j]@ == toks[j],
                bind_tokens(base, toks.take(i as int)) == match literal {
                    Some(l) => ValueView::Literal(l@),
                    None => ValueView::References(views_of(refs@)),
                },
            decreases list.len() - i,
        {
            let tok = &list[i];
            assert(tok@ == toks[i as int]);
            assert(toks.take(i + 1).drop_last() =~= toks.take(i as int));
            assert(toks.take(i + 1).last() == toks[i as int]);
            match Address::parse(tok.as_str()) {
                Some(a) => {
                    if literal.is_none() {
                        proof {
                            assert(views_of(refs@.push(a)) =~= views_of(refs@).push(a@));
                        }
                        refs.push(a);
                    }
                },
                None => {
                    literal = Some(tok.clone());
                },
            }
            i = i + 1;
        }
        assert(toks.take(i as int) =~= toks);
        match literal {
            Some(l) => {
                self.value = DefinedValue::Literal(l);
            },
            None => {
                self.value = DefinedValue::References(refs);
            },
        }
    }

    /// The text of the value: the literal, or the references joined by commas.
    pub fn get_address(&self) -> (r: String)
        ensures
            r@ == value_text(self@.value),
    {
        match &self.value {
            DefinedValue::Literal(l) => l.clone(),
            DefinedValue::References(refs) => {
                let ghost v = views_of(refs@);
                let mut out: Vec<char> = Vec::new();
                let mut i: usize = 0;
                assert(v.take(0) =~= Seq::<AddressView>::empty());
                while i < refs.len()
                    invariant
                        i <= refs.len(),
                        v == views_of(refs@),
                        out@ == join_refs(v.take(i as int)),
                    decreases refs.len() - i,
                {
                    if i > 0 {
                        out.push(',');
                    }
                    let t = refs[i].get_address();
                    let tc = chars_of(t.as_str());
                    append_chars(&mut out, &tc);
                    proof {
                        let w = v.take(i + 1);
                        assert(w.last() == v[i as int]);
                        if i > 0 {
                            assert(w.drop_last() =~= v.take(i as int));
                        } else {
                            assert(w[0] == v[0]);
                            assert(v.take(0) =~= Seq::<AddressView>::empty());
                            assert(out@ =~= fmt_address(v[0]));
                        }
                    }
                    i = i + 1;
                }
                assert(v.take(i as int) =~= v);
                string_of(&out)
            },
        }
    }

    /// Copies of the references held; none for a literal.
    fn copy_refs(&self) -> (r: Vec<Address>)
        ensures
            views_of(r@) == refs_of(self@.value),
    {
        let mut refs: Vec<Address> = Vec::new();
        match &self.value {
            DefinedValue::References(old_refs) => {
                let mut i: usize = 0;
                while i < old_refs.len()
                    invariant
                        i <= old_refs.len(),
                        views_of(refs@) == views_of(old_refs@).take(i as int),
                    decreases old_refs.len() - i,
                {
                    let d = old_refs[i].duplicate();
                    proof {
                        assert(views_of(refs@.push(d)) =~= views_of(refs@).push(d@));
                        assert(views_of(old_refs@).take(i + 1) =~= views_of(old_refs@).take(
                            i as int,
                        ).push(old_refs@[i as int]@));
                    }
                    refs.push(d);
                    i = i + 1;
                }
                assert(views_of(old_refs@).take(i as int) =~= views_of(old_refs@));
            },
            DefinedValue::Literal(_) => {
                assert(views_of(refs@) =~= Seq::<AddressView>::empty());
            },
        }
        refs
    }

    /// Adds one reference; the value stops being a literal. Returns `false`, and changes
    /// nothing, where `value` is not a reference.
    pub fn add_address(&mut self, value: &str) -> (r: bool)
        ensures
            r == parse_address_spec(value@) is Some,
            r ==> final(self)@.value == ValueView::References(
                match old(self)@.value {
                    ValueView::References(v) => v,
                    ValueView::Literal(_) => Seq::<AddressView>::empty(),
                }.push(parse_address_spec(value@)->0),
            ),
            !r ==> final(self)@.value == old(self)@.value,
            final(self)@.name == old(self)@.name,
            final(self)@.local_sheet_id == old(self)@.local_sheet_id,
    {
        match Address::parse(value) {
            Some(a) => {
                let mut refs: Vec<Address> = self.copy_refs();
                proof {
                    assert(views_of(refs@.push(a)) =~= views_of(refs@).push(a@));
                }
                refs.push(a);
                self.value = DefinedValue::References(refs);
                true
            },
            None => false,
        }
    }

    /// The sheet of the first reference; empty for a literal or for no reference.
    pub fn get_sheet_name(&self) -> (r: String)
        ensures
            r@ == match self@.value {
                ValueView::References(v) => if v.len() > 0 {
                    v[0].sheet
                } else {
                    Seq::<char>::empty()
                },
                ValueView::Literal(_) => Seq::<char>::empty(),
            },
    {
        match &self.value {
            DefinedValue::References(refs) => {
                if refs.len() > 0 {
                    refs[0].sheet_name.clone()
                } else {
                    String::new()
                }
            },
            DefinedValue::Literal(_) => String::new(),
        }
    }

    /// Binds every reference to the sheet `value`; a literal is left as it is.
    pub fn set_sheet_name(&mut self, value: &str)
        ensures
            final(self)@.value == match old(self)@.value {
                ValueView::References(v) => ValueView::References(
                    v.map_values(|a: AddressView| AddressView { sheet: value@, ..a }),
                ),
                ValueView::Literal(l) => ValueView::Literal(l),
            },
            final(self)@.name == old(self)@.name,
            final(self)@.local_sheet_id == old(self)@.local_sheet_id,
    {
        let mut out: Vec<Address> = Vec::new();
        match &self.value {
            DefinedValue::Literal(_) => {
                return;
            },
            DefinedValue::References(refs) => {
                let ghost v = views_of(refs@);
                let ghost target = v.map_values(|a: AddressView| AddressView { sheet: value@, ..a });
                let mut i: usize = 0;
                while i < refs.len()
                    invariant
                        i <= refs.len(),
                        v == views_of(refs@),
                        target == v.map_values(|a: AddressView| AddressView { sheet: value@, ..a }),
                        views_of(out@) == target.take(i as int),
                    decreases refs.len() - i,
                {
                    let mut a = refs[i].duplicate();
                    a.sheet_name = value.to_string();
                    proof {
                        assert(views_of(out@.push(a)) =~= views_of(out@).push(a@));
                        assert(target.take(i + 1) =~= target.take(i as int).push(target[i as int]));
                    }
                    out.push(a);
                    i = i + 1;
                }
                assert(target.take(i as int) =~= target);
            },
        }
        self.value = DefinedValue::References(out);
    }

    /// Applies a structural edit to every reference on `sheet_name`, drops those that it
    /// removes, and leaves a literal untouched. Returns whether the named range is now
    /// empty: no literal and no reference left, so that its container removes it.
    pub fn adjust(
        &mut self,
        sheet_name: &str,
        axis: Axis,
        at: u32,
        delta: u32,
        mode: EditMode,
    ) -> (now_empty: bool)
        requires
            at >= 1,
        ensures
            final(self)@.value == adjust_value(
                old(self)@.value,
                sheet_name@,
                axis,
                at as int,
                delta as int,
                mode,
            ),
            now_empty == is_empty_value(final(self)@.value),
            final(self)@.name == old(self)@.name,
            final(self)@.local_sheet_id == old(self)@.local_sheet_id,
    {
        let mut out: Vec<Address> = Vec::new();
        match &self.value {
            DefinedValue::Literal(_) => {
                return false;
            },
            DefinedValue::References(refs) => {
                let ghost v = views_of(refs@);
                let mut i: usize = 0;
                assert(v.take(0) =~= Seq::<AddressView>::empty());
                assert(views_of(out@) =~= Seq::<AddressView>::empty());
                while i < refs.len()
                    invariant
                        i <= refs.len(),
                        at >= 1,
                        v == views_of(refs@),
                        views_of(out@) == adjust_list(
                            v.take(i as int),
                            sheet_name@,
                            axis,
                            at as int,
                            delta as int,
                            mode,
                        ),
                    decreases refs.len() - i,
                {
                    let mut a = refs[i].duplicate();
                    let keep = a.adjust(sheet_name, axis, at, delta, mode);
                    proof {
                        let w = v.take(i + 1);
                        assert(w.drop_last() =~= v.take(i as int));
                        assert(w.last() == v[i as int]);
                    }
                    if keep {
                        proof {
                            assert(views_of(out@.push(a)) =~= views_of(out@).push(a@));
                        }
                        out.push(a);
                    }
                    i = i + 1;
                }
                assert(v.take(i as int) =~= v);
            },
        }
        let now_empty = out.len() == 0;
        self.value = DefinedValue::References(out);
        now_empty
    }

    /// The schema of `definedName`: attributes `name` and `localSheetId`, and text.
    pub fn schema() -> (r: ElementSchema)
        ensures
            r.name@ == defined_name_tag(),
            r.attrs.len() == 2,
            r.attrs@[0].name@ == name_attr(),
            r.attrs@[1].name@ == local_sheet_id_attr(),
            !r.attrs@[0].required,
            !r.attrs@[1].required,
            r.text,
            r.children.len() == 0,
    {
        proof {
            reveal_strlit("definedName");
            reveal_strlit("name");
            reveal_strlit("localSheetId");
        }
        let mut attrs: Vec<AttrSpec> = Vec::new();
        attrs.push(AttrSpec { name: "name".to_string(), required: false });
        attrs.push(AttrSpec { name: "localSheetId".to_string(), required: false });
        ElementSchema { name: "definedName".to_string(), attrs, text: true, children: Vec::new() }
    }

    /// Reads the `definedName` element that starts at `pos`: its name, its local sheet (left
    /// unset where it is not a number) and its text as a reference list. Returns the position
    /// after the element.
    pub fn set_attributes(&mut self, ev: &Vec<XmlEvent>, pos: usize) -> (r: Result<usize, BindError>)
        ensures
            r matches Ok(j) ==> element_end(ev@, pos as int) == Some(j as int) && ({
                let attrs = tag_attrs(ev@[pos as int]);
                let nm = lookup(attrs, name_attr());
                let id = lookup(attrs, local_sheet_id_attr());
                &&& (nm matches Some(n) ==> final(self)@.name == Some(n))
                &&& (nm is None ==> final(self)@.name == old(self)@.name)
                &&& (id is Some && text_u32(id->0) ==> final(self)@.local_sheet_id == Some(
                    decimal_value(id->0) as u32,
                ))
                &&& (id is Some && !text_u32(id->0) ==> final(self)@.local_sheet_id is None)
                &&& (id is None ==> final(self)@.local_sheet_id == old(self)@.local_sheet_id)
                &&& final(self)@.value == bind_tokens(
                    refs_of(old(self)@.value),
                    split_spec(element_text(ev@, pos as int)),
                )
            }),
            r is Ok <==> pos < ev.len() && (ev@[pos as int] is Start || ev@[pos as int] is Empty)
                && end_name_matches(ev@, pos as int),
            r is Err ==> final(self)@ == old(self)@,
            pos < ev.len() && ev@[pos as int] is Start && element_end(ev@, pos as int) is None ==> r
                == Err::<usize, BindError>(BindError::UnexpectedEndOfInput),
    {
        let schema = DefinedName::schema();
        proof {
            lemma_flat_bind_ok(schema, ev@, pos as int);
            if pos < ev.len() {
                assert(!missing_required(schema.attrs@, tag_attrs(ev@[pos as int])));
            }
        }
        match bind(&schema, ev, pos) {
            Ok((e, j)) => {
                if e.attrs.len() == 2 {
                    match &e.attrs[0] {
                        Some(n) => {
                            self.name.set_value(n.clone());
                        },
                        None => {},
                    }
                    match &e.attrs[1] {
                        Some(raw) => {
                            let _ = self.local_sheet_id.set_value_string(raw.as_str());
                        },
                        None => {},
                    }
                }
                self.set_address(e.text.as_str());
                Ok(j)
            },
            Err(err) => Err(err),
        }
    }

    /// Writes `<definedName name=".." localSheetId="..">text</definedName>`; `localSheetId`
    /// appears exactly when it is set.
    pub fn write_to(&self, out: &mut Vec<char>)
        ensures
            final(out)@ == old(out)@ + defined_name_text(self@),
    {
        proof {
            reveal_strlit("definedName");
            reveal_strlit("name");
            reveal_strlit("localSheetId");
        }
        let mut attrs: Vec<(String, String)> = Vec::new();
        assert(attrs_text(attrs@) =~= Seq::<char>::empty());
        if self.name.has_value() {
            let key = "name".to_string();
            let nm = self.name.get_value();
            proof {
                lemma_attrs_text_push(attrs@, (key, nm));
            }
            attrs.push((key, nm));
        }
        let ghost part = attrs_text(attrs@);
        assert(part =~= match self@.name {
            Some(n) => name_attr_text(n),
            None => Seq::<char>::empty(),
        });
        if self.local_sheet_id.has_value() {
            let key = "localSheetId".to_string();
            let v = self.local_sheet_id.get_value_string();
            proof {
                lemma_attrs_text_push(attrs@, (key, v));
            }
            attrs.push((key, v));
        }
        assert(attrs_text(attrs@) =~= defined_name_attrs_text(self@));
        write_start_tag(out, "definedName", &attrs, false);
        let text = self.get_address();
        write_text_node(out, text.as_str());
        write_end_tag(out, "definedName");
        assert(final(out)@ =~= old(out)@ + defined_name_text(self@));
    }

    /// Whether the value is a literal text.
    pub fn has_string_value(&self) -> (r: bool)
        ensures
            r == self@.value is Literal,
    {
        match &self.value {
            DefinedValue::Literal(_) => true,
            DefinedValue::References(_) => false,
        }
    }

    /// Replaces the value by a literal text.
    pub fn set_string_value(&mut self, value: String)
        ensures
            final(self)@.value == ValueView::Literal(value@),
            final(self)@.name == old(self)@.name,
            final(self)@.local_sheet_id == old(self)@.local_sheet_id,
    {
        self.value = DefinedValue::Literal(value);
    }
}

pub open spec fn name_views(v: Seq<DefinedName>) -> Seq<DefinedNameView> {
    v.map_values(|d: DefinedName| d@)
}

/// The named ranges that are left after a structural edit, each adjusted, in their order:
/// one whose value becomes empty is removed.
pub open spec fn adjust_names(
    v: Seq<DefinedNameView>,
    sheet: Seq<char>,
    axis: Axis,
    at: int,
    delta: int,
    mode: EditMode,
) -> Seq<DefinedNameView>
    decreases v.len(),
{
    if v.len() == 0 {
        seq![]
    } else {
        let prev = adjust_names(v.drop_last(), sheet, axis, at, delta, mode);
        let d = v.last();
        let value = adjust_value(d.value, sheet, axis, at, delta, mode);
        if is_empty_value(value) {
            prev
        } else {
            prev.push(DefinedNameView { value, ..d })
        }
    }
}

/// Applies a structural edit to every named range of a list and removes those left empty.
pub fn adjust_defined_names(
    names: &mut Vec<DefinedName>,
    sheet_name: &str,
    axis: Axis,
    at: u32,
    delta: u32,
    mode: EditMode,
)
    requires
        at >= 1,
    ensures
        name_views(final(names)@) == adjust_names(
            name_views(old(names)@),
            sheet_name@,
            axis,
            at as int,
            delta as int,
            mode,
        ),
{
    let ghost orig = name_views(names@);
    let mut out: Vec<DefinedName> = Vec::new();
    let mut k: usize = 0;
    let n = names.len();
    assert(orig.take(0) =~= Seq::<DefinedNameView>::empty());
    assert(name_views(out@) =~= Seq::<DefinedNameView>::empty());
    while k < n
        invariant
            k <= n == orig.len(),
            at >= 1,
            name_views(names@) =~= orig.skip(k as int),
            name_views(out@) == adjust_names(
                orig.take(k as int),
                sheet_name@,
                axis,
                at as int,
                delta as int,
                mode,
            ),
        decreases n - k,
    {
        assert(name_views(names@).len() == names@.len());
        let ghost before = names@;
        let mut d = names.remove(0);
        assert forall|i: int| 0 <= i < names@.len() implies #[trigger] name_views(names@)[i] == orig.skip(
            k + 1,
        )[i] by {
            assert(names@[i] == before[i + 1]);
            assert(name_views(before)[i + 1] == orig.skip(k as int)[i + 1]);
        }
        assert(d@ == orig[k as int]) by {
            assert(orig.skip(k as int)[0] == orig[k as int]);
        }
        assert(name_views(names@) =~= orig.skip(k + 1));
        let empty = d.adjust(sheet_name, axis, at, delta, mode);
        proof {
            let w = orig.take(k + 1);
            assert(w.drop_last() =~= orig.take(k as int));
            assert(w.last() == orig[k as int]);
        }
        if !empty {
            proof {
                assert(name_views(out@.push(d)) =~= name_views(out@).push(d@));
                assert(d@ == (DefinedNameView {
                    value: adjust_value(orig[k as int].value, sheet_name@, axis, at as int, delta as int, mode),
                    ..orig[k as int]
                }));
            }
            out.push(d);
        }
        k = k + 1;
    }
    assert(orig.take(k as int) =~= orig);
    *names = out;
}

/// The splitter at rest: outside quotes and parentheses.
pub open spec fn clean(cur: Seq<char>, done: Seq<Seq<char>>) -> SplitState {
    SplitState { in_single: false, in_double: false, depth: 0, cur, done }
}

/// A character that the splitter only appends.
pub open spec fn is_plain_char(c: char) -> bool {
    c != '(' && c != ')' && c != '\'' && c != '"' && c != ','
}

/// A sheet name without parentheses or double quotes, which the splitter would count.
pub open spec fn splits_cleanly(name: Seq<char>) -> bool {
    forall|i: int| 0 <= i < name.len() ==> #[trigger] name[i] != '(' && name[i] != ')' && name[i] != '"'
}

pub open spec fn fmts(v: Seq<AddressView>) -> Seq<Seq<char>> {
    v.map_values(|a: AddressView| fmt_address(a))
}

proof fn lemma_run_concat(st: SplitState, s: Seq<char>, t: Seq<char>)
    ensures
        run_from(st, s + t) == run_from(run_from(st, s), t),
    decreases t.len(),
{
    if t.len() == 0 {
        assert(s + t =~= s);
    } else {
        assert((s + t).drop_last() =~= s + t.drop_last());
        assert((s + t).last() == t.last());
        lemma_run_concat(st, s, t.drop_last());
    }
}

proof fn lemma_run_plain(st: SplitState, s: Seq<char>)
    requires
        forall|i: int| 0 <= i < s.len() ==> is_plain_char(#[trigger] s[i]),
    ensures
        run_from(st, s) == (SplitState { cur: st.cur + s, ..st }),
    decreases s.len(),
{
    if s.len() == 0 {
        assert(st.cur + s =~= st.cur);
    } else {
        lemma_run_plain(st, s.drop_last());
        assert(is_plain_char(s[s.len() - 1]));
        assert((st.cur + s.drop_last()).push(s.last()) =~= st.cur + s);
    }
}

proof fn lemma_run_one(st: SplitState, c: char)
    ensures
        run_from(st, seq![c]) == split_step(st, c),
{
    let one: Seq<char> = seq![c];
    assert(one.drop_last() =~= Seq::<char>::empty());
    assert(run_from(st, Seq::<char>::empty()) == st);
    assert(one.last() == c);
    assert(one.len() == 1);
}

proof fn lemma_run_quoted(st: SplitState, name: Seq<char>)
    requires
        st.in_single,
        !st.in_double,
        st.depth == 0,
        splits_cleanly(name),
    ensures
        run_from(st, quote_body(name)) == (SplitState { cur: st.cur + quote_body(name), ..st }),
    decreases name.len(),
{
    if name.len() == 0 {
        assert(st.cur + quote_body(name) =~= st.cur);
    } else {
        let c = name[0];
        let rest = name.drop_first();
        let p = quote_piece(c);
        assert(quote_body(name) == p + quote_body(rest));
        lemma_run_concat(st, p, quote_body(rest));
        let st1 = SplitState { cur: st.cur + p, ..st };
        if c == '\'' {
            assert(p =~= seq!['\''] + seq!['\'']);
            lemma_run_concat(st, seq!['\''], seq!['\'']);
            lemma_run_one(st, '\'');
            lemma_run_one(split_step(st, '\''), '\'');
            assert(st.cur.push('\'').push('\'') =~= st.cur + p);
        } else {
            lemma_run_one(st, c);
            assert(st.cur.push(c) =~= st.cur + p);
        }
        assert(run_from(st, p) == st1);
        assert(splits_cleanly(rest)) by {
            assert forall|i: int| 0 <= i < rest.len() implies #[trigger] rest[i] != '(' && rest[i] != ')'
                && rest[i] != '"' by {
                assert(rest[i] == name[i + 1]);
            }
        }
        lemma_run_quoted(st1, rest);
        assert(st1.cur + quote_body(rest) =~= st.cur + quote_body(name));
    }
}

proof fn lemma_run_address(cur: Seq<char>, done: Seq<Seq<char>>, a: AddressView)
    requires
        a.wf(),
        splits_cleanly(a.sheet),
    ensures
        run_from(clean(cur, done), fmt_address(a)) == clean(cur + fmt_address(a), done),
{
    let f = fmt_address(a);
    let p = fmt_sheet(a.sheet);
    let t = f.skip(p.len() as int);
    lemma_cells_round_trip(a.sheet, a);
    assert(f =~= p + t);
    lemma_run_concat(clean(cur, done), p, t);
    assert forall|i: int| 0 <= i < t.len() implies is_plain_char(#[trigger] t[i]) by {
        assert(t[i] == ':' || is_coord_char(t[i]));
    }
    if a.sheet.len() == 0 {
        assert(p =~= Seq::<char>::empty());
        assert(cur + p =~= cur);
    } else if all_name_chars(a.sheet) {
        assert forall|i: int| 0 <= i < p.len() implies is_plain_char(#[trigger] p[i]) by {
            if i < a.sheet.len() {
                assert(is_name_char(a.sheet[i]));
            }
        }
        lemma_run_plain(clean(cur, done), p);
    } else {
        let q = quote_body(a.sheet);
        let st0 = clean(cur, done);
        assert(p =~= seq!['\''] + (q + seq!['\'', '!']));
        lemma_run_concat(st0, seq!['\''], q + seq!['\'', '!']);
        lemma_run_one(st0, '\'');
        let st1 = split_step(st0, '\'');
        lemma_run_concat(st1, q, seq!['\''] + seq!['!']);
        lemma_run_quoted(st1, a.sheet);
        let st2 = SplitState { cur: st1.cur + q, ..st1 };
        assert(seq!['\'', '!'] =~= seq!['\''] + seq!['!']);
        lemma_run_concat(st2, seq!['\''], seq!['!']);
        lemma_run_one(st2, '\'');
        lemma_run_one(split_step(st2, '\''), '!');
        assert(run_from(st0, p) == clean(cur + p, done)) by {
            assert(cur.push('\'') + q + seq!['\'', '!'] =~= cur + p);
            assert((cur.push('\'') + q).push('\'').push('!') =~= cur + p);
        }
    }
    lemma_run_plain(clean(cur + p, done), t);
    assert(cur + p + t =~= cur + f);
}

proof fn lemma_run_join(v: Seq<AddressView>)
    requires
        v.len() >= 1,
        forall|i: int| 0 <= i < v.len() ==> (#[trigger] v[i]).wf() && splits_cleanly(v[i].sheet),
    ensures
        run_from(split_start(), join_refs(v)) == clean(fmt_address(v.last()), fmts(v.drop_last())),
    decreases v.len(),
{
    if v.len() == 1 {
        assert(split_start() == clean(seq![], seq![]));
        lemma_run_address(seq![], seq![], v[0]);
        assert(Seq::<char>::empty() + fmt_address(v[0]) =~= fmt_address(v[0]));
        assert(fmts(v.drop_last()) =~= Seq::<Seq<char>>::empty());
    } else {
        let w = v.drop_last();
        assert(forall|i: int| 0 <= i < w.len() ==> #[trigger] w[i] == v[i]);
        lemma_run_join(w);
        let j = join_refs(w);
        let f = fmt_address(v.last());
        assert(join_refs(v) == j + seq![','] + f);
        lemma_run_concat(split_start(), j + seq![','], f);
        lemma_run_concat(split_start(), j, seq![',']);
        let st = clean(fmt_address(w.last()), fmts(w.drop_last()));
        lemma_run_one(st, ',');
        assert(fmts(w.drop_last()).push(fmt_address(w.last())) =~= fmts(w));
        assert(v[v.len() - 1] == v.last());
        lemma_run_address(seq![], fmts(w), v.last());
        assert(Seq::<char>::empty() + f =~= f);
    }
}

proof fn lemma_bind_formatted(v: Seq<AddressView>)
    requires
        forall|i: int| 0 <= i < v.len() ==> (#[trigger] v[i]).wf(),
    ensures
        bind_tokens(seq![], fmts(v)) == ValueView::References(v),
    decreases v.len(),
{
    if v.len() == 0 {
        assert(fmts(v) =~= Seq::<Seq<char>>::empty());
        assert(v =~= Seq::<AddressView>::empty());
    } else {
        let w = v.drop_last();
        assert(forall|i: int| 0 <= i < w.len() ==> #[trigger] w[i] == v[i]);
        lemma_bind_formatted(w);
        assert(fmts(v).drop_last() =~= fmts(w));
        assert(fmts(v).last() == fmt_address(v.last()));
        assert(v[v.len() - 1] == v.last());
        lemma_address_round_trip(v.last());
        assert(w.push(v.last()) =~= v);
    }
}

/// A list of well-formed references, written out with commas, read into a named range that
/// holds no reference gives the same list and is written out again as the same text, where no sheet name holds a parenthesis or a
/// double quote (which the splitter counts even inside a quoted sheet name).
pub proof fn lemma_reference_list_round_trip(v: Seq<AddressView>)
    requires
        v.len() >= 1,
        forall|i: int| 0 <= i < v.len() ==> (#[trigger] v[i]).wf() && splits_cleanly(v[i].sheet),
    ensures
        split_spec(join_refs(v)) == fmts(v),
        bind_tokens(seq![], split_spec(join_refs(v))) == ValueView::References(v),
        value_text(bind_tokens(seq![], split_spec(join_refs(v)))) == join_refs(v),
{
    lemma_run_join(v);
    lemma_cells_round_trip(v.last().sheet, v.last());
    assert(v[v.len() - 1] == v.last());
    assert(fmt_address(v.last()).len() > 0) by {
        let f = fmt_address(v.last());
        assert(f.skip(fmt_sheet(v.last().sheet).len() as int).len() > 0);
    }
    assert(fmts(v.drop_last()).push(fmt_address(v.last())) =~= fmts(v));
    lemma_bind_formatted(v);
}

} // verus!
