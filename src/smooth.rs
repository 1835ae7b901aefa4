use vstd::prelude::*;

use crate::markup::{
    attrs_text, bind, element_end, end_name_matches, lemma_flat_bind_ok, lookup,
    missing_required, start_tag_text, tag_attrs, write_start_tag, AttrSpec, BindError,
    ElementSchema, XmlEvent,
};
use crate::value::{text_false, text_true, BooleanValue};

verus! {

/// Whether a chart line is drawn smoothed (`c:smooth`).
#[derive(Clone, Copy, Debug, Default)]
pub struct Smooth {
    val: BooleanValue,
}

pub open spec fn smooth_tag() -> Seq<char> {
    seq!['c', ':', 's', 'm', 'o', 'o', 't', 'h']
}

pub open spec fn val_attr() -> Seq<char> {
    seq!['v', 'a', 'l']
}

/// The markup of a `Smooth`: the `val` attribute appears exactly when it is set.
pub open spec fn smooth_text(val: Option<bool>) -> Seq<char> {
    match val {
        Some(b) => seq!['<'] + smooth_tag() + seq![' '] + val_attr() + seq!['=', '"'] + (if b {
            seq!['1']
        } else {
            seq!['0']
        }) + seq!['"', '/', '>'],
        None => seq!['<'] + smooth_tag() + seq!['/', '>'],
    }
}

impl View for Smooth {
    type V = Option<bool>;

    closed spec fn view(&self) -> Option<bool> {
        self.val.value
    }
}

impl Smooth {
    pub fn new() -> (r: Smooth)
        ensures
            r@ is None,
    {
        Smooth { val: BooleanValue::new() }
    }

    /// The value, `false` when unset.
    pub fn get_val(&self) -> (r: bool)
        ensures
            r == (self@ == Some(true)),
    {
        self.val.get_value()
    }

    pub fn set_val(&mut self, value: bool)
        ensures
            final(self)@ == Some(value),
    {
        self.val.set_value(value);
    }

    /// The schema of `c:smooth`: one required attribute, `val`, and no content.
    pub fn schema() -> (r: ElementSchema)
        ensures
            r.name@ == smooth_tag(),
            r.attrs.len() == 1,
            r.attrs@[0].name@ == val_attr(),
            r.attrs@[0].required,
            !r.text,
            r.children.len() == 0,
    {
        proof {
            reveal_strlit("c:smooth");
            reveal_strlit("val");
        }
        let mut attrs: Vec<AttrSpec> = Vec::new();
        attrs.push(AttrSpec { name: "val".to_string(), required: true });
        ElementSchema { name: "c:smooth".to_string(), attrs, text: false, children: Vec::new() }
    }

    /// Reads the element that starts at `pos`; returns the position after it. A `val`
    /// that is not a boolean leaves the value unset.
    pub fn set_attributes(&mut self, ev: &Vec<XmlEvent>, pos: usize) -> (r: Result<usize, BindError>)
        ensures
            r matches Ok(j) ==> element_end(ev@, pos as int) == Some(j as int) && ({
                let raw = lookup(tag_attrs(ev@[pos as int]), val_attr());
                &&& (raw is Some && text_true(raw->0)) ==> final(self)@ == Some(true)
                &&& (raw is Some && text_false(raw->0)) ==> final(self)@ == Some(false)
                &&& (raw is Some && !text_true(raw->0) && !text_false(raw->0)) ==> final(self)@ is None
            }),
            r is Ok <==> pos < ev.len() && (ev@[pos as int] is Start || ev@[pos as int] is Empty)
                && lookup(tag_attrs(ev@[pos as int]), val_attr()) is Some && end_name_matches(
                ev@,
                pos as int,
            ),
            r is Err ==> final(self)@ == old(self)@,
            pos < ev.len() && (ev@[pos as int] is Start || ev@[pos as int] is Empty) && lookup(
                tag_attrs(ev@[pos as int]),
                val_attr(),
            ) is None ==> r == Err::<usize, BindError>(BindError::MissingRequiredAttribute),
            pos < ev.len() && ev@[pos as int] is Start && lookup(tag_attrs(ev@[pos as int]), val_attr())
                is Some && element_end(ev@, pos as int) is None ==> r == Err::<usize, BindError>(
                BindError::UnexpectedEndOfInput,
            ),
    {
        let schema = Smooth::schema();
        proof {
            lemma_flat_bind_ok(schema, ev@, pos as int);
            if pos < ev.len() {
                let a = tag_attrs(ev@[pos as int]);
                if lookup(a, val_attr()) is None {
                    assert(schema.attrs@[0].required && lookup(a, schema.attrs@[0].name@) is None);
                    assert(missing_required(schema.attrs@, a));
                } else {
                    assert(!missing_required(schema.attrs@, a)) by {
                        if missing_required(schema.attrs@, a) {
                            let k = choose|k: int| 0 <= k < schema.attrs@.len() && #[trigger] schema.attrs@[k].required
                                && lookup(a, schema.attrs@[k].name@) is None;
                            assert(k == 0);
                        }
                    }
                }
            }
        }
        match bind(&schema, ev, pos) {
            Ok((e, j)) => {
                assert(e.attrs@[0] matches Some(s) ==> lookup(tag_attrs(ev@[pos as int]), val_attr()) == Some(s@));
                if e.attrs.len() > 0 {
                    match &e.attrs[0] {
                        Some(raw) => {
                            let _ = self.val.set_value_string(raw.as_str());
                        },
                        None => {},
                    }
                }
                Ok(j)
            },
            Err(err) => Err(err),
        }
    }

    /// Writes `<c:smooth val=".."/>`, leaving out `val` where it is unset.
    pub fn write_to(&self, out: &mut Vec<char>)
        ensures
            final(out)@ == old(out)@ + smooth_text(self@),
    {
        proof {
            reveal_strlit("c:smooth");
            reveal_strlit("val");
        }
        let mut attrs: Vec<(String, String)> = Vec::new();
        if self.val.has_value() {
            attrs.push(("val".to_string(), self.val.get_value_string()));
        }
        write_start_tag(out, "c:smooth", &attrs, true);
        proof {
            if self@ is Some {
                assert(attrs@.drop_last() =~= Seq::<(String, String)>::empty());
                assert(attrs_text(attrs@.drop_last()) == Seq::<char>::empty());
                let v: Seq<char> = if self@ == Some(true) { seq!['1'] } else { seq!['0'] };
                assert(crate::markup::escape(v) =~= v) by {
                    assert(v.drop_last() =~= Seq::<char>::empty());
                    assert(crate::markup::escape(Seq::<char>::empty()) == Seq::<char>::empty());
                }
            }
            assert(start_tag_text(smooth_tag(), attrs@, true) =~= smooth_text(self@));
        }
    }
}

} // verus!
