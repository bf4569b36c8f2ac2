//! The element tree that parsing produces and writing consumes, together
//! with its mathematical model.

use vstd::prelude::*;

verus! {

broadcast use {vstd::std_specs::vec::group_vec_axioms, vstd::seq::group_seq_axioms};

/// A named, ordered list of optional string values attached to an element.
/// A `None` value is the format's null, distinct from the empty string.
#[derive(Debug)]
pub struct SMLAttribute {
    pub name: String,
    pub values: Vec<Option<String>>,
}

/// A named tree node: an ordered list of attributes plus ordered child
/// elements.
#[derive(Debug)]
pub struct SMLElement {
    pub name: String,
    pub attributes: Vec<SMLAttribute>,
    pub children: Vec<SMLElement>,
}

/// Mathematical model of an attribute: the name and values as sequences of
/// characters.
#[verifier::ext_equal]
pub struct AttrV {
    pub name: Seq<char>,
    pub values: Seq<Option<Seq<char>>>,
}

/// Mathematical model of an element tree.
#[verifier::ext_equal]
pub struct ElemV {
    pub name: Seq<char>,
    pub attributes: Seq<AttrV>,
    pub children: Seq<ElemV>,
}

/// The model of an attribute.
pub open spec fn attr_model(a: SMLAttribute) -> AttrV {
    AttrV { name: a.name@, values: a.values.deep_view() }
}

/// The model of an element: every string becomes its character sequence,
/// every vector its sequence.
pub open spec fn elem_model(e: SMLElement) -> ElemV
    decreases e,
{
    ElemV {
        name: e.name@,
        attributes: Seq::new(e.attributes@.len(), |i: int| attr_model(e.attributes@[i])),
        children: Seq::new(
            e.children@.len(),
            |i: int|
                if 0 <= i < e.children@.len() {
                    elem_model(e.children@[i])
                } else {
                    arbitrary()
                },
        ),
    }
}

impl View for SMLAttribute {
    type V = AttrV;

    open spec fn view(&self) -> AttrV {
        attr_model(*self)
    }
}

impl DeepView for SMLAttribute {
    type V = AttrV;

    open spec fn deep_view(&self) -> AttrV {
        attr_model(*self)
    }
}

impl View for SMLElement {
    type V = ElemV;

    open spec fn view(&self) -> ElemV {
        elem_model(*self)
    }
}

impl DeepView for SMLElement {
    type V = ElemV;

    open spec fn deep_view(&self) -> ElemV {
        elem_model(*self)
    }
}

pub(crate) fn clone_field(f: &Option<String>) -> (r: Option<String>)
    ensures
        r.deep_view() == f.deep_view(),
{
    match f {
        None => None,
        Some(s) => Some(s.clone()),
    }
}

} // verus!
