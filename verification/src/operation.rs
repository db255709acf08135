//! The three primitive operations of a delta.

use vstd::prelude::*;
use vstd::string::StrSliceExecFns;
use crate::attributes::Attributes;
use crate::model::OpModel;
use crate::model::attr_of;
use crate::model::attrs_blank;
use crate::model::op_len;

verus! {

/// Insert `s` at the cursor, formatted by `attributes`.
pub struct Insert {
    pub s: String,
    pub attributes: Attributes,
}

/// Advance over `n` characters of the base, applying `attributes` to them.
pub struct Retain {
    pub n: u64,
    pub attributes: Attributes,
}

/// One primitive operation. A delete carries no attributes.
pub enum Operation {
    Delete(u64),
    Retain(Retain),
    Insert(Insert),
}

impl View for Operation {
    type V = OpModel;

    open spec fn view(&self) -> OpModel {
        match self {
            Operation::Delete(n) => OpModel::Delete(*n as int),
            Operation::Retain(r) => OpModel::Retain(r.n as int, r.attributes@),
            Operation::Insert(i) => OpModel::Insert(i.s@, i.attributes@),
        }
    }
}

/// Representation invariant: the attribute map, if any, has unique keys.
pub open spec fn op_wf(op: Operation) -> bool {
    match op {
        Operation::Delete(_) => true,
        Operation::Retain(r) => r.attributes.wf(),
        Operation::Insert(i) => i.attributes.wf(),
    }
}

impl Insert {
    /// Character count of the inserted text, in Unicode scalar values.
    pub fn num_chars(&self) -> (r: u64)
        ensures
            r as int == self.s@.len(),
    {
        self.s.as_str().unicode_len() as u64
    }
}

impl Operation {
    /// Character length of the operation.
    pub fn length(&self) -> (r: u64)
        ensures
            r as int == op_len(self@),
    {
        match self {
            Operation::Delete(n) => *n,
            Operation::Retain(r) => r.n,
            Operation::Insert(i) => i.num_chars(),
        }
    }

    /// The attributes the operation carries; a delete carries none.
    pub fn get_attributes(&self) -> (r: Attributes)
        requires
            op_wf(*self),
        ensures
            r@ == attr_of(self@),
            r.wf(),
    {
        match self {
            Operation::Delete(_) => Attributes::Empty,
            Operation::Retain(r) => r.attributes.duplicate(),
            Operation::Insert(i) => i.attributes.duplicate(),
        }
    }

    /// True when the operation carries an effective attribute.
    pub fn has_attribute(&self) -> (r: bool)
        requires
            op_wf(*self),
        ensures
            r == !attrs_blank(attr_of(self@)),
    {
        let a = self.get_attributes();
        !a.is_empty()
    }

    /// A structurally fresh copy with the same model.
    pub fn duplicate(&self) -> (r: Operation)
        requires
            op_wf(*self),
        ensures
            r@ == self@,
            op_wf(r),
    {
        match self {
            Operation::Delete(n) => Operation::Delete(*n),
            Operation::Retain(r) => Operation::Retain(
                Retain { n: r.n, attributes: r.attributes.duplicate() },
            ),
            Operation::Insert(i) => Operation::Insert(
                Insert { s: i.s.clone(), attributes: i.attributes.duplicate() },
            ),
        }
    }
}

} // verus!
