//! The change-list document: operations, their contents and attributes.
use vstd::prelude::*;

verus! {

/// An image reference: the absolute URL of the image, as text.
#[derive(Debug)]
pub struct Image {
    pub image: String,
}

/// What an operation carries: a piece of text or an image.
#[derive(Debug)]
pub enum DeltaType {
    String(String),
    Image(Image),
}

/// The kind of list a line belongs to.
#[derive(Clone, Copy, Debug, PartialEq, Eq, Structural)]
pub enum ListType {
    Bullet,
    Ordered,
}

/// A formatting attribute of an operation.
#[derive(Clone, Copy, Debug, PartialEq, Eq, Structural)]
pub enum Attribute {
    Bold(bool),
    Italic(bool),
    Header(u8),
    List(ListType),
}

/// The change an operation makes.
#[derive(Debug)]
pub enum Change {
    Insert(DeltaType),
    Delete(DeltaType),
    Retain(DeltaType),
}

/// One entry of the change list: a change and its attributes, in their order.
#[derive(Debug)]
pub struct Op {
    pub change: Change,
    pub attributes: Option<Vec<Attribute>>,
}

/// A change-list document: its operations in document order.
#[derive(Debug)]
pub struct Delta {
    pub ops: Vec<Op>,
}

impl Op {
    /// The attributes of the operation, in their order; none when absent.
    pub open spec fn attrs(&self) -> Seq<Attribute> {
        match self.attributes {
            Some(a) => a@,
            None => Seq::empty(),
        }
    }
}

impl Delta {
    /// Creates an empty Delta
    pub fn new() -> (r: Self)
        ensures
            r.ops@ == Seq::<Op>::empty(),
    {
        Self { ops: Vec::new() }
    }

    /// Add a new Op to the Delta
    pub fn push(&mut self, op: Op)
        ensures
            final(self).ops@ == old(self).ops@.push(op),
    {
        self.ops.push(op);
    }

    /// Extend one Delta with another
    pub fn extend(&mut self, other: Delta)
        ensures
            final(self).ops@ == old(self).ops@ + other.ops@,
    {
        let mut other = other;
        self.ops.append(&mut other.ops);
    }
}

} // verus!
