//! A single edit operation: insert, retain or delete, plus attributes.
//!
//! Lengths count positions of the base document. A text run is measured in
//! UTF-16 code units, the indexing unit of the editor ecosystem this format
//! targets, and is stored as those units; an embed is an opaque atomic value
//! of length 1.

use vstd::prelude::*;
use crate::scalar::{Scalar, ScalarV};
use crate::attributes::{AttrMapV, Attributes};

verus! {

/// Mathematical shape of an insert's content.
pub ghost enum ContentV {
    Text(Seq<u16>),
    Embed(ScalarV),
}

/// What an insert operation carries: a text run, or one opaque embed.
pub enum Content {
    Text(Vec<u16>),
    Embed(Scalar),
}

impl View for Content {
    type V = ContentV;

    open spec fn view(&self) -> ContentV {
        match self {
            Content::Text(t) => ContentV::Text(t@),
            Content::Embed(v) => ContentV::Embed(v@),
        }
    }
}

/// Copies a run of code units.
fn copy_units(v: &Vec<u16>) -> (r: Vec<u16>)
    ensures
        r@ == v@,
{
    let mut out: Vec<u16> = Vec::new();
    let mut i: usize = 0;
    while i < v.len()
        invariant
            i <= v@.len(),
            out@ == v@.take(i as int),
        decreases v@.len() - i,
    {
        out.push(v[i]);
        proof {
            assert(out@ =~= v@.take(i + 1));
        }
        i = i + 1;
    }
    proof {
        assert(v@.take(v@.len() as int) =~= v@);
    }
    out
}

/// Compares two runs of code units.
fn units_eq(a: &Vec<u16>, b: &Vec<u16>) -> (r: bool)
    ensures
        r == (a@ == b@),
{
    if a.len() != b.len() {
        return false;
    }
    let mut i: usize = 0;
    while i < a.len()
        invariant
            a@.len() == b@.len(),
            i <= a@.len(),
            forall|j: int| 0 <= j < i ==> a@[j] == b@[j],
        decreases a@.len() - i,
    {
        if a[i] != b[i] {
            return false;
        }
        i = i + 1;
    }
    proof {
        assert(a@ =~= b@);
    }
    true
}

impl Clone for Content {
    fn clone(&self) -> (r: Self)
        ensures
            r@ == self@,
    {
        match self {
            Content::Text(t) => Content::Text(copy_units(t)),
            Content::Embed(v) => Content::Embed(v.clone()),
        }
    }
}

impl Content {
    /// Content equality: same text run, or both embeds with equal values.
    pub fn eq_content(&self, other: &Content) -> (r: bool)
        ensures
            r == (self@ == other@),
    {
        match (self, other) {
            (Content::Text(a), Content::Text(b)) => units_eq(a, b),
            (Content::Embed(a), Content::Embed(b)) => a.eq_scalar(b),
            _ => false,
        }
    }
}

/// Mathematical shape of an operation's kind.
pub ghost enum OpKindV {
    Insert(ContentV),
    Retain(int),
    Delete(int),
}

/// The kind of an operation with its payload.
pub enum OpKind {
    Insert(Content),
    Retain(usize),
    Delete(usize),
}

impl View for OpKind {
    type V = OpKindV;

    open spec fn view(&self) -> OpKindV {
        match self {
            OpKind::Insert(c) => OpKindV::Insert(c@),
            OpKind::Retain(n) => OpKindV::Retain(*n as int),
            OpKind::Delete(n) => OpKindV::Delete(*n as int),
        }
    }
}

/// Mathematical shape of an operation.
pub ghost struct OpV {
    pub kind: OpKindV,
    pub attributes: AttrMapV,
}

/// One edit operation plus its formatting attributes.
pub struct DeltaOperation {
    pub kind: OpKind,
    pub attributes: Attributes,
}

impl View for DeltaOperation {
    type V = OpV;

    open spec fn view(&self) -> OpV {
        OpV { kind: self.kind@, attributes: self.attributes@ }
    }
}

/// Length of an insert's content in base-document positions.
pub open spec fn content_len(c: ContentV) -> int {
    match c {
        ContentV::Text(t) => t.len() as int,
        ContentV::Embed(_) => 1,
    }
}

/// Length of an operation in base-document positions.
pub open spec fn op_len(op: OpV) -> int {
    match op.kind {
        OpKindV::Insert(c) => content_len(c),
        OpKindV::Retain(n) => n,
        OpKindV::Delete(n) => n,
    }
}

/// A valid operation: at least one position long, short enough that the
/// cursor's past-the-end sentinel stays distinct, and a delete carries no
/// attributes.
pub open spec fn op_wf(op: OpV) -> bool {
    &&& 1 <= op_len(op) < usize::MAX as int
    &&& (op.kind is Delete ==> op.attributes == AttrMapV::empty())
}

/// The first `n` positions of an operation. An embed is atomic: it is
/// always taken whole.
pub open spec fn op_take(op: OpV, n: int) -> OpV {
    match op.kind {
        OpKindV::Insert(ContentV::Text(t)) => OpV {
            kind: OpKindV::Insert(ContentV::Text(t.take(n))),
            attributes: op.attributes,
        },
        OpKindV::Insert(ContentV::Embed(_)) => op,
        OpKindV::Retain(_) => OpV { kind: OpKindV::Retain(n), attributes: op.attributes },
        OpKindV::Delete(_) => OpV { kind: OpKindV::Delete(n), attributes: op.attributes },
    }
}

/// The operation with its first `n` positions consumed. An embed is atomic:
/// nothing but 0 is ever dropped from it.
pub open spec fn op_drop(op: OpV, n: int) -> OpV {
    match op.kind {
        OpKindV::Insert(ContentV::Text(t)) => OpV {
            kind: OpKindV::Insert(ContentV::Text(t.skip(n))),
            attributes: op.attributes,
        },
        OpKindV::Insert(ContentV::Embed(_)) => op,
        OpKindV::Retain(m) => OpV { kind: OpKindV::Retain(m - n), attributes: op.attributes },
        OpKindV::Delete(m) => OpV { kind: OpKindV::Delete(m - n), attributes: op.attributes },
    }
}

impl DeltaOperation {
    /// The attribute map's stored entries are valid.
    pub open spec fn attrs_wf(&self) -> bool {
        self.attributes.wf()
    }

    /// A fully valid operation.
    pub open spec fn wf(&self) -> bool {
        self.attrs_wf() && op_wf(self@)
    }

    /// An insert of the given content, with no attributes.
    pub fn insert(value: Content) -> (r: Self)
        ensures
            r@.kind == OpKindV::Insert(value@),
            r@.attributes == AttrMapV::empty(),
            r.attrs_wf(),
    {
        DeltaOperation { kind: OpKind::Insert(value), attributes: Attributes::new() }
    }

    /// A retain of the given length, with no attributes.
    pub fn retain(value: usize) -> (r: Self)
        ensures
            r@.kind == OpKindV::Retain(value as int),
            r@.attributes == AttrMapV::empty(),
            r.attrs_wf(),
    {
        DeltaOperation { kind: OpKind::Retain(value), attributes: Attributes::new() }
    }

    /// A delete of the given length.
    pub fn delete(value: usize) -> (r: Self)
        ensures
            r@.kind == OpKindV::Delete(value as int),
            r@.attributes == AttrMapV::empty(),
            r.attrs_wf(),
    {
        DeltaOperation { kind: OpKind::Delete(value), attributes: Attributes::new() }
    }

    /// Sets one attribute, in a shorthand way.
    pub fn attr(self, key: String, value: Scalar) -> (r: Self)
        requires
            self.attrs_wf(),
        ensures
            r@.kind == self@.kind,
            r@.attributes == self@.attributes.insert(key@, value@),
            r.attrs_wf(),
    {
        let mut op = self;
        op.attributes.set(key, value);
        op
    }

    /// Replaces the whole attribute map at once.
    pub fn attrs(self, values: Attributes) -> (r: Self)
        ensures
            r@.kind == self@.kind,
            r@.attributes == values@,
            r.attrs_wf() == values.wf(),
    {
        let mut op = self;
        op.attributes = values;
        op
    }

    /// The operation's length in base-document positions.
    pub fn len(&self) -> (r: usize)
        ensures
            r == op_len(self@),
    {
        match &self.kind {
            OpKind::Delete(len) => *len,
            OpKind::Retain(len) => *len,
            OpKind::Insert(Content::Text(t)) => t.len(),
            OpKind::Insert(Content::Embed(_)) => 1,
        }
    }

    /// Operation equality, by content.
    pub fn eq_op(&self, other: &DeltaOperation) -> (r: bool)
        requires
            self.attrs_wf(),
            other.attrs_wf(),
        ensures
            r == (self@ == other@),
    {
        let kind_eq: bool = match (&self.kind, &other.kind) {
            (OpKind::Insert(a), OpKind::Insert(b)) => a.eq_content(b),
            (OpKind::Retain(a), OpKind::Retain(b)) => a == b,
            (OpKind::Delete(a), OpKind::Delete(b)) => a == b,
            _ => false,
        };
        kind_eq && self.attributes.attrs_eq(&other.attributes)
    }
}

impl Clone for DeltaOperation {
    fn clone(&self) -> (r: Self)
        ensures
            r@ == self@,
            r.attrs_wf() <==> self.attrs_wf(),
    {
        DeltaOperation {
            kind: match &self.kind {
                OpKind::Insert(c) => OpKind::Insert(c.clone()),
                OpKind::Retain(n) => OpKind::Retain(*n),
                OpKind::Delete(n) => OpKind::Delete(*n),
            },
            attributes: self.attributes.clone(),
        }
    }
}

/// An insert of the given content, with no attributes.
pub fn insert(value: Content) -> (r: DeltaOperation)
    ensures
        r@.kind == OpKindV::Insert(value@),
        r@.attributes == AttrMapV::empty(),
        r.attrs_wf(),
{
    DeltaOperation::insert(value)
}

/// A retain of the given length, with no attributes.
pub fn retain(value: usize) -> (r: DeltaOperation)
    ensures
        r@.kind == OpKindV::Retain(value as int),
        r@.attributes == AttrMapV::empty(),
        r.attrs_wf(),
{
    DeltaOperation::retain(value)
}

/// A delete of the given length.
pub fn delete(value: usize) -> (r: DeltaOperation)
    ensures
        r@.kind == OpKindV::Delete(value as int),
        r@.attributes == AttrMapV::empty(),
        r.attrs_wf(),
{
    DeltaOperation::delete(value)
}

/// Taking an operation whole gives it back unchanged.
pub proof fn lemma_op_take_full(op: OpV)
    ensures
        op_take(op, op_len(op)) == op,
{
    match op.kind {
        OpKindV::Insert(c) => {
            match c {
                ContentV::Text(t) => {
                    assert(t.take(t.len() as int) =~= t);
                },
                _ => {},
            }
        },
        _ => {},
    }
}

/// Consuming part of an operation shortens it by exactly that much.
pub proof fn lemma_op_drop_len(op: OpV, n: int)
    requires
        0 <= n < op_len(op),
    ensures
        op_len(op_drop(op, n)) == op_len(op) - n,
{
    match op.kind {
        OpKindV::Insert(c) => {
            match c {
                ContentV::Text(t) => {
                    assert(t.skip(n).len() == t.len() - n);
                },
                _ => {
                    assert(n == 0);
                },
            }
        },
        _ => {},
    }
}

/// The kind of an operation, without its payload.
#[derive(PartialEq, Eq, Structural, Clone, Copy)]
pub enum Tp {
    Delete,
    Retain,
    Insert,
}

} // verus!
