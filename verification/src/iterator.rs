//! A read cursor over a change list's operations.
//!
//! The cursor holds an index into the list and an offset within the
//! operation at that index, and consumes a caller-chosen prefix length of
//! the current operation at a time, splitting its payload as needed. Past
//! the end of the list it behaves as an infinite plain retain: `peek_len`
//! answers the `usize::MAX` sentinel and `peek_type` answers `Retain`.

use vstd::prelude::*;
use crate::delta::{ops_view, reps_wf, Delta};
use crate::ops::{
    op_drop, op_len, op_take, op_wf, Content, DeltaOperation, OpKind, OpKindV, OpV, Tp,
};

verus! {

/// A transient cursor over a borrowed operation slice.
pub struct DeltaIterator<'a> {
    ops: &'a [DeltaOperation],
    index: usize,
    offset: usize,
}

/// Copies a range of a text run's code units.
fn unit_range(t: &Vec<u16>, start: usize, end: usize) -> (r: Vec<u16>)
    requires
        start <= end <= t@.len(),
    ensures
        r@ == t@.subrange(start as int, end as int),
{
    let mut out: Vec<u16> = Vec::new();
    let mut i: usize = start;
    while i < end
        invariant
            start <= i <= end <= t@.len(),
            out@ == t@.subrange(start as int, i as int),
        decreases end - i,
    {
        out.push(t[i]);
        proof {
            assert(out@ =~= t@.subrange(start as int, i + 1));
        }
        i = i + 1;
    }
    out
}

impl<'a> DeltaIterator<'a> {
    /// Every operation of the source is valid, and the position is inside
    /// the current operation.
    pub closed spec fn wf(&self) -> bool {
        &&& self.index <= self.ops@.len()
        &&& (self.index < self.ops@.len() ==> self.offset < op_len(self.ops@[self.index as int]@))
        &&& (self.index >= self.ops@.len() ==> self.offset == 0)
        &&& (forall|i: int|
            0 <= i < self.ops@.len() ==> (#[trigger] self.ops@[i]).attrs_wf() && op_wf(
                self.ops@[i]@,
            ))
    }

    /// The operations the source held when the cursor was made.
    pub closed spec fn src(&self) -> Seq<OpV> {
        ops_view(self.ops@)
    }

    /// The index of the current operation in the source.
    pub closed spec fn current_index(&self) -> int {
        self.index as int
    }

    /// How much of the current operation is already consumed.
    pub closed spec fn current_offset(&self) -> int {
        self.offset as int
    }

    /// The unconsumed remainder: the current operation minus the consumed
    /// offset, then the operations after it.
    pub closed spec fn rest(&self) -> Seq<OpV> {
        if self.index >= self.ops@.len() {
            Seq::empty()
        } else {
            seq![op_drop(self.ops@[self.index as int]@, self.offset as int)] + ops_view(
                self.ops@,
            ).skip(self.index as int + 1)
        }
    }

    /// A cursor standing at the start of the slice.
    pub fn new(ops: &'a [DeltaOperation]) -> (r: Self)
        requires
            forall|i: int|
                0 <= i < ops@.len() ==> (#[trigger] ops@[i]).attrs_wf() && op_wf(ops@[i]@),
        ensures
            r.wf(),
            r.rest() == ops_view(ops@),
            r.src() == ops_view(ops@),
    {
        let it = DeltaIterator { ops, index: 0, offset: 0 };
        proof {
            if ops@.len() > 0 {
                assert(op_wf(ops@[0]@));
                assert(op_drop(ops@[0]@, 0) == ops@[0]@) by {
                    match ops@[0]@.kind {
                        OpKindV::Insert(c) => {
                            match c {
                                crate::ops::ContentV::Text(t) => {
                                    assert(t.skip(0) =~= t);
                                },
                                _ => {},
                            }
                        },
                        _ => {},
                    }
                }
                assert(it.rest() =~= ops_view(ops@));
            } else {
                assert(it.rest() =~= ops_view(ops@));
            }
        }
        it
    }

    /// Whether anything remains to consume.
    pub fn has_next(&self) -> (r: bool)
        requires
            self.wf(),
        ensures
            r == (self.rest().len() > 0),
    {
        self.index < self.ops.len()
    }

    /// The remaining length of the current operation, or the infinite
    /// sentinel past the end.
    pub fn peek_len(&self) -> (r: usize)
        requires
            self.wf(),
        ensures
            self.rest().len() > 0 ==> r == op_len(self.rest()[0]) && r < usize::MAX,
            self.rest().len() == 0 ==> r == usize::MAX,
    {
        if self.index < self.ops.len() {
            proof {
                assert(op_wf(self.ops@[self.index as int]@));
            }
            self.ops[self.index].len() - self.offset
        } else {
            usize::MAX
        }
    }

    /// The kind of the current operation; past the end, an infinite retain.
    pub fn peek_type(&mut self) -> (r: Tp)
        requires
            old(self).wf(),
        ensures
            *final(self) == *old(self),
            old(self).rest().len() == 0 ==> r == Tp::Retain,
            old(self).rest().len() > 0 ==> r == match old(self).rest()[0].kind {
                OpKindV::Insert(_) => Tp::Insert,
                OpKindV::Retain(_) => Tp::Retain,
                OpKindV::Delete(_) => Tp::Delete,
            },
    {
        if self.index >= self.ops.len() {
            return Tp::Retain;
        }
        match &self.ops[self.index].kind {
            OpKind::Insert(_) => Tp::Insert,
            OpKind::Delete(_) => Tp::Delete,
            OpKind::Retain(_) => Tp::Retain,
        }
    }

    /// The current operation as the source holds it, untouched by the
    /// consumed offset.
    pub fn peek(&mut self) -> (r: &'a DeltaOperation)
        requires
            old(self).wf(),
            old(self).rest().len() > 0,
        ensures
            *final(self) == *old(self),
            0 <= old(self).current_index() < old(self).src().len(),
            r@ == old(self).src()[old(self).current_index()],
            0 <= old(self).current_offset() < op_len(r@),
            old(self).rest()[0] == op_drop(r@, old(self).current_offset()),
    {
        proof {
            assert(self.src()[self.index as int] == self.ops@[self.index as int]@);
            assert(op_wf(self.ops@[self.index as int]@));
        }
        &self.ops[self.index]
    }

    /// Consumes up to `length` positions of the current operation and
    /// returns exactly the consumed slice as a new operation.
    pub fn next(&mut self, length: usize) -> (r: DeltaOperation)
        requires
            old(self).wf(),
            old(self).rest().len() > 0,
            1 <= length,
        ensures
            final(self).wf(),
            final(self).src() == old(self).src(),
            ({
                let first = old(self).rest()[0];
                let n = vstd::math::min(length as int, op_len(first));
                &&& r@ == op_take(first, n)
                &&& r.attrs_wf()
                &&& op_wf(r@)
                &&& final(self).rest() == if n == op_len(first) {
                    old(self).rest().skip(1)
                } else {
                    old(self).rest().update(0, op_drop(first, n))
                }
            }),
    {
        let ghost first = self.rest()[0];
        let ghost r0 = self.rest();
        proof {
            assert(self.ops@[self.index as int].attrs_wf());
            assert(op_wf(self.ops@[self.index as int]@));
            assert(first == op_drop(self.ops@[self.index as int]@, self.offset as int));
        }
        let src_op = &self.ops[self.index];
        let rem = src_op.len() - self.offset;
        let n = if length < rem {
            length
        } else {
            rem
        };
        let start = self.offset;
        let result = match &src_op.kind {
            OpKind::Delete(_) => DeltaOperation::delete(n),
            OpKind::Retain(_) => DeltaOperation {
                kind: OpKind::Retain(n),
                attributes: src_op.attributes.clone(),
            },
            OpKind::Insert(Content::Text(t)) => DeltaOperation {
                kind: OpKind::Insert(Content::Text(unit_range(t, start, start + n))),
                attributes: src_op.attributes.clone(),
            },
            OpKind::Insert(Content::Embed(v)) => DeltaOperation {
                kind: OpKind::Insert(Content::Embed(v.clone())),
                attributes: src_op.attributes.clone(),
            },
        };
        proof {
            match self.ops@[self.index as int]@.kind {
                OpKindV::Insert(c) => {
                    match c {
                        crate::ops::ContentV::Text(t) => {
                            assert(t.skip(start as int).take(n as int) =~= t.subrange(
                                start as int,
                                start + n,
                            ));
                        },
                        _ => {
                            assert(start == 0 && n == 1);
                        },
                    }
                },
                _ => {},
            }
            assert(result@ == op_take(first, n as int));
        }
        if n == rem {
            self.index = self.index + 1;
            self.offset = 0;
            proof {
                assert(n == op_len(first));
                if self.index < self.ops@.len() {
                    assert(op_wf(self.ops@[self.index as int]@));
                    assert(op_drop(self.ops@[self.index as int]@, 0) == self.ops@[self.index as int]@)
                        by {
                        match self.ops@[self.index as int]@.kind {
                            OpKindV::Insert(c) => {
                                match c {
                                    crate::ops::ContentV::Text(t) => {
                                        assert(t.skip(0) =~= t);
                                    },
                                    _ => {},
                                }
                            },
                            _ => {},
                        }
                    }
                }
                assert(self.rest() =~= r0.skip(1));
            }
        } else {
            self.offset = self.offset + n;
            proof {
                let op0 = self.ops@[self.index as int]@;
                assert(op_drop(op0, start + n) == op_drop(first, n as int)) by {
                    match op0.kind {
                        OpKindV::Insert(c) => {
                            match c {
                                crate::ops::ContentV::Text(t) => {
                                    assert(t.skip(start as int).skip(n as int) =~= t.skip(
                                        start + n,
                                    ));
                                },
                                _ => {},
                            }
                        },
                        _ => {},
                    }
                }
                assert(self.rest() =~= r0.update(0, op_drop(first, n as int)));
            }
        }
        result
    }

    /// Every remaining operation, the partially consumed first one
    /// included, is valid on its own.
    pub proof fn lemma_rest_wf(&self)
        requires
            self.wf(),
        ensures
            forall|i: int| 0 <= i < self.rest().len() ==> op_wf(#[trigger] self.rest()[i]),
    {
        if self.index < self.ops@.len() {
            let first = self.ops@[self.index as int]@;
            assert(op_wf(first));
            assert(op_len(op_drop(first, self.offset as int)) == op_len(first) - self.offset) by {
                match first.kind {
                    OpKindV::Insert(c) => {
                        match c {
                            crate::ops::ContentV::Text(t) => {
                                assert(t.skip(self.offset as int).len() == t.len() - self.offset);
                            },
                            _ => {
                                assert(self.offset == 0);
                            },
                        }
                    },
                    _ => {},
                }
            }
            assert forall|i: int| 0 <= i < self.rest().len() implies op_wf(
                #[trigger] self.rest()[i],
            ) by {
                if i > 0 {
                    assert(self.rest()[i] == ops_view(self.ops@).skip(self.index as int + 1)[i - 1]);
                    assert(self.rest()[i] == self.ops@[self.index + i]@);
                    assert(op_wf(self.ops@[self.index + i]@));
                }
            }
        }
    }

    /// The unconsumed suffix as a change list, the partially consumed
    /// current operation re-synthesized at its offset; the cursor itself
    /// stands where it stood.
    pub fn reset(&mut self) -> (r: Delta)
        requires
            old(self).wf(),
        ensures
            *final(self) == *old(self),
            r@ == old(self).rest(),
            reps_wf(r.ops@),
    {
        let mut out: Vec<DeltaOperation> = Vec::new();
        if self.index >= self.ops.len() {
            let d = Delta { ops: out };
            proof {
                assert(d@ =~= self.rest());
            }
            return d;
        }
        let ghost first = self.rest()[0];
        proof {
            assert(self.ops@[self.index as int].attrs_wf());
            assert(op_wf(self.ops@[self.index as int]@));
        }
        let src_op = &self.ops[self.index];
        let rem = src_op.len() - self.offset;
        let start = self.offset;
        let piece = match &src_op.kind {
            OpKind::Delete(_) => DeltaOperation::delete(rem),
            OpKind::Retain(_) => DeltaOperation {
                kind: OpKind::Retain(rem),
                attributes: src_op.attributes.clone(),
            },
            OpKind::Insert(Content::Text(t)) => DeltaOperation {
                kind: OpKind::Insert(Content::Text(unit_range(t, start, t.len()))),
                attributes: src_op.attributes.clone(),
            },
            OpKind::Insert(Content::Embed(v)) => DeltaOperation {
                kind: OpKind::Insert(Content::Embed(v.clone())),
                attributes: src_op.attributes.clone(),
            },
        };
        proof {
            match self.ops@[self.index as int]@.kind {
                OpKindV::Insert(c) => {
                    match c {
                        crate::ops::ContentV::Text(t) => {
                            assert(t.subrange(start as int, t.len() as int) =~= t.skip(
                                start as int,
                            ));
                        },
                        _ => {
                            assert(start == 0);
                        },
                    }
                },
                _ => {},
            }
            assert(piece@ == first);
        }
        out.push(piece);
        let n = self.ops.len();
        let mut i: usize = self.index + 1;
        while i < n
            invariant
                n == self.ops@.len(),
                self.index + 1 <= i <= n,
                self.wf(),
                out@.len() == i - self.index,
                ops_view(out@) == seq![first] + ops_view(self.ops@).subrange(
                    self.index + 1,
                    i as int,
                ),
                forall|j: int| 0 <= j < out@.len() ==> (#[trigger] out@[j]).attrs_wf(),
            decreases n - i,
        {
            let ghost pre = ops_view(out@);
            out.push(self.ops[i].clone());
            proof {
                assert(ops_view(out@) =~= pre.push(self.ops@[i as int]@));
                assert(ops_view(self.ops@)[i as int] == self.ops@[i as int]@);
                assert(ops_view(out@) =~= seq![first] + ops_view(self.ops@).subrange(
                    self.index + 1,
                    i + 1,
                ));
            }
            i = i + 1;
        }
        let d = Delta { ops: out };
        proof {
            assert(ops_view(self.ops@).subrange(self.index + 1, n as int) =~= ops_view(
                self.ops@,
            ).skip(self.index as int + 1));
            assert(d@ =~= self.rest());
        }
        d
    }
}

} // verus!
