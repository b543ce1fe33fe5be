//! Transform: rebase one change against a concurrent change.
//!
//! `a.transform(b, priority)` is what an actor who already saw `a` must
//! apply to also get `b`'s effect without re-applying `a`'s intent. With
//! `priority` true, `a` counts as having happened first: its inserts win
//! ties at the same position. `transform_position` rebases a single index
//! the same way.

use vstd::prelude::*;
use vstd::math::min;
use crate::attributes::{attrs_transform, spec_attrs_transform, AttrMapV};
use crate::delta::{
    lemma_suffix_total, lemma_total_first, lemma_total_len_parts, spec_append, spec_chop,
    total_len, Delta,
};
use crate::iterator::DeltaIterator;
use crate::ops::{
    lemma_op_take_full, op_drop, op_len, op_take, op_wf, DeltaOperation, OpKind, OpKindV, OpV,
    Tp,
};

verus! {

/// The rebasing of the remainders: `a`'s inserts become plain retains in
/// the output (their space is skipped, not re-edited), `b`'s inserts pass
/// through, `a`'s deletes silence whatever `b` did to the same content,
/// `b`'s deletes survive, and aligned retains carry transformed attributes.
pub open spec fn spec_transform_acc(acc: Seq<OpV>, a: Seq<OpV>, b: Seq<OpV>, priority: bool) -> Seq<
    OpV,
>
    decreases a.len() + b.len(),
{
    if a.len() == 0 && b.len() == 0 {
        acc
    } else if a.len() > 0 && a[0].kind is Insert && (priority || !(b.len() > 0
        && b[0].kind is Insert)) {
        spec_transform_acc(
            spec_append(
                acc,
                (OpV { kind: OpKindV::Retain(op_len(a[0])), attributes: AttrMapV::empty() }),
            ),
            a.skip(1),
            b,
            priority,
        )
    } else if b.len() > 0 && b[0].kind is Insert {
        spec_transform_acc(spec_append(acc, b[0]), a, b.skip(1), priority)
    } else if a.len() == 0 {
        spec_transform_acc(spec_append(acc, b[0]), a, b.skip(1), priority)
    } else if b.len() == 0 {
        if a[0].kind is Delete {
            spec_transform_acc(acc, a.skip(1), b, priority)
        } else {
            spec_transform_acc(
                spec_append(
                    acc,
                    (OpV { kind: OpKindV::Retain(op_len(a[0])), attributes: AttrMapV::empty() }),
                ),
                a.skip(1),
                b,
                priority,
            )
        }
    } else {
        let n = min(op_len(a[0]), op_len(b[0]));
        let a2 = if n == op_len(a[0]) {
            a.skip(1)
        } else {
            a.update(0, op_drop(a[0], n))
        };
        let b2 = if n == op_len(b[0]) {
            b.skip(1)
        } else {
            b.update(0, op_drop(b[0], n))
        };
        if a[0].kind is Delete {
            spec_transform_acc(acc, a2, b2, priority)
        } else if b[0].kind is Delete {
            spec_transform_acc(spec_append(acc, op_take(b[0], n)), a2, b2, priority)
        } else {
            spec_transform_acc(
                spec_append(
                    acc,
                    (OpV {
                        kind: OpKindV::Retain(n),
                        attributes: spec_attrs_transform(
                            a[0].attributes,
                            b[0].attributes,
                            priority,
                        ),
                    }),
                ),
                a2,
                b2,
                priority,
            )
        }
    }
}

/// What `a.transform(b, priority)` returns: `b` rebased against `a`, a
/// trailing no-op retain dropped.
pub open spec fn spec_transform(a: Seq<OpV>, b: Seq<OpV>, priority: bool) -> Seq<OpV> {
    spec_chop(spec_transform_acc(Seq::empty(), a, b, priority))
}

impl Delta {
    /// Transform given Delta against own operations. With `priority`, own
    /// actions are considered to have happened first.
    pub fn transform(&self, other: &Delta, priority: bool) -> (r: Delta)
        requires
            self.wf(),
            other.wf(),
            total_len(self@) + total_len(other@) < usize::MAX as int,
        ensures
            r@ == spec_transform(self@, other@, priority),
            r.wf(),
    {
        proof {
            assert forall|i: int|
                0 <= i < self.ops@.len() implies (#[trigger] self.ops@[i]).attrs_wf() && op_wf(
                self.ops@[i]@,
            ) by {
                assert(self@[i] == self.ops@[i]@);
                assert(op_wf(self@[i]));
            }
            assert forall|i: int|
                0 <= i < other.ops@.len() implies (#[trigger] other.ops@[i]).attrs_wf() && op_wf(
                other.ops@[i]@,
            ) by {
                assert(other@[i] == other.ops@[i]@);
                assert(op_wf(other@[i]));
            }
        }
        let mut a_it = DeltaIterator::new(self.ops.as_slice());
        let mut b_it = DeltaIterator::new(other.ops.as_slice());
        let mut out = Delta::new();
        let ghost goal = spec_transform_acc(Seq::empty(), self@, other@, priority);
        let ghost budget = total_len(self@) + total_len(other@);
        proof {
            lemma_total_len_parts(self@);
            lemma_total_len_parts(other@);
        }
        loop
            invariant
                a_it.wf(),
                b_it.wf(),
                out.wf(),
                spec_transform_acc(out@, a_it.rest(), b_it.rest(), priority) == goal,
                total_len(out@) + total_len(a_it.rest()) + total_len(b_it.rest()) <= budget,
                total_len(a_it.rest()) >= 0,
                total_len(b_it.rest()) >= 0,
                budget < usize::MAX as int,
            ensures
                a_it.rest().len() == 0,
                b_it.rest().len() == 0,
                out.wf(),
                spec_transform_acc(out@, a_it.rest(), b_it.rest(), priority) == goal,
            decreases total_len(a_it.rest()) + total_len(b_it.rest()),
        {
            let a_more = a_it.has_next();
            let b_more = b_it.has_next();
            if !a_more && !b_more {
                break ;
            }
            let ghost ra = a_it.rest();
            let ghost rb = b_it.rest();
            let ghost acc0 = out@;
            proof {
                a_it.lemma_rest_wf();
                b_it.lemma_rest_wf();
                if ra.len() > 0 {
                    lemma_total_first(ra);
                    lemma_suffix_total(ra, 1);
                }
                if rb.len() > 0 {
                    lemma_total_first(rb);
                    lemma_suffix_total(rb, 1);
                }
            }
            let a_t = a_it.peek_type();
            let b_t = b_it.peek_type();
            if a_more && a_t == Tp::Insert && (priority || !(b_t == Tp::Insert)) {
                let len = a_it.peek_len();
                let op = a_it.next(len);
                proof {
                    lemma_op_take_full(ra[0]);
                    assert(op@ == ra[0]);
                }
                let produced = DeltaOperation::retain(len);
                out = out.push(produced);
                proof {
                    assert(spec_transform_acc(acc0, ra, rb, priority) == spec_transform_acc(
                        out@,
                        a_it.rest(),
                        b_it.rest(),
                        priority,
                    ));
                }
            } else if b_more && b_t == Tp::Insert {
                let len = b_it.peek_len();
                let op = b_it.next(len);
                proof {
                    lemma_op_take_full(rb[0]);
                    assert(op@ == rb[0]);
                }
                out = out.push(op);
                proof {
                    assert(spec_transform_acc(acc0, ra, rb, priority) == spec_transform_acc(
                        out@,
                        a_it.rest(),
                        b_it.rest(),
                        priority,
                    ));
                }
            } else if !a_more {
                // behind a's end stands an infinite plain retain: b's
                // retain or delete passes through unchanged
                let len = b_it.peek_len();
                let op = b_it.next(len);
                proof {
                    lemma_op_take_full(rb[0]);
                    assert(op@ == rb[0]);
                }
                out = out.push(op);
                proof {
                    assert(spec_transform_acc(acc0, ra, rb, priority) == spec_transform_acc(
                        out@,
                        a_it.rest(),
                        b_it.rest(),
                        priority,
                    ));
                }
            } else if !b_more {
                let len = a_it.peek_len();
                let op = a_it.next(len);
                proof {
                    lemma_op_take_full(ra[0]);
                    assert(op@ == ra[0]);
                }
                let is_delete = matches!(op.kind, OpKind::Delete(_));
                if !is_delete {
                    let produced = DeltaOperation::retain(len);
                    out = out.push(produced);
                }
                proof {
                    assert(spec_transform_acc(acc0, ra, rb, priority) == spec_transform_acc(
                        out@,
                        a_it.rest(),
                        b_it.rest(),
                        priority,
                    ));
                }
            } else {
                let alen = a_it.peek_len();
                let blen = b_it.peek_len();
                let len = if alen < blen {
                    alen
                } else {
                    blen
                };
                proof {
                    assert(len == min(op_len(ra[0]), op_len(rb[0])));
                }
                let a_op = a_it.next(len);
                let b_op = b_it.next(len);
                proof {
                    assert(a_op@ == op_take(ra[0], len as int));
                    assert(b_op@ == op_take(rb[0], len as int));
                    if len < alen {
                        crate::delta::lemma_update_drop_total(ra, len as int);
                    }
                    if len < blen {
                        crate::delta::lemma_update_drop_total(rb, len as int);
                    }
                    assert(total_len(a_it.rest()) == total_len(ra) - len);
                    assert(total_len(b_it.rest()) == total_len(rb) - len);
                }
                let a_is_delete = matches!(a_op.kind, OpKind::Delete(_));
                let b_is_delete = matches!(b_op.kind, OpKind::Delete(_));
                if a_is_delete {
                    // a already removed this content: b's action on it is moot
                } else if b_is_delete {
                    out = out.push(b_op);
                } else {
                    let merged = attrs_transform(&a_op.attributes, &b_op.attributes, priority);
                    let produced = DeltaOperation { kind: OpKind::Retain(len), attributes: merged };
                    proof {
                        assert(op_wf(produced@));
                    }
                    out = out.push(produced);
                }
                proof {
                    assert(spec_transform_acc(acc0, ra, rb, priority) == spec_transform_acc(
                        out@,
                        a_it.rest(),
                        b_it.rest(),
                        priority,
                    ));
                }
            }
        }
        proof {
            assert(spec_transform_acc(out@, a_it.rest(), b_it.rest(), priority) == out@);
        }
        out.chop()
    }
}

/// The index after the change: deletes before it pull it left, inserts at
/// or before it push it right -- an insert exactly at the index only when
/// the change does not have priority -- and retains walk past it.
pub open spec fn spec_transform_position(
    s: Seq<OpV>,
    index: int,
    offset: int,
    priority: bool,
) -> int
    decreases s.len(),
{
    if s.len() == 0 || offset > index {
        index
    } else {
        let l = op_len(s[0]);
        if s[0].kind is Delete {
            spec_transform_position(
                s.skip(1),
                index - min(l, index - offset),
                offset,
                priority,
            )
        } else if s[0].kind is Insert {
            if offset < index || !priority {
                spec_transform_position(s.skip(1), index + l, offset + l, priority)
            } else {
                spec_transform_position(s.skip(1), index, offset + l, priority)
            }
        } else {
            spec_transform_position(s.skip(1), index, offset + l, priority)
        }
    }
}

impl Delta {
    /// Transform an index against the delta. Useful for representing
    /// cursor and selection positions.
    pub fn transform_position(&self, index: usize, priority: bool) -> (r: usize)
        requires
            self.wf(),
            index + total_len(self@) <= usize::MAX as int,
        ensures
            r == spec_transform_position(self@, index as int, 0, priority),
    {
        let ghost s = self@;
        let n = self.ops.len();
        let mut idx = index;
        let mut offset: usize = 0;
        let mut i: usize = 0;
        proof {
            lemma_total_len_parts(s);
            assert(s.skip(0) =~= s);
        }
        while i < n && offset <= idx
            invariant
                n == self.ops@.len(),
                n == s.len(),
                self.wf(),
                s == self@,
                i <= n,
                idx + total_len(s.skip(i as int)) <= usize::MAX as int,
                total_len(s.skip(i as int)) >= 0,
                offset <= usize::MAX,
                spec_transform_position(s, index as int, 0, priority)
                    == spec_transform_position(s.skip(i as int), idx as int, offset as int, priority),
            decreases n - i,
        {
            let ghost rest = s.skip(i as int);
            proof {
                assert(self@[i as int] == self.ops@[i as int]@);
                assert(op_wf(self@[i as int]));
                assert(rest[0] == s[i as int]);
                assert(rest.skip(1) =~= s.skip(i + 1));
                lemma_total_first(rest);
                lemma_suffix_total(rest, 1);
            }
            let l = self.ops[i].len();
            match &self.ops[i].kind {
                OpKind::Delete(_) => {
                    let d = if l < idx - offset {
                        l
                    } else {
                        idx - offset
                    };
                    idx = idx - d;
                },
                OpKind::Insert(_) => {
                    if offset < idx || !priority {
                        idx = idx + l;
                    }
                    offset = offset + l;
                },
                OpKind::Retain(_) => {
                    offset = offset + l;
                },
            }
            i = i + 1;
        }
        proof {
            if i == n {
                assert(s.skip(n as int) =~= Seq::<OpV>::empty());
            }
        }
        idx
    }
}

} // verus!
