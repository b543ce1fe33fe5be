//! Compose: merge two sequential changes into the single equivalent change.
//!
//! `a.compose(b)` is the change equivalent to applying `a` and then `b` to a
//! common base. The two operation streams are consumed in aligned pieces of
//! the minimum available length: `b`'s inserts pass straight to the output,
//! `a`'s deletes pass straight through (`b` cannot act on content `a`
//! already removed), a retain of `b` re-formats what `a` produced, and a
//! delete of `b` removes retained base content or cancels `a`'s insert.

use vstd::prelude::*;
use vstd::math::min;
use crate::attributes::{attrs_compose, none, spec_attrs_compose, AttrMapV};
use crate::delta::{
    lemma_suffix_total, lemma_total_first, lemma_total_len_parts, spec_append, spec_chop,
    total_len, Delta,
};
use crate::iterator::DeltaIterator;
use crate::ops::{
    lemma_op_take_full, op_drop, op_len, op_take, op_wf, DeltaOperation, OpKind, OpV, Tp,
};

verus! {

/// The operation one aligned step produces: a retain of `b` keeps `a`'s
/// piece under composed attributes (clear-formatting markers survive only
/// onto retained base content); a delete of `b` survives over a retain of
/// `a` and cancels against an insert of `a`.
pub open spec fn compose_pair(a1: OpV, b1: OpV) -> Option<OpV> {
    if b1.kind is Retain {
        Some(
            OpV {
                kind: a1.kind,
                attributes: spec_attrs_compose(a1.attributes, b1.attributes, a1.kind is Retain),
            },
        )
    } else if a1.kind is Retain {
        Some(b1)
    } else {
        None
    }
}

/// A whole operation of `a` kept when `b` is exhausted: behind `b`'s end
/// stands an infinite plain retain.
pub open spec fn compose_keep_a(a0: OpV) -> OpV {
    OpV {
        kind: a0.kind,
        attributes: spec_attrs_compose(a0.attributes, AttrMapV::empty(), a0.kind is Retain),
    }
}

/// The composition of the remainders `a` and `b`, appended onto `acc`.
pub open spec fn spec_compose_acc(acc: Seq<OpV>, a: Seq<OpV>, b: Seq<OpV>) -> Seq<OpV>
    decreases a.len() + b.len(),
{
    if a.len() == 0 && b.len() == 0 {
        acc
    } else if b.len() > 0 && b[0].kind is Insert {
        spec_compose_acc(spec_append(acc, b[0]), a, b.skip(1))
    } else if a.len() > 0 && a[0].kind is Delete {
        spec_compose_acc(spec_append(acc, a[0]), a.skip(1), b)
    } else if a.len() == 0 {
        spec_compose_acc(spec_append(acc, b[0]), a, b.skip(1))
    } else if b.len() == 0 {
        spec_compose_acc(spec_append(acc, compose_keep_a(a[0])), a.skip(1), b)
    } else {
        let n = min(op_len(a[0]), op_len(b[0]));
        let a1 = op_take(a[0], n);
        let b1 = op_take(b[0], n);
        let a2 = if n == op_len(a[0]) {
            a.skip(1)
        } else {
            a.update(0, op_drop(a[0], n))
        };
        let b2 = if n == op_len(b[0]) {
            b.skip(1)
        } else {
            b.update(0, op_drop(b[0], n))
        };
        match compose_pair(a1, b1) {
            Some(o) => spec_compose_acc(spec_append(acc, o), a2, b2),
            None => spec_compose_acc(acc, a2, b2),
        }
    }
}

/// What `a.compose(b)` returns: the two streams composed, a trailing no-op
/// retain dropped.
pub open spec fn spec_compose(a: Seq<OpV>, b: Seq<OpV>) -> Seq<OpV> {
    spec_chop(spec_compose_acc(Seq::empty(), a, b))
}

impl Delta {
    /// Returns a Delta that is equivalent to applying the operations of own
    /// Delta, followed by another Delta.
    pub fn compose(&self, other: &Delta) -> (r: Delta)
        requires
            self.wf(),
            other.wf(),
            total_len(self@) + total_len(other@) < usize::MAX as int,
        ensures
            r@ == spec_compose(self@, other@),
            r.wf(),
    {
        proof {
            assert forall|i: int|
                0 <= i < self.ops@.len() implies (#[trigger] self.ops@[i]).attrs_wf() && op_wf(
                self.ops@[i]@,
            ) by {
                assert(self@[i] == self.ops@[i]@);
                assert(op_wf(self@[i]));
            }
            assert forall|i: int|
                0 <= i < other.ops@.len() implies (#[trigger] other.ops@[i]).attrs_wf() && op_wf(
                other.ops@[i]@,
            ) by {
                assert(other@[i] == other.ops@[i]@);
                assert(op_wf(other@[i]));
            }
        }
        let mut a_it = DeltaIterator::new(self.ops.as_slice());
        let mut b_it = DeltaIterator::new(other.ops.as_slice());
        let mut out = Delta::new();
        let ghost goal = spec_compose_acc(Seq::empty(), self@, other@);
        let ghost budget = total_len(self@) + total_len(other@);
        proof {
            lemma_total_len_parts(self@);
            lemma_total_len_parts(other@);
        }
        loop
            invariant
                a_it.wf(),
                b_it.wf(),
                out.wf(),
                spec_compose_acc(out@, a_it.rest(), b_it.rest()) == goal,
                total_len(out@) + total_len(a_it.rest()) + total_len(b_it.rest()) <= budget,
                total_len(a_it.rest()) >= 0,
                total_len(b_it.rest()) >= 0,
                budget < usize::MAX as int,
            ensures
                a_it.rest().len() == 0,
                b_it.rest().len() == 0,
                out.wf(),
                spec_compose_acc(out@, a_it.rest(), b_it.rest()) == goal,
            decreases total_len(a_it.rest()) + total_len(b_it.rest()),
        {
            let a_more = a_it.has_next();
            let b_more = b_it.has_next();
            if !a_more && !b_more {
                break ;
            }
            let ghost ra = a_it.rest();
            let ghost rb = b_it.rest();
            let ghost acc0 = out@;
            proof {
                a_it.lemma_rest_wf();
                b_it.lemma_rest_wf();
                if ra.len() > 0 {
                    lemma_total_first(ra);
                    lemma_suffix_total(ra, 1);
                }
                if rb.len() > 0 {
                    lemma_total_first(rb);
                    lemma_suffix_total(rb, 1);
                }
            }
            let b_t = b_it.peek_type();
            let a_t = a_it.peek_type();
            if b_more && b_t == Tp::Insert {
                let len = b_it.peek_len();
                let op = b_it.next(len);
                proof {
                    lemma_op_take_full(rb[0]);
                    assert(op@ == rb[0]);
                }
                out = out.push(op);
                proof {
                    assert(spec_compose_acc(acc0, ra, rb) == spec_compose_acc(
                        out@,
                        a_it.rest(),
                        b_it.rest(),
                    ));
                }
            } else if a_more && a_t == Tp::Delete {
                let len = a_it.peek_len();
                let op = a_it.next(len);
                proof {
                    lemma_op_take_full(ra[0]);
                    assert(op@ == ra[0]);
                }
                out = out.push(op);
                proof {
                    assert(spec_compose_acc(acc0, ra, rb) == spec_compose_acc(
                        out@,
                        a_it.rest(),
                        b_it.rest(),
                    ));
                }
            } else if !a_more {
                // behind a's end stands an infinite plain retain: b's
                // retain or delete passes through unchanged
                let len = b_it.peek_len();
                let op = b_it.next(len);
                proof {
                    lemma_op_take_full(rb[0]);
                    assert(op@ == rb[0]);
                }
                out = out.push(op);
                proof {
                    assert(spec_compose_acc(acc0, ra, rb) == spec_compose_acc(
                        out@,
                        a_it.rest(),
                        b_it.rest(),
                    ));
                }
            } else if !b_more {
                let len = a_it.peek_len();
                let op = a_it.next(len);
                proof {
                    lemma_op_take_full(ra[0]);
                    assert(op@ == ra[0]);
                }
                let keep = matches!(op.kind, OpKind::Retain(_));
                let empty_attrs = none();
                let merged = attrs_compose(&op.attributes, &empty_attrs, keep);
                let produced = DeltaOperation { kind: op.kind, attributes: merged };
                proof {
                    assert(produced@ == compose_keep_a(ra[0]));
                    assert(op_len(produced@) == op_len(ra[0]));
                    assert(op_wf(produced@));
                }
                out = out.push(produced);
                proof {
                    assert(spec_compose_acc(acc0, ra, rb) == spec_compose_acc(
                        out@,
                        a_it.rest(),
                        b_it.rest(),
                    ));
                }
            } else {
                let alen = a_it.peek_len();
                let blen = b_it.peek_len();
                let len = if alen < blen {
                    alen
                } else {
                    blen
                };
                proof {
                    assert(len == min(op_len(ra[0]), op_len(rb[0])));
                }
                let a_op = a_it.next(len);
                let b_op = b_it.next(len);
                proof {
                    assert(a_op@ == op_take(ra[0], len as int));
                    assert(b_op@ == op_take(rb[0], len as int));
                    if len < alen {
                        crate::delta::lemma_update_drop_total(ra, len as int);
                    }
                    if len < blen {
                        crate::delta::lemma_update_drop_total(rb, len as int);
                    }
                    assert(total_len(a_it.rest()) == total_len(ra) - len);
                    assert(total_len(b_it.rest()) == total_len(rb) - len);
                }
                let b_is_retain = matches!(b_op.kind, OpKind::Retain(_));
                if b_is_retain {
                    let keep = matches!(a_op.kind, OpKind::Retain(_));
                    let merged = attrs_compose(&a_op.attributes, &b_op.attributes, keep);
                    let produced = DeltaOperation { kind: a_op.kind, attributes: merged };
                    proof {
                        assert(Some(produced@) == compose_pair(
                            op_take(ra[0], len as int),
                            op_take(rb[0], len as int),
                        ));
                        assert(op_len(produced@) == len);
                        assert(op_wf(produced@));
                    }
                    out = out.push(produced);
                    proof {
                        assert(spec_compose_acc(acc0, ra, rb) == spec_compose_acc(
                            out@,
                            a_it.rest(),
                            b_it.rest(),
                        ));
                    }
                } else {
                    let a_is_retain = matches!(a_op.kind, OpKind::Retain(_));
                    if a_is_retain {
                        out = out.push(b_op);
                    }
                    // b deletes what a inserted: the content never reaches
                    // the base, nothing is produced
                    proof {
                        assert(spec_compose_acc(acc0, ra, rb) == spec_compose_acc(
                            out@,
                            a_it.rest(),
                            b_it.rest(),
                        ));
                    }
                }
            }
        }
        proof {
            assert(spec_compose_acc(out@, a_it.rest(), b_it.rest()) == out@);
        }
        out.chop()
    }
}

} // verus!
