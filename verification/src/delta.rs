//! A change list: an ordered sequence of operations kept canonical by a
//! normalizing append.
//!
//! The canonical form has no two adjacent deletes, no two adjacent text
//! inserts or retains with identical attribute maps, and never a delete
//! immediately followed by an insert: an insert appended after a delete is
//! reordered to precede it, insert-first being the canonical order for the
//! two at one position. Every algorithm of this crate builds its output
//! through [`Delta::push`], so outputs are canonical by construction.

use vstd::prelude::*;
use crate::attributes::{AttrMapV, Attributes};
use crate::ops::{
    content_len, op_drop, op_len, op_take, op_wf, Content, ContentV, DeltaOperation, OpKind,
    OpKindV, OpV,
};

verus! {

/// Wrapper to manipulate a list of operations easily.
pub struct Delta {
    pub ops: Vec<DeltaOperation>,
}

/// The mathematical shape of a list of operations.
pub open spec fn ops_view(s: Seq<DeltaOperation>) -> Seq<OpV> {
    s.map_values(|o: DeltaOperation| o@)
}

impl View for Delta {
    type V = Seq<OpV>;

    open spec fn view(&self) -> Seq<OpV> {
        ops_view(self.ops@)
    }
}

/// Whether a text insert.
pub open spec fn is_text_insert(op: OpV) -> bool {
    op.kind matches OpKindV::Insert(ContentV::Text(_))
}

/// The code units of a text insert.
pub open spec fn text_of(op: OpV) -> Seq<u16>
    recommends
        is_text_insert(op),
{
    match op.kind {
        OpKindV::Insert(ContentV::Text(t)) => t,
        _ => Seq::empty(),
    }
}

/// Two adjacent operations that the canonical form does not allow: deletes
/// to merge, a delete still standing before an insert, or equal-attribute
/// text inserts or retains to merge.
pub open spec fn mergeable_pair(a: OpV, b: OpV) -> bool {
    ||| (a.kind is Delete && b.kind is Delete)
    ||| (a.kind is Delete && b.kind is Insert)
    ||| (a.kind is Retain && b.kind is Retain && a.attributes == b.attributes)
    ||| (is_text_insert(a) && is_text_insert(b) && a.attributes == b.attributes)
}

/// Every operation is valid on its own.
pub open spec fn ops_wf(s: Seq<OpV>) -> bool {
    forall|i: int| 0 <= i < s.len() ==> op_wf(#[trigger] s[i])
}

/// No adjacent pair breaks the canonical form.
pub open spec fn normalized(s: Seq<OpV>) -> bool {
    forall|i: int| 0 <= i < s.len() - 1 ==> !#[trigger] mergeable_pair(s[i], s[i + 1])
}

/// A valid, canonical change list.
pub open spec fn delta_wf(s: Seq<OpV>) -> bool {
    ops_wf(s) && normalized(s)
}

/// The total length of a change list's operations.
pub open spec fn total_len(s: Seq<OpV>) -> int
    decreases s.len(),
{
    if s.len() == 0 {
        0
    } else {
        total_len(s.drop_last()) + op_len(s.last())
    }
}

/// A change list whose operations all have positive length has total length
/// no smaller than any suffix piece of it.
pub proof fn lemma_total_len_parts(s: Seq<OpV>)
    requires
        ops_wf(s),
    ensures
        total_len(s) >= 0,
        s.len() > 0 ==> total_len(s) >= op_len(s.last()) && total_len(s.drop_last()) >= 0,
        s.len() > 0 ==> total_len(s) >= s.len(),
    decreases s.len(),
{
    if s.len() > 0 {
        assert(ops_wf(s.drop_last()));
        lemma_total_len_parts(s.drop_last());
        assert(op_wf(s[s.len() - 1]));
    }
}

/// A text insert holding the first's text followed by the second's, under
/// the first's attributes.
pub open spec fn merged_text(a: OpV, b: OpV) -> OpV {
    OpV { kind: OpKindV::Insert(ContentV::Text(text_of(a) + text_of(b))), attributes: a.attributes }
}

/// Appending where the current final operation is not a delete: merge two
/// text inserts or two retains with equal attributes, else push.
pub open spec fn spec_merge_tail(s: Seq<OpV>, op: OpV) -> Seq<OpV> {
    if s.len() > 0 && is_text_insert(s.last()) && is_text_insert(op) && s.last().attributes
        == op.attributes {
        s.drop_last().push(merged_text(s.last(), op))
    } else if s.len() > 0 && s.last().kind is Retain && op.kind is Retain && s.last().attributes
        == op.attributes {
        s.drop_last().push(
            OpV {
                kind: OpKindV::Retain(op_len(s.last()) + op_len(op)),
                attributes: s.last().attributes,
            },
        )
    } else {
        s.push(op)
    }
}

/// The normalizing append: `op` joins the list at its logical end, and the
/// canonical form is restored locally. A delete merges into a final delete;
/// an insert appended after a final delete slips in before it, merging with
/// whatever then precedes it; text inserts and retains merge with an equal-
/// attribute final operation of their own kind.
pub open spec fn spec_append(s: Seq<OpV>, op: OpV) -> Seq<OpV> {
    if s.len() > 0 && s.last().kind is Delete && op.kind is Delete {
        s.drop_last().push(
            OpV {
                kind: OpKindV::Delete(op_len(s.last()) + op_len(op)),
                attributes: AttrMapV::empty(),
            },
        )
    } else if s.len() > 0 && s.last().kind is Delete && op.kind is Insert {
        spec_merge_tail(s.drop_last(), op).push(s.last())
    } else {
        spec_merge_tail(s, op)
    }
}

/// A canonical list with its last operation dropped is canonical.
proof fn lemma_wf_drop_last(s: Seq<OpV>)
    requires
        delta_wf(s),
        s.len() > 0,
    ensures
        delta_wf(s.drop_last()),
{
    assert forall|i: int| 0 <= i < s.drop_last().len() - 1 implies !#[trigger] mergeable_pair(
        s.drop_last()[i],
        s.drop_last()[i + 1],
    ) by {
        assert(s.drop_last()[i] == s[i]);
        assert(s.drop_last()[i + 1] == s[i + 1]);
        assert(!mergeable_pair(s[i], s[i + 1]));
    }
}

/// What the non-delete-tail merge preserves: validity, canonical form, the
/// total length, and the kind of the final operation when it was an insert.
proof fn lemma_merge_tail_wf(s: Seq<OpV>, op: OpV)
    requires
        delta_wf(s),
        op_wf(op),
        total_len(s) + op_len(op) < usize::MAX as int,
        s.len() > 0 ==> !(s.last().kind is Delete && (op.kind is Delete || op.kind is Insert)),
    ensures
        delta_wf(spec_merge_tail(s, op)),
        total_len(spec_merge_tail(s, op)) == total_len(s) + op_len(op),
        spec_merge_tail(s, op).len() > 0,
        op.kind is Insert ==> spec_merge_tail(s, op).last().kind is Insert,
{
    let r = spec_merge_tail(s, op);
    lemma_total_len_parts(s);
    if s.len() > 0 {
        lemma_wf_drop_last(s);
        lemma_total_len_parts(s.drop_last());
    }
    if s.len() > 0 && (r != s.push(op)) {
        // a merge replaced the final operation
        let m = r.last();
        assert(r == s.drop_last().push(m));
        assert(r.drop_last() =~= s.drop_last());
        assert(op_len(m) == op_len(s.last()) + op_len(op));
        assert(op_wf(m));
        assert forall|i: int| 0 <= i < r.len() - 1 implies !#[trigger] mergeable_pair(
            r[i],
            r[i + 1],
        ) by {
            assert(!mergeable_pair(s[i], s[i + 1]));
            if i + 1 == r.len() - 1 {
                assert(r[i] == s[i]);
                assert(r[i + 1] == m);
            } else {
                assert(r[i] == s[i]);
                assert(r[i + 1] == s[i + 1]);
            }
        }
        assert(total_len(r) == total_len(s.drop_last()) + op_len(m));
    } else {
        assert(r == s.push(op));
        assert(r.drop_last() =~= s);
        assert forall|i: int| 0 <= i < r.len() - 1 implies !#[trigger] mergeable_pair(
            r[i],
            r[i + 1],
        ) by {
            if i < r.len() - 2 {
                assert(r[i] == s[i]);
                assert(r[i + 1] == s[i + 1]);
                assert(!mergeable_pair(s[i], s[i + 1]));
            } else {
                assert(r[i] == s.last());
                assert(r[i + 1] == op);
            }
        }
    }
}

/// What the normalizing append preserves: validity, canonical form, and the
/// total length.
pub proof fn lemma_append_wf(s: Seq<OpV>, op: OpV)
    requires
        delta_wf(s),
        op_wf(op),
        total_len(s) + op_len(op) < usize::MAX as int,
    ensures
        delta_wf(spec_append(s, op)),
        total_len(spec_append(s, op)) == total_len(s) + op_len(op),
        spec_append(s, op).len() > 0,
    decreases s.len(),
{
    let r = spec_append(s, op);
    lemma_total_len_parts(s);
    if s.len() > 0 {
        lemma_wf_drop_last(s);
        lemma_total_len_parts(s.drop_last());
    }
    if s.len() > 0 && s.last().kind is Delete && op.kind is Delete {
        let m = r.last();
        assert(r == s.drop_last().push(m));
        assert(r.drop_last() =~= s.drop_last());
        assert(op_wf(m));
        assert forall|i: int| 0 <= i < r.len() - 1 implies !#[trigger] mergeable_pair(
            r[i],
            r[i + 1],
        ) by {
            assert(!mergeable_pair(s[i], s[i + 1]));
            assert(r[i] == s[i]);
            if i + 1 == r.len() - 1 {
                assert(!(s[i].kind is Delete));
            } else {
                assert(r[i + 1] == s[i + 1]);
            }
        }
        assert(total_len(r) == total_len(s.drop_last()) + op_len(m));
    } else if s.len() > 0 && s.last().kind is Delete && op.kind is Insert {
        let front = s.drop_last();
        let d = s.last();
        if front.len() > 0 {
            let j = s.len() - 2;
            assert(!mergeable_pair(s[j], s[j + 1]));
            assert(front.last() == s[j]);
            assert(!(front.last().kind is Delete));
        }
        lemma_merge_tail_wf(front, op);
        let t = spec_merge_tail(front, op);
        assert(r == t.push(d));
        assert(r.drop_last() =~= t);
        assert(t.last().kind is Insert);
        assert(!mergeable_pair(t.last(), d));
        assert forall|i: int| 0 <= i < r.len() - 1 implies !#[trigger] mergeable_pair(
            r[i],
            r[i + 1],
        ) by {
            if i < r.len() - 2 {
                assert(r[i] == t[i]);
                assert(r[i + 1] == t[i + 1]);
                assert(!mergeable_pair(t[i], t[i + 1]));
            } else {
                assert(r[i] == t.last());
                assert(r[i + 1] == d);
            }
        }
        assert(total_len(r) == total_len(t) + op_len(d));
    } else {
        lemma_merge_tail_wf(s, op);
    }
}


/// Every stored operation's attribute map is validly represented.
pub open spec fn reps_wf(s: Seq<DeltaOperation>) -> bool {
    forall|i: int| 0 <= i < s.len() ==> (#[trigger] s[i]).attrs_wf()
}

/// A text run extended by another.
fn concat_units(a: Vec<u16>, b: &Vec<u16>) -> (r: Vec<u16>)
    ensures
        r@ == a@ + b@,
{
    let mut out = a;
    let ghost a0 = out@;
    let mut i: usize = 0;
    while i < b.len()
        invariant
            i <= b@.len(),
            out@ == a0 + b@.take(i as int),
        decreases b@.len() - i,
    {
        out.push(b[i]);
        proof {
            assert(out@ =~= a0 + b@.take(i + 1));
        }
        i = i + 1;
    }
    proof {
        assert(a0 + b@.take(b@.len() as int) =~= a0 + b@);
    }
    out
}

/// Appends onto a vector whose final operation need not be looked past:
/// merges equal-attribute text inserts or retains, else pushes.
fn append_tail(ops: &mut Vec<DeltaOperation>, op: DeltaOperation)
    requires
        reps_wf(old(ops)@),
        ops_wf(ops_view(old(ops)@)),
        op.attrs_wf(),
        op_wf(op@),
        total_len(ops_view(old(ops)@)) + op_len(op@) < usize::MAX as int,
    ensures
        ops_view(final(ops)@) == spec_merge_tail(ops_view(old(ops)@), op@),
        reps_wf(final(ops)@),
{
    let ghost s0 = ops_view(ops@);
    let n = ops.len();
    if n == 0 {
        ops.push(op);
        proof {
            assert(ops_view(ops@) =~= s0.push(op@));
        }
        return ;
    }
    proof {
        assert(ops@[n - 1].attrs_wf());
        assert(s0[n - 1] == ops@[n - 1]@);
        lemma_total_len_parts(s0);
    }
    let ae = ops[n - 1].attributes.attrs_eq(&op.attributes);
    let last = ops.pop().unwrap();
    proof {
        assert(ops_view(ops@) =~= s0.drop_last());
    }
    match (last.kind, op.kind) {
        (OpKind::Insert(Content::Text(ta)), OpKind::Insert(Content::Text(tb))) if ae => {
            let merged = concat_units(ta, &tb);
            let m = DeltaOperation {
                kind: OpKind::Insert(Content::Text(merged)),
                attributes: last.attributes,
            };
            proof {
                assert(m@ == merged_text(s0.last(), op@));
            }
            ops.push(m);
            proof {
                assert(ops_view(ops@) =~= s0.drop_last().push(merged_text(s0.last(), op@)));
            }
        },
        (OpKind::Retain(a), OpKind::Retain(b)) if ae => {
            let m = DeltaOperation { kind: OpKind::Retain(a + b), attributes: last.attributes };
            ops.push(m);
            proof {
                assert(ops_view(ops@) =~= spec_merge_tail(s0, op@));
            }
        },
        (lk, ok) => {
            let l2 = DeltaOperation { kind: lk, attributes: last.attributes };
            proof {
                assert(l2@ == s0.last());
            }
            ops.push(l2);
            let o2 = DeltaOperation { kind: ok, attributes: op.attributes };
            proof {
                assert(o2@ == op@);
            }
            ops.push(o2);
            proof {
                assert(ops_view(ops@) =~= s0.push(op@));
            }
        },
    }
}

/// Drops a final no-op retain: a trailing plain retain has no effect.
pub open spec fn spec_chop(s: Seq<OpV>) -> Seq<OpV> {
    if s.len() > 0 && s.last().kind is Retain && s.last().attributes == AttrMapV::empty() {
        s.drop_last()
    } else {
        s
    }
}

impl Delta {
    /// Validly represented, canonical, and every operation valid.
    pub open spec fn wf(&self) -> bool {
        reps_wf(self.ops@) && delta_wf(self@)
    }

    /// The empty change list.
    pub fn new() -> (r: Self)
        ensures
            r@ == Seq::<OpV>::empty(),
            r.wf(),
            total_len(r@) == 0,
    {
        let d = Delta { ops: Vec::new() };
        proof {
            assert(d@ =~= Seq::<OpV>::empty());
        }
        d
    }

    /// The normalizing append of one operation, the single source of
    /// canonicalization for every algorithm of this crate.
    pub fn push(self, op: DeltaOperation) -> (r: Self)
        requires
            self.wf(),
            op.wf(),
            total_len(self@) + op_len(op@) < usize::MAX as int,
        ensures
            r@ == spec_append(self@, op@),
            r.wf(),
            total_len(r@) == total_len(self@) + op_len(op@),
    {
        proof {
            lemma_append_wf(self@, op@);
        }
        let mut d = self;
        let n = d.ops.len();
        if n == 0 {
            d.ops.push(op);
            proof {
                assert(d@ =~= Seq::<OpV>::empty().push(op@));
            }
            return d;
        }
        let ghost s0 = d@;
        proof {
            assert(d.ops@[n - 1].attrs_wf());
            assert(s0[n - 1] == d.ops@[n - 1]@);
            lemma_total_len_parts(s0);
        }
        let last_del = matches!(d.ops[n - 1].kind, OpKind::Delete(_));
        let op_del = matches!(op.kind, OpKind::Delete(_));
        let op_ins = matches!(op.kind, OpKind::Insert(_));
        if last_del && op_del {
            let last = d.ops.pop().unwrap();
            let merged = DeltaOperation::delete(last.len() + op.len());
            d.ops.push(merged);
            proof {
                assert(d@ =~= spec_append(s0, op@));
            }
        } else if last_del && op_ins {
            let dl = d.ops.pop().unwrap();
            proof {
                assert(ops_view(d.ops@) =~= s0.drop_last());
                lemma_wf_drop_last(s0);
                lemma_total_len_parts(s0.drop_last());
            }
            append_tail(&mut d.ops, op);
            proof {
                assert(dl@ == s0.last());
                assert(dl.attrs_wf());
            }
            d.ops.push(dl);
            proof {
                assert(d@ =~= spec_merge_tail(s0.drop_last(), op@).push(s0.last()));
            }
        } else {
            append_tail(&mut d.ops, op);
        }
        d
    }

    /// Whether two change lists hold the same operations with the same
    /// attribute maps.
    pub fn eq_delta(&self, other: &Delta) -> (r: bool)
        requires
            reps_wf(self.ops@),
            reps_wf(other.ops@),
        ensures
            r == (self@ == other@),
    {
        if self.ops.len() != other.ops.len() {
            proof {
                assert(self@.len() == self.ops@.len());
                assert(other@.len() == other.ops@.len());
            }
            return false;
        }
        let n = self.ops.len();
        let mut i: usize = 0;
        while i < n
            invariant
                n == self.ops@.len(),
                n == other.ops@.len(),
                i <= n,
                reps_wf(self.ops@),
                reps_wf(other.ops@),
                forall|j: int| 0 <= j < i ==> self@[j] == other@[j],
            decreases n - i,
        {
            proof {
                assert(self.ops@[i as int].attrs_wf());
                assert(other.ops@[i as int].attrs_wf());
            }
            if !self.ops[i].eq_op(&other.ops[i]) {
                proof {
                    assert(self@[i as int] != other@[i as int]);
                }
                return false;
            }
            i = i + 1;
        }
        proof {
            assert(self@ =~= other@);
        }
        true
    }

    /// Drops a trailing no-op retain, if one stands at the end.
    pub fn chop(self) -> (r: Self)
        requires
            self.wf(),
        ensures
            r@ == spec_chop(self@),
            r.wf(),
    {
        let n = self.ops.len();
        if n == 0 {
            return self;
        }
        let ghost s0 = self@;
        proof {
            assert(self.ops@[n - 1].attrs_wf());
            assert(s0[n - 1] == self.ops@[n - 1]@);
        }
        let last_plain_retain: bool = match &self.ops[n - 1].kind {
            OpKind::Retain(_) => self.ops[n - 1].attributes.is_empty(),
            _ => false,
        };
        if last_plain_retain {
            let mut d = self;
            d.ops.pop();
            proof {
                assert(d@ =~= s0.drop_last());
                lemma_wf_drop_last(s0);
            }
            d
        } else {
            self
        }
    }
}

impl Clone for Delta {
    fn clone(&self) -> (r: Self)
        ensures
            r@ == self@,
            reps_wf(self.ops@) ==> reps_wf(r.ops@),
    {
        let n = self.ops.len();
        let mut out: Vec<DeltaOperation> = Vec::new();
        let mut i: usize = 0;
        while i < n
            invariant
                n == self.ops@.len(),
                i <= n,
                out@.len() == i,
                forall|j: int| 0 <= j < i ==> (#[trigger] out@[j])@ == self.ops@[j]@,
                forall|j: int|
                    0 <= j < i ==> ((#[trigger] out@[j]).attrs_wf() <==> self.ops@[j].attrs_wf()),
            decreases n - i,
        {
            out.push(self.ops[i].clone());
            i = i + 1;
        }
        let r = Delta { ops: out };
        proof {
            assert(r@ =~= self@);
        }
        r
    }
}

impl From<Vec<DeltaOperation>> for Delta {
    /// Wraps a raw operation vector as it stands, without normalizing it.
    fn from(ops: Vec<DeltaOperation>) -> (r: Delta) {
        Delta { ops }
    }
}

impl vstd::std_specs::convert::FromSpecImpl<Vec<DeltaOperation>> for Delta {
    open spec fn obeys_from_spec() -> bool {
        true
    }

    open spec fn from_spec(ops: Vec<DeltaOperation>) -> Delta {
        Delta { ops }
    }
}


/// Concatenation of a change list and a document-like tail: the seam is
/// appended normally, the rest carried over as it stands.
pub open spec fn spec_concat(a: Seq<OpV>, b: Seq<OpV>) -> Seq<OpV> {
    if b.len() == 0 {
        a
    } else {
        spec_append(a, b[0]) + b.skip(1)
    }
}

/// Appending one operation can only make the final operation harder to
/// merge with what follows, never easier -- except for an insert slipped in
/// before a final delete, which this lemma leaves out.
proof fn lemma_append_last(a: Seq<OpV>, op: OpV, x: OpV)
    requires
        delta_wf(a),
        op_wf(op),
        !(a.len() > 0 && a.last().kind is Delete && op.kind is Insert),
        mergeable_pair(spec_append(a, op).last(), x),
    ensures
        mergeable_pair(op, x),
{
}

/// Concatenation at an insert-free seam keeps the canonical form.
proof fn lemma_concat_wf(a: Seq<OpV>, b: Seq<OpV>)
    requires
        delta_wf(a),
        delta_wf(b),
        total_len(a) + total_len(b) < usize::MAX as int,
        a.len() == 0 || b.len() == 0 || !(a.last().kind is Delete && b[0].kind is Insert),
    ensures
        delta_wf(spec_concat(a, b)),
{
    if b.len() > 0 {
        lemma_total_len_parts(a);
        lemma_total_len_parts(b);
        assert(op_wf(b[0]));
        lemma_total_first(b);
        lemma_suffix_total(b, 1);
        let r = spec_concat(a, b);
        let t = spec_append(a, b[0]);
        lemma_append_wf(a, b[0]);
        assert forall|i: int| 0 <= i < r.len() - 1 implies !#[trigger] mergeable_pair(
            r[i],
            r[i + 1],
        ) by {
            if i < t.len() - 1 {
                assert(r[i] == t[i]);
                assert(r[i + 1] == t[i + 1]);
                assert(!mergeable_pair(t[i], t[i + 1]));
            } else if i == t.len() - 1 {
                assert(r[i] == t.last());
                assert(r[i + 1] == b.skip(1)[0]);
                assert(b.skip(1)[0] == b[1]);
                assert(!mergeable_pair(b[0], b[1]));
                if mergeable_pair(t.last(), b[1]) {
                    lemma_append_last(a, b[0], b[1]);
                }
            } else {
                let j = i - t.len();
                assert(r[i] == b.skip(1)[j]);
                assert(r[i + 1] == b.skip(1)[j + 1]);
                assert(b.skip(1)[j] == b[j + 1]);
                assert(b.skip(1)[j + 1] == b[j + 2]);
                assert(!mergeable_pair(b[j + 1], b[j + 2]));
            }
        }
        assert forall|i: int| 0 <= i < r.len() implies op_wf(#[trigger] r[i]) by {
            if i < t.len() {
                assert(r[i] == t[i]);
            } else {
                assert(r[i] == b.skip(1)[i - t.len()]);
                assert(b.skip(1)[i - t.len()] == b[i - t.len() + 1]);
            }
        }
    }
}

impl Delta {
    /// Appends an insert of `value` under `attributes`; empty text is a
    /// no-op.
    pub fn insert(self, value: Content, attributes: Attributes) -> (r: Self)
        requires
            self.wf(),
            attributes.wf(),
            content_len(value@) < usize::MAX as int,
            total_len(self@) + content_len(value@) < usize::MAX as int,
        ensures
            r@ == if content_len(value@) == 0 {
                self@
            } else {
                spec_append(
                    self@,
                    (OpV { kind: OpKindV::Insert(value@), attributes: attributes@ }),
                )
            },
            r.wf(),
            total_len(r@) == total_len(self@) + content_len(value@),
    {
        let empty_text: bool = match &value {
            Content::Text(t) => t.len() == 0,
            Content::Embed(_) => false,
        };
        if empty_text {
            return self;
        }
        self.push(DeltaOperation::insert(value).attrs(attributes))
    }

    /// Appends a retain of `length` under `attributes`; zero is a no-op.
    pub fn retain(self, length: usize, attributes: Attributes) -> (r: Self)
        requires
            self.wf(),
            attributes.wf(),
            length < usize::MAX,
            total_len(self@) + length < usize::MAX as int,
        ensures
            r@ == if length == 0 {
                self@
            } else {
                spec_append(
                    self@,
                    (OpV { kind: OpKindV::Retain(length as int), attributes: attributes@ }),
                )
            },
            r.wf(),
            total_len(r@) == total_len(self@) + length,
    {
        if length == 0 {
            return self;
        }
        self.push(DeltaOperation::retain(length).attrs(attributes))
    }

    /// Appends a delete of `length`; zero is a no-op.
    pub fn delete(self, length: usize) -> (r: Self)
        requires
            self.wf(),
            length < usize::MAX,
            total_len(self@) + length < usize::MAX as int,
        ensures
            r@ == if length == 0 {
                self@
            } else {
                spec_append(
                    self@,
                    (OpV { kind: OpKindV::Delete(length as int), attributes: AttrMapV::empty() }),
                )
            },
            r.wf(),
            total_len(r@) == total_len(self@) + length,
    {
        if length == 0 {
            return self;
        }
        self.push(DeltaOperation::delete(length))
    }

    /// Returns a new Delta holding this delta's operations followed by
    /// another's, merging at the seam.
    pub fn concat(&self, other: &Delta) -> (r: Delta)
        requires
            self.wf(),
            other.wf(),
            total_len(self@) + total_len(other@) < usize::MAX as int,
        ensures
            r@ == spec_concat(self@, other@),
            (self@.len() == 0 || other@.len() == 0 || !(self@.last().kind is Delete
                && other@[0].kind is Insert)) ==> r.wf(),
    {
        let mut res = self.clone();
        if other.ops.len() == 0 {
            return res;
        }
        proof {
            lemma_total_len_parts(self@);
            lemma_total_len_parts(other@);
            assert(other.ops@[0].attrs_wf());
            assert(other@[0] == other.ops@[0]@);
            assert(op_wf(other@[0]));
            lemma_total_first(other@);
            lemma_suffix_total(other@, 1);
        }
        let first = other.ops[0].clone();
        res = res.push(first);
        let ghost t = spec_append(self@, other@[0]);
        let n = other.ops.len();
        let mut i: usize = 1;
        while i < n
            invariant
                n == other.ops@.len(),
                1 <= i <= n,
                reps_wf(other.ops@),
                reps_wf(res.ops@),
                forall|j: int| 0 <= j < n ==> other@[j] == (#[trigger] other.ops@[j])@,
                res@ == t + other@.subrange(1, i as int),
            decreases n - i,
        {
            let ghost pre = res@;
            res.ops.push(other.ops[i].clone());
            proof {
                assert(res@ =~= pre.push(other@[i as int]));
                assert(res@ =~= t + other@.subrange(1, i + 1));
            }
            i = i + 1;
        }
        proof {
            assert(other@.subrange(1, n as int) =~= other@.skip(1));
            assert(res@ == spec_concat(self@, other@));
            if self@.len() == 0 || !(self@.last().kind is Delete && other@[0].kind is Insert) {
                lemma_concat_wf(self@, other@);
            }
        }
        res
    }
}

/// The total length splits around the first operation.
pub proof fn lemma_total_first(s: Seq<OpV>)
    requires
        s.len() > 0,
    ensures
        total_len(s) == op_len(s[0]) + total_len(s.skip(1)),
    decreases s.len(),
{
    if s.len() == 1 {
        assert(s.skip(1) =~= Seq::<OpV>::empty());
        assert(s.drop_last() =~= Seq::<OpV>::empty());
    } else {
        let dl = s.drop_last();
        lemma_total_first(dl);
        assert(s.skip(1).drop_last() =~= dl.skip(1));
        assert(s.skip(1).last() == s.last());
        assert(dl[0] == s[0]);
    }
}

/// The total length of a suffix never exceeds the whole.
pub proof fn lemma_suffix_total(s: Seq<OpV>, k: int)
    requires
        ops_wf(s),
        0 <= k <= s.len(),
    ensures
        total_len(s.skip(k)) >= 0,
        total_len(s.skip(k)) <= total_len(s),
    decreases s.len(),
{
    if s.len() > 0 && k < s.len() {
        assert(ops_wf(s.drop_last()));
        lemma_suffix_total(s.drop_last(), k);
        assert(s.skip(k).drop_last() =~= s.drop_last().skip(k));
        assert(s.skip(k).len() > 0);
        assert(s.skip(k).last() == s.last());
        lemma_total_len_parts(s);
        assert(op_wf(s.last()));
    } else if k == s.len() {
        assert(s.skip(k) =~= Seq::empty());
        lemma_total_len_parts(s);
    }
}


/// The operations covering positions `start` to `end` of what the change
/// list addresses, walked off the front: skipped whole or in part before
/// `start`, collected up to `end`.
pub open spec fn spec_slice_rec(s: Seq<OpV>, pos: int, start: int, end: int) -> Seq<OpV>
    decreases s.len(), vstd::math::max(end - pos, 0),
{
    if s.len() == 0 || pos >= end {
        Seq::empty()
    } else if op_len(s[0]) < 1 {
        spec_slice_rec(s.skip(1), pos, start, end)
    } else if pos < start {
        let n = vstd::math::min(start - pos, op_len(s[0]));
        let s2 = if n == op_len(s[0]) {
            s.skip(1)
        } else {
            s.update(0, op_drop(s[0], n))
        };
        spec_slice_rec(s2, pos + n, start, end)
    } else {
        let n = vstd::math::min(end - pos, op_len(s[0]));
        let s2 = if n == op_len(s[0]) {
            s.skip(1)
        } else {
            s.update(0, op_drop(s[0], n))
        };
        seq![op_take(s[0], n)] + spec_slice_rec(s2, pos + n, start, end)
    }
}

/// Shortening an operation in front or in back changes neither its kind,
/// its attributes, nor whether it is a text insert, so what it can merge
/// with stays the same.
pub proof fn lemma_mergeable_preserved(x: OpV, y: OpV, n: int)
    ensures
        mergeable_pair(op_drop(x, n), y) == mergeable_pair(x, y),
        mergeable_pair(y, op_drop(x, n)) == mergeable_pair(y, x),
        mergeable_pair(op_take(x, n), y) == mergeable_pair(x, y),
        mergeable_pair(y, op_take(x, n)) == mergeable_pair(y, x),
{
}

/// The tail of a canonical stream is canonical.
proof fn lemma_normalized_skip1(s: Seq<OpV>)
    requires
        normalized(s),
        s.len() > 0,
    ensures
        normalized(s.skip(1)),
{
    assert forall|i: int| 0 <= i < s.skip(1).len() - 1 implies !#[trigger] mergeable_pair(
        s.skip(1)[i],
        s.skip(1)[i + 1],
    ) by {
        assert(s.skip(1)[i] == s[i + 1]);
        assert(s.skip(1)[i + 1] == s[i + 2]);
        assert(!mergeable_pair(s[i + 1], s[i + 1 + 1]));
    }
}

/// A canonical stream stays canonical when its head is partly consumed.
proof fn lemma_normalized_update_drop(s: Seq<OpV>, n: int)
    requires
        normalized(s),
        s.len() > 0,
    ensures
        normalized(s.update(0, op_drop(s[0], n))),
{
    let s2 = s.update(0, op_drop(s[0], n));
    assert forall|i: int| 0 <= i < s2.len() - 1 implies !#[trigger] mergeable_pair(
        s2[i],
        s2[i + 1],
    ) by {
        assert(!mergeable_pair(s[i], s[i + 1]));
        if i == 0 {
            lemma_mergeable_preserved(s[0], s[1], n);
            assert(s2[1] == s[1]);
        } else {
            assert(s2[i] == s[i]);
            assert(s2[i + 1] == s[i + 1]);
        }
    }
}

impl Delta {
    /// Returns a copy of the delta with the subset of operations covering
    /// positions `start` up to `end`.
    pub fn slice(&self, start: usize, end: usize) -> (r: Delta)
        requires
            self.wf(),
            total_len(self@) < usize::MAX as int,
        ensures
            r@ == spec_slice_rec(self@, 0, start as int, end as int),
            r.wf(),
    {
        proof {
            assert forall|i: int|
                0 <= i < self.ops@.len() implies (#[trigger] self.ops@[i]).attrs_wf() && op_wf(
                self.ops@[i]@,
            ) by {
                assert(self@[i] == self.ops@[i]@);
                assert(op_wf(self@[i]));
            }
            lemma_total_len_parts(self@);
        }
        let mut it = crate::iterator::DeltaIterator::new(self.ops.as_slice());
        let mut out: Vec<DeltaOperation> = Vec::new();
        let mut pos: usize = 0;
        let ghost goal = spec_slice_rec(self@, 0, start as int, end as int);
        proof {
            assert(ops_view(out@) =~= Seq::<OpV>::empty());
        }
        while pos < end && it.has_next()
            invariant
                it.wf(),
                reps_wf(out@),
                ops_wf(ops_view(out@)),
                normalized(it.rest()),
                normalized(ops_view(out@)),
                pos < start ==> ops_view(out@).len() == 0,
                (start <= pos < end && ops_view(out@).len() > 0 && it.rest().len() > 0)
                    ==> !mergeable_pair(ops_view(out@).last(), it.rest()[0]),
                pos + total_len(it.rest()) <= total_len(self@),
                total_len(it.rest()) >= 0,
                total_len(self@) < usize::MAX as int,
                goal == ops_view(out@) + spec_slice_rec(
                    it.rest(),
                    pos as int,
                    start as int,
                    end as int,
                ),
            decreases total_len(it.rest()),
        {
            let ghost ra = it.rest();
            let ghost out0 = ops_view(out@);
            proof {
                it.lemma_rest_wf();
                lemma_total_first(ra);
                lemma_suffix_total(ra, 1);
                assert(op_wf(ra[0]));
            }
            let plen = it.peek_len();
            if pos < start {
                let want = start - pos;
                let op = it.next(want);
                let consumed = if want < plen {
                    want
                } else {
                    plen
                };
                proof {
                    if consumed < plen {
                        crate::delta::lemma_update_drop_total(ra, consumed as int);
                        lemma_normalized_update_drop(ra, consumed as int);
                    } else {
                        lemma_normalized_skip1(ra);
                    }
                    assert(goal == ops_view(out@) + spec_slice_rec(
                        it.rest(),
                        pos + consumed,
                        start as int,
                        end as int,
                    ));
                }
                pos = pos + consumed;
            } else {
                let want = end - pos;
                let op = it.next(want);
                let consumed = if want < plen {
                    want
                } else {
                    plen
                };
                out.push(op);
                proof {
                    if consumed < plen {
                        crate::delta::lemma_update_drop_total(ra, consumed as int);
                        lemma_normalized_update_drop(ra, consumed as int);
                    } else {
                        lemma_normalized_skip1(ra);
                    }
                    assert(ops_view(out@) =~= out0.push(op@));
                    assert forall|i2: int| 0 <= i2 < ops_view(out@).len() - 1 implies
                        !#[trigger] mergeable_pair(ops_view(out@)[i2], ops_view(out@)[i2 + 1]) by {
                        if i2 < out0.len() - 1 {
                            assert(ops_view(out@)[i2] == out0[i2]);
                            assert(ops_view(out@)[i2 + 1] == out0[i2 + 1]);
                            assert(!mergeable_pair(out0[i2], out0[i2 + 1]));
                        } else {
                            assert(ops_view(out@)[i2] == out0.last());
                            assert(ops_view(out@)[i2 + 1] == op@);
                            lemma_mergeable_preserved(ra[0], out0.last(), consumed as int);
                        }
                    }
                    if consumed == plen {
                        crate::ops::lemma_op_take_full(ra[0]);
                        assert(op@ == ra[0]);
                        if it.rest().len() > 0 {
                            assert(!mergeable_pair(ra[0int], ra[0int + 1]));
                            assert(it.rest()[0] == ra[1]);
                        }
                    }
                    assert(ops_view(out@) + spec_slice_rec(
                        it.rest(),
                        pos + consumed,
                        start as int,
                        end as int,
                    ) =~= out0 + (seq![op@] + spec_slice_rec(
                        it.rest(),
                        pos + consumed,
                        start as int,
                        end as int,
                    )));
                    assert(goal == ops_view(out@) + spec_slice_rec(
                        it.rest(),
                        pos + consumed,
                        start as int,
                        end as int,
                    ));
                }
                pos = pos + consumed;
            }
        }
        proof {
            assert(spec_slice_rec(it.rest(), pos as int, start as int, end as int)
                =~= Seq::<OpV>::empty());
            assert(goal =~= ops_view(out@));
        }
        Delta { ops: out }
    }
}

/// A stream shortened in front by `n` positions loses exactly `n` of its
/// total length.
pub proof fn lemma_update_drop_total(s: Seq<OpV>, n: int)
    requires
        s.len() > 0,
        0 <= n < op_len(s[0]),
    ensures
        total_len(s.update(0, op_drop(s[0], n))) == total_len(s) - n,
{
    let s2 = s.update(0, op_drop(s[0], n));
    lemma_total_first(s);
    lemma_total_first(s2);
    crate::ops::lemma_op_drop_len(s[0], n);
    assert(s2.skip(1) =~= s.skip(1));
}

} // verus!
