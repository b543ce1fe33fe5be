//! Laws of the format, proved once and for all: the empty change is an
//! identity of compose, the normalizing append coalesces split content the
//! same way as appending it whole, and diffing a document against itself
//! yields the empty change.

use vstd::prelude::*;
use crate::attributes::AttrMapV;
use crate::compose::{spec_compose, spec_compose_acc, compose_keep_a};
use crate::delta::{
    delta_wf, is_text_insert, merged_text, mergeable_pair, normalized, spec_append,
    spec_chop, spec_merge_tail, text_of,
};
use crate::diff::{
    spec_append_all, spec_apply_hunks, spec_delta_diff, spec_diff_hunks, spec_flatten, spec_lcp,
    spec_lcs, spec_split, unit_match, HunkV,
};
use crate::ops::{op_len, ContentV, OpKindV, OpV};
use crate::scalar::ScalarV;

verus! {

/// No value of the map is the clear-formatting marker.
pub open spec fn attrs_null_free(m: AttrMapV) -> bool {
    forall|k: Seq<char>| m.contains_key(k) ==> m[k] != ScalarV::Null
}

/// No insert of the change carries a clear-formatting marker: composing
/// with the empty change resolves such markers away, so the identity law
/// asks for their absence.
pub open spec fn inserts_null_free(s: Seq<OpV>) -> bool {
    forall|i: int|
        0 <= i < s.len() && (#[trigger] s[i]).kind is Insert ==> attrs_null_free(s[i].attributes)
}

/// Feeding pairwise unmergeable operations through the normalizing append
/// reproduces them as they stand.
proof fn lemma_append_all_plain(acc: Seq<OpV>, s: Seq<OpV>)
    requires
        normalized(s),
        acc.len() == 0 || s.len() == 0 || !mergeable_pair(acc.last(), s[0]),
    ensures
        spec_append_all(acc, s) == acc + s,
    decreases s.len(),
{
    if s.len() == 0 {
        assert(acc + s =~= acc);
    } else {
        assert(!(s.len() > 1) || !mergeable_pair(s[0], s[1])) by {
            if s.len() > 1 {
                assert(!mergeable_pair(s[0int], s[0int + 1]));
            }
        }
        assert(spec_append(acc, s[0]) == acc.push(s[0]));
        assert(normalized(s.skip(1))) by {
            assert forall|i: int|
                0 <= i < s.skip(1).len() - 1 implies !#[trigger] mergeable_pair(
                s.skip(1)[i],
                s.skip(1)[i + 1],
            ) by {
                assert(s.skip(1)[i] == s[i + 1]);
                assert(s.skip(1)[i + 1] == s[i + 2]);
                assert(!mergeable_pair(s[i + 1], s[i + 1 + 1]));
            }
        }
        if s.len() > 1 {
            assert(s.skip(1)[0] == s[1]);
        }
        lemma_append_all_plain(acc.push(s[0]), s.skip(1));
        assert(acc.push(s[0]) + s.skip(1) =~= acc + s);
    }
}

/// Composing the empty change with `b` walks `b` through the append alone.
proof fn lemma_compose_empty_left(acc: Seq<OpV>, b: Seq<OpV>)
    ensures
        spec_compose_acc(acc, Seq::empty(), b) == spec_append_all(acc, b),
    decreases b.len(),
{
    if b.len() > 0 {
        lemma_compose_empty_left(spec_append(acc, b[0]), b.skip(1));
    }
}

/// Composing `a` with the empty change keeps each operation: a delete
/// stands as it is, and without clear-formatting markers on inserts so
/// does everything else.
proof fn lemma_compose_empty_right(acc: Seq<OpV>, a: Seq<OpV>)
    requires
        inserts_null_free(a),
    ensures
        spec_compose_acc(acc, a, Seq::empty()) == spec_append_all(acc, a),
    decreases a.len(),
{
    if a.len() > 0 {
        if a[0].kind is Delete {
            assert(inserts_null_free(a.skip(1))) by {
                assert forall|i: int|
                    0 <= i < a.skip(1).len() && (#[trigger] a.skip(1)[i]).kind is Insert implies
                    attrs_null_free(a.skip(1)[i].attributes) by {
                    assert(a.skip(1)[i] == a[i + 1]);
                }
            }
            lemma_compose_empty_right(spec_append(acc, a[0]), a.skip(1));
        } else {
            assert(compose_keep_a(a[0]) == a[0]) by {
                if a[0].kind is Retain {
                    assert(a[0].attributes.union_prefer_right(AttrMapV::empty())
                        =~= a[0].attributes);
                } else {
                    assert(a[0].kind is Insert);
                    assert(attrs_null_free(a[0].attributes));
                    assert(crate::attributes::spec_attrs_compose(
                        a[0].attributes,
                        AttrMapV::empty(),
                        false,
                    ) =~= a[0].attributes);
                }
            }
            assert(inserts_null_free(a.skip(1))) by {
                assert forall|i: int|
                    0 <= i < a.skip(1).len() && (#[trigger] a.skip(1)[i]).kind is Insert implies
                    attrs_null_free(a.skip(1)[i].attributes) by {
                    assert(a.skip(1)[i] == a[i + 1]);
                }
            }
            lemma_compose_empty_right(spec_append(acc, a[0]), a.skip(1));
        }
    }
}

/// Identity: composing the empty change with `a`, on either side, gives
/// `a` back after the trailing chop. On the left this holds of every
/// canonical change; on the right it asks that no insert carry a
/// clear-formatting marker, which composing onto fresh content resolves
/// away.
pub proof fn lemma_compose_identity(a: Seq<OpV>)
    requires
        delta_wf(a),
    ensures
        spec_compose(Seq::empty(), a) == spec_chop(a),
        inserts_null_free(a) ==> spec_compose(a, Seq::empty()) == spec_chop(a),
{
    lemma_compose_empty_left(Seq::empty(), a);
    lemma_append_all_plain(Seq::empty(), a);
    assert(Seq::empty() + a =~= a);
    if inserts_null_free(a) {
        lemma_compose_empty_right(Seq::empty(), a);
    }
}

/// Appending a text insert split in two, under one attribute map, lands on
/// the same canonical list as appending the whole run at once.
pub proof fn lemma_append_text_coalesce(l: Seq<OpV>, a: Seq<u16>, b: Seq<u16>, t: AttrMapV)
    requires
        delta_wf(l),
    ensures
        spec_append(
            spec_append(l, (OpV { kind: OpKindV::Insert(ContentV::Text(a)), attributes: t })),
            (OpV { kind: OpKindV::Insert(ContentV::Text(b)), attributes: t }),
        ) == spec_append(l, (OpV { kind: OpKindV::Insert(ContentV::Text(a + b)), attributes: t })),
{
    let ins_a = OpV { kind: OpKindV::Insert(ContentV::Text(a)), attributes: t };
    let ins_b = OpV { kind: OpKindV::Insert(ContentV::Text(b)), attributes: t };
    let ins_ab = OpV { kind: OpKindV::Insert(ContentV::Text(a + b)), attributes: t };
    if l.len() > 0 && l.last().kind is Delete {
        let front = l.drop_last();
        let d = l.last();
        let t1 = spec_merge_tail(front, ins_a);
        assert(spec_append(l, ins_a) == t1.push(d));
        assert(t1.push(d).drop_last() =~= t1);
        assert(t1.push(d).last() == d);
        assert(spec_append(spec_append(l, ins_a), ins_b) == spec_merge_tail(t1, ins_b).push(d));
        lemma_merge_tail_text(front, a, b, t);
        assert(spec_append(l, ins_ab) == spec_merge_tail(front, ins_ab).push(d));
    } else {
        assert(spec_append(l, ins_a) == spec_merge_tail(l, ins_a));
        let t1 = spec_merge_tail(l, ins_a);
        assert(t1.len() > 0 && is_text_insert(t1.last()));
        assert(spec_append(t1, ins_b) == spec_merge_tail(t1, ins_b));
        lemma_merge_tail_text(l, a, b, t);
    }
}

/// The heart of text coalescing, for a list not ending in a delete.
proof fn lemma_merge_tail_text(l: Seq<OpV>, a: Seq<u16>, b: Seq<u16>, t: AttrMapV)
    ensures
        spec_merge_tail(
            spec_merge_tail(l, (OpV { kind: OpKindV::Insert(ContentV::Text(a)), attributes: t })),
            (OpV { kind: OpKindV::Insert(ContentV::Text(b)), attributes: t }),
        ) == spec_merge_tail(
            l,
            (OpV { kind: OpKindV::Insert(ContentV::Text(a + b)), attributes: t }),
        ),
{
    let ins_a = OpV { kind: OpKindV::Insert(ContentV::Text(a)), attributes: t };
    let ins_b = OpV { kind: OpKindV::Insert(ContentV::Text(b)), attributes: t };
    let ins_ab = OpV { kind: OpKindV::Insert(ContentV::Text(a + b)), attributes: t };
    if l.len() > 0 && is_text_insert(l.last()) && l.last().attributes == t {
        let m1 = merged_text(l.last(), ins_a);
        assert(spec_merge_tail(l, ins_a) == l.drop_last().push(m1));
        assert(l.drop_last().push(m1).last() == m1);
        assert(l.drop_last().push(m1).drop_last() =~= l.drop_last());
        assert(is_text_insert(m1) && m1.attributes == t);
        let m2 = merged_text(m1, ins_b);
        assert(spec_merge_tail(l.drop_last().push(m1), ins_b) == l.drop_last().push(m2));
        assert(text_of(m2) =~= text_of(l.last()) + (a + b));
        assert(m2 == merged_text(l.last(), ins_ab));
    } else {
        assert(spec_merge_tail(l, ins_a) == l.push(ins_a));
        assert(l.push(ins_a).last() == ins_a);
        assert(l.push(ins_a).drop_last() =~= l);
        let m2 = merged_text(ins_a, ins_b);
        assert(spec_merge_tail(l.push(ins_a), ins_b) == l.push(m2));
        assert(text_of(m2) =~= a + b);
        assert(m2 == ins_ab);
        assert(spec_merge_tail(l, ins_ab) == l.push(ins_ab));
    }
}

/// Appending a retain split in two, under one attribute map, lands on the
/// same canonical list as appending the whole length at once.
pub proof fn lemma_append_retain_coalesce(l: Seq<OpV>, m: int, n: int, t: AttrMapV)
    requires
        delta_wf(l),
    ensures
        spec_append(
            spec_append(l, (OpV { kind: OpKindV::Retain(m), attributes: t })),
            (OpV { kind: OpKindV::Retain(n), attributes: t }),
        ) == spec_append(l, (OpV { kind: OpKindV::Retain(m + n), attributes: t })),
{
    let ret_m = OpV { kind: OpKindV::Retain(m), attributes: t };
    let ret_n = OpV { kind: OpKindV::Retain(n), attributes: t };
    let ret_mn = OpV { kind: OpKindV::Retain(m + n), attributes: t };
    if l.len() > 0 && l.last().kind is Retain && l.last().attributes == t {
        let merged = OpV { kind: OpKindV::Retain(op_len(l.last()) + m), attributes: t };
        assert(spec_append(l, ret_m) == l.drop_last().push(merged));
        assert(l.drop_last().push(merged).last() == merged);
        assert(l.drop_last().push(merged).drop_last() =~= l.drop_last());
    } else {
        assert(spec_append(l, ret_m) == l.push(ret_m));
        assert(l.push(ret_m).last() == ret_m);
        assert(l.push(ret_m).drop_last() =~= l);
    }
}

/// Appending a delete split in two lands on the same canonical list as
/// appending the whole length at once.
pub proof fn lemma_append_delete_coalesce(l: Seq<OpV>, m: int, n: int)
    requires
        delta_wf(l),
    ensures
        spec_append(
            spec_append(
                l,
                (OpV { kind: OpKindV::Delete(m), attributes: AttrMapV::empty() }),
            ),
            (OpV { kind: OpKindV::Delete(n), attributes: AttrMapV::empty() }),
        ) == spec_append(l, (OpV { kind: OpKindV::Delete(m + n), attributes: AttrMapV::empty() })),
{
    let del_m = OpV { kind: OpKindV::Delete(m), attributes: AttrMapV::empty() };
    let del_n = OpV { kind: OpKindV::Delete(n), attributes: AttrMapV::empty() };
    let del_mn = OpV { kind: OpKindV::Delete(m + n), attributes: AttrMapV::empty() };
    if l.len() > 0 && l.last().kind is Delete {
        let merged = OpV {
            kind: OpKindV::Delete(op_len(l.last()) + m),
            attributes: AttrMapV::empty(),
        };
        assert(spec_append(l, del_m) == l.drop_last().push(merged));
        assert(l.drop_last().push(merged).last() == merged);
        assert(l.drop_last().push(merged).drop_last() =~= l.drop_last());
    } else {
        assert(spec_append(l, del_m) == l.push(del_m));
        assert(l.push(del_m).last() == del_m);
        assert(l.push(del_m).drop_last() =~= l);
    }
}

/// A sequence shares its full length as common prefix with itself.
proof fn lemma_lcp_refl(u: Seq<crate::diff::FlatUnitV>)
    ensures
        spec_lcp(u, u) == u.len(),
    decreases u.len(),
{
    if u.len() > 0 {
        assert(unit_match(u[0], u[0]));
        lemma_lcp_refl(u.skip(1));
    }
}

/// A sequence shares its full length as common suffix with itself.
proof fn lemma_lcs_refl(u: Seq<crate::diff::FlatUnitV>)
    ensures
        spec_lcs(u, u) == u.len(),
    decreases u.len(),
{
    if u.len() > 0 {
        assert(unit_match(u.last(), u.last()));
        lemma_lcs_refl(u.drop_last());
    }
}

/// Diff of a document against itself: the whole document is the common
/// prefix (or splits into two kept runs around a suggested index), the
/// kept runs become retains that merge, and the trailing chop removes
/// them -- the empty change remains, whatever the suggested index.
pub proof fn lemma_diff_self_empty(a: Seq<OpV>, hint: Option<int>)
    ensures
        spec_delta_diff(a, a, hint) == Seq::<OpV>::empty(),
{
    let u = spec_flatten(a);
    let len = u.len() as int;
    lemma_lcp_refl(u);
    assert(spec_lcp(u, u) == len);
    assert(u.skip(len) =~= Seq::<crate::diff::FlatUnitV>::empty());
    assert(spec_lcs(u.skip(len), u.skip(len)) == 0);
    let ps = spec_split(u, u, hint);
    let p = ps.0;
    let s = ps.1;
    match hint {
        Some(i) => {
            if 0 <= i < len {
                lemma_lcs_refl(u.skip(i));
                assert(spec_lcs(u.skip(i), u.skip(i)) == u.skip(i).len());
            }
        },
        None => {},
    }
    assert(p + s == len && 0 <= p && 0 <= s);
    let hs = spec_diff_hunks(u, u, hint);
    let ret_p = OpV { kind: OpKindV::Retain(p), attributes: AttrMapV::empty() };
    let ret_s = OpV { kind: OpKindV::Retain(s), attributes: AttrMapV::empty() };
    let ret_len = OpV { kind: OpKindV::Retain(len), attributes: AttrMapV::empty() };
    if len == 0 {
        assert(hs =~= Seq::<HunkV>::empty());
        assert(spec_apply_hunks(Seq::empty(), hs, u) == Seq::<OpV>::empty());
        assert(spec_chop(Seq::<OpV>::empty()) == Seq::<OpV>::empty());
    } else if p > 0 && s > 0 {
        assert(hs =~= seq![HunkV::Equal(p), HunkV::Equal(s)]);
        lemma_apply_two_retains(p, s, u);
        assert(spec_chop(seq![ret_len]) =~= Seq::<OpV>::empty()) by {
            assert(seq![ret_len].drop_last() =~= Seq::<OpV>::empty());
        }
    } else {
        // one kept run covers the document
        assert(hs =~= seq![HunkV::Equal(len)]);
        lemma_apply_one_retain(len, u);
        assert(spec_chop(seq![ret_len]) =~= Seq::<OpV>::empty()) by {
            assert(seq![ret_len].drop_last() =~= Seq::<OpV>::empty());
        }
    }
}

/// One kept run maps to one plain retain.
proof fn lemma_apply_one_retain(n: int, u: Seq<crate::diff::FlatUnitV>)
    ensures
        spec_apply_hunks(Seq::empty(), seq![HunkV::Equal(n)], u) == seq![
            OpV { kind: OpKindV::Retain(n), attributes: AttrMapV::empty() },
        ],
{
    let ret_n = OpV { kind: OpKindV::Retain(n), attributes: AttrMapV::empty() };
    let hs = seq![HunkV::Equal(n)];
    reveal_with_fuel(spec_apply_hunks, 3);
    assert(hs[0] == HunkV::Equal(n));
    assert(hs.skip(1) =~= Seq::<HunkV>::empty());
    assert(crate::diff::ops_of_hunk(hs[0], u) =~= seq![ret_n]);
    lemma_append_all_retain(Seq::empty(), n);
    assert(spec_append(Seq::empty(), ret_n) == Seq::<OpV>::empty().push(ret_n));
    assert(Seq::<OpV>::empty().push(ret_n) =~= seq![ret_n]);
    assert(spec_append_all(Seq::empty(), seq![ret_n]) == seq![ret_n]);
    assert(spec_apply_hunks(Seq::empty(), hs, u) == spec_apply_hunks(
        seq![ret_n],
        Seq::<HunkV>::empty(),
        u,
    ));
    assert(spec_apply_hunks(seq![ret_n], Seq::<HunkV>::empty(), u) == seq![ret_n]);
}

/// Two kept runs map to two plain retains, which the append merges into
/// one.
proof fn lemma_apply_two_retains(p: int, s: int, u: Seq<crate::diff::FlatUnitV>)
    ensures
        spec_apply_hunks(Seq::empty(), seq![HunkV::Equal(p), HunkV::Equal(s)], u) == seq![
            OpV { kind: OpKindV::Retain(p + s), attributes: AttrMapV::empty() },
        ],
{
    let ret_p = OpV { kind: OpKindV::Retain(p), attributes: AttrMapV::empty() };
    let ret_s = OpV { kind: OpKindV::Retain(s), attributes: AttrMapV::empty() };
    let ret_ps = OpV { kind: OpKindV::Retain(p + s), attributes: AttrMapV::empty() };
    let hs = seq![HunkV::Equal(p), HunkV::Equal(s)];
    reveal_with_fuel(spec_apply_hunks, 4);
    assert(hs[0] == HunkV::Equal(p));
    assert(hs.skip(1) =~= seq![HunkV::Equal(s)]);
    assert(crate::diff::ops_of_hunk(hs[0], u) =~= seq![ret_p]);
    lemma_append_all_retain(Seq::empty(), p);
    assert(spec_append(Seq::empty(), ret_p) == Seq::<OpV>::empty().push(ret_p));
    let one = Seq::<OpV>::empty().push(ret_p);
    assert(one =~= seq![ret_p]);
    assert(spec_append_all(Seq::empty(), seq![ret_p]) == one);
    assert(spec_apply_hunks(Seq::empty(), hs, u) == spec_apply_hunks(
        one,
        seq![HunkV::Equal(s)],
        u,
    ));
    assert(crate::diff::ops_of_hunk(HunkV::Equal(s), u) =~= seq![ret_s]);
    lemma_append_all_retain(one, s);
    assert(one.last() == ret_p);
    assert(spec_append(one, ret_s) == one.drop_last().push(ret_ps));
    assert(one.drop_last().push(ret_ps) =~= seq![ret_ps]);
    assert(spec_append_all(one, seq![ret_s]) == seq![ret_ps]);
    assert(seq![HunkV::Equal(s)].skip(1) =~= Seq::<HunkV>::empty());
    assert(spec_apply_hunks(one, seq![HunkV::Equal(s)], u) == spec_apply_hunks(
        seq![ret_ps],
        Seq::<HunkV>::empty(),
        u,
    ));
    assert(spec_apply_hunks(seq![ret_ps], Seq::<HunkV>::empty(), u) == seq![ret_ps]);
}

/// A kept run's single retain walks through the append machinery.
proof fn lemma_append_all_retain(acc: Seq<OpV>, n: int)
    ensures
        spec_append_all(
            acc,
            seq![OpV { kind: OpKindV::Retain(n), attributes: AttrMapV::empty() }],
        ) == spec_append(acc, (OpV { kind: OpKindV::Retain(n), attributes: AttrMapV::empty() })),
{
    let ret_n = OpV { kind: OpKindV::Retain(n), attributes: AttrMapV::empty() };
    reveal_with_fuel(spec_append_all, 2);
    assert(seq![ret_n].skip(1) =~= Seq::<OpV>::empty());
    assert(seq![ret_n][0] == ret_n);
}

} // verus!
