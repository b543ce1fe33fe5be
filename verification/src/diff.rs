//! Diff: derive the change turning one document into another.
//!
//! A document (an insert-only change list) is flattened to a sequence of
//! diff units: one unit per UTF-16 code unit of text, and one atomic unit
//! per embed carrying the embed's value, so that a hunk can never split an
//! embed and two embeds compare equal exactly when their values are equal.
//! The script keeps the longest common prefix and suffix and solves the
//! middle by minimal edit distance, so its inserted plus deleted length is
//! the two documents' combined length less twice their longest common
//! subsequence; a suggested index shortens the kept prefix to the caller's
//! offset, which the minimal middle absorbs at no cost. Hunks are mapped
//! back to operations -- the inserted content taken from the target
//! document, embeds restored from their units -- and appended through the
//! normalizing append, so the result is canonical.

use vstd::prelude::*;
use crate::attributes::AttrMapV;
use crate::delta::{spec_append, spec_chop, total_len, Delta};
use crate::ops::{op_len, op_wf, Content, ContentV, DeltaOperation, OpKind, OpKindV, OpV};
use crate::scalar::{Scalar, ScalarV};

verus! {

/// The error of asking for a diff of something that is not a document.
#[derive(Debug, Clone, Copy, PartialEq, Eq, Structural)]
pub enum DiffError {
    NotADocument,
}

/// Mathematical shape of a diff unit.
pub ghost enum FlatUnitV {
    Unit(u16),
    Obj(ScalarV),
}

/// One position of a flattened document: a text code unit, or the
/// placeholder for one whole embed.
pub enum FlatUnit {
    Unit(u16),
    Obj(Scalar),
}

impl View for FlatUnit {
    type V = FlatUnitV;

    open spec fn view(&self) -> FlatUnitV {
        match self {
            FlatUnit::Unit(u) => FlatUnitV::Unit(*u),
            FlatUnit::Obj(v) => FlatUnitV::Obj(v@),
        }
    }
}

/// The mathematical shape of a flattened document.
pub open spec fn units_view(s: Seq<FlatUnit>) -> Seq<FlatUnitV> {
    s.map_values(|u: FlatUnit| u@)
}

/// Whether two diff units compare equal: text units by code unit, embeds
/// by their whole value, so a changed embed is rewritten, never retained.
pub open spec fn unit_match(x: FlatUnitV, y: FlatUnitV) -> bool {
    x == y
}

/// Whether every operation is an insert.
pub open spec fn is_document(s: Seq<OpV>) -> bool {
    forall|i: int| 0 <= i < s.len() ==> (#[trigger] s[i]).kind is Insert
}

/// The units one operation contributes to the flattened document.
pub open spec fn units_of_op(op: OpV) -> Seq<FlatUnitV> {
    match op.kind {
        OpKindV::Insert(ContentV::Text(t)) => t.map_values(|u: u16| FlatUnitV::Unit(u)),
        OpKindV::Insert(ContentV::Embed(v)) => seq![FlatUnitV::Obj(v)],
        _ => Seq::empty(),
    }
}

/// A document flattened to its units, in order.
pub open spec fn spec_flatten(s: Seq<OpV>) -> Seq<FlatUnitV>
    decreases s.len(),
{
    if s.len() == 0 {
        Seq::empty()
    } else {
        spec_flatten(s.drop_last()) + units_of_op(s.last())
    }
}

/// A document's flattened form is exactly as long as the document.
pub proof fn lemma_flatten_len(s: Seq<OpV>)
    requires
        is_document(s),
    ensures
        spec_flatten(s).len() == total_len(s),
    decreases s.len(),
{
    if s.len() > 0 {
        assert(is_document(s.drop_last()));
        lemma_flatten_len(s.drop_last());
        assert(s[s.len() - 1].kind is Insert);
    }
}

/// The longest common prefix of two unit sequences, unit by unit.
pub open spec fn spec_lcp(a: Seq<FlatUnitV>, b: Seq<FlatUnitV>) -> int
    decreases a.len(),
{
    if a.len() == 0 || b.len() == 0 || !unit_match(a[0], b[0]) {
        0
    } else {
        1 + spec_lcp(a.skip(1), b.skip(1))
    }
}

/// The longest common suffix of two unit sequences.
pub open spec fn spec_lcs(a: Seq<FlatUnitV>, b: Seq<FlatUnitV>) -> int
    decreases a.len(),
{
    if a.len() == 0 || b.len() == 0 || !unit_match(a.last(), b.last()) {
        0
    } else {
        1 + spec_lcs(a.drop_last(), b.drop_last())
    }
}

/// A common prefix is never longer than either sequence.
pub proof fn lemma_lcp_le(a: Seq<FlatUnitV>, b: Seq<FlatUnitV>)
    ensures
        0 <= spec_lcp(a, b) <= a.len(),
        spec_lcp(a, b) <= b.len(),
    decreases a.len(),
{
    if !(a.len() == 0 || b.len() == 0 || !unit_match(a[0], b[0])) {
        lemma_lcp_le(a.skip(1), b.skip(1));
    }
}

/// A common suffix is never longer than either sequence.
pub proof fn lemma_lcs_le(a: Seq<FlatUnitV>, b: Seq<FlatUnitV>)
    ensures
        0 <= spec_lcs(a, b) <= a.len(),
        spec_lcs(a, b) <= b.len(),
    decreases a.len(),
{
    if !(a.len() == 0 || b.len() == 0 || !unit_match(a.last(), b.last())) {
        lemma_lcs_le(a.drop_last(), b.drop_last());
    }
}

/// Mathematical shape of an edit-script hunk.
pub ghost enum HunkV {
    Equal(int),
    Delete(int),
    Insert(int, int),
}

/// One hunk of the edit script between two flattened documents: keep a run,
/// remove a run of the source, or insert the target's units of a range.
pub enum Hunk {
    Equal(usize),
    Delete(usize),
    Insert(usize, usize),
}

impl View for Hunk {
    type V = HunkV;

    open spec fn view(&self) -> HunkV {
        match self {
            Hunk::Equal(n) => HunkV::Equal(*n as int),
            Hunk::Delete(n) => HunkV::Delete(*n as int),
            Hunk::Insert(i, j) => HunkV::Insert(*i as int, *j as int),
        }
    }
}

/// The mathematical shape of an edit script.
pub open spec fn hunks_view(s: Seq<Hunk>) -> Seq<HunkV> {
    s.map_values(|h: Hunk| h@)
}

/// The mathematical shape of a suggested index.
pub open spec fn hint_view(h: Option<usize>) -> Option<int> {
    match h {
        Some(i) => Some(i as int),
        None => None,
    }
}

/// Where the script splits: the kept prefix and suffix lengths. The full
/// common prefix is the canonical split; a suggested index shorter than it
/// is taken instead, placing the first differing hunk at the caller's
/// offset -- the minimal middle phase recovers whatever the shorter kept
/// prefix leaves over, so the script stays minimal either way.
pub open spec fn spec_split(a: Seq<FlatUnitV>, b: Seq<FlatUnitV>, hint: Option<int>) -> (int, int) {
    let p0 = spec_lcp(a, b);
    let p = match hint {
        Some(i) => if 0 <= i < p0 {
            i
        } else {
            p0
        },
        None => p0,
    };
    (p, spec_lcs(a.skip(p), b.skip(p)))
}

/// The edit script between two flattened documents: keep the split prefix,
/// run the minimal edit script over the middle windows, keep the split
/// suffix.
pub open spec fn spec_diff_hunks(
    a: Seq<FlatUnitV>,
    b: Seq<FlatUnitV>,
    hint: Option<int>,
) -> Seq<HunkV> {
    let ps = spec_split(a, b, hint);
    let p = ps.0;
    let s = ps.1;
    (if p > 0 {
        seq![HunkV::Equal(p)]
    } else {
        Seq::empty()
    }) + spec_script(a, b, p, a.len() - s, p, b.len() - s) + (if s > 0 {
        seq![HunkV::Equal(s)]
    } else {
        Seq::empty()
    })
}

/// Compares two diff units.
fn units_match(x: &FlatUnit, y: &FlatUnit) -> (r: bool)
    ensures
        r == unit_match(x@, y@),
{
    match (x, y) {
        (FlatUnit::Unit(u), FlatUnit::Unit(v)) => u == v,
        (FlatUnit::Obj(a), FlatUnit::Obj(b)) => a.eq_scalar(b),
        _ => false,
    }
}

/// The length of the longest common prefix of two unit vectors.
fn common_prefix(a: &Vec<FlatUnit>, b: &Vec<FlatUnit>) -> (r: usize)
    ensures
        r == spec_lcp(units_view(a@), units_view(b@)),
{
    let ghost av = units_view(a@);
    let ghost bv = units_view(b@);
    let mut i: usize = 0;
    proof {
        assert(av.skip(0) =~= av);
        assert(bv.skip(0) =~= bv);
    }
    while i < a.len() && i < b.len() && units_match(&a[i], &b[i])
        invariant
            av == units_view(a@),
            bv == units_view(b@),
            i <= av.len(),
            i <= bv.len(),
            spec_lcp(av, bv) == i + spec_lcp(av.skip(i as int), bv.skip(i as int)),
        decreases a@.len() - i,
    {
        proof {
            assert(av.skip(i as int)[0] == av[i as int]);
            assert(bv.skip(i as int)[0] == bv[i as int]);
            assert(av.skip(i as int).skip(1) =~= av.skip(i + 1));
            assert(bv.skip(i as int).skip(1) =~= bv.skip(i + 1));
        }
        i = i + 1;
    }
    proof {
        if i < av.len() && i < bv.len() {
            assert(av.skip(i as int)[0] == av[i as int]);
            assert(bv.skip(i as int)[0] == bv[i as int]);
        }
        assert(spec_lcp(av.skip(i as int), bv.skip(i as int)) == 0);
    }
    i
}

/// The length of the longest common suffix of what stands after position
/// `p` in each unit vector.
fn common_suffix_from(a: &Vec<FlatUnit>, b: &Vec<FlatUnit>, p: usize) -> (r: usize)
    requires
        p <= a@.len(),
        p <= b@.len(),
    ensures
        r == spec_lcs(units_view(a@).skip(p as int), units_view(b@).skip(p as int)),
{
    let ghost av = units_view(a@).skip(p as int);
    let ghost bv = units_view(b@).skip(p as int);
    let la = a.len() - p;
    let lb = b.len() - p;
    let mut k: usize = 0;
    proof {
        assert(av.len() == la);
        assert(bv.len() == lb);
        assert(av.take(la as int) =~= av);
        assert(bv.take(lb as int) =~= bv);
    }
    while k < la && k < lb && units_match(&a[a.len() - 1 - k], &b[b.len() - 1 - k])
        invariant
            av == units_view(a@).skip(p as int),
            bv == units_view(b@).skip(p as int),
            av.len() == la,
            bv.len() == lb,
            la == a@.len() - p,
            lb == b@.len() - p,
            p <= a@.len(),
            p <= b@.len(),
            k <= la,
            k <= lb,
            spec_lcs(av, bv) == k + spec_lcs(av.take(la - k), bv.take(lb - k)),
        decreases la - k,
    {
        proof {
            let at = av.take(la - k);
            let bt = bv.take(lb - k);
            assert(at.last() == av[la - k - 1]);
            assert(av[la - k - 1] == units_view(a@)[a@.len() - 1 - k]);
            assert(bt.last() == bv[lb - k - 1]);
            assert(bv[lb - k - 1] == units_view(b@)[b@.len() - 1 - k]);
            assert(at.drop_last() =~= av.take(la - (k + 1)));
            assert(bt.drop_last() =~= bv.take(lb - (k + 1)));
        }
        k = k + 1;
    }
    proof {
        let at = av.take(la - k);
        let bt = bv.take(lb - k);
        if k < la && k < lb {
            assert(at.last() == av[la - k - 1]);
            assert(av[la - k - 1] == units_view(a@)[a@.len() - 1 - k]);
            assert(bt.last() == bv[lb - k - 1]);
            assert(bv[lb - k - 1] == units_view(b@)[b@.len() - 1 - k]);
        }
        assert(spec_lcs(at, bt) == 0);
    }
    k
}

/// The minimal insert-plus-delete cost of turning `a[i..ae]` into
/// `b[j..be]`.
fn edit_cost(a: &Vec<FlatUnit>, b: &Vec<FlatUnit>, i: usize, ae: usize, j: usize, be: usize) -> (r:
    usize)
    requires
        i <= ae <= a@.len(),
        j <= be <= b@.len(),
        a@.len() + b@.len() < usize::MAX as int,
    ensures
        r == spec_edit_cost(units_view(a@), units_view(b@), i as int, ae as int, j as int, be as int),
    decreases (ae - i) + (be - j),
{
    let ghost av = units_view(a@);
    let ghost bv = units_view(b@);
    proof {
        lemma_edit_cost_le(av, bv, i as int, ae as int, j as int, be as int);
    }
    if i >= ae && j >= be {
        0
    } else if i >= ae {
        be - j
    } else if j >= be {
        ae - i
    } else if units_match(&a[i], &b[j]) {
        edit_cost(a, b, i + 1, ae, j + 1, be)
    } else {
        proof {
            lemma_edit_cost_le(av, bv, i + 1, ae as int, j as int, be as int);
            lemma_edit_cost_le(av, bv, i as int, ae as int, j + 1, be as int);
        }
        let del = edit_cost(a, b, i + 1, ae, j, be);
        let ins = edit_cost(a, b, i, ae, j + 1, be);
        if del <= ins {
            1 + del
        } else {
            1 + ins
        }
    }
}

/// Emits the minimal edit script of the windows `a[i..ae]`, `b[j..be]`
/// onto the end of `out`.
fn script_rec(
    a: &Vec<FlatUnit>,
    b: &Vec<FlatUnit>,
    i: usize,
    ae: usize,
    j: usize,
    be: usize,
    out: &mut Vec<Hunk>,
)
    requires
        i <= ae <= a@.len(),
        j <= be <= b@.len(),
        a@.len() + b@.len() < usize::MAX as int,
    ensures
        hunks_view(final(out)@) == hunks_view(old(out)@) + spec_script(
            units_view(a@),
            units_view(b@),
            i as int,
            ae as int,
            j as int,
            be as int,
        ),
    decreases (ae - i) + (be - j),
{
    let ghost av = units_view(a@);
    let ghost bv = units_view(b@);
    let ghost sc = spec_script(av, bv, i as int, ae as int, j as int, be as int);
    let ghost base = hunks_view(out@);
    if i >= ae && j >= be {
        proof {
            assert(base + sc =~= base);
        }
        return ;
    }
    if i < ae && j < be && units_match(&a[i], &b[j]) {
        out.push(Hunk::Equal(1));
        proof {
            assert(hunks_view(out@) =~= base + seq![HunkV::Equal(1)]);
        }
        script_rec(a, b, i + 1, ae, j + 1, be, out);
        proof {
            assert(hunks_view(out@) =~= base + sc);
        }
        return ;
    }
    let take_delete: bool = if j >= be {
        true
    } else if i >= ae {
        false
    } else {
        let del = edit_cost(a, b, i + 1, ae, j, be);
        let ins = edit_cost(a, b, i, ae, j + 1, be);
        del <= ins
    };
    if take_delete {
        proof {
            assert(i < ae);
        }
        out.push(Hunk::Delete(1));
        proof {
            assert(hunks_view(out@) =~= base + seq![HunkV::Delete(1)]);
        }
        script_rec(a, b, i + 1, ae, j, be, out);
        proof {
            assert(hunks_view(out@) =~= base + sc);
        }
    } else {
        proof {
            assert(j < be);
        }
        out.push(Hunk::Insert(j, j + 1));
        proof {
            assert(hunks_view(out@) =~= base + seq![HunkV::Insert(j as int, j + 1)]);
        }
        script_rec(a, b, i, ae, j + 1, be, out);
        proof {
            assert(hunks_view(out@) =~= base + sc);
        }
    }
}

/// Computes the minimal edit script between two flattened documents: the
/// common prefix and suffix are kept (the prefix shortened to a suggested
/// index when one is given), and the middle is solved by minimal edit
/// distance.
pub fn diff(a: &Vec<FlatUnit>, b: &Vec<FlatUnit>, index: Option<usize>) -> (r: Vec<Hunk>)
    requires
        a@.len() + b@.len() < usize::MAX as int,
    ensures
        hunks_view(r@) == spec_diff_hunks(units_view(a@), units_view(b@), hint_view(index)),
{
    let ghost av = units_view(a@);
    let ghost bv = units_view(b@);
    let la = a.len();
    let lb = b.len();
    proof {
        assert(av.len() == la);
        assert(bv.len() == lb);
    }
    let p0 = common_prefix(a, b);
    proof {
        lemma_lcp_le(av, bv);
    }
    let p = match index {
        Some(i) => if i < p0 {
            i
        } else {
            p0
        },
        None => p0,
    };
    let s = common_suffix_from(a, b, p);
    proof {
        lemma_lcs_le(av.skip(p as int), bv.skip(p as int));
        assert(p + s <= av.len());
        assert(p + s <= bv.len());
    }
    let mut out: Vec<Hunk> = Vec::new();
    if p > 0 {
        out.push(Hunk::Equal(p));
    }
    let ghost before_mid = hunks_view(out@);
    script_rec(a, b, p, la - s, p, lb - s, &mut out);
    let ghost mid = spec_script(av, bv, p as int, la - s, p as int, lb - s);
    if s > 0 {
        out.push(Hunk::Equal(s));
    }
    proof {
        assert(before_mid =~= (if p > 0 {
            seq![HunkV::Equal(p as int)]
        } else {
            Seq::<HunkV>::empty()
        }));
        assert(hunks_view(out@) =~= before_mid + mid + (if s > 0 {
            seq![HunkV::Equal(s as int)]
        } else {
            Seq::<HunkV>::empty()
        }));
        assert(hunks_view(out@) =~= spec_diff_hunks(av, bv, hint_view(index)));
    }
    out
}

/// The length of one hunk in document positions.
pub open spec fn hunk_len(h: HunkV) -> int {
    match h {
        HunkV::Equal(n) => n,
        HunkV::Delete(n) => n,
        HunkV::Insert(i, j) => j - i,
    }
}

/// A valid hunk: a positive run, an insert range inside the target.
pub open spec fn hunk_wf(h: HunkV, blen: int) -> bool {
    match h {
        HunkV::Equal(n) => n >= 1,
        HunkV::Delete(n) => n >= 1,
        HunkV::Insert(i, j) => 0 <= i < j <= blen,
    }
}

/// Every hunk of a script is valid.
pub open spec fn hunks_wf(hs: Seq<HunkV>, blen: int) -> bool {
    forall|k: int| 0 <= k < hs.len() ==> hunk_wf(#[trigger] hs[k], blen)
}

/// The length of a whole script in document positions.
pub open spec fn hunks_len(hs: Seq<HunkV>) -> int
    decreases hs.len(),
{
    if hs.len() == 0 {
        0
    } else {
        hunk_len(hs[0]) + hunks_len(hs.skip(1))
    }
}

/// The script of one hunk is as long as that hunk.
proof fn lemma_hunks_len_single(h: HunkV)
    ensures
        hunks_len(seq![h]) == hunk_len(h),
{
    reveal_with_fuel(hunks_len, 2);
    assert(seq![h].skip(1) =~= Seq::<HunkV>::empty());
    assert(seq![h][0] == h);
}

/// Script length distributes over concatenation.
proof fn lemma_hunks_len_concat(h1: Seq<HunkV>, h2: Seq<HunkV>)
    ensures
        hunks_len(h1 + h2) == hunks_len(h1) + hunks_len(h2),
    decreases h1.len(),
{
    if h1.len() == 0 {
        assert(h1 + h2 =~= h2);
    } else {
        lemma_hunks_len_concat(h1.skip(1), h2);
        assert((h1 + h2).skip(1) =~= h1.skip(1) + h2);
        assert((h1 + h2)[0] == h1[0]);
    }
}

/// The canonical script is valid and no longer than the two documents
/// together, and each of its hunks is no longer than the whole script.
pub proof fn lemma_diff_hunks_wf(a: Seq<FlatUnitV>, b: Seq<FlatUnitV>, hint: Option<int>)
    ensures
        hunks_wf(spec_diff_hunks(a, b, hint), b.len() as int),
        hunks_len(spec_diff_hunks(a, b, hint)) <= a.len() + b.len(),
        forall|k: int|
            0 <= k < spec_diff_hunks(a, b, hint).len() ==> hunk_len(
                #[trigger] spec_diff_hunks(a, b, hint)[k],
            ) <= hunks_len(spec_diff_hunks(a, b, hint)),
{
    let la = a.len() as int;
    let lb = b.len() as int;
    let ps = spec_split(a, b, hint);
    let p = ps.0;
    let s = ps.1;
    lemma_lcp_le(a, b);
    lemma_lcs_le(a.skip(p), b.skip(p));
    assert(0 <= p && 0 <= s && p + s <= la && p + s <= lb);
    let mid = spec_script(a, b, p, la - s, p, lb - s);
    lemma_script_wf(a, b, p, la - s, p, lb - s);
    let h1: Seq<HunkV> = if p > 0 {
        seq![HunkV::Equal(p)]
    } else {
        Seq::empty()
    };
    let h4: Seq<HunkV> = if s > 0 {
        seq![HunkV::Equal(s)]
    } else {
        Seq::empty()
    };
    let all = spec_diff_hunks(a, b, hint);
    assert(all == h1 + mid + h4);
    lemma_hunks_len_concat(h1, mid);
    lemma_hunks_len_concat(h1 + mid, h4);
    if p > 0 {
        lemma_hunks_len_single(h1[0]);
        assert(h1 =~= seq![h1[0]]);
    }
    if s > 0 {
        lemma_hunks_len_single(h4[0]);
        assert(h4 =~= seq![h4[0]]);
    }
    assert(hunks_len(all) <= p + ((la - s - p) + (lb - s - p)) + s);
    assert forall|k: int| 0 <= k < all.len() implies hunk_wf(#[trigger] all[k], lb) by {
        if k < h1.len() {
            assert(all[k] == h1[0]);
        } else if k < h1.len() + mid.len() {
            assert(all[k] == (h1 + mid)[k]);
            assert((h1 + mid)[k] == mid[k - h1.len()]);
            assert(hunk_wf(mid[k - h1.len()], lb));
        } else {
            assert(all[k] == h4[k - h1.len() - mid.len()]);
        }
    }
    lemma_hunk_len_le(all, lb);
}

/// No valid hunk is longer than its whole script.
proof fn lemma_hunk_len_le(hs: Seq<HunkV>, blen: int)
    requires
        hunks_wf(hs, blen),
    ensures
        forall|k: int| 0 <= k < hs.len() ==> hunk_len(#[trigger] hs[k]) <= hunks_len(hs),
    decreases hs.len(),
{
    if hs.len() > 0 {
        lemma_hunks_wf_skip(hs, blen, 1);
        lemma_hunks_len_nonneg(hs.skip(1), blen);
        lemma_hunk_len_le(hs.skip(1), blen);
        assert(hunk_wf(hs[0], blen));
        assert forall|k: int| 0 <= k < hs.len() implies hunk_len(#[trigger] hs[k]) <= hunks_len(
            hs,
        ) by {
            if k > 0 {
                assert(hs[k] == hs.skip(1)[k - 1]);
                assert(hunk_len(hs.skip(1)[k - 1]) <= hunks_len(hs.skip(1)));
            }
        }
    }
}

/// The operation inserting one unit of the target document.
pub open spec fn unit_op(u: FlatUnitV) -> OpV {
    match u {
        FlatUnitV::Unit(c) => OpV {
            kind: OpKindV::Insert(ContentV::Text(seq![c])),
            attributes: AttrMapV::empty(),
        },
        FlatUnitV::Obj(v) => OpV {
            kind: OpKindV::Insert(ContentV::Embed(v)),
            attributes: AttrMapV::empty(),
        },
    }
}

/// The operations one hunk maps back to: a kept run becomes a plain
/// retain, a removed run a delete, an inserted range one insert per unit
/// of the target's original content.
pub open spec fn ops_of_hunk(h: HunkV, bunits: Seq<FlatUnitV>) -> Seq<OpV> {
    match h {
        HunkV::Equal(n) => seq![OpV { kind: OpKindV::Retain(n), attributes: AttrMapV::empty() }],
        HunkV::Delete(n) => seq![OpV { kind: OpKindV::Delete(n), attributes: AttrMapV::empty() }],
        HunkV::Insert(i, j) => bunits.subrange(i, j).map_values(|u: FlatUnitV| unit_op(u)),
    }
}

/// A run of operations fed one by one through the normalizing append.
pub open spec fn spec_append_all(acc: Seq<OpV>, ops: Seq<OpV>) -> Seq<OpV>
    decreases ops.len(),
{
    if ops.len() == 0 {
        acc
    } else {
        spec_append_all(spec_append(acc, ops[0]), ops.skip(1))
    }
}

/// The whole script mapped back to operations, appended onto `acc`.
pub open spec fn spec_apply_hunks(acc: Seq<OpV>, hs: Seq<HunkV>, bunits: Seq<FlatUnitV>) -> Seq<
    OpV,
>
    decreases hs.len(),
{
    if hs.len() == 0 {
        acc
    } else {
        spec_apply_hunks(spec_append_all(acc, ops_of_hunk(hs[0], bunits)), hs.skip(1), bunits)
    }
}

/// What `a.diff(b, index)` returns on documents: the canonical edit script
/// mapped back to operations, normalized, a trailing no-op retain dropped.
pub open spec fn spec_delta_diff(a: Seq<OpV>, b: Seq<OpV>, hint: Option<int>) -> Seq<OpV> {
    spec_chop(
        spec_apply_hunks(
            Seq::empty(),
            spec_diff_hunks(spec_flatten(a), spec_flatten(b), hint),
            spec_flatten(b),
        ),
    )
}


impl Delta {
    /// Flattens a document: all insert content in order, each embed as one
    /// placeholder unit. Any retain or delete makes this no document.
    fn document_units(&self) -> (r: Result<Vec<FlatUnit>, DiffError>)
        ensures
            (r is Ok) == is_document(self@),
            r matches Ok(u) ==> units_view(u@) == spec_flatten(self@),
    {
        let n = self.ops.len();
        let mut out: Vec<FlatUnit> = Vec::new();
        let mut i: usize = 0;
        proof {
            assert(self@.take(0) =~= Seq::<OpV>::empty());
            assert(units_view(out@) =~= spec_flatten(self@.take(0)));
        }
        while i < n
            invariant
                n == self.ops@.len(),
                n == self@.len(),
                i <= n,
                is_document(self@.take(i as int)),
                units_view(out@) == spec_flatten(self@.take(i as int)),
            decreases n - i,
        {
            proof {
                assert(self@.take(i + 1).drop_last() =~= self@.take(i as int));
                assert(self@.take(i + 1).last() == self@[i as int]);
                assert(self@[i as int] == self.ops@[i as int]@);
            }
            let ghost base = units_view(out@);
            match &self.ops[i].kind {
                OpKind::Insert(Content::Text(t)) => {
                    let m = t.len();
                    let mut j: usize = 0;
                    proof {
                        assert(t@.take(0).map_values(|u: u16| FlatUnitV::Unit(u)) =~= Seq::<
                            FlatUnitV,
                        >::empty());
                        assert(units_view(out@) =~= base + t@.take(0).map_values(
                            |u: u16| FlatUnitV::Unit(u),
                        ));
                    }
                    while j < m
                        invariant
                            m == t@.len(),
                            j <= m,
                            units_view(out@) == base + t@.take(j as int).map_values(
                                |u: u16| FlatUnitV::Unit(u),
                            ),
                        decreases m - j,
                    {
                        let ghost pre = units_view(out@);
                        out.push(FlatUnit::Unit(t[j]));
                        proof {
                            assert(units_view(out@) =~= pre.push(FlatUnitV::Unit(t@[j as int])));
                            assert(t@.take(j + 1).map_values(|u: u16| FlatUnitV::Unit(u))[j as int]
                                == FlatUnitV::Unit(t@[j as int]));
                            assert(units_view(out@) =~= base + t@.take(j + 1).map_values(
                                |u: u16| FlatUnitV::Unit(u),
                            ));
                        }
                        j = j + 1;
                    }
                    proof {
                        assert(t@.take(m as int) =~= t@);
                        assert(units_view(out@) =~= spec_flatten(self@.take(i + 1)));
                    }
                },
                OpKind::Insert(Content::Embed(v)) => {
                    out.push(FlatUnit::Obj(v.clone()));
                    proof {
                        assert(units_view(out@) =~= spec_flatten(self@.take(i + 1)));
                    }
                },
                _ => {
                    proof {
                        assert(!(self@[i as int].kind is Insert));
                    }
                    return Err(DiffError::NotADocument);
                },
            }
            proof {
                assert forall|j2: int| 0 <= j2 < i + 1 implies (#[trigger] self@.take(i + 1)[j2]).kind
                    is Insert by {
                    if j2 < i {
                        assert(self@.take(i as int)[j2].kind is Insert);
                    }
                }
            }
            i = i + 1;
        }
        proof {
            assert(self@.take(n as int) =~= self@);
        }
        Ok(out)
    }

    /// Returns a Delta representing the difference between two documents.
    /// Optionally, accepts a suggested index where change took place, often
    /// representing a cursor position before change.
    pub fn diff(&self, other: &Delta, index: Option<usize>) -> (r: Result<Delta, DiffError>)
        requires
            self.wf(),
            other.wf(),
            total_len(self@) + total_len(other@) < usize::MAX as int,
        ensures
            (r is Ok) == (is_document(self@) && is_document(other@)),
            r matches Ok(d) ==> d@ == spec_delta_diff(self@, other@, hint_view(index)) && d.wf(),
    {
        let au = match self.document_units() {
            Ok(u) => u,
            Err(e) => {
                return Err(e);
            },
        };
        let bu = match other.document_units() {
            Ok(u) => u,
            Err(e) => {
                return Err(e);
            },
        };
        proof {
            lemma_flatten_len(self@);
            lemma_flatten_len(other@);
            crate::delta::lemma_total_len_parts(self@);
            crate::delta::lemma_total_len_parts(other@);
        }
        let hunks = diff(&au, &bu, index);
        let ghost buv = units_view(bu@);
        let ghost hv = hunks_view(hunks@);
        let ghost goal = spec_apply_hunks(Seq::empty(), hv, buv);
        proof {
            lemma_diff_hunks_wf(units_view(au@), buv, hint_view(index));
        }
        let mut out = Delta::new();
        let nh = hunks.len();
        let mut k: usize = 0;
        proof {
            assert(hv.skip(0) =~= hv);
            assert(units_view(au@).len() == total_len(self@));
            assert(buv.len() == total_len(other@));
            assert(hunks_len(hv) < usize::MAX as int);
        }
        while k < nh
            invariant
                nh == hunks@.len(),
                nh == hv.len(),
                k <= nh,
                out.wf(),
                buv == units_view(bu@),
                hv == hunks_view(hunks@),
                hunks_wf(hv, buv.len() as int),
                bu@.len() == buv.len(),
                spec_apply_hunks(out@, hv.skip(k as int), buv) == goal,
                total_len(out@) + hunks_len(hv.skip(k as int)) == hunks_len(hv),
                hunks_len(hv) < usize::MAX as int,
                forall|k2: int| 0 <= k2 < hv.len() ==> hunk_len(#[trigger] hv[k2]) <= hunks_len(hv),
            decreases nh - k,
        {
            let ghost rest = hv.skip(k as int);
            proof {
                assert(hv[k as int] == hunks@[k as int]@);
                assert(rest[0] == hv[k as int]);
                assert(rest.skip(1) =~= hv.skip(k + 1));
                assert(hunk_wf(hv[k as int], buv.len() as int));
                lemma_hunks_len_skip(hv, k as int);
                lemma_hunks_wf_skip(hv, buv.len() as int, k + 1);
                lemma_hunks_len_nonneg(hv.skip(k + 1), buv.len() as int);
            }
            match &hunks[k] {
                Hunk::Equal(nn) => {
                    let produced = DeltaOperation::retain(*nn);
                    proof {
                        assert(op_wf(produced@));
                        lemma_append_all_single(out@, produced@);
                    }
                    out = out.push(produced);
                    proof {
                        assert(spec_apply_hunks(out@, hv.skip(k + 1), buv) == goal);
                    }
                },
                Hunk::Delete(nn) => {
                    let produced = DeltaOperation::delete(*nn);
                    proof {
                        assert(op_wf(produced@));
                        lemma_append_all_single(out@, produced@);
                    }
                    out = out.push(produced);
                    proof {
                        assert(spec_apply_hunks(out@, hv.skip(k + 1), buv) == goal);
                    }
                },
                Hunk::Insert(st, en) => {
                    let ghost hops = ops_of_hunk(rest[0], buv);
                    let ghost out0 = out@;
                    let mut t = *st;
                    proof {
                        assert(hops =~= buv.subrange(*st as int, *en as int).map_values(
                            |u: FlatUnitV| unit_op(u),
                        ));
                        assert(hops.skip(t - *st) =~= hops);
                    }
                    while t < *en
                        invariant
                            *st <= t <= *en,
                            *en <= bu@.len(),
                            buv == units_view(bu@),
                            out.wf(),
                            hops == ops_of_hunk(rest[0], buv),
                            rest[0] == HunkV::Insert(*st as int, *en as int),
                            hops.len() == *en - *st,
                            spec_append_all(out@, hops.skip(t - *st)) == spec_append_all(
                                out0,
                                hops,
                            ),
                            total_len(out@) == total_len(out0) + (t - *st),
                            total_len(out0) + hunk_len(rest[0]) + hunks_len(hv.skip(k + 1))
                                == hunks_len(hv),
                            hunks_len(hv) < usize::MAX as int,
                            hunks_len(hv.skip(k + 1)) >= 0,
                        decreases *en - t,
                    {
                        let ghost rem = hops.skip(t - *st);
                        proof {
                            assert(rem[0] == hops[t - *st]);
                            assert(hops[t - *st] == unit_op(buv[t as int]));
                            assert(buv[t as int] == bu@[t as int]@);
                            assert(rem.skip(1) =~= hops.skip(t + 1 - *st));
                        }
                        let produced = match &bu[t] {
                            FlatUnit::Unit(u) => {
                                let mut tv: Vec<u16> = Vec::new();
                                tv.push(*u);
                                proof {
                                    assert(tv@ =~= seq![*u]);
                                }
                                DeltaOperation::insert(Content::Text(tv))
                            },
                            FlatUnit::Obj(v) => DeltaOperation::insert(Content::Embed(v.clone())),
                        };
                        proof {
                            assert(produced@ == unit_op(buv[t as int]));
                            assert(op_wf(produced@));
                        }
                        out = out.push(produced);
                        t = t + 1;
                    }
                    proof {
                        assert(hops.skip(t - *st) =~= Seq::<OpV>::empty());
                        assert(spec_append_all(out@, Seq::<OpV>::empty()) == out@);
                        assert(spec_apply_hunks(out@, hv.skip(k + 1), buv) == goal);
                    }
                },
            }
            k = k + 1;
        }
        proof {
            assert(hv.skip(nh as int) =~= Seq::<HunkV>::empty());
            assert(spec_apply_hunks(out@, hv.skip(nh as int), buv) == out@);
        }
        Ok(out.chop())
    }
}

/// A valid script never has negative length.
proof fn lemma_hunks_len_nonneg(hs: Seq<HunkV>, blen: int)
    requires
        hunks_wf(hs, blen),
    ensures
        hunks_len(hs) >= 0,
    decreases hs.len(),
{
    if hs.len() > 0 {
        assert(hunk_wf(hs[0], blen));
        assert(hunks_wf(hs.skip(1), blen)) by {
            assert forall|k: int| 0 <= k < hs.skip(1).len() implies hunk_wf(
                #[trigger] hs.skip(1)[k],
                blen,
            ) by {
                assert(hs.skip(1)[k] == hs[k + 1]);
                assert(hunk_wf(hs[k + 1], blen));
            }
        }
        lemma_hunks_len_nonneg(hs.skip(1), blen);
    }
}

/// The tail of a valid script is a valid script.
proof fn lemma_hunks_wf_skip(hs: Seq<HunkV>, blen: int, k: int)
    requires
        hunks_wf(hs, blen),
        0 <= k <= hs.len(),
    ensures
        hunks_wf(hs.skip(k), blen),
{
    assert forall|k2: int| 0 <= k2 < hs.skip(k).len() implies hunk_wf(
        #[trigger] hs.skip(k)[k2],
        blen,
    ) by {
        assert(hs.skip(k)[k2] == hs[k + k2]);
        assert(hunk_wf(hs[k + k2], blen));
    }
}

/// One step of the script's length accounting.
proof fn lemma_hunks_len_skip(hs: Seq<HunkV>, k: int)
    requires
        0 <= k < hs.len(),
    ensures
        hunks_len(hs.skip(k)) == hunk_len(hs[k]) + hunks_len(hs.skip(k + 1)),
{
    assert(hs.skip(k)[0] == hs[k]);
    assert(hs.skip(k).skip(1) =~= hs.skip(k + 1));
}

/// Appending a run of one operation is one normalizing append.
proof fn lemma_append_all_single(acc: Seq<OpV>, op: OpV)
    ensures
        spec_append_all(acc, seq![op]) == spec_append(acc, op),
{
    reveal_with_fuel(spec_append_all, 2);
    assert(seq![op].skip(1) =~= Seq::<OpV>::empty());
    assert(seq![op][0] == op);
}


/// Units kept by the common prefix match pairwise.
pub proof fn lemma_lcp_matches(a: Seq<FlatUnitV>, b: Seq<FlatUnitV>)
    ensures
        forall|i: int| 0 <= i < spec_lcp(a, b) ==> unit_match(a[i], b[i]),
    decreases a.len(),
{
    lemma_lcp_le(a, b);
    if !(a.len() == 0 || b.len() == 0 || !unit_match(a[0], b[0])) {
        lemma_lcp_matches(a.skip(1), b.skip(1));
        lemma_lcp_le(a.skip(1), b.skip(1));
        assert forall|i: int| 0 <= i < spec_lcp(a, b) implies unit_match(a[i], b[i]) by {
            if i > 0 {
                assert(unit_match(a.skip(1)[i - 1], b.skip(1)[i - 1]));
                assert(a.skip(1)[i - 1] == a[i]);
                assert(b.skip(1)[i - 1] == b[i]);
            }
        }
    }
}

/// Units kept by the common suffix match pairwise, counted from each end.
pub proof fn lemma_lcs_matches(a: Seq<FlatUnitV>, b: Seq<FlatUnitV>)
    ensures
        forall|k: int| #![trigger a[a.len() - 1 - k]]
            0 <= k < spec_lcs(a, b) ==> unit_match(a[a.len() - 1 - k], b[b.len() - 1 - k]),
    decreases a.len(),
{
    lemma_lcs_le(a, b);
    if !(a.len() == 0 || b.len() == 0 || !unit_match(a.last(), b.last())) {
        lemma_lcs_matches(a.drop_last(), b.drop_last());
        lemma_lcs_le(a.drop_last(), b.drop_last());
        assert forall|k: int| #![trigger a[a.len() - 1 - k]]
            0 <= k < spec_lcs(a, b) implies unit_match(a[a.len() - 1 - k], b[b.len() - 1 - k]) by {
            if k > 0 {
                assert(unit_match(
                    a.drop_last()[a.drop_last().len() - 1 - (k - 1)],
                    b.drop_last()[b.drop_last().len() - 1 - (k - 1)],
                ));
                assert(a.drop_last()[a.drop_last().len() - 1 - (k - 1)] == a[a.len() - 1 - k]);
                assert(b.drop_last()[b.drop_last().len() - 1 - (k - 1)] == b[b.len() - 1 - k]);
            }
        }
    }
}

/// What applying an edit script to a source document produces: kept runs
/// are taken from the source at a walking position, removed runs advance
/// the position without output, inserted ranges are taken from the target.
pub open spec fn spec_apply_script(
    ua: Seq<FlatUnitV>,
    hs: Seq<HunkV>,
    ub: Seq<FlatUnitV>,
    pos: int,
) -> Seq<FlatUnitV>
    decreases hs.len(),
{
    if hs.len() == 0 {
        Seq::empty()
    } else {
        match hs[0] {
            HunkV::Equal(n) => ua.subrange(pos, pos + n) + spec_apply_script(
                ua,
                hs.skip(1),
                ub,
                pos + n,
            ),
            HunkV::Delete(n) => spec_apply_script(ua, hs.skip(1), ub, pos + n),
            HunkV::Insert(i, j) => ub.subrange(i, j) + spec_apply_script(
                ua,
                hs.skip(1),
                ub,
                pos,
            ),
        }
    }
}



/// A kept run at the script's front peels off a source range.
proof fn lemma_apply_equal_front(
    ua: Seq<FlatUnitV>,
    n: int,
    rest: Seq<HunkV>,
    ub: Seq<FlatUnitV>,
    pos: int,
)
    requires
        n >= 0,
        0 <= pos,
        pos + n <= ua.len(),
    ensures
        spec_apply_script(
            ua,
            (if n > 0 {
                seq![HunkV::Equal(n)]
            } else {
                Seq::empty()
            }) + rest,
            ub,
            pos,
        ) == ua.subrange(pos, pos + n) + spec_apply_script(ua, rest, ub, pos + n),
{
    if n > 0 {
        let hs = seq![HunkV::Equal(n)] + rest;
        assert(hs[0] == HunkV::Equal(n));
        assert(hs.skip(1) =~= rest);
    } else {
        assert((if n > 0 {
            seq![HunkV::Equal(n)]
        } else {
            Seq::<HunkV>::empty()
        }) + rest =~= rest);
        assert(ua.subrange(pos, pos) =~= Seq::<FlatUnitV>::empty());
        assert(ua.subrange(pos, pos) + spec_apply_script(ua, rest, ub, pos) =~= spec_apply_script(
            ua,
            rest,
            ub,
            pos,
        ));
    }
}

/// A removed run at the script's front advances the source position.
proof fn lemma_apply_delete_front(
    ua: Seq<FlatUnitV>,
    n: int,
    rest: Seq<HunkV>,
    ub: Seq<FlatUnitV>,
    pos: int,
)
    requires
        n >= 0,
    ensures
        spec_apply_script(
            ua,
            (if n > 0 {
                seq![HunkV::Delete(n)]
            } else {
                Seq::empty()
            }) + rest,
            ub,
            pos,
        ) == spec_apply_script(ua, rest, ub, pos + n),
{
    if n > 0 {
        let hs = seq![HunkV::Delete(n)] + rest;
        assert(hs[0] == HunkV::Delete(n));
        assert(hs.skip(1) =~= rest);
    } else {
        assert((if n > 0 {
            seq![HunkV::Delete(n)]
        } else {
            Seq::<HunkV>::empty()
        }) + rest =~= rest);
    }
}

/// An inserted range at the script's front contributes the target's units.
proof fn lemma_apply_insert_front(
    ua: Seq<FlatUnitV>,
    i: int,
    j: int,
    rest: Seq<HunkV>,
    ub: Seq<FlatUnitV>,
    pos: int,
)
    requires
        0 <= i <= j <= ub.len(),
    ensures
        spec_apply_script(
            ua,
            (if j > i {
                seq![HunkV::Insert(i, j)]
            } else {
                Seq::empty()
            }) + rest,
            ub,
            pos,
        ) == ub.subrange(i, j) + spec_apply_script(ua, rest, ub, pos),
{
    if j > i {
        let hs = seq![HunkV::Insert(i, j)] + rest;
        assert(hs[0] == HunkV::Insert(i, j));
        assert(hs.skip(1) =~= rest);
    } else {
        assert((if j > i {
            seq![HunkV::Insert(i, j)]
        } else {
            Seq::<HunkV>::empty()
        }) + rest =~= rest);
        assert(ub.subrange(i, i) =~= Seq::<FlatUnitV>::empty());
        assert(ub.subrange(i, i) + spec_apply_script(ua, rest, ub, pos) =~= spec_apply_script(
            ua,
            rest,
            ub,
            pos,
        ));
    }
}

/// Round trip of the edit script: applied to the source document's units
/// it rebuilds the target exactly, text and embed values alike.
pub proof fn lemma_diff_script_round_trip(
    ua: Seq<FlatUnitV>,
    ub: Seq<FlatUnitV>,
    hint: Option<int>,
)
    ensures
        spec_apply_script(ua, spec_diff_hunks(ua, ub, hint), ub, 0) == ub,
{
    let la = ua.len() as int;
    let lb = ub.len() as int;
    let ps = spec_split(ua, ub, hint);
    let p = ps.0;
    let s = ps.1;
    lemma_lcp_le(ua, ub);
    lemma_lcp_matches(ua, ub);
    lemma_lcs_le(ua.skip(p), ub.skip(p));
    lemma_lcs_matches(ua.skip(p), ub.skip(p));
    assert(0 <= p && 0 <= s && p + s <= la && p + s <= lb);
    assert forall|k: int| #![trigger ua[la - 1 - k]]
        0 <= k < s implies unit_match(ua[la - 1 - k], ub[lb - 1 - k]) by {
        assert(unit_match(
            ua.skip(p)[ua.skip(p).len() - 1 - k],
            ub.skip(p)[ub.skip(p).len() - 1 - k],
        ));
        assert(ua.skip(p)[ua.skip(p).len() - 1 - k] == ua[la - 1 - k]);
        assert(ub.skip(p)[ub.skip(p).len() - 1 - k] == ub[lb - 1 - k]);
    }
    let mid = spec_script(ua, ub, p, la - s, p, lb - s);
    lemma_script_wf(ua, ub, p, la - s, p, lb - s);
    lemma_script_apply(ua, ub, p, la - s, p, lb - s);
    let h1: Seq<HunkV> = if p > 0 {
        seq![HunkV::Equal(p)]
    } else {
        Seq::empty()
    };
    let h4: Seq<HunkV> = if s > 0 {
        seq![HunkV::Equal(s)]
    } else {
        Seq::empty()
    };
    let hs = spec_diff_hunks(ua, ub, hint);
    assert(hs == h1 + mid + h4);
    assert(hs =~= h1 + (mid + h4));
    lemma_apply_concat(ua, h1, mid + h4, ub, 0);
    reveal_with_fuel(hunks_src_len, 2);
    reveal_with_fuel(spec_apply_script, 2);
    if p > 0 {
        assert(h1.skip(1) =~= Seq::<HunkV>::empty());
        assert(hunks_src_len(h1) == p);
        assert(spec_apply_script(ua, h1, ub, 0) =~= ua.subrange(0, p));
    } else {
        assert(hunks_src_len(h1) == 0);
        assert(spec_apply_script(ua, h1, ub, 0) =~= ua.subrange(0, p));
    }
    lemma_apply_concat(ua, mid, h4, ub, p);
    assert(hunks_src_len(mid) == (la - s) - p);
    assert(spec_apply_script(ua, mid, ub, p) == ub.subrange(p, lb - s));
    if s > 0 {
        assert(h4.skip(1) =~= Seq::<HunkV>::empty());
        assert(spec_apply_script(ua, h4, ub, la - s) =~= ua.subrange(la - s, la));
    } else {
        assert(spec_apply_script(ua, h4, ub, la - s) =~= ua.subrange(la - s, la));
    }
    let out = spec_apply_script(ua, hs, ub, 0);
    assert(out == ua.subrange(0, p) + (ub.subrange(p, lb - s) + ua.subrange(la - s, la)));
    assert(out.len() == lb);
    assert forall|i: int| 0 <= i < out.len() implies out[i] == ub[i] by {
        if i < p {
            assert(out[i] == ua[i]);
            assert(unit_match(ua[i], ub[i]));
        } else if i < lb - s {
            assert(out[i] == ub[i]);
        } else {
            let k = lb - 1 - i;
            assert(out[i] == ua[la - s + (i - (lb - s))]);
            assert(la - s + (i - (lb - s)) == la - 1 - k);
            assert(unit_match(ua[la - 1 - k], ub[lb - 1 - k]));
        }
    }
    assert(out =~= ub);
}

/// How many source positions a script consumes: its kept and removed runs.
pub open spec fn hunks_src_len(hs: Seq<HunkV>) -> int
    decreases hs.len(),
{
    if hs.len() == 0 {
        0
    } else {
        (match hs[0] {
            HunkV::Equal(n) => n,
            HunkV::Delete(n) => n,
            HunkV::Insert(_, _) => 0,
        }) + hunks_src_len(hs.skip(1))
    }
}

/// The minimal script is made of valid unit hunks, consumes its source
/// window exactly, and is no longer than the two windows together.
pub proof fn lemma_script_wf(
    a: Seq<FlatUnitV>,
    b: Seq<FlatUnitV>,
    i: int,
    ae: int,
    j: int,
    be: int,
)
    requires
        0 <= i <= ae <= a.len(),
        0 <= j <= be <= b.len(),
    ensures
        hunks_wf(spec_script(a, b, i, ae, j, be), b.len() as int),
        hunks_src_len(spec_script(a, b, i, ae, j, be)) == ae - i,
        hunks_len(spec_script(a, b, i, ae, j, be)) <= (ae - i) + (be - j),
    decreases ae - i, be - j,
{
    let sc = spec_script(a, b, i, ae, j, be);
    if i >= ae && j >= be {
    } else if i < ae && j < be && a[i] == b[j] {
        lemma_script_wf(a, b, i + 1, ae, j + 1, be);
        assert(sc.skip(1) =~= spec_script(a, b, i + 1, ae, j + 1, be));
        assert(hunk_wf(sc[0], b.len() as int));
    } else if j >= be || (i < ae && spec_edit_cost(a, b, i + 1, ae, j, be) <= spec_edit_cost(
        a,
        b,
        i,
        ae,
        j + 1,
        be,
    )) {
        assert(i < ae);
        lemma_script_wf(a, b, i + 1, ae, j, be);
        assert(sc.skip(1) =~= spec_script(a, b, i + 1, ae, j, be));
        assert(hunk_wf(sc[0], b.len() as int));
    } else {
        assert(j < be);
        lemma_script_wf(a, b, i, ae, j + 1, be);
        assert(sc.skip(1) =~= spec_script(a, b, i, ae, j + 1, be));
        assert(hunk_wf(sc[0], b.len() as int));
    }
    assert forall|k: int| 0 <= k < sc.len() implies hunk_wf(#[trigger] sc[k], b.len() as int) by {
        if k > 0 {
            assert(sc[k] == sc.skip(1)[k - 1]);
        }
    }
}

/// The minimal script applied to its source window rebuilds its target
/// window exactly.
pub proof fn lemma_script_apply(
    a: Seq<FlatUnitV>,
    b: Seq<FlatUnitV>,
    i: int,
    ae: int,
    j: int,
    be: int,
)
    requires
        0 <= i <= ae <= a.len(),
        0 <= j <= be <= b.len(),
    ensures
        spec_apply_script(a, spec_script(a, b, i, ae, j, be), b, i) == b.subrange(j, be),
    decreases ae - i, be - j,
{
    let sc = spec_script(a, b, i, ae, j, be);
    if i >= ae && j >= be {
        assert(b.subrange(j, be) =~= Seq::<FlatUnitV>::empty());
    } else if i < ae && j < be && a[i] == b[j] {
        lemma_script_apply(a, b, i + 1, ae, j + 1, be);
        let rest = spec_script(a, b, i + 1, ae, j + 1, be);
        assert(sc =~= seq![HunkV::Equal(1)] + rest);
        lemma_apply_equal_front(a, 1, rest, b, i);
        assert(a.subrange(i, i + 1) =~= seq![a[i]]);
        assert(spec_apply_script(a, sc, b, i) =~= seq![b[j]] + b.subrange(j + 1, be));
        assert(seq![b[j]] + b.subrange(j + 1, be) =~= b.subrange(j, be));
    } else if j >= be || (i < ae && spec_edit_cost(a, b, i + 1, ae, j, be) <= spec_edit_cost(
        a,
        b,
        i,
        ae,
        j + 1,
        be,
    )) {
        assert(i < ae);
        lemma_script_apply(a, b, i + 1, ae, j, be);
        let rest = spec_script(a, b, i + 1, ae, j, be);
        assert(sc =~= seq![HunkV::Delete(1)] + rest);
        lemma_apply_delete_front(a, 1, rest, b, i);
    } else {
        assert(j < be);
        lemma_script_apply(a, b, i, ae, j + 1, be);
        let rest = spec_script(a, b, i, ae, j + 1, be);
        assert(sc =~= seq![HunkV::Insert(j, j + 1)] + rest);
        lemma_apply_insert_front(a, j, j + 1, rest, b, i);
        assert(b.subrange(j, j + 1) =~= seq![b[j]]);
        assert(spec_apply_script(a, sc, b, i) =~= seq![b[j]] + b.subrange(j + 1, be));
        assert(seq![b[j]] + b.subrange(j + 1, be) =~= b.subrange(j, be));
    }
}

/// Applying a script in two halves: the second half starts where the
/// first stopped consuming the source.
proof fn lemma_apply_concat(
    ua: Seq<FlatUnitV>,
    hs1: Seq<HunkV>,
    hs2: Seq<HunkV>,
    ub: Seq<FlatUnitV>,
    pos: int,
)
    ensures
        spec_apply_script(ua, hs1 + hs2, ub, pos) == spec_apply_script(ua, hs1, ub, pos)
            + spec_apply_script(ua, hs2, ub, pos + hunks_src_len(hs1)),
    decreases hs1.len(),
{
    if hs1.len() == 0 {
        assert(hs1 + hs2 =~= hs2);
        assert(spec_apply_script(ua, hs1, ub, pos) =~= Seq::<FlatUnitV>::empty());
        assert(spec_apply_script(ua, hs1, ub, pos) + spec_apply_script(ua, hs2, ub, pos)
            =~= spec_apply_script(ua, hs2, ub, pos));
    } else {
        assert((hs1 + hs2).skip(1) =~= hs1.skip(1) + hs2);
        assert((hs1 + hs2)[0] == hs1[0]);
        match hs1[0] {
            HunkV::Equal(n) => {
                lemma_apply_concat(ua, hs1.skip(1), hs2, ub, pos + n);
                assert(ua.subrange(pos, pos + n) + (spec_apply_script(ua, hs1.skip(1), ub, pos + n)
                    + spec_apply_script(ua, hs2, ub, pos + n + hunks_src_len(hs1.skip(1))))
                    =~= (ua.subrange(pos, pos + n) + spec_apply_script(ua, hs1.skip(1), ub, pos + n))
                    + spec_apply_script(ua, hs2, ub, pos + n + hunks_src_len(hs1.skip(1))));
            },
            HunkV::Delete(n) => {
                lemma_apply_concat(ua, hs1.skip(1), hs2, ub, pos + n);
            },
            HunkV::Insert(x, y) => {
                lemma_apply_concat(ua, hs1.skip(1), hs2, ub, pos);
                assert(ub.subrange(x, y) + (spec_apply_script(ua, hs1.skip(1), ub, pos)
                    + spec_apply_script(ua, hs2, ub, pos + hunks_src_len(hs1.skip(1))))
                    =~= (ub.subrange(x, y) + spec_apply_script(ua, hs1.skip(1), ub, pos))
                    + spec_apply_script(ua, hs2, ub, pos + hunks_src_len(hs1.skip(1))));
            },
        }
    }
}


/// The textbook longest-common-subsequence length of the windows
/// `a[i..ae]` and `b[j..be]`: a matching head pair is taken, otherwise the
/// better of dropping either head.
pub open spec fn spec_lcs_len(
    a: Seq<FlatUnitV>,
    b: Seq<FlatUnitV>,
    i: int,
    ae: int,
    j: int,
    be: int,
) -> int
    decreases ae - i, be - j,
{
    if i >= ae || j >= be {
        0
    } else if a[i] == b[j] {
        1 + spec_lcs_len(a, b, i + 1, ae, j + 1, be)
    } else {
        vstd::math::max(
            spec_lcs_len(a, b, i + 1, ae, j, be),
            spec_lcs_len(a, b, i, ae, j + 1, be),
        )
    }
}

/// The minimal number of inserted plus deleted units turning `a[i..ae]`
/// into `b[j..be]`: a matching head pair costs nothing, otherwise one unit
/// is deleted or inserted, whichever leads to the cheaper rest.
pub open spec fn spec_edit_cost(
    a: Seq<FlatUnitV>,
    b: Seq<FlatUnitV>,
    i: int,
    ae: int,
    j: int,
    be: int,
) -> int
    decreases ae - i, be - j,
{
    if i >= ae && j >= be {
        0
    } else if i >= ae {
        be - j
    } else if j >= be {
        ae - i
    } else if a[i] == b[j] {
        spec_edit_cost(a, b, i + 1, ae, j + 1, be)
    } else {
        1 + vstd::math::min(
            spec_edit_cost(a, b, i + 1, ae, j, be),
            spec_edit_cost(a, b, i, ae, j + 1, be),
        )
    }
}

/// The edit cost is bounded by the window sizes.
pub proof fn lemma_edit_cost_le(
    a: Seq<FlatUnitV>,
    b: Seq<FlatUnitV>,
    i: int,
    ae: int,
    j: int,
    be: int,
)
    requires
        i <= ae,
        j <= be,
    ensures
        0 <= spec_edit_cost(a, b, i, ae, j, be) <= (ae - i) + (be - j),
    decreases ae - i, be - j,
{
    if i < ae && j < be {
        if a[i] == b[j] {
            lemma_edit_cost_le(a, b, i + 1, ae, j + 1, be);
        } else {
            lemma_edit_cost_le(a, b, i + 1, ae, j, be);
            lemma_edit_cost_le(a, b, i, ae, j + 1, be);
        }
    }
}

/// The minimal insert-plus-delete cost is the two window sizes less twice
/// the longest common subsequence.
pub proof fn lemma_edit_cost_lcs(
    a: Seq<FlatUnitV>,
    b: Seq<FlatUnitV>,
    i: int,
    ae: int,
    j: int,
    be: int,
)
    requires
        i <= ae,
        j <= be,
    ensures
        spec_edit_cost(a, b, i, ae, j, be) == (ae - i) + (be - j) - 2 * spec_lcs_len(
            a,
            b,
            i,
            ae,
            j,
            be,
        ),
    decreases ae - i, be - j,
{
    if i < ae && j < be {
        if a[i] == b[j] {
            lemma_edit_cost_lcs(a, b, i + 1, ae, j + 1, be);
        } else {
            lemma_edit_cost_lcs(a, b, i + 1, ae, j, be);
            lemma_edit_cost_lcs(a, b, i, ae, j + 1, be);
        }
    }
}

/// The minimal edit script of the windows `a[i..ae]` and `b[j..be]`, one
/// unit hunk at a time: a matching head pair is kept, otherwise the head
/// whose removal or insertion leads to the cheaper rest goes first, a
/// delete winning ties.
pub open spec fn spec_script(
    a: Seq<FlatUnitV>,
    b: Seq<FlatUnitV>,
    i: int,
    ae: int,
    j: int,
    be: int,
) -> Seq<HunkV>
    decreases ae - i, be - j,
{
    if i >= ae && j >= be {
        Seq::empty()
    } else if i < ae && j < be && a[i] == b[j] {
        seq![HunkV::Equal(1)] + spec_script(a, b, i + 1, ae, j + 1, be)
    } else if j >= be || (i < ae && spec_edit_cost(a, b, i + 1, ae, j, be) <= spec_edit_cost(
        a,
        b,
        i,
        ae,
        j + 1,
        be,
    )) {
        seq![HunkV::Delete(1)] + spec_script(a, b, i + 1, ae, j, be)
    } else {
        seq![HunkV::Insert(j, j + 1)] + spec_script(a, b, i, ae, j + 1, be)
    }
}

/// The sum of the insert and delete hunk lengths of a script.
pub open spec fn hunks_edit_len(hs: Seq<HunkV>) -> int
    decreases hs.len(),
{
    if hs.len() == 0 {
        0
    } else {
        (match hs[0] {
            HunkV::Equal(_) => 0,
            HunkV::Delete(n) => n,
            HunkV::Insert(x, y) => y - x,
        }) + hunks_edit_len(hs.skip(1))
    }
}

/// The script's insert and delete lengths add up to exactly the minimal
/// edit cost of its windows.
pub proof fn lemma_script_cost(
    a: Seq<FlatUnitV>,
    b: Seq<FlatUnitV>,
    i: int,
    ae: int,
    j: int,
    be: int,
)
    requires
        i <= ae,
        j <= be,
    ensures
        hunks_edit_len(spec_script(a, b, i, ae, j, be)) == spec_edit_cost(a, b, i, ae, j, be),
    decreases ae - i, be - j,
{
    let sc = spec_script(a, b, i, ae, j, be);
    if i >= ae && j >= be {
    } else if i < ae && j < be && a[i] == b[j] {
        lemma_script_cost(a, b, i + 1, ae, j + 1, be);
        assert(sc.skip(1) =~= spec_script(a, b, i + 1, ae, j + 1, be));
    } else if j >= be || (i < ae && spec_edit_cost(a, b, i + 1, ae, j, be) <= spec_edit_cost(
        a,
        b,
        i,
        ae,
        j + 1,
        be,
    )) {
        assert(i < ae);
        lemma_script_cost(a, b, i + 1, ae, j, be);
        assert(sc.skip(1) =~= spec_script(a, b, i + 1, ae, j, be));
        if j < be {
            lemma_edit_cost_le(a, b, i + 1, ae, j, be);
            lemma_edit_cost_le(a, b, i, ae, j + 1, be);
        }
    } else {
        assert(j < be);
        lemma_script_cost(a, b, i, ae, j + 1, be);
        assert(sc.skip(1) =~= spec_script(a, b, i, ae, j + 1, be));
        if i < ae {
            lemma_edit_cost_le(a, b, i + 1, ae, j, be);
        }
        lemma_edit_cost_le(a, b, i, ae, j + 1, be);
    }
}


/// Edit lengths add over script concatenation.
proof fn lemma_hunks_edit_len_concat(h1: Seq<HunkV>, h2: Seq<HunkV>)
    ensures
        hunks_edit_len(h1 + h2) == hunks_edit_len(h1) + hunks_edit_len(h2),
    decreases h1.len(),
{
    if h1.len() == 0 {
        assert(h1 + h2 =~= h2);
    } else {
        lemma_hunks_edit_len_concat(h1.skip(1), h2);
        assert((h1 + h2).skip(1) =~= h1.skip(1) + h2);
        assert((h1 + h2)[0] == h1[0]);
    }
}

/// Skipping a pairwise-matching prefix leaves the edit cost unchanged.
proof fn lemma_cost_skip_prefix(a: Seq<FlatUnitV>, b: Seq<FlatUnitV>, i: int, p: int)
    requires
        0 <= i <= p,
        p <= a.len(),
        p <= b.len(),
        forall|k: int| i <= k < p ==> a[k] == b[k],
    ensures
        spec_edit_cost(a, b, i, a.len() as int, i, b.len() as int) == spec_edit_cost(
            a,
            b,
            p,
            a.len() as int,
            p,
            b.len() as int,
        ),
    decreases p - i,
{
    if i < p {
        assert(a[i] == b[i]);
        lemma_cost_skip_prefix(a, b, i + 1, p);
    }
}

/// Dropping one matching final unit from both windows leaves the edit
/// cost unchanged: keeping a matched pair is never worse than editing it.
proof fn lemma_cost_drop_matching_last(
    a: Seq<FlatUnitV>,
    b: Seq<FlatUnitV>,
    i: int,
    ae: int,
    j: int,
    be: int,
)
    requires
        0 <= i < ae <= a.len(),
        0 <= j < be <= b.len(),
        a[ae - 1] == b[be - 1],
    ensures
        spec_edit_cost(a, b, i, ae, j, be) == spec_edit_cost(a, b, i, ae - 1, j, be - 1),
    decreases (ae - i) + (be - j),
{
    reveal_with_fuel(spec_edit_cost, 3);
    if i == ae - 1 && j == be - 1 {
        assert(a[i] == b[j]);
        assert(spec_edit_cost(a, b, i, ae, j, be) == spec_edit_cost(a, b, ae, ae, be, be));
        assert(spec_edit_cost(a, b, i, ae - 1, j, be - 1) == 0);
    } else if i == ae - 1 {
        assert(j < be - 1);
        assert(spec_edit_cost(a, b, i, ae - 1, j, be - 1) == (be - 1) - j);
        if a[i] == b[j] {
            assert(spec_edit_cost(a, b, i, ae, j, be) == spec_edit_cost(a, b, ae, ae, j + 1, be));
            assert(spec_edit_cost(a, b, ae, ae, j + 1, be) == be - (j + 1));
        } else {
            lemma_cost_drop_matching_last(a, b, i, ae, j + 1, be);
            assert(spec_edit_cost(a, b, i, ae, j + 1, be) == spec_edit_cost(
                a,
                b,
                i,
                ae - 1,
                j + 1,
                be - 1,
            ));
            assert(spec_edit_cost(a, b, i, ae - 1, j + 1, be - 1) == (be - 1) - (j + 1));
            assert(spec_edit_cost(a, b, ae, ae, j, be) == be - j);
            assert(spec_edit_cost(a, b, i, ae, j, be) == 1 + vstd::math::min(
                spec_edit_cost(a, b, i + 1, ae, j, be),
                spec_edit_cost(a, b, i, ae, j + 1, be),
            ));
        }
    } else if j == be - 1 {
        assert(i < ae - 1);
        assert(spec_edit_cost(a, b, i, ae - 1, j, be - 1) == (ae - 1) - i);
        if a[i] == b[j] {
            assert(spec_edit_cost(a, b, i, ae, j, be) == spec_edit_cost(a, b, i + 1, ae, be, be));
            assert(spec_edit_cost(a, b, i + 1, ae, be, be) == ae - (i + 1));
        } else {
            lemma_cost_drop_matching_last(a, b, i + 1, ae, j, be);
            assert(spec_edit_cost(a, b, i + 1, ae, j, be) == spec_edit_cost(
                a,
                b,
                i + 1,
                ae - 1,
                j,
                be - 1,
            ));
            assert(spec_edit_cost(a, b, i + 1, ae - 1, j, be - 1) == (ae - 1) - (i + 1));
            assert(spec_edit_cost(a, b, i, ae, j + 1, be) == ae - i);
            assert(spec_edit_cost(a, b, i, ae, j, be) == 1 + vstd::math::min(
                spec_edit_cost(a, b, i + 1, ae, j, be),
                spec_edit_cost(a, b, i, ae, j + 1, be),
            ));
        }
    } else {
        assert(i < ae - 1 && j < be - 1);
        if a[i] == b[j] {
            lemma_cost_drop_matching_last(a, b, i + 1, ae, j + 1, be);
            assert(spec_edit_cost(a, b, i, ae, j, be) == spec_edit_cost(a, b, i + 1, ae, j + 1, be));
            assert(spec_edit_cost(a, b, i, ae - 1, j, be - 1) == spec_edit_cost(
                a,
                b,
                i + 1,
                ae - 1,
                j + 1,
                be - 1,
            ));
        } else {
            lemma_cost_drop_matching_last(a, b, i + 1, ae, j, be);
            lemma_cost_drop_matching_last(a, b, i, ae, j + 1, be);
            assert(spec_edit_cost(a, b, i, ae, j, be) == 1 + vstd::math::min(
                spec_edit_cost(a, b, i + 1, ae, j, be),
                spec_edit_cost(a, b, i, ae, j + 1, be),
            ));
            assert(spec_edit_cost(a, b, i, ae - 1, j, be - 1) == 1 + vstd::math::min(
                spec_edit_cost(a, b, i + 1, ae - 1, j, be - 1),
                spec_edit_cost(a, b, i, ae - 1, j + 1, be - 1),
            ));
        }
    }
}

/// Trimming a pairwise-matching suffix leaves the edit cost unchanged.
proof fn lemma_cost_skip_suffix(a: Seq<FlatUnitV>, b: Seq<FlatUnitV>, p: int, s: int)
    requires
        0 <= s,
        0 <= p <= a.len() - s,
        p <= b.len() - s,
        forall|k: int| #![trigger a[a.len() - 1 - k]]
            0 <= k < s ==> a[a.len() - 1 - k] == b[b.len() - 1 - k],
    ensures
        spec_edit_cost(a, b, p, a.len() as int, p, b.len() as int) == spec_edit_cost(
            a,
            b,
            p,
            a.len() - s,
            p,
            b.len() - s,
        ),
{
    lemma_cost_skip_suffix_window(a, b, p, s, a.len() as int, b.len() as int);
}

/// The suffix trim, stated over explicit window ends.
proof fn lemma_cost_skip_suffix_window(
    a: Seq<FlatUnitV>,
    b: Seq<FlatUnitV>,
    p: int,
    s: int,
    ae: int,
    be: int,
)
    requires
        0 <= s,
        0 <= p <= ae - s,
        p <= be - s,
        ae <= a.len(),
        be <= b.len(),
        forall|k: int| #![trigger a[ae - 1 - k]] 0 <= k < s ==> a[ae - 1 - k] == b[be - 1 - k],
    ensures
        spec_edit_cost(a, b, p, ae, p, be) == spec_edit_cost(a, b, p, ae - s, p, be - s),
    decreases s,
{
    if s > 0 {
        assert(a[ae - 1 - 0] == b[be - 1 - 0]);
        lemma_cost_drop_matching_last(a, b, p, ae, p, be);
        assert forall|k: int| #![trigger a[(ae - 1) - 1 - k]]
            0 <= k < s - 1 implies a[(ae - 1) - 1 - k] == b[(be - 1) - 1 - k] by {
            assert(a[ae - 1 - (k + 1)] == b[be - 1 - (k + 1)]);
        }
        lemma_cost_skip_suffix_window(a, b, p, s - 1, ae - 1, be - 1);
    }
}

/// Minimality of the canonical script: its inserted plus deleted length is
/// exactly the minimal edit cost of the two whole documents, which is
/// their combined length less twice their longest common subsequence --
/// whatever the suggested index.
pub proof fn lemma_diff_minimal(a: Seq<FlatUnitV>, b: Seq<FlatUnitV>, hint: Option<int>)
    ensures
        hunks_edit_len(spec_diff_hunks(a, b, hint)) == spec_edit_cost(
            a,
            b,
            0,
            a.len() as int,
            0,
            b.len() as int,
        ),
        hunks_edit_len(spec_diff_hunks(a, b, hint)) == a.len() + b.len() - 2 * spec_lcs_len(
            a,
            b,
            0,
            a.len() as int,
            0,
            b.len() as int,
        ),
{
    let la = a.len() as int;
    let lb = b.len() as int;
    let ps = spec_split(a, b, hint);
    let p = ps.0;
    let s = ps.1;
    lemma_lcp_le(a, b);
    lemma_lcp_matches(a, b);
    lemma_lcs_le(a.skip(p), b.skip(p));
    lemma_lcs_matches(a.skip(p), b.skip(p));
    assert(0 <= p && 0 <= s && p + s <= la && p + s <= lb);
    assert forall|k: int| #![trigger a[la - 1 - k]]
        0 <= k < s implies a[la - 1 - k] == b[lb - 1 - k] by {
        assert(unit_match(
            a.skip(p)[a.skip(p).len() - 1 - k],
            b.skip(p)[b.skip(p).len() - 1 - k],
        ));
        assert(a.skip(p)[a.skip(p).len() - 1 - k] == a[la - 1 - k]);
        assert(b.skip(p)[b.skip(p).len() - 1 - k] == b[lb - 1 - k]);
    }
    let mid = spec_script(a, b, p, la - s, p, lb - s);
    let h1: Seq<HunkV> = if p > 0 {
        seq![HunkV::Equal(p)]
    } else {
        Seq::empty()
    };
    let h4: Seq<HunkV> = if s > 0 {
        seq![HunkV::Equal(s)]
    } else {
        Seq::empty()
    };
    let all = spec_diff_hunks(a, b, hint);
    assert(all == h1 + mid + h4);
    lemma_hunks_edit_len_concat(h1, mid);
    lemma_hunks_edit_len_concat(h1 + mid, h4);
    reveal_with_fuel(hunks_edit_len, 2);
    if p > 0 {
        assert(h1.skip(1) =~= Seq::<HunkV>::empty());
        assert(hunks_edit_len(h1) == 0);
    }
    if s > 0 {
        assert(h4.skip(1) =~= Seq::<HunkV>::empty());
        assert(hunks_edit_len(h4) == 0);
    }
    lemma_script_cost(a, b, p, la - s, p, lb - s);
    assert(hunks_edit_len(all) == spec_edit_cost(a, b, p, la - s, p, lb - s));
    assert forall|k: int| 0 <= k < p implies a[k] == b[k] by {
        assert(unit_match(a[k], b[k]));
    }
    lemma_cost_skip_suffix(a, b, p, s);
    lemma_cost_skip_prefix(a, b, 0, p);
    lemma_edit_cost_lcs(a, b, 0, la, 0, lb);
}

} // verus!
