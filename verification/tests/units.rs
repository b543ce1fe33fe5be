use quill_delta::{
    delete, insert, none, retain, Content, Delta, DeltaIterator, DeltaOperation, Scalar, Tp,
};

fn text(s: &str) -> Content {
    Content::Text(s.encode_utf16().collect())
}

#[test]
fn it_works() {
    assert_eq!(2 + 2, 4);
}

#[test]
fn op_lengths() {
    assert_eq!(insert(text("Hello")).len(), 5);
    // a supplementary-plane character takes two UTF-16 code units
    assert_eq!(insert(text("\u{1D11E}")).len(), 2);
    assert_eq!(insert(Content::Embed(Scalar::Int(3))).len(), 1);
    assert_eq!(retain(10).len(), 10);
    assert_eq!(delete(7).len(), 7);
}

#[test]
fn op_attr_shorthand() {
    let op = DeltaOperation::insert(text("Hallo"))
        .attr(String::from("font"), Scalar::Str(String::from("green")))
        .attr(String::from("size"), Scalar::Int(10));
    let font = op.attributes.get(&String::from("font"));
    assert!(matches!(font, Some(Scalar::Str(s)) if s == "green"));
    let size = op.attributes.get(&String::from("size"));
    assert!(matches!(size, Some(Scalar::Int(10))));
    assert!(op.attributes.get(&String::from("bold")).is_none());
}

#[test]
fn attrs_equality_ignores_order() {
    let mut x = none();
    x.set(String::from("a"), Scalar::Int(1));
    x.set(String::from("b"), Scalar::Int(2));
    let mut y = none();
    y.set(String::from("b"), Scalar::Int(2));
    y.set(String::from("a"), Scalar::Int(1));
    assert!(x.attrs_eq(&y));
    y.set(String::from("a"), Scalar::Int(3));
    assert!(!x.attrs_eq(&y));
}

#[test]
fn attrs_set_replaces() {
    let mut x = none();
    x.set(String::from("a"), Scalar::Int(1));
    x.set(String::from("a"), Scalar::Int(2));
    assert!(matches!(x.get(&String::from("a")), Some(Scalar::Int(2))));
    assert!(!x.is_empty());
    assert!(none().is_empty());
}

#[test]
fn op_equality() {
    assert!(insert(text("ab")).eq_op(&insert(text("ab"))));
    assert!(!insert(text("ab")).eq_op(&insert(text("ac"))));
    assert!(!insert(text("ab")).eq_op(&retain(2)));
    assert!(retain(2).eq_op(&retain(2)));
    assert!(!retain(2).eq_op(&retain(2).attr(String::from("b"), Scalar::Bool(true))));
}

#[test]
fn delta_from_vec() {
    let d: Delta = vec![insert(text("Hi")), delete(1)].into();
    assert_eq!(d.ops.len(), 2);
}

#[test]
fn builders_skip_degenerate_lengths() {
    let d = Delta::new()
        .retain(0, none())
        .delete(0)
        .insert(text(""), none());
    assert_eq!(d.ops.len(), 0);
}

#[test]
fn iterator_walks_and_splits() {
    let d = Delta::new()
        .insert(text("Hello"), none())
        .retain(3, none())
        .delete(2);
    let mut it = DeltaIterator::new(&d.ops);
    assert!(it.has_next());
    assert_eq!(it.peek_len(), 5);
    assert!(it.peek_type() == Tp::Insert);
    let first = it.next(2);
    assert!(first.eq_op(&insert(text("He"))));
    assert_eq!(it.peek_len(), 3);
    let second = it.next(3);
    assert!(second.eq_op(&insert(text("llo"))));
    assert!(it.peek_type() == Tp::Retain);
    let third = it.next(5);
    assert!(third.eq_op(&retain(3)));
    assert!(it.peek_type() == Tp::Delete);
    let fourth = it.next(2);
    assert!(fourth.eq_op(&delete(2)));
    assert!(!it.has_next());
    assert_eq!(it.peek_len(), usize::MAX);
    assert!(it.peek_type() == Tp::Retain);
}

#[test]
fn iterator_reset_resynthesizes_suffix() {
    let d = Delta::new().insert(text("Hello"), none()).delete(2);
    let mut it = DeltaIterator::new(&d.ops);
    it.next(2);
    let rest = it.reset();
    let expect: Delta = vec![insert(text("llo")), delete(2)].into();
    assert!(rest.eq_delta(&expect));
    // the cursor stands where it stood
    assert_eq!(it.peek_len(), 3);
}

#[test]
fn iterator_returns_embed_whole() {
    let d = Delta::new().insert(Content::Embed(Scalar::Int(9)), none());
    let mut it = DeltaIterator::new(&d.ops);
    assert_eq!(it.peek_len(), 1);
    let op = it.next(1);
    assert!(op.eq_op(&insert(Content::Embed(Scalar::Int(9)))));
    assert!(!it.has_next());
}

#[test]
fn slice_takes_a_range() {
    let d = Delta::new().insert(text("Hello"), none());
    let r = d.slice(1, 3);
    let expect = Delta::new().insert(text("el"), none());
    assert!(r.eq_delta(&expect));
}

#[test]
fn slice_spans_operations() {
    let d = Delta::new()
        .insert(text("Hello"), none())
        .insert(Content::Embed(Scalar::Int(1)), none());
    let r = d.slice(4, 6);
    let expect: Delta = vec![insert(text("o")), insert(Content::Embed(Scalar::Int(1)))].into();
    assert!(r.eq_delta(&expect));
}

#[test]
fn concat_merges_at_seam() {
    let a = Delta::new().insert(text("ab"), none());
    let b = Delta::new().insert(text("cd"), none()).delete(1);
    let r = a.concat(&b);
    let expect = Delta::new().insert(text("abcd"), none()).delete(1);
    assert!(r.eq_delta(&expect));
}

#[test]
fn transform_position_around_delete_and_retain() {
    let del = Delta::new().delete(3);
    assert_eq!(del.transform_position(5, false), 2);
    assert_eq!(del.transform_position(1, false), 0);
    let ret = Delta::new().retain(10, none());
    assert_eq!(ret.transform_position(4, false), 4);
}

#[test]
fn scalar_equality() {
    assert!(Scalar::Null.eq_scalar(&Scalar::Null));
    assert!(Scalar::Str(String::from("x")).eq_scalar(&Scalar::Str(String::from("x"))));
    assert!(!Scalar::Str(String::from("x")).eq_scalar(&Scalar::Int(1)));
    assert!(Scalar::Null.is_null());
    assert!(!Scalar::Bool(false).is_null());
}

#[test]
fn delta_equality_negative() {
    let a = Delta::new().insert(text("ab"), none());
    let b = Delta::new().insert(text("ab"), none()).delete(1);
    assert!(!a.eq_delta(&b));
}
