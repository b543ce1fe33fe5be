use quill_delta::{none, Attributes, Content, Delta, DiffError, Scalar};

fn text(s: &str) -> Content {
    Content::Text(s.encode_utf16().collect())
}

fn bold() -> Attributes {
    let mut a = none();
    a.set(String::from("bold"), Scalar::Bool(true));
    a
}

#[test]
fn compose_retain_then_insert() {
    let a = Delta::new().insert(text("Hello"), none());
    let b = Delta::new().retain(5, none()).insert(text("!"), none());
    let r = a.compose(&b);
    let expect = Delta::new().insert(text("Hello!"), none());
    assert!(r.eq_delta(&expect));
}

#[test]
fn compose_delete_then_insert() {
    let a = Delta::new().insert(text("Hello"), none());
    let b = Delta::new().delete(5).insert(text("Goodbye"), none());
    let r = a.compose(&b);
    let expect = Delta::new().insert(text("Goodbye"), none());
    assert!(r.eq_delta(&expect));
}

#[test]
fn transform_insert_unaffected_by_format() {
    let a = Delta::new().retain(1, bold());
    let b = Delta::new().insert(text("X"), none());
    let r = a.transform(&b, false);
    let expect = Delta::new().insert(text("X"), none());
    assert!(r.eq_delta(&expect));
}

#[test]
fn transform_position_at_insert_boundary() {
    let a = Delta::new().retain(4, none()).insert(text("abc"), none());
    assert_eq!(a.transform_position(4, true), 4);
    assert_eq!(a.transform_position(4, false), 7);
}

#[test]
fn diff_hello_hallo() {
    let a = Delta::new().insert(text("Hello"), none());
    let b = Delta::new().insert(text("Hallo"), none());
    let r = a.diff(&b, None).unwrap();
    // the trailing no-op retain of the script is chopped
    let expect = Delta::new()
        .retain(1, none())
        .insert(text("a"), none())
        .delete(1);
    assert!(r.eq_delta(&expect));
}

#[test]
fn ot_convergence_concrete() {
    // two concurrent inserts on the same empty base converge
    let a = Delta::new().insert(text("A"), none());
    let b = Delta::new().insert(text("B"), none());
    let one = a.compose(&a.transform(&b, false));
    let two = b.compose(&b.transform(&a, true));
    assert!(one.eq_delta(&two));
    let expect = Delta::new().insert(text("BA"), none());
    assert!(one.eq_delta(&expect));
}

#[test]
fn ot_convergence_concrete_with_deletes() {
    let a = Delta::new().retain(2, none()).insert(text("xy"), none());
    let b = Delta::new().delete(1).retain(3, none());
    let one = a.compose(&a.transform(&b, false));
    let two = b.compose(&b.transform(&a, true));
    assert!(one.eq_delta(&two));
}

#[test]
fn compose_identity_left() {
    let a = Delta::new()
        .insert(text("ab"), bold())
        .retain(2, none())
        .delete(1);
    let empty = Delta::new();
    let r = empty.compose(&a);
    assert!(r.eq_delta(&a));
}

#[test]
fn compose_identity_right() {
    let a = Delta::new()
        .insert(text("ab"), bold())
        .retain(2, bold())
        .delete(1);
    let empty = Delta::new();
    let r = a.compose(&empty);
    assert!(r.eq_delta(&a));
}

#[test]
fn compose_identity_chops_trailing_retain() {
    let a = Delta::new().insert(text("ab"), none()).retain(3, none());
    let empty = Delta::new();
    let r = a.compose(&empty);
    let expect = Delta::new().insert(text("ab"), none());
    assert!(r.eq_delta(&expect));
}

#[test]
fn normalization_idempotence() {
    let split = Delta::new()
        .insert(text("a"), none())
        .insert(text("b"), none());
    let whole = Delta::new().insert(text("ab"), none());
    assert!(split.eq_delta(&whole));
    assert_eq!(split.ops.len(), 1);

    let retains = Delta::new().retain(2, none()).retain(3, none());
    assert!(retains.eq_delta(&Delta::new().retain(5, none())));

    let deletes = Delta::new().delete(2).delete(3);
    assert!(deletes.eq_delta(&Delta::new().delete(5)));
}

#[test]
fn normalization_reorders_insert_before_delete() {
    let d = Delta::new().delete(2).insert(text("x"), none());
    let expect = Delta::new().insert(text("x"), none()).delete(2);
    assert!(d.eq_delta(&expect));
}

#[test]
fn normalization_keeps_distinct_attributes_apart() {
    let d = Delta::new()
        .insert(text("a"), bold())
        .insert(text("b"), none());
    assert_eq!(d.ops.len(), 2);
}

#[test]
fn diff_round_trip() {
    let a = Delta::new().insert(text("Hello World"), none());
    let b = Delta::new().insert(text("Hxello Worlds"), none());
    let change = a.diff(&b, None).unwrap();
    let r = a.compose(&change);
    assert!(r.eq_delta(&b));
}

#[test]
fn diff_round_trip_with_embed() {
    let a = Delta::new()
        .insert(text("ab"), none())
        .insert(Content::Embed(Scalar::Int(7)), none());
    let b = Delta::new()
        .insert(text("ab"), none())
        .insert(Content::Embed(Scalar::Int(7)), none())
        .insert(text("c"), none());
    let change = a.diff(&b, None).unwrap();
    let r = a.compose(&change);
    assert!(r.eq_delta(&b));
}

#[test]
fn diff_self_is_empty() {
    let a = Delta::new()
        .insert(text("Hello"), none())
        .insert(Content::Embed(Scalar::Str(String::from("img"))), none());
    let r = a.diff(&a, None).unwrap();
    assert!(r.eq_delta(&Delta::new()));
    let r2 = a.diff(&a, Some(2)).unwrap();
    assert!(r2.eq_delta(&Delta::new()));
}

#[test]
fn diff_rejects_non_document() {
    let a = Delta::new().retain(1, none());
    let b = Delta::new().insert(text("x"), none());
    assert!(matches!(a.diff(&b, None), Err(DiffError::NotADocument)));
    assert!(matches!(b.diff(&a, None), Err(DiffError::NotADocument)));
}

#[test]
fn diff_honors_cursor_hint_when_free() {
    let a = Delta::new().insert(text("aaa"), none());
    let b = Delta::new().insert(text("aaaa"), none());
    let r = a.diff(&b, Some(1)).unwrap();
    // the insertion lands at the suggested index, the kept tail is chopped
    let expect = Delta::new().retain(1, none()).insert(text("a"), none());
    assert!(r.eq_delta(&expect));
}

#[test]
fn compose_attributes_merge() {
    let mut italic = none();
    italic.set(String::from("italic"), Scalar::Bool(true));
    let a = Delta::new().retain(1, bold());
    let b = Delta::new().retain(1, italic);
    let r = a.compose(&b);
    let mut both = none();
    both.set(String::from("bold"), Scalar::Bool(true));
    both.set(String::from("italic"), Scalar::Bool(true));
    let expect = Delta::new().retain(1, both);
    assert!(r.eq_delta(&expect));
}

#[test]
fn compose_keeps_null_marker_on_retained_base() {
    let mut clear = none();
    clear.set(String::from("bold"), Scalar::Null);
    let a = Delta::new().retain(1, bold());
    let b = Delta::new().retain(1, clear.clone());
    let r = a.compose(&b);
    let expect = Delta::new().retain(1, clear);
    assert!(r.eq_delta(&expect));
}

#[test]
fn compose_resolves_null_marker_on_insert() {
    let mut clear = none();
    clear.set(String::from("bold"), Scalar::Null);
    let a = Delta::new().insert(text("x"), clear);
    let b = Delta::new().retain(1, none());
    let r = a.compose(&b);
    let expect = Delta::new().insert(text("x"), none());
    assert!(r.eq_delta(&expect));
}

#[test]
fn transform_priority_shadows_attributes() {
    let mut italic = none();
    italic.set(String::from("italic"), Scalar::Bool(true));
    let mut bold_italic = none();
    bold_italic.set(String::from("bold"), Scalar::Bool(false));
    bold_italic.set(String::from("italic"), Scalar::Bool(true));
    let a = Delta::new().retain(1, bold());
    let b = Delta::new().retain(1, bold_italic.clone());
    // with priority, a's keys shadow b's
    let r = a.transform(&b, true);
    let expect = Delta::new().retain(1, italic);
    assert!(r.eq_delta(&expect));
    // without priority, b stands as it is
    let r2 = a.transform(&b, false);
    let expect2 = Delta::new().retain(1, bold_italic);
    assert!(r2.eq_delta(&expect2));
}

#[test]
fn transform_delete_silences_concurrent_edit() {
    let a = Delta::new().delete(3);
    let b = Delta::new().retain(1, bold()).delete(1).retain(1, none());
    let r = a.transform(&b, false);
    assert!(r.eq_delta(&Delta::new()));
}

#[test]
fn diff_is_minimal_not_a_block_replace() {
    // abc -> axbxc: the minimal script inserts two units and deletes none
    let a = Delta::new().insert(text("abc"), none());
    let b = Delta::new().insert(text("axbxc"), none());
    let change = a.diff(&b, None).unwrap();
    let expect = Delta::new()
        .retain(1, none())
        .insert(text("x"), none())
        .retain(1, none())
        .insert(text("x"), none());
    assert!(change.eq_delta(&expect));
    assert!(a.compose(&change).eq_delta(&b));
}

#[test]
fn diff_rewrites_changed_embed() {
    // documents differing only in an embed's value round-trip
    let a = Delta::new().insert(Content::Embed(Scalar::Int(1)), none());
    let b = Delta::new().insert(Content::Embed(Scalar::Int(2)), none());
    let change = a.diff(&b, None).unwrap();
    let expect = Delta::new()
        .insert(Content::Embed(Scalar::Int(2)), none())
        .delete(1);
    assert!(change.eq_delta(&expect));
    assert!(a.compose(&change).eq_delta(&b));
}

#[test]
fn structured_values_ride_through() {
    // an object embed, carried as its canonical text, survives compose
    let img = Scalar::Structured(String::from("{\"image\":\"cat.png\"}"));
    let a = Delta::new().insert(Content::Embed(img.clone()), none());
    let b = Delta::new().retain(1, bold());
    let r = a.compose(&b);
    let expect = Delta::new().insert(Content::Embed(img), bold());
    assert!(r.eq_delta(&expect));
}
