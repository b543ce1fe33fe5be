//! The scalar values that attribute maps and embeds carry.

use vstd::prelude::*;

verus! {

/// Mathematical shape of a [`Scalar`].
pub ghost enum ScalarV {
    Null,
    Bool(bool),
    Int(int),
    Str(Seq<char>),
    Structured(Seq<char>),
}

/// A plain value: the payload of an embed insert, or the value under an
/// attribute key. `Null` is a first-class "clear this formatting key"
/// marker, distinct from the key being absent. A structured value -- an
/// object or array embed such as an image, or a number beyond the signed
/// machine range -- is carried whole as its canonical rendered text: the
/// format treats such payloads as opaque atomic values, so all this
/// library ever does with one is keep it, copy it and compare it, and two
/// `Structured` values are equal exactly when their texts are. The wire
/// layer renders objects with sorted keys, so for values that enter
/// through it text equality is value equality.
pub enum Scalar {
    Null,
    Bool(bool),
    Int(i64),
    Str(String),
    Structured(String),
}

impl View for Scalar {
    type V = ScalarV;

    open spec fn view(&self) -> ScalarV {
        match self {
            Scalar::Null => ScalarV::Null,
            Scalar::Bool(b) => ScalarV::Bool(*b),
            Scalar::Int(i) => ScalarV::Int(*i as int),
            Scalar::Str(s) => ScalarV::Str(s@),
            Scalar::Structured(s) => ScalarV::Structured(s@),
        }
    }
}

impl Clone for Scalar {
    fn clone(&self) -> (r: Self)
        ensures
            r == *self,
    {
        match self {
            Scalar::Null => Scalar::Null,
            Scalar::Bool(b) => Scalar::Bool(*b),
            Scalar::Int(i) => Scalar::Int(*i),
            Scalar::Str(s) => Scalar::Str(s.clone()),
            Scalar::Structured(s) => Scalar::Structured(s.clone()),
        }
    }
}

impl Scalar {
    /// Whether this value is the explicit clear-formatting marker.
    pub fn is_null(&self) -> (r: bool)
        ensures
            r == (self@ == ScalarV::Null),
    {
        matches!(self, Scalar::Null)
    }

    /// Value equality, by content.
    pub fn eq_scalar(&self, other: &Scalar) -> (r: bool)
        ensures
            r == (self@ == other@),
    {
        match (self, other) {
            (Scalar::Null, Scalar::Null) => true,
            (Scalar::Bool(a), Scalar::Bool(b)) => a == b,
            (Scalar::Int(a), Scalar::Int(b)) => a == b,
            (Scalar::Str(a), Scalar::Str(b)) => *a == *b,
            (Scalar::Structured(a), Scalar::Structured(b)) => *a == *b,
            _ => false,
        }
    }
}

} // verus!
