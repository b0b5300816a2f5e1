//! The persisted data model's traits: [`SValue`] maps a Rust type to and from
//! a single [`Scalar`] leaf; [`SData`] marks a type that decomposes into a
//! node subtree. [`Bytes`] stores an opaque byte string as one leaf.

use crate::error::{SdbError, SdbResult};
use crate::scalar::{type_label, Scalar, ScalarView};
use vstd::prelude::*;

verus! {

/// A Rust type that maps to and from a single persisted [`Scalar`] (leaf)
/// value.
pub trait SValue: Sized {
    /// The scalar this value is stored as.
    spec fn as_scalar(&self) -> ScalarView;

    /// Whether a stored scalar can be read as this type.
    spec fn accepts(s: ScalarView) -> bool;

    /// `v` is what reading the stored scalar `s` gives.
    spec fn reads_as(s: ScalarView, v: Self) -> bool;

    /// Whether this value is read back as itself from the scalar it is stored
    /// as (not so only where two values share one stored form).
    spec fn round_trips(&self) -> bool;

    /// A value is stored as a scalar that reads back as that value.
    proof fn lemma_round_trip(x: &Self)
        requires
            x.round_trips(),
        ensures
            Self::accepts(x.as_scalar()),
            Self::reads_as(x.as_scalar(), *x),
    ;

    /// Converts this value into its scalar representation.
    fn to_scalar(&self) -> (s: Scalar)
        ensures
            s@ == self.as_scalar(),
    ;

    /// Reconstructs this value from a stored scalar; a scalar of another
    /// variant is a [`TypeMismatch`](SdbError::TypeMismatch).
    fn from_scalar(scalar: &Scalar) -> (r: SdbResult<Self>)
        ensures
            r is Ok <==> Self::accepts(scalar@),
            r matches Ok(v) ==> Self::reads_as(scalar@, v),
    ;
}

/// Composite types (structs and enums) that decompose into a node subtree.
pub trait SData {}

/// The error for reading `found` as the type named `expected`.
pub open spec fn mismatch_spec(expected: &'static str, found: ScalarView) -> SdbError {
    SdbError::TypeMismatch { expected, found: type_label(found) }
}

/// A [`TypeMismatch`](SdbError::TypeMismatch) for reading `found` as the type
/// named `expected`.
pub fn mismatch(expected: &'static str, found: &Scalar) -> (e: SdbError)
    ensures
        e == mismatch_spec(expected, found@),
{
    SdbError::TypeMismatch { expected, found: found.type_str() }
}

impl SValue for Scalar {
    open spec fn as_scalar(&self) -> ScalarView {
        self@
    }

    open spec fn accepts(s: ScalarView) -> bool {
        true
    }

    open spec fn reads_as(s: ScalarView, v: Self) -> bool {
        v@ == s
    }

    open spec fn round_trips(&self) -> bool {
        true
    }

    proof fn lemma_round_trip(x: &Self) {
    }

    fn to_scalar(&self) -> (s: Scalar)
        ensures
            s@ == self@,
    {
        self.duplicate()
    }

    fn from_scalar(scalar: &Scalar) -> (r: SdbResult<Scalar>)
        ensures
            r matches Ok(s) && s@ == scalar@,
    {
        Ok(scalar.duplicate())
    }
}

impl SValue for bool {
    open spec fn as_scalar(&self) -> ScalarView {
        ScalarView::Bool(*self)
    }

    open spec fn accepts(s: ScalarView) -> bool {
        s is Bool
    }

    open spec fn reads_as(s: ScalarView, v: Self) -> bool {
        s == ScalarView::Bool(v)
    }

    open spec fn round_trips(&self) -> bool {
        true
    }

    proof fn lemma_round_trip(x: &Self) {
    }

    fn to_scalar(&self) -> (s: Scalar)
        ensures
            s@ == ScalarView::Bool(*self),
    {
        Scalar::Bool(*self)
    }

    fn from_scalar(scalar: &Scalar) -> (r: SdbResult<bool>)
        ensures
            match scalar@ {
                ScalarView::Bool(x) => r matches Ok(y) && y == x,
                _ => r matches Err(e) && e == mismatch_spec("bool", scalar@),
            },
    {
        match scalar {
            Scalar::Bool(x) => Ok(*x),
            other => Err(mismatch("bool", other)),
        }
    }
}

impl SValue for i8 {
    open spec fn as_scalar(&self) -> ScalarView {
        ScalarView::I8(*self)
    }

    open spec fn accepts(s: ScalarView) -> bool {
        s is I8
    }

    open spec fn reads_as(s: ScalarView, v: Self) -> bool {
        s == ScalarView::I8(v)
    }

    open spec fn round_trips(&self) -> bool {
        true
    }

    proof fn lemma_round_trip(x: &Self) {
    }

    fn to_scalar(&self) -> (s: Scalar)
        ensures
            s@ == ScalarView::I8(*self),
    {
        Scalar::I8(*self)
    }

    fn from_scalar(scalar: &Scalar) -> (r: SdbResult<i8>)
        ensures
            match scalar@ {
                ScalarView::I8(x) => r matches Ok(y) && y == x,
                _ => r matches Err(e) && e == mismatch_spec("i8", scalar@),
            },
    {
        match scalar {
            Scalar::I8(x) => Ok(*x),
            other => Err(mismatch("i8", other)),
        }
    }
}

impl SValue for i16 {
    open spec fn as_scalar(&self) -> ScalarView {
        ScalarView::I16(*self)
    }

    open spec fn accepts(s: ScalarView) -> bool {
        s is I16
    }

    open spec fn reads_as(s: ScalarView, v: Self) -> bool {
        s == ScalarView::I16(v)
    }

    open spec fn round_trips(&self) -> bool {
        true
    }

    proof fn lemma_round_trip(x: &Self) {
    }

    fn to_scalar(&self) -> (s: Scalar)
        ensures
            s@ == ScalarView::I16(*self),
    {
        Scalar::I16(*self)
    }

    fn from_scalar(scalar: &Scalar) -> (r: SdbResult<i16>)
        ensures
            match scalar@ {
                ScalarView::I16(x) => r matches Ok(y) && y == x,
                _ => r matches Err(e) && e == mismatch_spec("i16", scalar@),
            },
    {
        match scalar {
            Scalar::I16(x) => Ok(*x),
            other => Err(mismatch("i16", other)),
        }
    }
}

impl SValue for i32 {
    open spec fn as_scalar(&self) -> ScalarView {
        ScalarView::I32(*self)
    }

    open spec fn accepts(s: ScalarView) -> bool {
        s is I32
    }

    open spec fn reads_as(s: ScalarView, v: Self) -> bool {
        s == ScalarView::I32(v)
    }

    open spec fn round_trips(&self) -> bool {
        true
    }

    proof fn lemma_round_trip(x: &Self) {
    }

    fn to_scalar(&self) -> (s: Scalar)
        ensures
            s@ == ScalarView::I32(*self),
    {
        Scalar::I32(*self)
    }

    fn from_scalar(scalar: &Scalar) -> (r: SdbResult<i32>)
        ensures
            match scalar@ {
                ScalarView::I32(x) => r matches Ok(y) && y == x,
                _ => r matches Err(e) && e == mismatch_spec("i32", scalar@),
            },
    {
        match scalar {
            Scalar::I32(x) => Ok(*x),
            other => Err(mismatch("i32", other)),
        }
    }
}

impl SValue for i64 {
    open spec fn as_scalar(&self) -> ScalarView {
        ScalarView::I64(*self)
    }

    open spec fn accepts(s: ScalarView) -> bool {
        s is I64
    }

    open spec fn reads_as(s: ScalarView, v: Self) -> bool {
        s == ScalarView::I64(v)
    }

    open spec fn round_trips(&self) -> bool {
        true
    }

    proof fn lemma_round_trip(x: &Self) {
    }

    fn to_scalar(&self) -> (s: Scalar)
        ensures
            s@ == ScalarView::I64(*self),
    {
        Scalar::I64(*self)
    }

    fn from_scalar(scalar: &Scalar) -> (r: SdbResult<i64>)
        ensures
            match scalar@ {
                ScalarView::I64(x) => r matches Ok(y) && y == x,
                _ => r matches Err(e) && e == mismatch_spec("i64", scalar@),
            },
    {
        match scalar {
            Scalar::I64(x) => Ok(*x),
            other => Err(mismatch("i64", other)),
        }
    }
}

impl SValue for i128 {
    open spec fn as_scalar(&self) -> ScalarView {
        ScalarView::I128(*self)
    }

    open spec fn accepts(s: ScalarView) -> bool {
        s is I128
    }

    open spec fn reads_as(s: ScalarView, v: Self) -> bool {
        s == ScalarView::I128(v)
    }

    open spec fn round_trips(&self) -> bool {
        true
    }

    proof fn lemma_round_trip(x: &Self) {
    }

    fn to_scalar(&self) -> (s: Scalar)
        ensures
            s@ == ScalarView::I128(*self),
    {
        Scalar::I128(*self)
    }

    fn from_scalar(scalar: &Scalar) -> (r: SdbResult<i128>)
        ensures
            match scalar@ {
                ScalarView::I128(x) => r matches Ok(y) && y == x,
                _ => r matches Err(e) && e == mismatch_spec("i128", scalar@),
            },
    {
        match scalar {
            Scalar::I128(x) => Ok(*x),
            other => Err(mismatch("i128", other)),
        }
    }
}

impl SValue for u8 {
    open spec fn as_scalar(&self) -> ScalarView {
        ScalarView::U8(*self)
    }

    open spec fn accepts(s: ScalarView) -> bool {
        s is U8
    }

    open spec fn reads_as(s: ScalarView, v: Self) -> bool {
        s == ScalarView::U8(v)
    }

    open spec fn round_trips(&self) -> bool {
        true
    }

    proof fn lemma_round_trip(x: &Self) {
    }

    fn to_scalar(&self) -> (s: Scalar)
        ensures
            s@ == ScalarView::U8(*self),
    {
        Scalar::U8(*self)
    }

    fn from_scalar(scalar: &Scalar) -> (r: SdbResult<u8>)
        ensures
            match scalar@ {
                ScalarView::U8(x) => r matches Ok(y) && y == x,
                _ => r matches Err(e) && e == mismatch_spec("u8", scalar@),
            },
    {
        match scalar {
            Scalar::U8(x) => Ok(*x),
            other => Err(mismatch("u8", other)),
        }
    }
}

impl SValue for u16 {
    open spec fn as_scalar(&self) -> ScalarView {
        ScalarView::U16(*self)
    }

    open spec fn accepts(s: ScalarView) -> bool {
        s is U16
    }

    open spec fn reads_as(s: ScalarView, v: Self) -> bool {
        s == ScalarView::U16(v)
    }

    open spec fn round_trips(&self) -> bool {
        true
    }

    proof fn lemma_round_trip(x: &Self) {
    }

    fn to_scalar(&self) -> (s: Scalar)
        ensures
            s@ == ScalarView::U16(*self),
    {
        Scalar::U16(*self)
    }

    fn from_scalar(scalar: &Scalar) -> (r: SdbResult<u16>)
        ensures
            match scalar@ {
                ScalarView::U16(x) => r matches Ok(y) && y == x,
                _ => r matches Err(e) && e == mismatch_spec("u16", scalar@),
            },
    {
        match scalar {
            Scalar::U16(x) => Ok(*x),
            other => Err(mismatch("u16", other)),
        }
    }
}

impl SValue for u32 {
    open spec fn as_scalar(&self) -> ScalarView {
        ScalarView::U32(*self)
    }

    open spec fn accepts(s: ScalarView) -> bool {
        s is U32
    }

    open spec fn reads_as(s: ScalarView, v: Self) -> bool {
        s == ScalarView::U32(v)
    }

    open spec fn round_trips(&self) -> bool {
        true
    }

    proof fn lemma_round_trip(x: &Self) {
    }

    fn to_scalar(&self) -> (s: Scalar)
        ensures
            s@ == ScalarView::U32(*self),
    {
        Scalar::U32(*self)
    }

    fn from_scalar(scalar: &Scalar) -> (r: SdbResult<u32>)
        ensures
            match scalar@ {
                ScalarView::U32(x) => r matches Ok(y) && y == x,
                _ => r matches Err(e) && e == mismatch_spec("u32", scalar@),
            },
    {
        match scalar {
            Scalar::U32(x) => Ok(*x),
            other => Err(mismatch("u32", other)),
        }
    }
}

impl SValue for u64 {
    open spec fn as_scalar(&self) -> ScalarView {
        ScalarView::U64(*self)
    }

    open spec fn accepts(s: ScalarView) -> bool {
        s is U64
    }

    open spec fn reads_as(s: ScalarView, v: Self) -> bool {
        s == ScalarView::U64(v)
    }

    open spec fn round_trips(&self) -> bool {
        true
    }

    proof fn lemma_round_trip(x: &Self) {
    }

    fn to_scalar(&self) -> (s: Scalar)
        ensures
            s@ == ScalarView::U64(*self),
    {
        Scalar::U64(*self)
    }

    fn from_scalar(scalar: &Scalar) -> (r: SdbResult<u64>)
        ensures
            match scalar@ {
                ScalarView::U64(x) => r matches Ok(y) && y == x,
                _ => r matches Err(e) && e == mismatch_spec("u64", scalar@),
            },
    {
        match scalar {
            Scalar::U64(x) => Ok(*x),
            other => Err(mismatch("u64", other)),
        }
    }
}

impl SValue for u128 {
    open spec fn as_scalar(&self) -> ScalarView {
        ScalarView::U128(*self)
    }

    open spec fn accepts(s: ScalarView) -> bool {
        s is U128
    }

    open spec fn reads_as(s: ScalarView, v: Self) -> bool {
        s == ScalarView::U128(v)
    }

    open spec fn round_trips(&self) -> bool {
        true
    }

    proof fn lemma_round_trip(x: &Self) {
    }

    fn to_scalar(&self) -> (s: Scalar)
        ensures
            s@ == ScalarView::U128(*self),
    {
        Scalar::U128(*self)
    }

    fn from_scalar(scalar: &Scalar) -> (r: SdbResult<u128>)
        ensures
            match scalar@ {
                ScalarView::U128(x) => r matches Ok(y) && y == x,
                _ => r matches Err(e) && e == mismatch_spec("u128", scalar@),
            },
    {
        match scalar {
            Scalar::U128(x) => Ok(*x),
            other => Err(mismatch("u128", other)),
        }
    }
}

// Platform-dependent integer widths are stored at a fixed width so the
// on-disk format is portable.
impl SValue for usize {
    open spec fn as_scalar(&self) -> ScalarView {
        ScalarView::U64(*self as u64)
    }

    open spec fn accepts(s: ScalarView) -> bool {
        s is U64
    }

    open spec fn reads_as(s: ScalarView, v: Self) -> bool {
        s matches ScalarView::U64(x) && v == x as usize
    }

    open spec fn round_trips(&self) -> bool {
        true
    }

    proof fn lemma_round_trip(x: &Self) {
    }

    fn to_scalar(&self) -> (s: Scalar)
        ensures
            s@ == ScalarView::U64(*self as u64),
    {
        Scalar::U64(*self as u64)
    }

    fn from_scalar(scalar: &Scalar) -> (r: SdbResult<usize>)
        ensures
            match scalar@ {
                ScalarView::U64(x) => r matches Ok(y) && y == x as usize,
                _ => r matches Err(e) && e == mismatch_spec("usize", scalar@),
            },
    {
        match scalar {
            Scalar::U64(x) => Ok(*x as usize),
            other => Err(mismatch("usize", other)),
        }
    }
}

impl SValue for isize {
    open spec fn as_scalar(&self) -> ScalarView {
        ScalarView::I64(*self as i64)
    }

    open spec fn accepts(s: ScalarView) -> bool {
        s is I64
    }

    open spec fn reads_as(s: ScalarView, v: Self) -> bool {
        s matches ScalarView::I64(x) && v == x as isize
    }

    open spec fn round_trips(&self) -> bool {
        true
    }

    proof fn lemma_round_trip(x: &Self) {
    }

    fn to_scalar(&self) -> (s: Scalar)
        ensures
            s@ == ScalarView::I64(*self as i64),
    {
        Scalar::I64(*self as i64)
    }

    fn from_scalar(scalar: &Scalar) -> (r: SdbResult<isize>)
        ensures
            match scalar@ {
                ScalarView::I64(x) => r matches Ok(y) && y == x as isize,
                _ => r matches Err(e) && e == mismatch_spec("isize", scalar@),
            },
    {
        match scalar {
            Scalar::I64(x) => Ok(*x as isize),
            other => Err(mismatch("isize", other)),
        }
    }
}

impl SValue for String {
    open spec fn as_scalar(&self) -> ScalarView {
        ScalarView::Str(self@)
    }

    open spec fn accepts(s: ScalarView) -> bool {
        s is Str
    }

    open spec fn reads_as(s: ScalarView, v: Self) -> bool {
        s == ScalarView::Str(v@)
    }

    open spec fn round_trips(&self) -> bool {
        true
    }

    proof fn lemma_round_trip(x: &Self) {
    }

    fn to_scalar(&self) -> (s: Scalar)
        ensures
            s@ == ScalarView::Str(self@),
    {
        Scalar::Str(self.clone())
    }

    fn from_scalar(scalar: &Scalar) -> (r: SdbResult<String>)
        ensures
            match scalar@ {
                ScalarView::Str(x) => r matches Ok(y) && y@ == x,
                _ => r matches Err(e) && e == mismatch_spec("str", scalar@),
            },
    {
        match scalar {
            Scalar::Str(x) => Ok(x.clone()),
            other => Err(mismatch("str", other)),
        }
    }
}

impl SValue for Vec<u8> {
    open spec fn as_scalar(&self) -> ScalarView {
        ScalarView::Bytes(self@)
    }

    open spec fn accepts(s: ScalarView) -> bool {
        s is Bytes
    }

    open spec fn reads_as(s: ScalarView, v: Self) -> bool {
        s == ScalarView::Bytes(v@)
    }

    open spec fn round_trips(&self) -> bool {
        true
    }

    proof fn lemma_round_trip(x: &Self) {
    }

    fn to_scalar(&self) -> (s: Scalar)
        ensures
            s@ == ScalarView::Bytes(self@),
    {
        let c = self.clone();
        assert(c@ =~= self@);
        Scalar::Bytes(c)
    }

    fn from_scalar(scalar: &Scalar) -> (r: SdbResult<Vec<u8>>)
        ensures
            match scalar@ {
                ScalarView::Bytes(x) => r matches Ok(y) && y@ == x,
                _ => r matches Err(e) && e == mismatch_spec("bytes", scalar@),
            },
    {
        match scalar {
            Scalar::Bytes(x) => {
                let c = x.clone();
                assert(c@ =~= x@);
                Ok(c)
            },
            other => Err(mismatch("bytes", other)),
        }
    }
}

/// An opaque byte string persisted as a single leaf (where a `Vec<u8>` field
/// of a composite would be one node per byte).
#[derive(Clone, Debug, Default, PartialEq, Eq)]
pub struct Bytes(pub Vec<u8>);

impl SValue for Bytes {
    open spec fn as_scalar(&self) -> ScalarView {
        ScalarView::Bytes(self.0@)
    }

    open spec fn accepts(s: ScalarView) -> bool {
        s is Bytes
    }

    open spec fn reads_as(s: ScalarView, v: Self) -> bool {
        s == ScalarView::Bytes(v.0@)
    }

    open spec fn round_trips(&self) -> bool {
        true
    }

    proof fn lemma_round_trip(x: &Self) {
    }

    fn to_scalar(&self) -> (s: Scalar)
        ensures
            s@ == ScalarView::Bytes(self.0@),
    {
        let c = self.0.clone();
        assert(c@ =~= self.0@);
        Scalar::Bytes(c)
    }

    fn from_scalar(scalar: &Scalar) -> (r: SdbResult<Bytes>)
        ensures
            match scalar@ {
                ScalarView::Bytes(x) => r matches Ok(y) && y.0@ == x,
                _ => r matches Err(e) && e == mismatch_spec("bytes", scalar@),
            },
    {
        match scalar {
            Scalar::Bytes(x) => {
                let c = x.clone();
                assert(c@ =~= x@);
                Ok(Bytes(c))
            },
            other => Err(mismatch("bytes", other)),
        }
    }
}

impl<T: SValue> SValue for Option<T> {
    open spec fn as_scalar(&self) -> ScalarView {
        match self {
            Some(v) => v.as_scalar(),
            None => ScalarView::Null,
        }
    }

    open spec fn accepts(s: ScalarView) -> bool {
        s is Null || T::accepts(s)
    }

    open spec fn reads_as(s: ScalarView, v: Self) -> bool {
        match v {
            None => s is Null,
            Some(x) => !(s is Null) && T::reads_as(s, x),
        }
    }

    /// `None` always does; `Some(x)` when `x` does and is not stored as
    /// `Null` (which reads back as `None`).
    open spec fn round_trips(&self) -> bool {
        match self {
            None => true,
            Some(x) => x.round_trips() && !(x.as_scalar() is Null),
        }
    }

    proof fn lemma_round_trip(x: &Self) {
        match x {
            Some(v) => {
                T::lemma_round_trip(v);
            },
            None => {},
        }
    }

    fn to_scalar(&self) -> (s: Scalar) {
        match self {
            Some(v) => v.to_scalar(),
            None => Scalar::Null,
        }
    }

    fn from_scalar(scalar: &Scalar) -> (r: SdbResult<Option<T>>) {
        match scalar {
            Scalar::Null => Ok(None),
            other => Ok(Some(T::from_scalar(other)?)),
        }
    }
}

impl SData for Bytes {}

} // verus!
