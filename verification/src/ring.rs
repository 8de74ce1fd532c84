//! The lattice algebra that values and masks take part in when tries are combined.
use vstd::prelude::*;
use crate::utils::{BitMask, ByteMask, words_bit};

verus! {

/// The result of an algebraic operation on two elements.
#[derive(Clone, Copy, Debug, PartialEq, Eq)]
pub enum AlgebraicResult<V> {
    /// The result is empty: there is no element
    Empty,
    /// The result is identical to one or both operands; the mask says which
    /// ([`SELF_IDENT`], [`COUNTER_IDENT`], or both)
    Identity(u64),
    /// The result is a new element
    Element(V),
}

/// The result is identical to the operand the operation was called on
pub const SELF_IDENT: u64 = 1;

/// The result is identical to the other operand
pub const COUNTER_IDENT: u64 = 2;

impl<V> AlgebraicResult<V> {
    /// Returns `true` if the result is empty
    pub fn is_empty(&self) -> (r: bool)
        ensures
            r == (*self is Empty),
    {
        match self {
            AlgebraicResult::Empty => true,
            _ => false,
        }
    }

    /// Returns `true` if the result is identical to an operand
    pub fn is_identity(&self) -> (r: bool)
        ensures
            r == (*self is Identity),
    {
        match self {
            AlgebraicResult::Identity(_) => true,
            _ => false,
        }
    }

    /// Returns `true` if the result is a new element
    pub fn is_element(&self) -> (r: bool)
        ensures
            r == (*self is Element),
    {
        match self {
            AlgebraicResult::Element(_) => true,
            _ => false,
        }
    }
}

/// A type whose elements can be joined (least upper bound) and met (greatest lower bound).
pub trait Lattice: Sized {
    /// The result of joining `self` with `other`.
    spec fn join_spec(&self, other: &Self) -> AlgebraicResult<Self>;

    /// The result of meeting `self` with `other`.
    spec fn meet_spec(&self, other: &Self) -> AlgebraicResult<Self>;

    /// Join (least upper bound) of `self` and `other`
    fn pjoin(&self, other: &Self) -> (r: AlgebraicResult<Self>)
        ensures
            r == self.join_spec(other),
    ;

    /// Meet (greatest lower bound) of `self` and `other`
    fn pmeet(&self, other: &Self) -> (r: AlgebraicResult<Self>)
        ensures
            r == self.meet_spec(other),
    ;
}

/// A lattice with a subtraction, the relative complement.
pub trait DistributiveLattice: Lattice {
    /// The result of subtracting `other` from `self`.
    spec fn subtract_spec(&self, other: &Self) -> AlgebraicResult<Self>;

    /// The part of `self` that is not in `other`
    fn psubtract(&self, other: &Self) -> (r: AlgebraicResult<Self>)
        ensures
            r == self.subtract_spec(other),
    ;
}

/// The value kept when two values are joined: the left one where only it is present, the right
/// one where only it is present, and what the lattice join gives where both are.
pub open spec fn join_values<V: Lattice>(l: Option<V>, r: Option<V>) -> Option<V> {
    match l {
        Some(a) => match r {
            Some(b) => match a.join_spec(&b) {
                AlgebraicResult::Empty => None,
                AlgebraicResult::Identity(mask) => if mask & SELF_IDENT != 0 {
                    Some(a)
                } else {
                    Some(b)
                },
                AlgebraicResult::Element(v) => Some(v),
            },
            None => Some(a),
        },
        None => r,
    }
}

/// The value kept when two values are met: none unless both are present, and then what the
/// lattice meet gives.
pub open spec fn meet_values<V: Lattice>(l: Option<V>, r: Option<V>) -> Option<V> {
    match l {
        Some(a) => match r {
            Some(b) => match a.meet_spec(&b) {
                AlgebraicResult::Empty => None,
                AlgebraicResult::Identity(mask) => if mask & SELF_IDENT != 0 {
                    Some(a)
                } else {
                    Some(b)
                },
                AlgebraicResult::Element(v) => Some(v),
            },
            None => None,
        },
        None => None,
    }
}

/// The value kept when one value is subtracted from another: the left one where the right is
/// absent, none where the left is absent, and what the lattice subtraction gives where both are.
pub open spec fn subtract_values<V: DistributiveLattice>(l: Option<V>, r: Option<V>) -> Option<V> {
    match l {
        Some(a) => match r {
            Some(b) => match a.subtract_spec(&b) {
                AlgebraicResult::Empty => None,
                AlgebraicResult::Identity(mask) => if mask & SELF_IDENT != 0 {
                    Some(a)
                } else {
                    None
                },
                AlgebraicResult::Element(v) => Some(v),
            },
            None => Some(a),
        },
        None => None,
    }
}

/// The value behind an optional reference.
pub open spec fn opt_value<V>(o: Option<&V>) -> Option<V> {
    match o {
        Some(v) => Some(*v),
        None => None,
    }
}

/// Joining two values: the lattice join of two present values, otherwise the present one.
pub fn join_value<V: Lattice + Copy>(l: Option<&V>, r: Option<&V>) -> (out: Option<V>)
    ensures
        out == join_values(opt_value(l), opt_value(r)),
{
    match l {
        Some(a) => match r {
            Some(b) => match a.pjoin(b) {
                AlgebraicResult::Empty => None,
                AlgebraicResult::Identity(mask) => if mask & SELF_IDENT != 0 {
                    Some(*a)
                } else {
                    Some(*b)
                },
                AlgebraicResult::Element(v) => Some(v),
            },
            None => Some(*a),
        },
        None => match r {
            Some(b) => Some(*b),
            None => None,
        },
    }
}

/// Meeting two values: the lattice meet of two present values, otherwise none.
pub fn meet_value<V: Lattice + Copy>(l: Option<&V>, r: Option<&V>) -> (out: Option<V>)
    ensures
        out == meet_values(opt_value(l), opt_value(r)),
{
    match l {
        Some(a) => match r {
            Some(b) => match a.pmeet(b) {
                AlgebraicResult::Empty => None,
                AlgebraicResult::Identity(mask) => if mask & SELF_IDENT != 0 {
                    Some(*a)
                } else {
                    Some(*b)
                },
                AlgebraicResult::Element(v) => Some(v),
            },
            None => None,
        },
        None => None,
    }
}

/// Subtracting one value from another: the lattice subtraction of two present values, the left
/// value if the right is absent, and none if the left is absent.
pub fn subtract_value<V: DistributiveLattice + Copy>(l: Option<&V>, r: Option<&V>) -> (out: Option<V>)
    ensures
        out == subtract_values(opt_value(l), opt_value(r)),
{
    match l {
        Some(a) => match r {
            Some(b) => match a.psubtract(b) {
                AlgebraicResult::Empty => None,
                AlgebraicResult::Identity(mask) => if mask & SELF_IDENT != 0 {
                    Some(*a)
                } else {
                    None
                },
                AlgebraicResult::Element(v) => Some(v),
            },
            None => Some(*a),
        },
        None => None,
    }
}

/// The identity result a plain value gives when combined with itself or another value: the
/// left operand, and also the right one when the two are equal.
pub open spec fn plain_identity<V>(a: V, b: V) -> AlgebraicResult<V> {
    if a == b {
        AlgebraicResult::Identity(SELF_IDENT | COUNTER_IDENT)
    } else {
        AlgebraicResult::Identity(SELF_IDENT)
    }
}

/// Subtracting plain values: equal values cancel, and otherwise the left value stays.
pub open spec fn plain_subtract<V>(a: V, b: V) -> AlgebraicResult<V> {
    if a == b {
        AlgebraicResult::Empty
    } else {
        AlgebraicResult::Identity(SELF_IDENT)
    }
}

} // verus!
verus! {

impl Lattice for u8 {
    open spec fn join_spec(&self, other: &Self) -> AlgebraicResult<Self> {
        plain_identity(*self, *other)
    }

    open spec fn meet_spec(&self, other: &Self) -> AlgebraicResult<Self> {
        plain_identity(*self, *other)
    }

    fn pjoin(&self, other: &Self) -> (r: AlgebraicResult<Self>) {
        if *self == *other {
            AlgebraicResult::Identity(SELF_IDENT | COUNTER_IDENT)
        } else {
            AlgebraicResult::Identity(SELF_IDENT)
        }
    }

    fn pmeet(&self, other: &Self) -> (r: AlgebraicResult<Self>) {
        if *self == *other {
            AlgebraicResult::Identity(SELF_IDENT | COUNTER_IDENT)
        } else {
            AlgebraicResult::Identity(SELF_IDENT)
        }
    }
}

impl DistributiveLattice for u8 {
    open spec fn subtract_spec(&self, other: &Self) -> AlgebraicResult<Self> {
        plain_subtract(*self, *other)
    }

    fn psubtract(&self, other: &Self) -> (r: AlgebraicResult<Self>) {
        if *self == *other {
            AlgebraicResult::Empty
        } else {
            AlgebraicResult::Identity(SELF_IDENT)
        }
    }
}

impl Lattice for u16 {
    open spec fn join_spec(&self, other: &Self) -> AlgebraicResult<Self> {
        plain_identity(*self, *other)
    }

    open spec fn meet_spec(&self, other: &Self) -> AlgebraicResult<Self> {
        plain_identity(*self, *other)
    }

    fn pjoin(&self, other: &Self) -> (r: AlgebraicResult<Self>) {
        if *self == *other {
            AlgebraicResult::Identity(SELF_IDENT | COUNTER_IDENT)
        } else {
            AlgebraicResult::Identity(SELF_IDENT)
        }
    }

    fn pmeet(&self, other: &Self) -> (r: AlgebraicResult<Self>) {
        if *self == *other {
            AlgebraicResult::Identity(SELF_IDENT | COUNTER_IDENT)
        } else {
            AlgebraicResult::Identity(SELF_IDENT)
        }
    }
}

impl DistributiveLattice for u16 {
    open spec fn subtract_spec(&self, other: &Self) -> AlgebraicResult<Self> {
        plain_subtract(*self, *other)
    }

    fn psubtract(&self, other: &Self) -> (r: AlgebraicResult<Self>) {
        if *self == *other {
            AlgebraicResult::Empty
        } else {
            AlgebraicResult::Identity(SELF_IDENT)
        }
    }
}

impl Lattice for u32 {
    open spec fn join_spec(&self, other: &Self) -> AlgebraicResult<Self> {
        plain_identity(*self, *other)
    }

    open spec fn meet_spec(&self, other: &Self) -> AlgebraicResult<Self> {
        plain_identity(*self, *other)
    }

    fn pjoin(&self, other: &Self) -> (r: AlgebraicResult<Self>) {
        if *self == *other {
            AlgebraicResult::Identity(SELF_IDENT | COUNTER_IDENT)
        } else {
            AlgebraicResult::Identity(SELF_IDENT)
        }
    }

    fn pmeet(&self, other: &Self) -> (r: AlgebraicResult<Self>) {
        if *self == *other {
            AlgebraicResult::Identity(SELF_IDENT | COUNTER_IDENT)
        } else {
            AlgebraicResult::Identity(SELF_IDENT)
        }
    }
}

impl DistributiveLattice for u32 {
    open spec fn subtract_spec(&self, other: &Self) -> AlgebraicResult<Self> {
        plain_subtract(*self, *other)
    }

    fn psubtract(&self, other: &Self) -> (r: AlgebraicResult<Self>) {
        if *self == *other {
            AlgebraicResult::Empty
        } else {
            AlgebraicResult::Identity(SELF_IDENT)
        }
    }
}

impl Lattice for u64 {
    open spec fn join_spec(&self, other: &Self) -> AlgebraicResult<Self> {
        plain_identity(*self, *other)
    }

    open spec fn meet_spec(&self, other: &Self) -> AlgebraicResult<Self> {
        plain_identity(*self, *other)
    }

    fn pjoin(&self, other: &Self) -> (r: AlgebraicResult<Self>) {
        if *self == *other {
            AlgebraicResult::Identity(SELF_IDENT | COUNTER_IDENT)
        } else {
            AlgebraicResult::Identity(SELF_IDENT)
        }
    }

    fn pmeet(&self, other: &Self) -> (r: AlgebraicResult<Self>) {
        if *self == *other {
            AlgebraicResult::Identity(SELF_IDENT | COUNTER_IDENT)
        } else {
            AlgebraicResult::Identity(SELF_IDENT)
        }
    }
}

impl DistributiveLattice for u64 {
    open spec fn subtract_spec(&self, other: &Self) -> AlgebraicResult<Self> {
        plain_subtract(*self, *other)
    }

    fn psubtract(&self, other: &Self) -> (r: AlgebraicResult<Self>) {
        if *self == *other {
            AlgebraicResult::Empty
        } else {
            AlgebraicResult::Identity(SELF_IDENT)
        }
    }
}

impl Lattice for u128 {
    open spec fn join_spec(&self, other: &Self) -> AlgebraicResult<Self> {
        plain_identity(*self, *other)
    }

    open spec fn meet_spec(&self, other: &Self) -> AlgebraicResult<Self> {
        plain_identity(*self, *other)
    }

    fn pjoin(&self, other: &Self) -> (r: AlgebraicResult<Self>) {
        if *self == *other {
            AlgebraicResult::Identity(SELF_IDENT | COUNTER_IDENT)
        } else {
            AlgebraicResult::Identity(SELF_IDENT)
        }
    }

    fn pmeet(&self, other: &Self) -> (r: AlgebraicResult<Self>) {
        if *self == *other {
            AlgebraicResult::Identity(SELF_IDENT | COUNTER_IDENT)
        } else {
            AlgebraicResult::Identity(SELF_IDENT)
        }
    }
}

impl DistributiveLattice for u128 {
    open spec fn subtract_spec(&self, other: &Self) -> AlgebraicResult<Self> {
        plain_subtract(*self, *other)
    }

    fn psubtract(&self, other: &Self) -> (r: AlgebraicResult<Self>) {
        if *self == *other {
            AlgebraicResult::Empty
        } else {
            AlgebraicResult::Identity(SELF_IDENT)
        }
    }
}

impl Lattice for usize {
    open spec fn join_spec(&self, other: &Self) -> AlgebraicResult<Self> {
        plain_identity(*self, *other)
    }

    open spec fn meet_spec(&self, other: &Self) -> AlgebraicResult<Self> {
        plain_identity(*self, *other)
    }

    fn pjoin(&self, other: &Self) -> (r: AlgebraicResult<Self>) {
        if *self == *other {
            AlgebraicResult::Identity(SELF_IDENT | COUNTER_IDENT)
        } else {
            AlgebraicResult::Identity(SELF_IDENT)
        }
    }

    fn pmeet(&self, other: &Self) -> (r: AlgebraicResult<Self>) {
        if *self == *other {
            AlgebraicResult::Identity(SELF_IDENT | COUNTER_IDENT)
        } else {
            AlgebraicResult::Identity(SELF_IDENT)
        }
    }
}

impl DistributiveLattice for usize {
    open spec fn subtract_spec(&self, other: &Self) -> AlgebraicResult<Self> {
        plain_subtract(*self, *other)
    }

    fn psubtract(&self, other: &Self) -> (r: AlgebraicResult<Self>) {
        if *self == *other {
            AlgebraicResult::Empty
        } else {
            AlgebraicResult::Identity(SELF_IDENT)
        }
    }
}

impl Lattice for i8 {
    open spec fn join_spec(&self, other: &Self) -> AlgebraicResult<Self> {
        plain_identity(*self, *other)
    }

    open spec fn meet_spec(&self, other: &Self) -> AlgebraicResult<Self> {
        plain_identity(*self, *other)
    }

    fn pjoin(&self, other: &Self) -> (r: AlgebraicResult<Self>) {
        if *self == *other {
            AlgebraicResult::Identity(SELF_IDENT | COUNTER_IDENT)
        } else {
            AlgebraicResult::Identity(SELF_IDENT)
        }
    }

    fn pmeet(&self, other: &Self) -> (r: AlgebraicResult<Self>) {
        if *self == *other {
            AlgebraicResult::Identity(SELF_IDENT | COUNTER_IDENT)
        } else {
            AlgebraicResult::Identity(SELF_IDENT)
        }
    }
}

impl DistributiveLattice for i8 {
    open spec fn subtract_spec(&self, other: &Self) -> AlgebraicResult<Self> {
        plain_subtract(*self, *other)
    }

    fn psubtract(&self, other: &Self) -> (r: AlgebraicResult<Self>) {
        if *self == *other {
            AlgebraicResult::Empty
        } else {
            AlgebraicResult::Identity(SELF_IDENT)
        }
    }
}

impl Lattice for i16 {
    open spec fn join_spec(&self, other: &Self) -> AlgebraicResult<Self> {
        plain_identity(*self, *other)
    }

    open spec fn meet_spec(&self, other: &Self) -> AlgebraicResult<Self> {
        plain_identity(*self, *other)
    }

    fn pjoin(&self, other: &Self) -> (r: AlgebraicResult<Self>) {
        if *self == *other {
            AlgebraicResult::Identity(SELF_IDENT | COUNTER_IDENT)
        } else {
            AlgebraicResult::Identity(SELF_IDENT)
        }
    }

    fn pmeet(&self, other: &Self) -> (r: AlgebraicResult<Self>) {
        if *self == *other {
            AlgebraicResult::Identity(SELF_IDENT | COUNTER_IDENT)
        } else {
            AlgebraicResult::Identity(SELF_IDENT)
        }
    }
}

impl DistributiveLattice for i16 {
    open spec fn subtract_spec(&self, other: &Self) -> AlgebraicResult<Self> {
        plain_subtract(*self, *other)
    }

    fn psubtract(&self, other: &Self) -> (r: AlgebraicResult<Self>) {
        if *self == *other {
            AlgebraicResult::Empty
        } else {
            AlgebraicResult::Identity(SELF_IDENT)
        }
    }
}

impl Lattice for i32 {
    open spec fn join_spec(&self, other: &Self) -> AlgebraicResult<Self> {
        plain_identity(*self, *other)
    }

    open spec fn meet_spec(&self, other: &Self) -> AlgebraicResult<Self> {
        plain_identity(*self, *other)
    }

    fn pjoin(&self, other: &Self) -> (r: AlgebraicResult<Self>) {
        if *self == *other {
            AlgebraicResult::Identity(SELF_IDENT | COUNTER_IDENT)
        } else {
            AlgebraicResult::Identity(SELF_IDENT)
        }
    }

    fn pmeet(&self, other: &Self) -> (r: AlgebraicResult<Self>) {
        if *self == *other {
            AlgebraicResult::Identity(SELF_IDENT | COUNTER_IDENT)
        } else {
            AlgebraicResult::Identity(SELF_IDENT)
        }
    }
}

impl DistributiveLattice for i32 {
    open spec fn subtract_spec(&self, other: &Self) -> AlgebraicResult<Self> {
        plain_subtract(*self, *other)
    }

    fn psubtract(&self, other: &Self) -> (r: AlgebraicResult<Self>) {
        if *self == *other {
            AlgebraicResult::Empty
        } else {
            AlgebraicResult::Identity(SELF_IDENT)
        }
    }
}

impl Lattice for i64 {
    open spec fn join_spec(&self, other: &Self) -> AlgebraicResult<Self> {
        plain_identity(*self, *other)
    }

    open spec fn meet_spec(&self, other: &Self) -> AlgebraicResult<Self> {
        plain_identity(*self, *other)
    }

    fn pjoin(&self, other: &Self) -> (r: AlgebraicResult<Self>) {
        if *self == *other {
            AlgebraicResult::Identity(SELF_IDENT | COUNTER_IDENT)
        } else {
            AlgebraicResult::Identity(SELF_IDENT)
        }
    }

    fn pmeet(&self, other: &Self) -> (r: AlgebraicResult<Self>) {
        if *self == *other {
            AlgebraicResult::Identity(SELF_IDENT | COUNTER_IDENT)
        } else {
            AlgebraicResult::Identity(SELF_IDENT)
        }
    }
}

impl DistributiveLattice for i64 {
    open spec fn subtract_spec(&self, other: &Self) -> AlgebraicResult<Self> {
        plain_subtract(*self, *other)
    }

    fn psubtract(&self, other: &Self) -> (r: AlgebraicResult<Self>) {
        if *self == *other {
            AlgebraicResult::Empty
        } else {
            AlgebraicResult::Identity(SELF_IDENT)
        }
    }
}

impl Lattice for i128 {
    open spec fn join_spec(&self, other: &Self) -> AlgebraicResult<Self> {
        plain_identity(*self, *other)
    }

    open spec fn meet_spec(&self, other: &Self) -> AlgebraicResult<Self> {
        plain_identity(*self, *other)
    }

    fn pjoin(&self, other: &Self) -> (r: AlgebraicResult<Self>) {
        if *self == *other {
            AlgebraicResult::Identity(SELF_IDENT | COUNTER_IDENT)
        } else {
            AlgebraicResult::Identity(SELF_IDENT)
        }
    }

    fn pmeet(&self, other: &Self) -> (r: AlgebraicResult<Self>) {
        if *self == *other {
            AlgebraicResult::Identity(SELF_IDENT | COUNTER_IDENT)
        } else {
            AlgebraicResult::Identity(SELF_IDENT)
        }
    }
}

impl DistributiveLattice for i128 {
    open spec fn subtract_spec(&self, other: &Self) -> AlgebraicResult<Self> {
        plain_subtract(*self, *other)
    }

    fn psubtract(&self, other: &Self) -> (r: AlgebraicResult<Self>) {
        if *self == *other {
            AlgebraicResult::Empty
        } else {
            AlgebraicResult::Identity(SELF_IDENT)
        }
    }
}

impl Lattice for isize {
    open spec fn join_spec(&self, other: &Self) -> AlgebraicResult<Self> {
        plain_identity(*self, *other)
    }

    open spec fn meet_spec(&self, other: &Self) -> AlgebraicResult<Self> {
        plain_identity(*self, *other)
    }

    fn pjoin(&self, other: &Self) -> (r: AlgebraicResult<Self>) {
        if *self == *other {
            AlgebraicResult::Identity(SELF_IDENT | COUNTER_IDENT)
        } else {
            AlgebraicResult::Identity(SELF_IDENT)
        }
    }

    fn pmeet(&self, other: &Self) -> (r: AlgebraicResult<Self>) {
        if *self == *other {
            AlgebraicResult::Identity(SELF_IDENT | COUNTER_IDENT)
        } else {
            AlgebraicResult::Identity(SELF_IDENT)
        }
    }
}

impl DistributiveLattice for isize {
    open spec fn subtract_spec(&self, other: &Self) -> AlgebraicResult<Self> {
        plain_subtract(*self, *other)
    }

    fn psubtract(&self, other: &Self) -> (r: AlgebraicResult<Self>) {
        if *self == *other {
            AlgebraicResult::Empty
        } else {
            AlgebraicResult::Identity(SELF_IDENT)
        }
    }
}

impl Lattice for bool {
    open spec fn join_spec(&self, other: &Self) -> AlgebraicResult<Self> {
        plain_identity(*self, *other)
    }

    open spec fn meet_spec(&self, other: &Self) -> AlgebraicResult<Self> {
        plain_identity(*self, *other)
    }

    fn pjoin(&self, other: &Self) -> (r: AlgebraicResult<Self>) {
        if *self == *other {
            AlgebraicResult::Identity(SELF_IDENT | COUNTER_IDENT)
        } else {
            AlgebraicResult::Identity(SELF_IDENT)
        }
    }

    fn pmeet(&self, other: &Self) -> (r: AlgebraicResult<Self>) {
        if *self == *other {
            AlgebraicResult::Identity(SELF_IDENT | COUNTER_IDENT)
        } else {
            AlgebraicResult::Identity(SELF_IDENT)
        }
    }
}

impl DistributiveLattice for bool {
    open spec fn subtract_spec(&self, other: &Self) -> AlgebraicResult<Self> {
        plain_subtract(*self, *other)
    }

    fn psubtract(&self, other: &Self) -> (r: AlgebraicResult<Self>) {
        if *self == *other {
            AlgebraicResult::Empty
        } else {
            AlgebraicResult::Identity(SELF_IDENT)
        }
    }
}

impl Lattice for char {
    open spec fn join_spec(&self, other: &Self) -> AlgebraicResult<Self> {
        plain_identity(*self, *other)
    }

    open spec fn meet_spec(&self, other: &Self) -> AlgebraicResult<Self> {
        plain_identity(*self, *other)
    }

    fn pjoin(&self, other: &Self) -> (r: AlgebraicResult<Self>) {
        if *self == *other {
            AlgebraicResult::Identity(SELF_IDENT | COUNTER_IDENT)
        } else {
            AlgebraicResult::Identity(SELF_IDENT)
        }
    }

    fn pmeet(&self, other: &Self) -> (r: AlgebraicResult<Self>) {
        if *self == *other {
            AlgebraicResult::Identity(SELF_IDENT | COUNTER_IDENT)
        } else {
            AlgebraicResult::Identity(SELF_IDENT)
        }
    }
}

impl DistributiveLattice for char {
    open spec fn subtract_spec(&self, other: &Self) -> AlgebraicResult<Self> {
        plain_subtract(*self, *other)
    }

    fn psubtract(&self, other: &Self) -> (r: AlgebraicResult<Self>) {
        if *self == *other {
            AlgebraicResult::Empty
        } else {
            AlgebraicResult::Identity(SELF_IDENT)
        }
    }
}

impl Lattice for () {
    open spec fn join_spec(&self, other: &Self) -> AlgebraicResult<Self> {
        AlgebraicResult::Identity(SELF_IDENT | COUNTER_IDENT)
    }

    open spec fn meet_spec(&self, other: &Self) -> AlgebraicResult<Self> {
        AlgebraicResult::Identity(SELF_IDENT | COUNTER_IDENT)
    }

    fn pjoin(&self, other: &Self) -> (r: AlgebraicResult<Self>) {
        AlgebraicResult::Identity(SELF_IDENT | COUNTER_IDENT)
    }

    fn pmeet(&self, other: &Self) -> (r: AlgebraicResult<Self>) {
        AlgebraicResult::Identity(SELF_IDENT | COUNTER_IDENT)
    }
}

impl DistributiveLattice for () {
    open spec fn subtract_spec(&self, other: &Self) -> AlgebraicResult<Self> {
        AlgebraicResult::Empty
    }

    fn psubtract(&self, other: &Self) -> (r: AlgebraicResult<Self>) {
        AlgebraicResult::Empty
    }
}

impl<'a> Lattice for &'a str {
    open spec fn join_spec(&self, other: &Self) -> AlgebraicResult<Self> {
        AlgebraicResult::Identity(SELF_IDENT)
    }

    open spec fn meet_spec(&self, other: &Self) -> AlgebraicResult<Self> {
        AlgebraicResult::Identity(SELF_IDENT)
    }

    fn pjoin(&self, other: &Self) -> (r: AlgebraicResult<Self>) {
        AlgebraicResult::Identity(SELF_IDENT)
    }

    fn pmeet(&self, other: &Self) -> (r: AlgebraicResult<Self>) {
        AlgebraicResult::Identity(SELF_IDENT)
    }
}

} // verus!

verus! {

/// Word `i` of `a` combined with word `i` of `b` by `op`: `|` (0), `&` (1) or `& !` (2).
pub open spec fn word_op(x: u64, y: u64, op: u8) -> u64 {
    if op == 0 {
        x | y
    } else if op == 1 {
        x & y
    } else {
        x & !y
    }
}

/// Whether `r` holds the words of `a` and `b` combined by `op`.
pub open spec fn is_words_op<const N: usize>(r: [u64; N], a: [u64; N], b: [u64; N], op: u8) -> bool {
    forall|i: int| 0 <= i < N ==> #[trigger] r@[i] == word_op(a@[i], b@[i], op)
}

/// The words of `a` or-ed with the words of `b`.
pub open spec fn words_or<const N: usize>(a: [u64; N], b: [u64; N]) -> [u64; N] {
    choose|r: [u64; N]| is_words_op(r, a, b, 0)
}

/// The words of `a` and-ed with the words of `b`.
pub open spec fn words_and<const N: usize>(a: [u64; N], b: [u64; N]) -> [u64; N] {
    choose|r: [u64; N]| is_words_op(r, a, b, 1)
}

/// The words of `a` with the bits of `b` cleared.
pub open spec fn words_andn<const N: usize>(a: [u64; N], b: [u64; N]) -> [u64; N] {
    choose|r: [u64; N]| is_words_op(r, a, b, 2)
}

/// How a mask that came out of an operation on `a` and `b` is reported: empty, identical to one
/// or both operands, or a new element.
pub open spec fn mask_result<const N: usize>(result: [u64; N], a: [u64; N], b: [u64; N]) -> AlgebraicResult<[u64; N]> {
    if forall|i: int| !#[trigger] words_bit(result@, i) {
        AlgebraicResult::Empty
    } else if result == a || result == b {
        AlgebraicResult::Identity(
            (if result == a {
                SELF_IDENT
            } else {
                0
            }) | (if result == b {
                COUNTER_IDENT
            } else {
                0
            }),
        )
    } else {
        AlgebraicResult::Element(result)
    }
}

/// Word-wise combination of two word arrays, `op` naming `|` (0), `&` (1) or `& !` (2).
fn combine_words<const N: usize>(a: &[u64; N], b: &[u64; N], op: u8) -> (r: [u64; N])
    requires
        op < 3,
    ensures
        op == 0 ==> r == words_or(*a, *b),
        op == 1 ==> r == words_and(*a, *b),
        op == 2 ==> r == words_andn(*a, *b),
{
    let mut r = *a;
    let mut w: usize = 0;
    while w < N
        invariant
            w <= N,
            r@.len() == N,
            a@.len() == N,
            b@.len() == N,
            forall|x: int| 0 <= x < w ==> #[trigger] r@[x] == word_op(a@[x], b@[x], op),
        decreases N - w,
    {
        let x = a[w];
        let y = b[w];
        r[w] = if op == 0 {
            x | y
        } else if op == 1 {
            x & y
        } else {
            x & !y
        };
        w = w + 1;
    }
    proof {
        broadcast use vstd::array::axiom_array_ext_equal;

        assert(is_words_op(r, *a, *b, op));
        if op == 0 {
            let c = words_or(*a, *b);
            assert(is_words_op(c, *a, *b, 0));
            assert(r =~= c);
        } else if op == 1 {
            let c = words_and(*a, *b);
            assert(is_words_op(c, *a, *b, 1));
            assert(r =~= c);
        } else {
            let c = words_andn(*a, *b);
            assert(is_words_op(c, *a, *b, 2));
            assert(r =~= c);
        }
    }
    r
}

/// Whether two word arrays are equal
fn words_equal<const N: usize>(a: &[u64; N], b: &[u64; N]) -> (r: bool)
    ensures
        r == (*a == *b),
{
    let mut w: usize = 0;
    while w < N
        invariant
            w <= N,
            a@.len() == N,
            b@.len() == N,
            forall|x: int| 0 <= x < w ==> a@[x] == b@[x],
        decreases N - w,
    {
        if a[w] != b[w] {
            return false;
        }
        w = w + 1;
    }
    proof {
        broadcast use vstd::array::axiom_array_ext_equal;

        assert(*a =~= *b);
    }
    true
}

/// Composes the result of an algebraic operation on masks
fn bitmask_algebraic_result<const N: usize>(result: [u64; N], self_mask: &[u64; N], other_mask: &[u64; N]) -> (r: AlgebraicResult<[u64; N]>)
    ensures
        r == mask_result(result, *self_mask, *other_mask),
{
    if result.is_empty_mask() {
        proof {
            assert forall|i: int| !#[trigger] words_bit(result@, i) by {
                assert(!result.bit_at(i));
            }
        }
        return AlgebraicResult::Empty;
    }
    proof {
        let i = choose|i: int| #[trigger] result.bit_at(i);
        assert(words_bit(result@, i));
    }
    let mut mask: u64 = 0;
    let same_self = words_equal(&result, self_mask);
    let same_other = words_equal(&result, other_mask);
    if same_self {
        mask = SELF_IDENT;
    }
    if same_other {
        mask = mask | COUNTER_IDENT;
    }
    proof {
        assert((1u64 | 2u64) == 3u64) by (bit_vector);
        assert((0u64 | 2u64) == 2u64) by (bit_vector);
        assert((1u64 | 0u64) == 1u64) by (bit_vector);
        assert((0u64 | 0u64) == 0u64) by (bit_vector);
    }
    if mask > 0 {
        AlgebraicResult::Identity(mask)
    } else {
        AlgebraicResult::Element(result)
    }
}

impl<const N: usize> Lattice for [u64; N] {
    open spec fn join_spec(&self, other: &Self) -> AlgebraicResult<Self> {
        mask_result(words_or(*self, *other), *self, *other)
    }

    open spec fn meet_spec(&self, other: &Self) -> AlgebraicResult<Self> {
        mask_result(words_and(*self, *other), *self, *other)
    }

    fn pjoin(&self, other: &Self) -> (r: AlgebraicResult<Self>) {
        let result = combine_words(self, other, 0);
        bitmask_algebraic_result(result, self, other)
    }

    fn pmeet(&self, other: &Self) -> (r: AlgebraicResult<Self>) {
        let result = combine_words(self, other, 1);
        bitmask_algebraic_result(result, self, other)
    }
}

impl<const N: usize> DistributiveLattice for [u64; N] {
    open spec fn subtract_spec(&self, other: &Self) -> AlgebraicResult<Self> {
        mask_result(words_andn(*self, *other), *self, *other)
    }

    fn psubtract(&self, other: &Self) -> (r: AlgebraicResult<Self>) {
        let result = combine_words(self, other, 2);
        bitmask_algebraic_result(result, self, other)
    }
}

/// A mask result over the words of byte masks, carried back to byte masks.
pub open spec fn byte_mask_result(r: AlgebraicResult<[u64; 4]>) -> AlgebraicResult<ByteMask> {
    match r {
        AlgebraicResult::Empty => AlgebraicResult::Empty,
        AlgebraicResult::Identity(m) => AlgebraicResult::Identity(m),
        AlgebraicResult::Element(w) => AlgebraicResult::Element(ByteMask(w)),
    }
}

fn to_byte_mask_result(r: AlgebraicResult<[u64; 4]>) -> (out: AlgebraicResult<ByteMask>)
    ensures
        out == byte_mask_result(r),
{
    match r {
        AlgebraicResult::Empty => AlgebraicResult::Empty,
        AlgebraicResult::Identity(m) => AlgebraicResult::Identity(m),
        AlgebraicResult::Element(w) => AlgebraicResult::Element(ByteMask(w)),
    }
}

impl Lattice for ByteMask {
    open spec fn join_spec(&self, other: &Self) -> AlgebraicResult<Self> {
        byte_mask_result(self.0.join_spec(&other.0))
    }

    open spec fn meet_spec(&self, other: &Self) -> AlgebraicResult<Self> {
        byte_mask_result(self.0.meet_spec(&other.0))
    }

    fn pjoin(&self, other: &Self) -> (r: AlgebraicResult<Self>) {
        to_byte_mask_result(self.0.pjoin(&other.0))
    }

    fn pmeet(&self, other: &Self) -> (r: AlgebraicResult<Self>) {
        to_byte_mask_result(self.0.pmeet(&other.0))
    }
}

impl DistributiveLattice for ByteMask {
    open spec fn subtract_spec(&self, other: &Self) -> AlgebraicResult<Self> {
        byte_mask_result(self.0.subtract_spec(&other.0))
    }

    fn psubtract(&self, other: &Self) -> (r: AlgebraicResult<Self>) {
        to_byte_mask_result(self.0.psubtract(&other.0))
    }
}

} // verus!
