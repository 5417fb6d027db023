//! What the graph asks of a weight: it stands for an amount within the
//! bounds of its type, and can be copied, added and compared.

use vstd::prelude::*;

verus! {

/// A weight of vertices and edges.
pub trait Weight: Sized {
    /// The amount that the weight stands for.
    spec fn amount(&self) -> int;

    /// The least amount that a weight of this type can stand for.
    spec fn least() -> int;

    /// The greatest amount that a weight of this type can stand for.
    spec fn limit() -> int;

    /// Every weight stands for an amount between the least and the limit.
    proof fn lemma_bounds(w: Self)
        ensures
            Self::least() <= w.amount() <= Self::limit(),
    ;

    /// A copy of the weight.
    fn duplicate(&self) -> (r: Self)
        ensures
            r == *self,
    ;

    /// The sum of two weights, where the type can hold it.
    fn plus(&self, other: &Self) -> (r: Self)
        requires
            Self::least() <= self.amount() + other.amount() <= Self::limit(),
        ensures
            r.amount() == self.amount() + other.amount(),
    ;

    /// Whether this weight is strictly greater than `other`.
    fn exceeds(&self, other: &Self) -> (r: bool)
        ensures
            r == (self.amount() > other.amount()),
    ;
}

impl Weight for u8 {
    open spec fn amount(&self) -> int {
        *self as int
    }

    open spec fn least() -> int {
        0
    }

    open spec fn limit() -> int {
        u8::MAX as int
    }

    proof fn lemma_bounds(w: Self) {
    }

    fn duplicate(&self) -> (r: Self) {
        *self
    }

    fn plus(&self, other: &Self) -> (r: Self) {
        *self + *other
    }

    fn exceeds(&self, other: &Self) -> (r: bool) {
        *self > *other
    }
}

impl Weight for u16 {
    open spec fn amount(&self) -> int {
        *self as int
    }

    open spec fn least() -> int {
        0
    }

    open spec fn limit() -> int {
        u16::MAX as int
    }

    proof fn lemma_bounds(w: Self) {
    }

    fn duplicate(&self) -> (r: Self) {
        *self
    }

    fn plus(&self, other: &Self) -> (r: Self) {
        *self + *other
    }

    fn exceeds(&self, other: &Self) -> (r: bool) {
        *self > *other
    }
}

impl Weight for u32 {
    open spec fn amount(&self) -> int {
        *self as int
    }

    open spec fn least() -> int {
        0
    }

    open spec fn limit() -> int {
        u32::MAX as int
    }

    proof fn lemma_bounds(w: Self) {
    }

    fn duplicate(&self) -> (r: Self) {
        *self
    }

    fn plus(&self, other: &Self) -> (r: Self) {
        *self + *other
    }

    fn exceeds(&self, other: &Self) -> (r: bool) {
        *self > *other
    }
}

impl Weight for u64 {
    open spec fn amount(&self) -> int {
        *self as int
    }

    open spec fn least() -> int {
        0
    }

    open spec fn limit() -> int {
        u64::MAX as int
    }

    proof fn lemma_bounds(w: Self) {
    }

    fn duplicate(&self) -> (r: Self) {
        *self
    }

    fn plus(&self, other: &Self) -> (r: Self) {
        *self + *other
    }

    fn exceeds(&self, other: &Self) -> (r: bool) {
        *self > *other
    }
}

impl Weight for i32 {
    open spec fn amount(&self) -> int {
        *self as int
    }

    open spec fn least() -> int {
        i32::MIN as int
    }

    open spec fn limit() -> int {
        i32::MAX as int
    }

    proof fn lemma_bounds(w: Self) {
    }

    fn duplicate(&self) -> (r: Self) {
        *self
    }

    fn plus(&self, other: &Self) -> (r: Self) {
        *self + *other
    }

    fn exceeds(&self, other: &Self) -> (r: bool) {
        *self > *other
    }
}

impl Weight for i64 {
    open spec fn amount(&self) -> int {
        *self as int
    }

    open spec fn least() -> int {
        i64::MIN as int
    }

    open spec fn limit() -> int {
        i64::MAX as int
    }

    proof fn lemma_bounds(w: Self) {
    }

    fn duplicate(&self) -> (r: Self) {
        *self
    }

    fn plus(&self, other: &Self) -> (r: Self) {
        *self + *other
    }

    fn exceeds(&self, other: &Self) -> (r: bool) {
        *self > *other
    }
}

} // verus!
