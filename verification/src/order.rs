//! Priority relations for the heap: what it means for one element to belong
//! nearer the root than another, and the two relations every ordered type has.

use std::cmp::Ordering;
use vstd::laws_cmp::*;
use vstd::laws_eq::*;
use vstd::prelude::*;
use vstd::std_specs::cmp::OrdSpec;
use vstd::std_specs::cmp::PartialEqSpec;
use vstd::std_specs::cmp::PartialOrdSpec;

verus! {

/// A priority predicate on `T`, handed to a heap when it is built.
pub trait Comparator<T> {
    /// The relation the predicate computes: `a` has higher priority than `b`,
    /// so `a` belongs nearer the root.
    spec fn above(&self, a: T, b: T) -> bool;

    /// Whether `higher` may be called and computes `above`.
    spec fn well_defined(&self) -> bool;

    /// Decides `above` for two elements.
    fn higher(&self, a: &T, b: &T) -> (r: bool)
        requires
            self.well_defined(),
        ensures
            r == self.above(*a, *b),
    ;
}

/// The relation is a strict weak ordering: nothing is above itself, the
/// relation is transitive, and so is its complement.
pub open spec fn is_strict_weak_order<T, C: Comparator<T>>(c: C) -> bool {
    &&& forall|a: T| !#[trigger] c.above(a, a)
    &&& forall|x: T, y: T, z: T|
        #[trigger] c.above(x, y) && #[trigger] c.above(y, z) ==> c.above(x, z)
    &&& forall|x: T, y: T, z: T|
        !#[trigger] c.above(x, y) && !#[trigger] c.above(y, z) ==> !c.above(x, z)
}

/// Smaller elements first: the relation of a min-heap.
#[derive(Clone, Copy, Debug)]
pub struct Ascending;

/// Larger elements first: the relation of a max-heap.
#[derive(Clone, Copy, Debug)]
pub struct Descending;

impl<T: Ord> Comparator<T> for Ascending {
    open spec fn above(&self, a: T, b: T) -> bool {
        a.partial_cmp_spec(&b) == Some(Ordering::Less)
    }

    open spec fn well_defined(&self) -> bool {
        T::obeys_partial_cmp_spec()
    }

    fn higher(&self, a: &T, b: &T) -> (r: bool) {
        *a < *b
    }
}

impl<T: Ord> Comparator<T> for Descending {
    open spec fn above(&self, a: T, b: T) -> bool {
        a.partial_cmp_spec(&b) == Some(Ordering::Greater)
    }

    open spec fn well_defined(&self) -> bool {
        T::obeys_partial_cmp_spec()
    }

    fn higher(&self, a: &T, b: &T) -> (r: bool) {
        *a > *b
    }
}

/// Any function value of two references is a priority predicate, provided
/// it accepts every pair and answers the same for the same pair.
impl<T, F: Fn(&T, &T) -> bool> Comparator<T> for F {
    open spec fn above(&self, a: T, b: T) -> bool {
        call_ensures(*self, (&a, &b), true)
    }

    open spec fn well_defined(&self) -> bool {
        &&& forall|a: T, b: T| #[trigger] call_requires(*self, (&a, &b))
        &&& forall|a: T, b: T|
            !(#[trigger] call_ensures(*self, (&a, &b), true) && call_ensures(
                *self,
                (&a, &b),
                false,
            ))
    }

    fn higher(&self, a: &T, b: &T) -> (r: bool) {
        self(a, b)
    }
}

/// On a totally ordered type, "smaller first" is a strict weak ordering that
/// `<` decides.
pub proof fn lemma_ascending_is_strict_weak_order<T: Ord>()
    requires
        obeys_cmp::<T>(),
    ensures
        Comparator::<T>::well_defined(&Ascending),
        is_strict_weak_order::<T, Ascending>(Ascending),
{
    reveal(obeys_eq_spec_properties);
    reveal(obeys_partial_cmp_spec_properties);
    reveal(obeys_cmp_partial_ord);
    reveal(obeys_cmp_ord);
    let c = Ascending;
    assert forall|a: T| !#[trigger] c.above(a, a) by {
        assert(a.partial_cmp_spec(&a) == Some(a.cmp_spec(&a)));
        assert(a.eq_spec(&a) <==> a.partial_cmp_spec(&a) == Some(Ordering::Equal));
        if a.partial_cmp_spec(&a) == Some(Ordering::Less) {
            assert(a.partial_cmp_spec(&a) == Some(Ordering::Greater));
        }
    }
    assert forall|x: T, y: T, z: T| !#[trigger] c.above(x, y) && !#[trigger] c.above(y, z) implies !c.above(
        x,
        z,
    ) by {
        lemma_complement_is_transitive::<T>(x, y, z);
    }
}

/// On a totally ordered type, "larger first" is a strict weak ordering that
/// `>` decides.
pub proof fn lemma_descending_is_strict_weak_order<T: Ord>()
    requires
        obeys_cmp::<T>(),
    ensures
        Comparator::<T>::well_defined(&Descending),
        is_strict_weak_order::<T, Descending>(Descending),
{
    reveal(obeys_eq_spec_properties);
    reveal(obeys_partial_cmp_spec_properties);
    reveal(obeys_cmp_partial_ord);
    reveal(obeys_cmp_ord);
    let c = Descending;
    assert forall|a: T| !#[trigger] c.above(a, a) by {
        assert(a.partial_cmp_spec(&a) == Some(a.cmp_spec(&a)));
        if a.partial_cmp_spec(&a) == Some(Ordering::Greater) {
            assert(a.partial_cmp_spec(&a) == Some(Ordering::Less));
        }
    }
    assert forall|x: T, y: T, z: T| !#[trigger] c.above(x, y) && !#[trigger] c.above(y, z) implies !c.above(
        x,
        z,
    ) by {
        lemma_complement_is_transitive::<T>(z, y, x);
        assert(x.partial_cmp_spec(&y) == Some(Ordering::Greater) <==> y.partial_cmp_spec(&x) == Some(
            Ordering::Less,
        ));
        assert(y.partial_cmp_spec(&z) == Some(Ordering::Greater) <==> z.partial_cmp_spec(&y) == Some(
            Ordering::Less,
        ));
        assert(x.partial_cmp_spec(&z) == Some(Ordering::Greater) <==> z.partial_cmp_spec(&x) == Some(
            Ordering::Less,
        ));
    }
}

/// In a total order, "not before" is transitive: if `x` is not before `y`
/// and `y` is not before `z`, then `x` is not before `z`.
proof fn lemma_complement_is_transitive<T: Ord>(x: T, y: T, z: T)
    requires
        obeys_cmp::<T>(),
        x.partial_cmp_spec(&y) != Some(Ordering::Less),
        y.partial_cmp_spec(&z) != Some(Ordering::Less),
    ensures
        x.partial_cmp_spec(&z) != Some(Ordering::Less),
{
    reveal(obeys_eq_spec_properties);
    reveal(obeys_partial_cmp_spec_properties);
    reveal(obeys_cmp_partial_ord);
    reveal(obeys_cmp_ord);
    assert(x.partial_cmp_spec(&y) == Some(x.cmp_spec(&y)));
    assert(y.partial_cmp_spec(&z) == Some(y.cmp_spec(&z)));
    assert(x.partial_cmp_spec(&z) == Some(x.cmp_spec(&z)));
    assert(y.partial_cmp_spec(&x) == Some(y.cmp_spec(&x)));
    assert(z.partial_cmp_spec(&y) == Some(z.cmp_spec(&y)));
    assert(z.partial_cmp_spec(&x) == Some(z.cmp_spec(&x)));
    if x.partial_cmp_spec(&z) == Some(Ordering::Less) {
        if x.partial_cmp_spec(&y) == Some(Ordering::Greater) {
            // y before x before z
            assert(y.partial_cmp_spec(&x) == Some(Ordering::Less));
            assert(y.partial_cmp_spec(&z) == Some(Ordering::Less));
        } else if y.partial_cmp_spec(&z) == Some(Ordering::Greater) {
            // x before z before y
            assert(z.partial_cmp_spec(&y) == Some(Ordering::Less));
            assert(x.partial_cmp_spec(&y) == Some(Ordering::Less));
        } else {
            assert(x.eq_spec(&y));
            assert(y.eq_spec(&z));
            assert(x.eq_spec(&z));
        }
    }
}

} // verus!
