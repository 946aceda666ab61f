//! How positions of a value relate to positions of its source.
use vstd::prelude::*;
use crate::order::Ordered;

verus! {

/// The offset along each axis, or `None` where every position may matter.
#[derive(Clone, Copy, Debug, PartialEq, Eq, Hash, PartialOrd, Ord, Structural)]
pub struct PositionRelation {
    pub array: Option<isize>,
    pub packed: Option<isize>,
}

/// The positions that a node of a dependency graph ranges over.
#[derive(Clone, Copy, Debug, PartialEq, Eq, Hash, PartialOrd, Ord, Structural)]
pub struct PositionDomain {
    pub array_start: usize,
    pub array_length: usize,
    pub packed_start: usize,
    pub packed_length: usize,
}

/// The sum of two offsets fits, where both are known.
pub open spec fn axis_fits(left: Option<isize>, right: Option<isize>) -> bool {
    left is Some && right is Some ==> isize::MIN <= left->0 + right->0 <= isize::MAX
}

/// Offsets add up; an unknown offset stays unknown.
pub open spec fn axis_sum(left: Option<isize>, right: Option<isize>) -> Option<isize> {
    if left is Some && right is Some {
        Some((left->0 + right->0) as isize)
    } else {
        None
    }
}

/// Adds two offsets that fit.
pub fn compose_axis(left: Option<isize>, right: Option<isize>) -> (r: Option<isize>)
    requires
        axis_fits(left, right),
    ensures
        r == axis_sum(left, right),
{
    match (left, right) {
        (Some(a), Some(b)) => Some(a + b),
        _ => None,
    }
}

fn axis_composes(left: Option<isize>, right: Option<isize>) -> (r: bool)
    ensures
        r == axis_fits(left, right),
{
    match (left, right) {
        (Some(a), Some(b)) => a.checked_add(b).is_some(),
        _ => true,
    }
}

impl Default for PositionRelation {
    fn default() -> (r: Self)
        ensures
            r == PositionRelation::identity(),
    {
        PositionRelation { array: Some(0), packed: Some(0) }
    }
}

impl PositionRelation {
    /// Every position depends on the same position of the source.
    pub open spec fn identity() -> Self {
        PositionRelation { array: Some(0), packed: Some(0) }
    }

    /// Every position may depend on every position of the source.
    pub open spec fn anything() -> Self {
        PositionRelation { array: None, packed: None }
    }

    pub open spec fn composes(self, other: Self) -> bool {
        axis_fits(self.array, other.array) && axis_fits(self.packed, other.packed)
    }

    pub open spec fn then_by(self, other: Self) -> Self {
        PositionRelation {
            array: axis_sum(self.array, other.array),
            packed: axis_sum(self.packed, other.packed),
        }
    }

    /// Both offsets can be negated.
    pub open spec fn reversible(self) -> bool {
        self.array != Some(isize::MIN) && self.packed != Some(isize::MIN)
    }

    /// Whether both offsets can be negated.
    pub fn can_be_reversed(self) -> (r: bool)
        ensures
            r == self.reversible(),
    {
        self.array != Some(isize::MIN) && self.packed != Some(isize::MIN)
    }

    /// Any position depends on any other.
    pub fn whole() -> (r: Self)
        ensures
            r == Self::anything(),
    {
        PositionRelation { array: None, packed: None }
    }

    /// First `self`, then `other`.
    pub fn compose(self, other: Self) -> (r: Self)
        requires
            self.composes(other),
        ensures
            r == self.then_by(other),
    {
        PositionRelation {
            array: compose_axis(self.array, other.array),
            packed: compose_axis(self.packed, other.packed),
        }
    }

    /// First `self`, then `other`, unless an offset does not fit.
    pub fn checked_compose(self, other: Self) -> (r: Option<Self>)
        ensures
            r is Some <==> self.composes(other),
            r matches Some(s) ==> s == self.then_by(other),
    {
        if axis_composes(self.array, other.array) && axis_composes(self.packed, other.packed) {
            Some(self.compose(other))
        } else {
            None
        }
    }

    /// The same relation seen from the source.
    pub fn reversed(self) -> (r: Self)
        requires
            self.reversible(),
        ensures
            r.array is Some <==> self.array is Some,
            r.packed is Some <==> self.packed is Some,
            self.array is Some ==> r.array == Some((-self.array->0) as isize),
            self.packed is Some ==> r.packed == Some((-self.packed->0) as isize),
    {
        PositionRelation {
            array: match self.array {
                Some(offset) => Some(-offset),
                None => None,
            },
            packed: match self.packed {
                Some(offset) => Some(-offset),
                None => None,
            },
        }
    }

    /// Keeps an offset on which both agree.
    pub open spec fn agreed(self, other: Self) -> Self {
        PositionRelation {
            array: if self.array == other.array {
                self.array
            } else {
                None
            },
            packed: if self.packed == other.packed {
                self.packed
            } else {
                None
            },
        }
    }

    /// What both relations have in common: an axis on which they differ is forgotten.
    pub fn union(self, other: Self) -> (r: Self)
        ensures
            r == self.agreed(other),
    {
        PositionRelation {
            array: if self.array == other.array {
                self.array
            } else {
                None
            },
            packed: if self.packed == other.packed {
                self.packed
            } else {
                None
            },
        }
    }

    /// Forgets the offset along the axis that `step` advances.
    pub open spec fn widened(self, step: Self) -> Self {
        PositionRelation {
            array: if step.array is Some && step.array->0 != 0 {
                None
            } else {
                self.array
            },
            packed: if step.packed is Some && step.packed->0 != 0 {
                None
            } else {
                self.packed
            },
        }
    }
}

/// Forgets the offset along the axis that a repeated step advances.
pub fn widen_repeated_axis(relation: PositionRelation, step: PositionRelation) -> (r:
    PositionRelation)
    ensures
        r == relation.widened(step),
{
    let mut r = relation;
    if let Some(offset) = step.array {
        if offset != 0 {
            r.array = None;
        }
    }
    if let Some(offset) = step.packed {
        if offset != 0 {
            r.packed = None;
        }
    }
    r
}

/// Composition is associative wherever every offset fits.
pub proof fn composition_is_associative(a: PositionRelation, b: PositionRelation, c: PositionRelation)
    requires
        a.composes(b),
        b.composes(c),
        a.then_by(b).composes(c),
        a.composes(b.then_by(c)),
    ensures
        a.then_by(b).then_by(c) == a.then_by(b.then_by(c)),
{
}

/// The identity changes nothing, on either side.
pub proof fn identity_is_neutral(a: PositionRelation)
    ensures
        a.composes(PositionRelation::identity()),
        PositionRelation::identity().composes(a),
        a.then_by(PositionRelation::identity()) == a,
        PositionRelation::identity().then_by(a) == a,
{
}

/// Once every position may matter, nothing narrows it again.
pub proof fn anything_is_absorbing(a: PositionRelation)
    ensures
        a.composes(PositionRelation::anything()),
        PositionRelation::anything().composes(a),
        a.then_by(PositionRelation::anything()) == PositionRelation::anything(),
        PositionRelation::anything().then_by(a) == PositionRelation::anything(),
{
}

/// Agreement is commutative, associative and idempotent.
pub proof fn agreement_is_a_join(a: PositionRelation, b: PositionRelation, c: PositionRelation)
    ensures
        a.agreed(b) == b.agreed(a),
        a.agreed(a) == a,
        a.agreed(b).agreed(c) == a.agreed(b.agreed(c)),
{
}

/// A version together with how its positions are used.
#[derive(Clone, Copy, Debug, PartialEq, Eq, Hash, PartialOrd, Ord, Structural)]
pub struct SourceRef {
    pub version: usize,
    pub relation: PositionRelation,
}

/// Unknown offsets come before known ones.
pub open spec fn axis_lt(a: Option<isize>, b: Option<isize>) -> bool {
    match (a, b) {
        (None, Some(_)) => true,
        (Some(x), Some(y)) => x < y,
        _ => false,
    }
}

/// The order of offsets; an unknown one comes first.
pub fn axis_less(a: Option<isize>, b: Option<isize>) -> (r: bool)
    ensures
        r == axis_lt(a, b),
{
    match (a, b) {
        (None, Some(_)) => true,
        (Some(x), Some(y)) => x < y,
        _ => false,
    }
}

impl Ordered for SourceRef {
    open spec fn lt(self, other: Self) -> bool {
        if self.version != other.version {
            self.version < other.version
        } else if self.relation.array != other.relation.array {
            axis_lt(self.relation.array, other.relation.array)
        } else {
            axis_lt(self.relation.packed, other.relation.packed)
        }
    }

    proof fn lt_irreflexive(a: Self) {
    }

    proof fn lt_transitive(a: Self, b: Self, c: Self) {
    }

    proof fn lt_total(a: Self, b: Self) {
    }

    fn less(self, other: Self) -> (r: bool) {
        if self.version != other.version {
            self.version < other.version
        } else if self.relation.array != other.relation.array {
            axis_less(self.relation.array, other.relation.array)
        } else {
            axis_less(self.relation.packed, other.relation.packed)
        }
    }
}

} // verus!
