//! Monoids and lazy maps for range queries over a segment tree: range sum or range minimum,
//! under range addition or range assignment.

use vstd::prelude::*;

verus! {

/// What a node of a range-sum tree holds: the sum over its cells and their number.
#[derive(Clone)]
pub struct Data {
    pub value: isize,
    pub size: usize,
}

impl Data {
    /// One cell that holds 0.
    pub fn one_cell() -> (cell: Data)
        ensures
            cell.value == 0,
            cell.size == 1,
    {
        Data { value: 0, size: 1 }
    }
}

/// A pending assignment over a range: a value for every cell, or nothing to do.
#[derive(Clone)]
pub enum RangeUpdateMappingType {
    Value(isize),
    ID,
}

/// Sums over ranges: nodes are joined by adding sums and sizes.
pub struct RangeSumMonoid;

impl RangeSumMonoid {
    /// The empty range: sum 0 over no cell.
    pub fn identity() -> (e: Data)
        ensures
            e.value == 0,
            e.size == 0,
    {
        Data { value: 0, size: 0 }
    }

    /// Joins two neighbouring ranges.
    pub fn binary_operation(a: &Data, b: &Data) -> (joined: Data)
        requires
            isize::MIN <= a.value + b.value <= isize::MAX,
            a.size + b.size <= usize::MAX,
        ensures
            joined.value == a.value + b.value,
            joined.size == a.size + b.size,
    {
        Data { value: a.value + b.value, size: a.size + b.size }
    }
}

/// Range sum under range addition: a pending map is the number to add to every cell.
pub struct SumAdd;

impl SumAdd {
    /// The map that adds nothing.
    pub fn identity_map() -> (f: isize)
        ensures
            f == 0,
    {
        0
    }

    /// Adds `f` to every cell of the range `x`: its sum grows by `f` for each cell.
    pub fn mapping(f: &isize, x: &Data) -> (mapped: Data)
        requires
            x.size <= isize::MAX,
            isize::MIN <= x.size * *f <= isize::MAX,
            isize::MIN <= x.value + x.size * *f <= isize::MAX,
        ensures
            mapped.value == x.value + x.size * *f,
            mapped.size == x.size,
    {
        Data { value: x.value + x.size as isize * *f, size: x.size }
    }

    /// The map that adds `g` and then `f`.
    pub fn composition(f: &isize, g: &isize) -> (both: isize)
        requires
            isize::MIN <= *f + *g <= isize::MAX,
        ensures
            both == *f + *g,
    {
        *f + *g
    }
}

/// Range sum under range assignment.
pub struct SumUpdate;

impl SumUpdate {
    /// The map that assigns nothing.
    pub fn identity_map() -> (f: RangeUpdateMappingType)
        ensures
            f == RangeUpdateMappingType::ID,
    {
        RangeUpdateMappingType::ID
    }

    /// Assigns the value of `f` to every cell of the range `x`, or leaves `x` as it is where
    /// `f` assigns nothing.
    pub fn mapping(f: &RangeUpdateMappingType, x: &Data) -> (mapped: Data)
        requires
            f is Value ==> x.size <= isize::MAX && isize::MIN <= x.size * f->Value_0
                <= isize::MAX,
        ensures
            mapped.size == x.size,
            mapped.value == match *f {
                RangeUpdateMappingType::Value(value) => x.size * value,
                RangeUpdateMappingType::ID => x.value as int,
            },
    {
        match f {
            RangeUpdateMappingType::Value(value) => Data {
                value: x.size as isize * *value,
                size: x.size,
            },
            RangeUpdateMappingType::ID => Data { value: x.value, size: x.size },
        }
    }

    /// The map that applies `g` and then `f`: the later assignment wins.
    pub fn composition(f: &RangeUpdateMappingType, g: &RangeUpdateMappingType) -> (both:
        RangeUpdateMappingType)
        ensures
            both == if *f is Value {
                *f
            } else {
                *g
            },
    {
        match f {
            RangeUpdateMappingType::Value(value) => RangeUpdateMappingType::Value(*value),
            RangeUpdateMappingType::ID => match g {
                RangeUpdateMappingType::Value(value) => RangeUpdateMappingType::Value(*value),
                RangeUpdateMappingType::ID => RangeUpdateMappingType::ID,
            },
        }
    }
}

/// Range minimum under range addition.
pub struct MinAdd;

impl MinAdd {
    /// The map that adds nothing.
    pub fn identity_map() -> (f: isize)
        ensures
            f == 0,
    {
        0
    }

    /// Adds `f` to the minimum `x` of a range.
    pub fn mapping(f: &isize, x: &isize) -> (mapped: isize)
        requires
            isize::MIN <= *f + *x <= isize::MAX,
        ensures
            mapped == *f + *x,
    {
        *f + *x
    }

    /// The map that adds `g` and then `f`.
    pub fn composition(f: &isize, g: &isize) -> (both: isize)
        requires
            isize::MIN <= *f + *g <= isize::MAX,
        ensures
            both == *f + *g,
    {
        *f + *g
    }
}

/// Range minimum under range assignment. The largest machine integer stands for the map that
/// assigns nothing.
pub struct MinUpdate;

impl MinUpdate {
    /// The map that assigns nothing.
    pub fn identity_map() -> (f: isize)
        ensures
            f == isize::MAX,
    {
        isize::MAX
    }

    /// Assigns `f` to a range with minimum `x`, or leaves `x` where `f` assigns nothing.
    pub fn mapping(f: &isize, x: &isize) -> (mapped: isize)
        ensures
            mapped == if *f != isize::MAX {
                *f
            } else {
                *x
            },
    {
        if *f != isize::MAX {
            *f
        } else {
            *x
        }
    }

    /// The map that applies `g` and then `f`: the later assignment wins.
    pub fn composition(f: &isize, g: &isize) -> (both: isize)
        ensures
            both == if *f == isize::MAX {
                *g
            } else {
                *f
            },
    {
        if *f == isize::MAX {
            *g
        } else {
            *f
        }
    }
}

} // verus!
