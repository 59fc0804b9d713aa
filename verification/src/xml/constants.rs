use vstd::prelude::*;

verus! {

pub const TYPE_REFERENCE: i32 = 1;
pub const TYPE_ATTRIBUTE: i32 = 2;
pub const TYPE_STRING: i32 = 3;
pub const TYPE_FLOAT: i32 = 4;
pub const TYPE_DIMENSION: i32 = 5;
pub const TYPE_FRACTION: i32 = 6;
pub const TYPE_FIRST_INT: i32 = 16;
pub const TYPE_INT_HEX: i32 = 17;
pub const TYPE_INT_BOOLEAN: i32 = 18;
pub const TYPE_FIRST_COLOR_INT: i32 = 28;
pub const TYPE_LAST_COLOR_INT: i32 = 31;
pub const TYPE_LAST_INT: i32 = 31;
pub const COMPLEX_UNIT_MASK: i32 = 15;
pub const START_DOCUMENT: i32 = 0;
pub const END_DOCUMENT: i32 = 1;
pub const START_TAG: i32 = 2;
pub const END_TAG: i32 = 3;
pub const TEXT: i32 = 4;

/// The unit names of dimension values, by unit index.
pub open spec fn spec_dimension_unit(i: int) -> Seq<char> {
    if i == 0 {
        "px"@
    } else if i == 1 {
        "dip"@
    } else if i == 2 {
        "sp"@
    } else if i == 3 {
        "pt"@
    } else if i == 4 {
        "in"@
    } else if i == 5 {
        "mm"@
    } else {
        ""@
    }
}

/// The unit names of fraction values, by unit index.
pub open spec fn spec_fraction_unit(i: int) -> Seq<char> {
    if i == 0 {
        "%"@
    } else if i == 1 {
        "%p"@
    } else {
        ""@
    }
}

/// The unit name of dimension values with unit index `i` (of eight).
pub fn dimension_unit(i: usize) -> (u: &'static str)
    requires
        i < 8,
    ensures
        u@ == spec_dimension_unit(i as int),
{
    if i == 0 {
        "px"
    } else if i == 1 {
        "dip"
    } else if i == 2 {
        "sp"
    } else if i == 3 {
        "pt"
    } else if i == 4 {
        "in"
    } else if i == 5 {
        "mm"
    } else {
        ""
    }
}

/// The unit name of fraction values with unit index `i` (of eight).
pub fn fraction_unit(i: usize) -> (u: &'static str)
    requires
        i < 8,
    ensures
        u@ == spec_fraction_unit(i as int),
{
    if i == 0 {
        "%"
    } else if i == 1 {
        "%p"
    } else {
        ""
    }
}

} // verus!
