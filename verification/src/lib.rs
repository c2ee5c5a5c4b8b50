pub mod counter;
pub mod data_structure;
pub mod intermediate_representation;
pub mod node;

use vstd::prelude::*;

verus! {

/// Signed literal values encode a variable id in their absolute value and a
/// polarity in their sign; zero is never a literal.
pub open spec fn is_literal_value(l: int) -> bool {
    l != 0
}

/// The variable id of a signed literal value.
pub open spec fn var_of(l: int) -> int {
    if l < 0 { -l } else { l }
}

/// Exec counterpart of [`var_of`]: the absolute value of a nonzero literal.
pub fn literal_var(l: i32) -> (v: u32)
    requires
        l != 0,
    ensures
        v == var_of(l as int),
{
    if l < 0 { ((-(l as i64)) as u32) } else { l as u32 }
}

} // verus!
