//! Integer defaults shared by the configuration types.
use vstd::prelude::*;

verus! {

/// Label-inheritance threshold that disables inheritance (the default, and
/// the value a stored configuration without the field reads as).
pub fn default_label_inherit_threshold() -> (t: u32)
    ensures
        t == u32::MAX,
{
    u32::MAX
}

/// Global emotion policy of the exact base equation: no decay of the global
/// state and no bounding of it.
#[derive(Debug, Clone, Copy, Default)]
pub struct IdentityPolicy;

} // verus!
