//! The state of the keys that start a recording.
use vstd::prelude::*;

verus! {

/// A key is down in the state that Windows tells of it: its highest bit is set.
pub open spec fn is_down(state: i16) -> bool {
    state < 0
}

/// Whether one of the control keys is down, from the state of each.
pub fn ctrl_held(left: i16, right: i16) -> (r: bool)
    ensures
        r == (is_down(left) || is_down(right)),
{
    let l: u16 = left as u16;
    let k: u16 = right as u16;
    assert((left as u16) & 0x8000 != 0 <==> left < 0) by (bit_vector);
    assert((right as u16) & 0x8000 != 0 <==> right < 0) by (bit_vector);
    l & 0x8000 != 0 || k & 0x8000 != 0
}

/// Whether a control key is down, where the system does not tell the state of its
/// keys: it counts as up.
pub fn ctrl_down() -> (r: bool)
    ensures
        !r,
{
    false
}

} // verus!
