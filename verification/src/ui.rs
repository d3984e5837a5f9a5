//! The operator's sell controls: each button and keyboard shortcut sells a
//! fixed share of the held token.

use vstd::prelude::*;

verus! {

/// The share of the held token, in percent, that the key `key` sells:
/// `W` a quarter, `Q` half, `S` all of it.
pub open spec fn shortcut_percent(key: char) -> Option<u32> {
    if key == 'W' {
        Some(25)
    } else if key == 'Q' {
        Some(50)
    } else if key == 'S' {
        Some(100)
    } else {
        None
    }
}

/// The share of the held token, in percent, that pressing `key` sells, if
/// the key is a sell shortcut.
pub fn sell_percent_for_key(key: char) -> (percent: Option<u32>)
    ensures
        percent == shortcut_percent(key),
{
    if key == 'W' {
        Some(25)
    } else if key == 'Q' {
        Some(50)
    } else if key == 'S' {
        Some(100)
    } else {
        None
    }
}

} // verus!
