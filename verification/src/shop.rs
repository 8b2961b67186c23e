//! The in-game item shop: the marker for shop entities and the per-player
//! browsing state.

use vstd::prelude::*;

verus! {

/// Marker for entities that act as a shop.
#[derive(Clone, Copy, Debug)]
pub struct Shop;

/// A player's view into the shop: the category they are browsing, if
/// they have picked one.
#[derive(Debug, Default)]
pub struct ShopState {
    pub selected_category: Option<String>,
}

impl ShopState {
    pub fn new() -> (r: ShopState)
        ensures
            r.selected_category is None,
    {
        ShopState { selected_category: None }
    }
}

} // verus!
