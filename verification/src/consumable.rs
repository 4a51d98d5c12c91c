//! Things that lie on the grid and are used up when a player steps on them.

use vstd::prelude::*;
use vstd::string::*;

verus! {

/// A consumable on the grid.
#[derive(Debug)]
pub struct Consumable {
    pub id: String,
    pub x: usize,
    pub y: usize,
    /// The id of the catalog entry the consumable was made from.
    pub object_id: String,
}

/// A consumable as plain values.
pub ghost struct ConsumableView {
    pub id: Seq<char>,
    pub x: usize,
    pub y: usize,
    pub object_id: Seq<char>,
}

impl View for Consumable {
    type V = ConsumableView;

    open spec fn view(&self) -> ConsumableView {
        ConsumableView { id: self.id@, x: self.x, y: self.y, object_id: self.object_id@ }
    }
}

/// The consumables of a list as plain values.
pub open spec fn consumable_views(s: Seq<Consumable>) -> Seq<ConsumableView> {
    s.map_values(|c: Consumable| c@)
}

impl Clone for Consumable {
    fn clone(&self) -> (r: Self)
        ensures
            r@ == self@,
    {
        Consumable {
            id: self.id.clone(),
            x: self.x,
            y: self.y,
            object_id: self.object_id.clone(),
        }
    }
}

} // verus!
