//! Chests: closed they block the way, opened they hand out a consumable and can be
//! walked over.

use vstd::prelude::*;
use vstd::string::*;

verus! {

/// A chest on the grid.
#[derive(Debug)]
pub struct Chest {
    pub id: String,
    pub x: usize,
    pub y: usize,
    /// The id of the catalog entry the chest was made from.
    pub object_id: String,
    /// The id of the entry to draw the open chest with, where it differs.
    pub open_object_id: Option<String>,
    pub is_open: bool,
}

/// A chest as plain values.
pub ghost struct ChestView {
    pub id: Seq<char>,
    pub x: usize,
    pub y: usize,
    pub object_id: Seq<char>,
    pub open_object_id: Option<Seq<char>>,
    pub is_open: bool,
}

impl View for Chest {
    type V = ChestView;

    open spec fn view(&self) -> ChestView {
        ChestView {
            id: self.id@,
            x: self.x,
            y: self.y,
            object_id: self.object_id@,
            open_object_id: match self.open_object_id {
                Some(s) => Some(s@),
                None => None,
            },
            is_open: self.is_open,
        }
    }
}

/// The chests of a list as plain values.
pub open spec fn chest_views(s: Seq<Chest>) -> Seq<ChestView> {
    s.map_values(|c: Chest| c@)
}

impl Clone for Chest {
    fn clone(&self) -> (r: Self)
        ensures
            r@ == self@,
    {
        Chest {
            id: self.id.clone(),
            x: self.x,
            y: self.y,
            object_id: self.object_id.clone(),
            open_object_id: match &self.open_object_id {
                Some(s) => Some(s.clone()),
                None => None,
            },
            is_open: self.is_open,
        }
    }
}

} // verus!
