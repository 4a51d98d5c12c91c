//! The catalog of the tile templates.

use crate::config::{lemma_filter_step, ref_views, views, GameConfig};
use crate::game_object::{GameObject, GameObjectView, SpriteCoord};
use crate::game_object_registry::{
    catalog_insert, distinct_ids, find, find_index, has_id, index_of, insert_object,
};
use crate::tile::{is_tile_of, Tile, TileView};
use vstd::prelude::*;
use vstd::string::*;

verus! {

/// Whether the entry is a tile template.
pub open spec fn is_tile_entry(o: GameObjectView) -> bool {
    o.object_type == "tile"@
}

/// Whether the entry is the template of a floor.
pub open spec fn is_floor_entry(o: GameObjectView) -> bool {
    o.walkable && o.object_type == "tile"@
}

/// Whether the entry is the template of a wall.
pub open spec fn is_wall_entry(o: GameObjectView) -> bool {
    !o.walkable && o.object_type == "tile"@
}

/// The catalog that registering the tile templates among the given entries, one after
/// the other, leads to.
pub open spec fn tile_catalog_of(objs: Seq<GameObjectView>) -> Seq<GameObjectView>
    decreases objs.len(),
{
    if objs.len() == 0 {
        Seq::empty()
    } else if is_tile_entry(objs.last()) {
        catalog_insert(tile_catalog_of(objs.drop_last()), objs.last())
    } else {
        tile_catalog_of(objs.drop_last())
    }
}

/// Whether all entries are tile templates.
pub open spec fn tiles_only(entries: Seq<GameObjectView>) -> bool {
    forall|k: int| 0 <= k < entries.len() ==> is_tile_entry(#[trigger] entries[k])
}

/// Registering a tile template among tile templates leaves tile templates only.
pub proof fn lemma_insert_tile(c: Seq<GameObjectView>, o: GameObjectView)
    requires
        tiles_only(c),
        is_tile_entry(o),
    ensures
        tiles_only(catalog_insert(c, o)),
{
    let after = catalog_insert(c, o);
    assert forall|k: int| 0 <= k < after.len() implies is_tile_entry(#[trigger] after[k]) by {
        if has_id(c, o.id) {
            let at = index_of(c, o.id);
            if k != at {
                assert(after[k] == c[k]);
            }
        } else if k < c.len() {
            assert(after[k] == c[k]);
        }
    }
}

/// The catalog of the tile templates among the given entries holds tile templates only.
pub proof fn lemma_tile_catalog(objs: Seq<GameObjectView>)
    ensures
        tiles_only(tile_catalog_of(objs)),
    decreases objs.len(),
{
    if objs.len() > 0 {
        lemma_tile_catalog(objs.drop_last());
        if is_tile_entry(objs.last()) {
            lemma_insert_tile(tile_catalog_of(objs.drop_last()), objs.last());
        }
    }
}

/// Whether each cell of `tiles` is made from the template at its place in `entries`.
pub open spec fn tiles_of(tiles: Seq<Tile>, entries: Seq<GameObjectView>) -> bool {
    &&& tiles.len() == entries.len()
    &&& forall|k: int| 0 <= k < tiles.len() ==> is_tile_of(#[trigger] tiles[k]@, entries[k])
}

/// The catalog of the tile templates, each under its id. It holds tile templates only.
pub struct TileRegistry {
    objects: Vec<GameObject>,
}

impl View for TileRegistry {
    type V = Seq<GameObjectView>;

    closed spec fn view(&self) -> Seq<GameObjectView> {
        views(self.objects@)
    }
}

impl TileRegistry {
    #[verifier::type_invariant]
    spec fn tiles_with_distinct_ids(&self) -> bool {
        distinct_ids(views(self.objects@)) && tiles_only(views(self.objects@))
    }

    /// An empty catalog.
    pub fn new() -> (r: Self)
        ensures
            r@ == Seq::<GameObjectView>::empty(),
    {
        let r = TileRegistry { objects: Vec::new() };
        assert(r@ =~= Seq::<GameObjectView>::empty());
        r
    }

    /// The catalog of the tile templates of a configuration; of two templates with one id
    /// the later one counts.
    pub fn load_from_config(config: &GameConfig) -> (r: Self)
        ensures
            r@ == tile_catalog_of(views(config.game_objects@)),
            distinct_ids(r@),
            tiles_only(r@),
    {
        let ghost all = views(config.game_objects@);
        let mut objects: Vec<GameObject> = Vec::new();
        let mut i: usize = 0;
        assert(all.take(0) =~= Seq::empty());
        assert(views(objects@) =~= Seq::empty());
        while i < config.game_objects.len()
            invariant
                i <= config.game_objects.len(),
                all == views(config.game_objects@),
                views(objects@) == tile_catalog_of(all.take(i as int)),
                distinct_ids(views(objects@)),
                tiles_only(views(objects@)),
            decreases config.game_objects.len() - i,
        {
            assert(all.take(i + 1).drop_last() =~= all.take(i as int));
            proof {
                lemma_tile_catalog(all.take(i + 1));
            }
            if config.game_objects[i].is_type("tile") {
                insert_object(&mut objects, &config.game_objects[i]);
            }
            i += 1;
        }
        assert(all.take(i as int) =~= all);
        TileRegistry { objects }
    }

    /// The template with the given id.
    pub fn get_object(&self, id: &str) -> (r: Option<&GameObject>)
        ensures
            distinct_ids(self@),
            match r {
                Some(o) => find(self@, id@) == Some(o@),
                None => find(self@, id@) is None,
            },
    {
        proof {
            use_type_invariant(self);
        }
        match find_index(&self.objects, id) {
            Some(i) => {
                assert(self@[i as int].id == id@);
                Some(&self.objects[i])
            },
            None => {
                assert forall|j: int| 0 <= j < self@.len() implies self@[j].id != id@ by {
                    assert(self@[j] == self.objects[j]@);
                }
                None
            },
        }
    }

    /// A cell made from the template with the given id, drawn with one of its sprites.
    pub fn get_tile(&self, id: &str) -> (r: Option<Tile>)
        ensures
            match r {
                Some(t) => find(self@, id@) is Some && is_tile_of(t@, find(self@, id@)->0),
                None => find(self@, id@) is None,
            },
    {
        match self.get_object(id) {
            Some(obj) => Some(Tile::from_object(obj)),
            None => None,
        }
    }

    /// All templates: tile templates, each under an id of its own.
    pub fn get_all_tiles(&self) -> (r: Vec<&GameObject>)
        ensures
            distinct_ids(self@),
            tiles_only(self@),
            ref_views(r@) == self@,
            forall|k: int| 0 <= k < r.len() ==> is_tile_entry(#[trigger] r[k]@),
    {
        proof {
            use_type_invariant(self);
        }
        let mut out: Vec<&GameObject> = Vec::new();
        let mut i: usize = 0;
        while i < self.objects.len()
            invariant
                i <= self.objects.len(),
                out.len() == i,
                forall|k: int| 0 <= k < i ==> out[k]@ == self.objects[k]@,
            decreases self.objects.len() - i,
        {
            out.push(&self.objects[i]);
            i += 1;
        }
        assert(ref_views(out@) =~= self@);
        assert forall|k: int| 0 <= k < out.len() implies is_tile_entry(#[trigger] out[k]@) by {
            assert(self@[k] == self.objects[k]@);
        }
        out
    }

    /// A cell of each floor template, in the order of the catalog.
    pub fn get_walkable_tiles(&self) -> (r: Vec<Tile>)
        ensures
            tiles_only(self@),
            tiles_of(r@, self@.filter(|o: GameObjectView| is_floor_entry(o))),
            forall|k: int| 0 <= k < r.len() ==> r[k].walkable,
    {
        proof {
            use_type_invariant(self);
        }
        let ghost p = |o: GameObjectView| is_floor_entry(o);
        let ghost all = self@;
        let mut out: Vec<Tile> = Vec::new();
        let mut i: usize = 0;
        proof {
            reveal(Seq::filter);
            assert(all.take(0) =~= Seq::empty());
        }
        while i < self.objects.len()
            invariant
                i <= self.objects.len(),
                all == views(self.objects@),
                p == (|o: GameObjectView| is_floor_entry(o)),
                tiles_of(out@, all.take(i as int).filter(p)),
                forall|k: int| 0 <= k < out.len() ==> out[k].walkable,
            decreases self.objects.len() - i,
        {
            proof {
                lemma_filter_step(all, i as int, p);
            }
            let obj = &self.objects[i];
            if obj.walkable && obj.is_type("tile") {
                out.push(Tile::from_object(obj));
            }
            i += 1;
        }
        assert(all.take(i as int) =~= all);
        out
    }

    /// A cell of each wall template, in the order of the catalog.
    pub fn get_wall_tiles(&self) -> (r: Vec<Tile>)
        ensures
            tiles_only(self@),
            tiles_of(r@, self@.filter(|o: GameObjectView| is_wall_entry(o))),
            forall|k: int| 0 <= k < r.len() ==> !r[k].walkable,
    {
        proof {
            use_type_invariant(self);
        }
        let ghost p = |o: GameObjectView| is_wall_entry(o);
        let ghost all = self@;
        let mut out: Vec<Tile> = Vec::new();
        let mut i: usize = 0;
        proof {
            reveal(Seq::filter);
            assert(all.take(0) =~= Seq::empty());
        }
        while i < self.objects.len()
            invariant
                i <= self.objects.len(),
                all == views(self.objects@),
                p == (|o: GameObjectView| is_wall_entry(o)),
                tiles_of(out@, all.take(i as int).filter(p)),
                forall|k: int| 0 <= k < out.len() ==> !out[k].walkable,
            decreases self.objects.len() - i,
        {
            proof {
                lemma_filter_step(all, i as int, p);
            }
            let obj = &self.objects[i];
            if !obj.walkable && obj.is_type("tile") {
                out.push(Tile::from_object(obj));
            }
            i += 1;
        }
        assert(all.take(i as int) =~= all);
        out
    }

    /// A cell of the template `wall_dirt_top`, or the plain top of a dirt wall where the
    /// catalog has no such template.
    pub fn get_wall_dirt_top(&self) -> (r: Tile)
        ensures
            match find(self@, "wall_dirt_top"@) {
                Some(o) => is_tile_of(r@, o),
                None => r@ == Tile::plain(false, 0, 0),
            },
    {
        match self.get_tile("wall_dirt_top") {
            Some(t) => t,
            None => Tile::new(false, 0, 0),
        }
    }

    /// A cell of the template `floor_dark`, or the plain dark floor where the catalog has
    /// no such template.
    pub fn get_floor_dark(&self) -> (r: Tile)
        ensures
            match find(self@, "floor_dark"@) {
                Some(o) => is_tile_of(r@, o),
                None => r@ == Tile::plain(true, 0, 6),
            },
    {
        match self.get_tile("floor_dark") {
            Some(t) => t,
            None => Tile::new(true, 0, 6),
        }
    }

    /// A cell of the template `floor_stone`, or a stone floor drawn with one of the three
    /// stone sprites where the catalog has no such template.
    pub fn get_floor_stone(&self) -> (r: Tile)
        ensures
            match find(self@, "floor_stone"@) {
                Some(o) => is_tile_of(r@, o),
                None => r.walkable && r.tile_id@ == Seq::<char>::empty() && r.sprites@ == seq![
                    SpriteCoord { x: 1, y: 6 },
                    SpriteCoord { x: 2, y: 6 },
                    SpriteCoord { x: 3, y: 6 },
                ] && r.sprites@.contains(r@.sprite()),
            },
    {
        match self.get_tile("floor_stone") {
            Some(t) => t,
            None => {
                let mut sprites: Vec<SpriteCoord> = Vec::new();
                sprites.push(SpriteCoord { x: 1, y: 6 });
                sprites.push(SpriteCoord { x: 2, y: 6 });
                sprites.push(SpriteCoord { x: 3, y: 6 });
                assert(sprites@ =~= seq![
                    SpriteCoord { x: 1, y: 6 },
                    SpriteCoord { x: 2, y: 6 },
                    SpriteCoord { x: 3, y: 6 },
                ]);
                Tile::with_sprites(true, sprites)
            },
        }
    }

    /// The stone floor; see [`TileRegistry::get_floor_stone`].
    pub fn get_floor_stone1(&self) -> (r: Tile)
        ensures
            match find(self@, "floor_stone"@) {
                Some(o) => is_tile_of(r@, o),
                None => r.walkable && r.sprites@.len() == 3 && r.sprites@.contains(r@.sprite()),
            },
    {
        self.get_floor_stone()
    }

    /// The stone floor; see [`TileRegistry::get_floor_stone`].
    pub fn get_floor_stone2(&self) -> (r: Tile)
        ensures
            match find(self@, "floor_stone"@) {
                Some(o) => is_tile_of(r@, o),
                None => r.walkable && r.sprites@.len() == 3 && r.sprites@.contains(r@.sprite()),
            },
    {
        self.get_floor_stone()
    }

    /// The stone floor; see [`TileRegistry::get_floor_stone`].
    pub fn get_floor_stone3(&self) -> (r: Tile)
        ensures
            match find(self@, "floor_stone"@) {
                Some(o) => is_tile_of(r@, o),
                None => r.walkable && r.sprites@.len() == 3 && r.sprites@.contains(r@.sprite()),
            },
    {
        self.get_floor_stone()
    }
}

} // verus!
