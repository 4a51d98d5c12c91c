//! The cells of the level grid.

use crate::game_object::{clone_sprites, GameObject, GameObjectView, SpriteCoord};
use crate::rng::random_index;
use vstd::prelude::*;
use vstd::string::*;

verus! {

/// One cell of the grid: whether it can be walked on, the template it was made from and
/// the sprite chosen for it.
#[derive(Debug)]
pub struct Tile {
    pub walkable: bool,
    pub tile_id: String,
    pub sprite_x: u32,
    pub sprite_y: u32,
    /// The sprites the cell may be drawn with.
    pub sprites: Vec<SpriteCoord>,
}

/// A cell as plain values.
pub ghost struct TileView {
    pub walkable: bool,
    pub tile_id: Seq<char>,
    pub sprite_x: u32,
    pub sprite_y: u32,
    pub sprites: Seq<SpriteCoord>,
}

impl View for Tile {
    type V = TileView;

    open spec fn view(&self) -> TileView {
        TileView {
            walkable: self.walkable,
            tile_id: self.tile_id@,
            sprite_x: self.sprite_x,
            sprite_y: self.sprite_y,
            sprites: self.sprites@,
        }
    }
}

impl TileView {
    /// The sprite the cell is drawn with.
    pub open spec fn sprite(self) -> SpriteCoord {
        SpriteCoord { x: self.sprite_x, y: self.sprite_y }
    }

    /// The same cell drawn with another sprite.
    pub open spec fn with_sprite(self, s: SpriteCoord) -> TileView {
        TileView { sprite_x: s.x, sprite_y: s.y, ..self }
    }

    /// Whether the two cells differ at most in the sprite chosen among their sprites.
    pub open spec fn same_but_sprite(self, other: TileView) -> bool {
        &&& other == self.with_sprite(other.sprite())
        &&& if self.sprites.len() > 0 {
            self.sprites.contains(other.sprite())
        } else {
            other.sprite() == self.sprite()
        }
    }
}

/// The sprite of a template that has no sprite list: its single coordinate, else the
/// first cell of the sheet.
pub open spec fn single_sprite(o: GameObjectView) -> SpriteCoord {
    SpriteCoord {
        x: if o.sprite_x is Some {
            o.sprite_x->0
        } else {
            0
        },
        y: if o.sprite_y is Some {
            o.sprite_y->0
        } else {
            0
        },
    }
}

/// The cell made from the template `o`, drawn with its sprite number `pick` where the
/// template has that many sprites.
pub open spec fn tile_of(o: GameObjectView, pick: int) -> TileView {
    let sprites = o.sprite_list();
    let chosen = if 0 <= pick < sprites.len() {
        sprites[pick]
    } else {
        single_sprite(o)
    };
    TileView {
        walkable: o.walkable,
        tile_id: o.id,
        sprite_x: chosen.x,
        sprite_y: chosen.y,
        sprites,
    }
}

/// Whether `t` is a cell made from the template `o`, with any of its sprites.
pub open spec fn is_tile_of(t: TileView, o: GameObjectView) -> bool {
    if o.sprite_list().len() > 0 {
        exists|pick: int| 0 <= pick < o.sprite_list().len() && t == tile_of(o, pick)
    } else {
        t == tile_of(o, 0)
    }
}

impl Clone for Tile {
    fn clone(&self) -> (r: Self)
        ensures
            r@ == self@,
    {
        Tile {
            walkable: self.walkable,
            tile_id: self.tile_id.clone(),
            sprite_x: self.sprite_x,
            sprite_y: self.sprite_y,
            sprites: clone_sprites(&self.sprites),
        }
    }
}

impl Tile {
    /// A cell with one sprite and no template.
    pub fn new(walkable: bool, sprite_x: u32, sprite_y: u32) -> (r: Self)
        ensures
            r@ == (TileView {
                walkable,
                tile_id: Seq::empty(),
                sprite_x,
                sprite_y,
                sprites: seq![SpriteCoord { x: sprite_x, y: sprite_y }],
            }),
    {
        let mut sprites: Vec<SpriteCoord> = Vec::new();
        sprites.push(SpriteCoord { x: sprite_x, y: sprite_y });
        let r = Tile { walkable, tile_id: String::new(), sprite_x, sprite_y, sprites };
        assert(r@.sprites =~= seq![SpriteCoord { x: sprite_x, y: sprite_y }]);
        r
    }

    /// The cell made from a template, drawn with sprite number `pick` of the template
    /// where it has that many.
    pub fn from_object_with(obj: &GameObject, pick: usize) -> (r: Self)
        ensures
            r@ == tile_of(obj@, pick as int),
    {
        let sprites = obj.get_sprites_vec();
        let chosen = if pick < sprites.len() {
            sprites[pick]
        } else {
            SpriteCoord {
                x: match obj.sprite_x {
                    Some(x) => x,
                    None => 0,
                },
                y: match obj.sprite_y {
                    Some(y) => y,
                    None => 0,
                },
            }
        };
        Tile {
            walkable: obj.walkable,
            tile_id: obj.id.clone(),
            sprite_x: chosen.x,
            sprite_y: chosen.y,
            sprites,
        }
    }

    /// The cell made from a template, drawn with one of its sprites chosen at random.
    pub fn from_object(obj: &GameObject) -> (r: Self)
        ensures
            is_tile_of(r@, obj@),
    {
        let count = obj.get_sprites_vec().len();
        if count > 0 {
            let mut rng = rand::thread_rng();
            let pick = random_index(&mut rng, count);
            Tile::from_object_with(obj, pick)
        } else {
            Tile::from_object_with(obj, 0)
        }
    }

    /// Draws the cell with its sprite number `pick`.
    pub fn select_sprite(&mut self, pick: usize)
        requires
            pick < old(self).sprites.len(),
        ensures
            final(self)@ == old(self)@.with_sprite(old(self).sprites[pick as int]),
    {
        let chosen = self.sprites[pick];
        self.sprite_x = chosen.x;
        self.sprite_y = chosen.y;
    }

    /// A cell without template that is drawn with one of the given sprites, chosen at
    /// random, or with the first cell of the sheet where none is given.
    pub fn with_sprites(walkable: bool, sprites: Vec<SpriteCoord>) -> (r: Self)
        ensures
            r.walkable == walkable,
            r.tile_id@ == Seq::<char>::empty(),
            r.sprites@ == sprites@,
            if sprites.len() > 0 {
                sprites@.contains(r@.sprite())
            } else {
                r@.sprite() == (SpriteCoord { x: 0, y: 0 })
            },
    {
        let mut r = Tile { walkable, tile_id: String::new(), sprite_x: 0, sprite_y: 0, sprites };
        r.randomize_sprite();
        r
    }

    /// Picks anew, at random, the sprite the cell is drawn with. A cell without sprites
    /// stays as it is.
    pub fn randomize_sprite(&mut self)
        ensures
            old(self)@.same_but_sprite(final(self)@),
    {
        if self.sprites.len() > 0 {
            let mut rng = rand::thread_rng();
            let pick = random_index(&mut rng, self.sprites.len());
            self.select_sprite(pick);
        }
    }

    /// The top of a dirt wall.
    pub fn wall_dirt_top() -> (r: Self)
        ensures
            r@ == Tile::plain(false, 0, 0),
    {
        Tile::new(false, 0, 0)
    }

    /// The side of a dirt wall.
    pub fn wall_dirt_side() -> (r: Self)
        ensures
            r@ == Tile::plain(false, 1, 0),
    {
        Tile::new(false, 1, 0)
    }

    /// The inside of a wall.
    pub fn wall_inner() -> (r: Self)
        ensures
            r@ == Tile::plain(false, 2, 0),
    {
        Tile::new(false, 2, 0)
    }

    /// The top of a stone wall.
    pub fn wall_stone_top() -> (r: Self)
        ensures
            r@ == Tile::plain(false, 0, 1),
    {
        Tile::new(false, 0, 1)
    }

    /// The side of a stone wall.
    pub fn wall_stone_side() -> (r: Self)
        ensures
            r@ == Tile::plain(false, 1, 1),
    {
        Tile::new(false, 1, 1)
    }

    /// A blank dark floor.
    pub fn floor_dark() -> (r: Self)
        ensures
            r@ == Tile::plain(true, 0, 6),
    {
        Tile::new(true, 0, 6)
    }

    /// The first stone floor.
    pub fn floor_stone1() -> (r: Self)
        ensures
            r@ == Tile::plain(true, 1, 6),
    {
        Tile::new(true, 1, 6)
    }

    /// The second stone floor.
    pub fn floor_stone2() -> (r: Self)
        ensures
            r@ == Tile::plain(true, 2, 6),
    {
        Tile::new(true, 2, 6)
    }

    /// The third stone floor.
    pub fn floor_stone3() -> (r: Self)
        ensures
            r@ == Tile::plain(true, 3, 6),
    {
        Tile::new(true, 3, 6)
    }

    /// A closed door.
    pub fn door_closed() -> (r: Self)
        ensures
            r@ == Tile::plain(false, 0, 16),
    {
        Tile::new(false, 0, 16)
    }

    /// An open door.
    pub fn door_open() -> (r: Self)
        ensures
            r@ == Tile::plain(true, 1, 16),
    {
        Tile::new(true, 1, 16)
    }

    /// The cell without template that has the one given sprite.
    pub open spec fn plain(walkable: bool, sprite_x: u32, sprite_y: u32) -> TileView {
        TileView {
            walkable,
            tile_id: Seq::empty(),
            sprite_x,
            sprite_y,
            sprites: seq![SpriteCoord { x: sprite_x, y: sprite_y }],
        }
    }
}

} // verus!
