//! The level: a grid of tiles with rooms carved into it and corridors between them.

use crate::grid::{
    connected, lemma_column_connected, lemma_connected_mono, lemma_connected_refl,
    lemma_connected_sym, lemma_connected_trans, lemma_row_connected,
};
use crate::rng::{percent_roll, random_index, random_usize};
use crate::game_object::GameObjectView;
use crate::game_object_registry::find;
use crate::tile::{is_tile_of, tile_of, Tile, TileView};
use crate::tile_registry::{is_floor_entry, is_wall_entry, tiles_of, TileRegistry};
use rand::rngs::ThreadRng;
use vstd::prelude::*;

verus! {

/// The smallest side of a room.
pub const MIN_ROOM_SIDE: usize = 5;

/// The largest side of a room.
pub const MAX_ROOM_SIDE: usize = 15;

/// The largest side of a normal room, and the smallest of a large one.
pub const NORMAL_ROOM_SIDE: usize = 10;

/// Of a hundred rooms, those that are drawn large.
pub const LARGE_ROOM_PERCENT: u32 = 30;

/// The number of tiles kept free between two rooms.
pub const ROOM_GAP: usize = 2;

/// The number of placements tried before the generator settles for the rooms it has.
pub const MAX_PLACEMENTS: usize = 200;

/// The bounding box of a room.
#[derive(Clone, Copy, Debug, PartialEq, Eq, Structural)]
pub struct Room {
    pub x: usize,
    pub y: usize,
    pub width: usize,
    pub height: usize,
}

/// A level: its grid, row by row, and the rooms that were carved into it.
#[derive(Debug)]
pub struct Dungeon {
    pub width: usize,
    pub height: usize,
    pub tiles: Vec<Vec<Tile>>,
    pub rooms: Vec<Room>,
}

/// Whether the cell at offset (`dx`, `dy`) of a box of `w` by `h` cells lies in the
/// ellipse inscribed in the box: the squared distance of the cell's middle from the
/// middle of the box, each axis measured in half sides, is at most one.
pub open spec fn in_ellipse(w: int, h: int, dx: int, dy: int) -> bool {
    &&& 0 <= dx < w
    &&& 0 <= dy < h
    &&& (2 * dx + 1 - w) * (2 * dx + 1 - w) * (h * h) + (2 * dy + 1 - h) * (2 * dy + 1 - h) * (w
        * w) <= (w * w) * (h * h)
}

/// Whether `tiles` is a grid of `height` rows of `width` cells.
pub open spec fn is_grid(tiles: Seq<Vec<Tile>>, width: int, height: int) -> bool {
    &&& tiles.len() == height
    &&& forall|y: int| 0 <= y < height ==> (#[trigger] tiles[y]).len() == width
}

/// Whether the grid has a cell at (`x`, `y`) that can be walked on.
pub open spec fn cell_walkable(tiles: Seq<Vec<Tile>>, x: int, y: int) -> bool {
    0 <= y < tiles.len() && 0 <= x < tiles[y].len() && tiles[y][x].walkable
}

/// The cells of the grid that can be walked on.
pub open spec fn floor_of(tiles: Seq<Vec<Tile>>) -> Set<(int, int)> {
    Set::new(|c: (int, int)| cell_walkable(tiles, c.0, c.1))
}

impl Room {
    /// The cell in the middle of the room.
    pub open spec fn center(&self) -> (int, int) {
        (self.x + self.width / 2, self.y + self.height / 2)
    }

    /// Whether the cell belongs to the floor of the room.
    pub open spec fn has_floor(&self, c: (int, int)) -> bool {
        in_ellipse(self.width as int, self.height as int, c.0 - self.x, c.1 - self.y)
    }

    /// Whether the room has sides of an allowed length and lies inside a grid of the
    /// given size, away from its border.
    pub open spec fn fits(&self, width: int, height: int) -> bool {
        &&& MIN_ROOM_SIDE <= self.width <= MAX_ROOM_SIDE
        &&& MIN_ROOM_SIDE <= self.height <= MAX_ROOM_SIDE
        &&& 1 <= self.x
        &&& self.x + self.width + 1 < width
        &&& 1 <= self.y
        &&& self.y + self.height + 1 < height
    }

    /// Whether both sides have the length of a normal room, or both that of a large one.
    pub open spec fn sized(&self) -> bool {
        ||| self.width <= NORMAL_ROOM_SIDE && self.height <= NORMAL_ROOM_SIDE
        ||| self.width >= NORMAL_ROOM_SIDE && self.height >= NORMAL_ROOM_SIDE
    }

    /// Whether the boxes of the two rooms, one of them widened by the gap, are apart on
    /// the horizontal axis.
    pub open spec fn apart_x(&self, other: Room) -> bool {
        self.x + self.width + ROOM_GAP < other.x || other.x + other.width + ROOM_GAP < self.x
    }

    /// Whether the boxes of the two rooms, one of them widened by the gap, are apart on
    /// the vertical axis.
    pub open spec fn apart_y(&self, other: Room) -> bool {
        self.y + self.height + ROOM_GAP < other.y || other.y + other.height + ROOM_GAP < self.y
    }

    /// Whether the two rooms keep the gap: their widened boxes do not overlap on both
    /// axes at once.
    pub open spec fn apart(&self, other: Room) -> bool {
        self.apart_x(other) || self.apart_y(other)
    }

    /// The column of the room's middle.
    pub fn center_x(&self) -> (r: usize)
        requires
            self.x + self.width <= usize::MAX,
        ensures
            r == self.center().0,
    {
        self.x + self.width / 2
    }

    /// The row of the room's middle.
    pub fn center_y(&self) -> (r: usize)
        requires
            self.y + self.height <= usize::MAX,
        ensures
            r == self.center().1,
    {
        self.y + self.height / 2
    }

    /// Whether the two rooms are closer than the gap allows.
    pub fn too_close(&self, other: &Room) -> (r: bool)
        requires
            self.x + self.width + ROOM_GAP <= usize::MAX,
            self.y + self.height + ROOM_GAP <= usize::MAX,
            other.x + other.width + ROOM_GAP <= usize::MAX,
            other.y + other.height + ROOM_GAP <= usize::MAX,
        ensures
            r == !self.apart(*other),
    {
        let near_x = !(self.x + self.width + ROOM_GAP < other.x || other.x + other.width
            + ROOM_GAP < self.x);
        let near_y = !(self.y + self.height + ROOM_GAP < other.y || other.y + other.height
            + ROOM_GAP < self.y);
        near_x && near_y
    }
}

proof fn lemma_square_le(a: int, b: int)
    requires
        -b <= a <= b || b <= a <= -b,
    ensures
        a * a <= b * b,
{
    assert(a * a <= b * b) by (nonlinear_arith)
        requires
            -b <= a <= b || b <= a <= -b,
    ;
}

proof fn lemma_scale_le(a: int, b: int, c: int)
    requires
        a <= b,
        0 <= c,
    ensures
        a * c <= b * c,
{
    assert(a * c <= b * c) by (nonlinear_arith)
        requires
            a <= b,
            0 <= c,
    ;
}

/// The middle cell of a box lies in its ellipse.
pub proof fn lemma_center_in_ellipse(w: int, h: int)
    requires
        1 <= w,
        1 <= h,
    ensures
        in_ellipse(w, h, w / 2, h / 2),
{
    let u = 2 * (w / 2) + 1 - w;
    let v = 2 * (h / 2) + 1 - h;
    assert(u == 0 || (u == 1 && w >= 2));
    assert(v == 0 || (v == 1 && h >= 2));
    assert(u * u * (h * h) + v * v * (w * w) <= (w * w) * (h * h)) by (nonlinear_arith)
        requires
            u == 0 || (u == 1 && w >= 2),
            v == 0 || (v == 1 && h >= 2),
            1 <= w,
            1 <= h,
    ;
}

/// From a cell of the ellipse, the cells of its row towards the middle column lie in the
/// ellipse too.
pub proof fn lemma_ellipse_row(w: int, h: int, dx: int, dy: int, mid: int)
    requires
        in_ellipse(w, h, dx, dy),
        dx <= mid <= w / 2 || w / 2 <= mid <= dx,
    ensures
        in_ellipse(w, h, mid, dy),
{
    let u = 2 * dx + 1 - w;
    let m = 2 * mid + 1 - w;
    assert(w - 1 <= 2 * (w / 2) <= w);
    if dx <= mid && mid <= w / 2 {
        assert(u <= m <= 1);
        if m == 1 {
            assert(u == 1 || u <= -1);
        }
    } else {
        assert(0 <= m <= u);
    }
    lemma_square_le(m, if u >= 0 {
        u
    } else {
        -u
    });
    assert(m * m <= u * u) by (nonlinear_arith)
        requires
            m * m <= (if u >= 0 {
                u
            } else {
                -u
            }) * (if u >= 0 {
                u
            } else {
                -u
            }),
    ;
    assert(0 <= h * h) by (nonlinear_arith);
    lemma_scale_le(m * m, u * u, h * h);
}

/// From a cell of the ellipse, the cells of its column towards the middle row lie in the
/// ellipse too.
pub proof fn lemma_ellipse_column(w: int, h: int, dx: int, dy: int, mid: int)
    requires
        in_ellipse(w, h, dx, dy),
        dy <= mid <= h / 2 || h / 2 <= mid <= dy,
    ensures
        in_ellipse(w, h, dx, mid),
{
    let u = 2 * dy + 1 - h;
    let m = 2 * mid + 1 - h;
    assert(h - 1 <= 2 * (h / 2) <= h);
    if dy <= mid && mid <= h / 2 {
        assert(u <= m <= 1);
        if m == 1 {
            assert(u == 1 || u <= -1);
        }
    } else {
        assert(0 <= m <= u);
    }
    lemma_square_le(m, if u >= 0 {
        u
    } else {
        -u
    });
    assert(m * m <= u * u) by (nonlinear_arith)
        requires
            m * m <= (if u >= 0 {
                u
            } else {
                -u
            }) * (if u >= 0 {
                u
            } else {
                -u
            }),
    ;
    assert(0 <= w * w) by (nonlinear_arith);
    lemma_scale_le(m * m, u * u, w * w);
}

/// Every floor cell of a room reaches the middle of the room over the room's own floor.
pub proof fn lemma_room_reaches_center(floor: Set<(int, int)>, room: Room, c: (int, int))
    requires
        1 <= room.width,
        1 <= room.height,
        forall|d: (int, int)| room.has_floor(d) ==> floor.contains(d),
        room.has_floor(c),
    ensures
        connected(floor, c, room.center()),
        connected(floor, room.center(), c),
{
    let w = room.width as int;
    let h = room.height as int;
    let x0 = room.x as int;
    let y0 = room.y as int;
    let mid = (room.center().0, c.1);
    let lo = if c.0 <= mid.0 {
        c.0
    } else {
        mid.0
    };
    let hi = if c.0 <= mid.0 {
        mid.0
    } else {
        c.0
    };
    assert forall|x: int| lo <= x <= hi implies floor.contains((x, c.1)) by {
        lemma_ellipse_row(w, h, c.0 - x0, c.1 - y0, x - x0);
        assert(room.has_floor((x, c.1)));
    }
    lemma_row_connected(floor, c.1, lo, hi);
    assert(connected(floor, c, mid));
    lemma_ellipse_row(w, h, c.0 - x0, c.1 - y0, w / 2);
    let top = if c.1 <= room.center().1 {
        c.1
    } else {
        room.center().1
    };
    let bottom = if c.1 <= room.center().1 {
        room.center().1
    } else {
        c.1
    };
    assert forall|y: int| top <= y <= bottom implies floor.contains((mid.0, y)) by {
        lemma_ellipse_column(w, h, w / 2, c.1 - y0, y - y0);
        assert(room.has_floor((mid.0, y)));
    }
    lemma_column_connected(floor, mid.0, top, bottom);
    assert(connected(floor, mid, room.center()));
    lemma_connected_trans(floor, c, mid, room.center());
    lemma_connected_sym(floor, c, room.center());
}

/// The longest side of a box whose ellipse can be computed.
pub const MAX_BOX_SIDE: usize = 0x4000_0000;

/// Whether the cell at offset (`dx`, `dy`) of a box of `w` by `h` cells lies in the
/// ellipse inscribed in the box.
pub fn cell_in_ellipse(w: usize, h: usize, dx: usize, dy: usize) -> (r: bool)
    requires
        w <= MAX_BOX_SIDE,
        h <= MAX_BOX_SIDE,
    ensures
        r == in_ellipse(w as int, h as int, dx as int, dy as int),
{
    if dx >= w || dy >= h {
        return false;
    }
    let u: i128 = 2 * (dx as i128) + 1 - (w as i128);
    let v: i128 = 2 * (dy as i128) + 1 - (h as i128);
    assert(0 <= w * w <= 0x1000_0000_0000_0000) by (nonlinear_arith)
        requires
            0 <= w <= 0x4000_0000,
    ;
    assert(0 <= h * h <= 0x1000_0000_0000_0000) by (nonlinear_arith)
        requires
            0 <= h <= 0x4000_0000,
    ;
    let ww: i128 = (w as i128) * (w as i128);
    let hh: i128 = (h as i128) * (h as i128);
    assert(0 <= u * u <= 0x4000_0000_0000_0000) by (nonlinear_arith)
        requires
            -0x8000_0000 <= u <= 0x8000_0000,
    ;
    assert(0 <= v * v <= 0x4000_0000_0000_0000) by (nonlinear_arith)
        requires
            -0x8000_0000 <= v <= 0x8000_0000,
    ;
    let uu: i128 = u * u;
    let vv: i128 = v * v;
    assert(0 <= uu * hh <= 0x400_0000_0000_0000_0000_0000_0000_0000) by (nonlinear_arith)
        requires
            0 <= uu <= 0x4000_0000_0000_0000,
            0 <= hh <= 0x1000_0000_0000_0000,
    ;
    assert(0 <= vv * ww <= 0x400_0000_0000_0000_0000_0000_0000_0000) by (nonlinear_arith)
        requires
            0 <= vv <= 0x4000_0000_0000_0000,
            0 <= ww <= 0x1000_0000_0000_0000,
    ;
    assert(0 <= ww * hh <= 0x100_0000_0000_0000_0000_0000_0000_0000) by (nonlinear_arith)
        requires
            0 <= ww <= 0x1000_0000_0000_0000,
            0 <= hh <= 0x1000_0000_0000_0000,
    ;
    uu * hh + vv * ww <= ww * hh
}

/// Whether `t` is a floor cell as the generator lays it: a copy of one of the floor tiles,
/// or of the fallback where there are none, drawn with any of its sprites.
pub open spec fn is_floor_choice(t: TileView, floor_tiles: Seq<Tile>, fallback: TileView) -> bool {
    if floor_tiles.len() > 0 {
        exists|k: int| 0 <= k < floor_tiles.len() && (#[trigger] floor_tiles[k])@.same_but_sprite(t)
    } else {
        fallback.same_but_sprite(t)
    }
}

/// Whether every cell of the grid is as before, but for the cells of `changed`, which are
/// freshly laid floor.
pub open spec fn relaid(
    before: Seq<Vec<Tile>>,
    after: Seq<Vec<Tile>>,
    changed: Set<(int, int)>,
    floor_tiles: Seq<Tile>,
    fallback: TileView,
) -> bool {
    &&& after.len() == before.len()
    &&& forall|y: int| 0 <= y < before.len() ==> (#[trigger] after[y]).len() == before[y].len()
    &&& forall|x: int, y: int|
        0 <= y < before.len() && 0 <= x < before[y].len() ==> if changed.contains((x, y)) {
            (#[trigger] after[y][x]).walkable && is_floor_choice(
                after[y][x]@,
                floor_tiles,
                fallback,
            )
        } else {
            after[y][x] == before[y][x]
        }
}

/// A grid whose cells are all copies of `tile`.
pub fn fill_grid(width: usize, height: usize, tile: &Tile) -> (tiles: Vec<Vec<Tile>>)
    ensures
        is_grid(tiles@, width as int, height as int),
        forall|x: int, y: int| 0 <= y < height && 0 <= x < width ==> (#[trigger] tiles[y][x])@ == tile@,
{
    let mut tiles: Vec<Vec<Tile>> = Vec::new();
    let mut y: usize = 0;
    while y < height
        invariant
            y <= height,
            is_grid(tiles@, width as int, y as int),
            forall|x: int, r: int| 0 <= r < y && 0 <= x < width ==> (#[trigger] tiles[r][x])@ == tile@,
        decreases height - y,
    {
        let mut row: Vec<Tile> = Vec::new();
        let mut x: usize = 0;
        while x < width
            invariant
                x <= width,
                row.len() == x,
                forall|c: int| 0 <= c < x ==> (#[trigger] row[c])@ == tile@,
            decreases width - x,
        {
            row.push(tile.clone());
            x += 1;
        }
        tiles.push(row);
        y += 1;
    }
    tiles
}

/// A fresh floor cell: a copy of one of the floor tiles, chosen at random, or of the
/// fallback where there are none, drawn with one of its sprites.
pub fn random_floor_tile(rng: &mut ThreadRng, floor_tiles: &Vec<Tile>, fallback: &Tile) -> (t:
    Tile)
    requires
        forall|k: int| 0 <= k < floor_tiles.len() ==> (#[trigger] floor_tiles[k]).walkable,
        fallback.walkable,
    ensures
        t.walkable,
        is_floor_choice(t@, floor_tiles@, fallback@),
{
    let mut t = if floor_tiles.len() > 0 {
        let k = random_index(rng, floor_tiles.len());
        floor_tiles[k].clone()
    } else {
        fallback.clone()
    };
    t.randomize_sprite();
    t
}

/// Lays fresh floor on the cells of the room's ellipse.
pub fn carve_room(
    rng: &mut ThreadRng,
    tiles: &mut Vec<Vec<Tile>>,
    room: &Room,
    floor_tiles: &Vec<Tile>,
    fallback: &Tile,
)
    requires
        room.width <= MAX_BOX_SIDE,
        room.height <= MAX_BOX_SIDE,
        room.y + room.height <= old(tiles).len(),
        forall|y: int|
            room.y <= y < room.y + room.height ==> room.x + room.width <= (#[trigger] old(
                tiles,
            )[y]).len(),
        forall|k: int| 0 <= k < floor_tiles.len() ==> (#[trigger] floor_tiles[k]).walkable,
        fallback.walkable,
    ensures
        relaid(
            old(tiles)@,
            final(tiles)@,
            Set::new(|c: (int, int)| room.has_floor(c)),
            floor_tiles@,
            fallback@,
        ),
{
    let ghost before = tiles@;
    let mut dy: usize = 0;
    while dy < room.height
        invariant
            dy <= room.height,
            tiles.len() == before.len(),
            room.width <= MAX_BOX_SIDE,
            room.height <= MAX_BOX_SIDE,
            room.y + room.height <= before.len(),
            forall|y: int|
                room.y <= y < room.y + room.height ==> room.x + room.width <= (
                #[trigger] before[y]).len(),
            forall|k: int| 0 <= k < floor_tiles.len() ==> (#[trigger] floor_tiles[k]).walkable,
            fallback.walkable,
            relaid(
                before,
                tiles@,
                Set::new(|c: (int, int)| room.has_floor(c) && c.1 - room.y < dy),
                floor_tiles@,
                fallback@,
            ),
        decreases room.height - dy,
    {
        let mut dx: usize = 0;
        while dx < room.width
            invariant
                dx <= room.width,
                dy < room.height,
                tiles.len() == before.len(),
                room.width <= MAX_BOX_SIDE,
                room.height <= MAX_BOX_SIDE,
                room.y + room.height <= before.len(),
                forall|y: int|
                    room.y <= y < room.y + room.height ==> room.x + room.width <= (
                    #[trigger] before[y]).len(),
                forall|k: int| 0 <= k < floor_tiles.len() ==> (#[trigger] floor_tiles[k]).walkable,
                fallback.walkable,
                relaid(
                    before,
                    tiles@,
                    Set::new(
                        |c: (int, int)|
                            room.has_floor(c) && (c.1 - room.y < dy || (c.1 - room.y == dy && c.0
                                - room.x < dx)),
                    ),
                    floor_tiles@,
                    fallback@,
                ),
            decreases room.width - dx,
        {
            if cell_in_ellipse(room.width, room.height, dx, dy) {
                let tile = random_floor_tile(rng, floor_tiles, fallback);
                assert(tiles[room.y + dy as int].len() == before[room.y + dy as int].len());
                tiles[room.y + dy][room.x + dx] = tile;
            }
            dx += 1;
        }
        dy += 1;
    }
}

/// Lays fresh floor on the cells of row `y` from column `x0` to column `x1`.
pub fn carve_row(
    rng: &mut ThreadRng,
    tiles: &mut Vec<Vec<Tile>>,
    y: usize,
    x0: usize,
    x1: usize,
    floor_tiles: &Vec<Tile>,
    fallback: &Tile,
)
    requires
        y < old(tiles).len(),
        x0 <= x1 < old(tiles)[y as int].len(),
        forall|k: int| 0 <= k < floor_tiles.len() ==> (#[trigger] floor_tiles[k]).walkable,
        fallback.walkable,
    ensures
        relaid(
            old(tiles)@,
            final(tiles)@,
            Set::new(|c: (int, int)| c.1 == y && x0 <= c.0 <= x1),
            floor_tiles@,
            fallback@,
        ),
{
    let ghost before = tiles@;
    let mut x: usize = x0;
    while x <= x1
        invariant
            x0 <= x <= x1 + 1,
            y < before.len(),
            x1 < before[y as int].len(),
            forall|k: int| 0 <= k < floor_tiles.len() ==> (#[trigger] floor_tiles[k]).walkable,
            fallback.walkable,
            relaid(
                before,
                tiles@,
                Set::new(|c: (int, int)| c.1 == y && x0 <= c.0 < x),
                floor_tiles@,
                fallback@,
            ),
        decreases x1 + 1 - x,
    {
        let tile = random_floor_tile(rng, floor_tiles, fallback);
        assert(tiles[y as int].len() == before[y as int].len());
        tiles[y][x] = tile;
        x += 1;
    }
}

/// Lays fresh floor on the cells of column `x` from row `y0` to row `y1`.
pub fn carve_column(
    rng: &mut ThreadRng,
    tiles: &mut Vec<Vec<Tile>>,
    x: usize,
    y0: usize,
    y1: usize,
    floor_tiles: &Vec<Tile>,
    fallback: &Tile,
)
    requires
        y0 <= y1 < old(tiles).len(),
        forall|y: int| y0 <= y <= y1 ==> x < (#[trigger] old(tiles)[y]).len(),
        forall|k: int| 0 <= k < floor_tiles.len() ==> (#[trigger] floor_tiles[k]).walkable,
        fallback.walkable,
    ensures
        relaid(
            old(tiles)@,
            final(tiles)@,
            Set::new(|c: (int, int)| c.0 == x && y0 <= c.1 <= y1),
            floor_tiles@,
            fallback@,
        ),
{
    let ghost before = tiles@;
    let mut y: usize = y0;
    while y <= y1
        invariant
            y0 <= y <= y1 + 1,
            tiles.len() == before.len(),
            y1 < before.len(),
            forall|r: int| y0 <= r <= y1 ==> x < (#[trigger] before[r]).len(),
            forall|k: int| 0 <= k < floor_tiles.len() ==> (#[trigger] floor_tiles[k]).walkable,
            fallback.walkable,
            relaid(
                before,
                tiles@,
                Set::new(|c: (int, int)| c.0 == x && y0 <= c.1 < y),
                floor_tiles@,
                fallback@,
            ),
        decreases y1 + 1 - y,
    {
        let tile = random_floor_tile(rng, floor_tiles, fallback);
        assert(tiles[y as int].len() == before[y as int].len());
        tiles[y][x] = tile;
        y += 1;
    }
}


/// Laying floor never takes floor away.
pub proof fn lemma_relaid_grows(
    before: Seq<Vec<Tile>>,
    after: Seq<Vec<Tile>>,
    changed: Set<(int, int)>,
    floor_tiles: Seq<Tile>,
    fallback: TileView,
)
    requires
        relaid(before, after, changed, floor_tiles, fallback),
    ensures
        floor_of(before).subset_of(floor_of(after)),
        forall|x: int, y: int|
            cell_walkable(after, x, y) <==> cell_walkable(before, x, y) || (0 <= y < before.len()
                && 0 <= x < before[y].len() && changed.contains((x, y))),
        forall|width: int, height: int|
            is_grid(before, width, height) ==> #[trigger] is_grid(after, width, height),
{
    assert forall|x: int, y: int|
        cell_walkable(after, x, y) <==> cell_walkable(before, x, y) || (0 <= y < before.len() && 0
            <= x < before[y].len() && changed.contains((x, y))) by {
        if 0 <= y < before.len() && 0 <= x < before[y].len() {
            assert(after[y].len() == before[y].len());
            let t = after[y][x];
        }
    }
    assert forall|c: (int, int)| floor_of(before).contains(c) implies floor_of(after).contains(
        c,
    ) by {
        assert(cell_walkable(before, c.0, c.1));
    }
    assert forall|width: int, height: int| is_grid(before, width, height) implies #[trigger] is_grid(
        after,
        width,
        height,
    ) by {
        assert forall|y: int| 0 <= y < height implies (#[trigger] after[y]).len() == width by {
            assert(before[y].len() == width);
        }
    }
}

/// Laying floor on one set of cells and then on another lays it on both.
pub proof fn lemma_relaid_twice(
    before: Seq<Vec<Tile>>,
    mid: Seq<Vec<Tile>>,
    after: Seq<Vec<Tile>>,
    first: Set<(int, int)>,
    second: Set<(int, int)>,
    floor_tiles: Seq<Tile>,
    fallback: TileView,
)
    requires
        relaid(before, mid, first, floor_tiles, fallback),
        relaid(mid, after, second, floor_tiles, fallback),
    ensures
        relaid(before, after, first.union(second), floor_tiles, fallback),
{
    assert forall|y: int| 0 <= y < before.len() implies (#[trigger] after[y]).len()
        == before[y].len() by {
        assert(mid[y].len() == before[y].len());
    }
    assert forall|x: int, y: int| 0 <= y < before.len() && 0 <= x < before[y].len() implies if first.union(
        second,
    ).contains((x, y)) {
        (#[trigger] after[y][x]).walkable && is_floor_choice(after[y][x]@, floor_tiles, fallback)
    } else {
        after[y][x] == before[y][x]
    } by {
        assert(mid[y].len() == before[y].len());
        let m = mid[y][x];
        if !second.contains((x, y)) {
            assert(after[y][x] == m);
        }
    }
}

/// Whether `v` lies between `a` and `b`, whichever of them is the smaller.
pub open spec fn between(a: int, b: int, v: int) -> bool {
    a <= v <= b || b <= v <= a
}

/// The distance between two cells, counted in steps along the two axes.
pub open spec fn manhattan(p: (int, int), q: (int, int)) -> int {
    (if p.0 >= q.0 {
        p.0 - q.0
    } else {
        q.0 - p.0
    }) + (if p.1 >= q.1 {
        p.1 - q.1
    } else {
        q.1 - p.1
    })
}

/// Whether the corridor from room `a` to room `b` starts along the row of `a`: it does
/// where the two middles are closer in columns than in rows.
pub open spec fn row_first(a: Room, b: Room) -> bool {
    let p = a.center();
    let q = b.center();
    (if p.0 >= q.0 {
        p.0 - q.0
    } else {
        q.0 - p.0
    }) < (if p.1 >= q.1 {
        p.1 - q.1
    } else {
        q.1 - p.1
    })
}

/// Whether the cell lies on the corridor between the middles of two rooms: one cell wide
/// and bent once, along the row of `a` and the column of `b`, or along the column of `a`
/// and the row of `b`.
pub open spec fn on_corridor(a: Room, b: Room, c: (int, int)) -> bool {
    let p = a.center();
    let q = b.center();
    if row_first(a, b) {
        (c.1 == p.1 && between(p.0, q.0, c.0)) || (c.0 == q.0 && between(p.1, q.1, c.1))
    } else {
        (c.0 == p.0 && between(p.1, q.1, c.1)) || (c.1 == q.1 && between(p.0, q.0, c.0))
    }
}

/// The cells of the rooms' floors.
pub open spec fn room_cells(rooms: Seq<Room>) -> Set<(int, int)> {
    Set::new(|c: (int, int)| exists|i: int| 0 <= i < rooms.len() && (#[trigger] rooms[i]).has_floor(c))
}

/// The cells of the corridors between the pairs of rooms that `edges` names.
pub open spec fn corridor_cells(rooms: Seq<Room>, edges: Seq<(usize, usize)>) -> Set<(int, int)> {
    Set::new(
        |c: (int, int)|
            exists|k: int|
                0 <= k < edges.len() && on_corridor(
                    rooms[(#[trigger] edges[k]).0 as int],
                    rooms[edges[k].1 as int],
                    c,
                ),
    )
}

/// The middles of two rooms reach each other along the corridor between them.
pub proof fn lemma_corridor_connected(floor: Set<(int, int)>, a: Room, b: Room)
    requires
        forall|c: (int, int)| on_corridor(a, b, c) ==> floor.contains(c),
    ensures
        connected(floor, a.center(), b.center()),
{
    let p = a.center();
    let q = b.center();
    let x_lo = if p.0 <= q.0 {
        p.0
    } else {
        q.0
    };
    let x_hi = if p.0 <= q.0 {
        q.0
    } else {
        p.0
    };
    let y_lo = if p.1 <= q.1 {
        p.1
    } else {
        q.1
    };
    let y_hi = if p.1 <= q.1 {
        q.1
    } else {
        p.1
    };
    if row_first(a, b) {
        let bend = (q.0, p.1);
        assert forall|x: int| x_lo <= x <= x_hi implies floor.contains((x, p.1)) by {
            assert(on_corridor(a, b, (x, p.1)));
        }
        lemma_row_connected(floor, p.1, x_lo, x_hi);
        assert(connected(floor, p, bend));
        assert forall|y: int| y_lo <= y <= y_hi implies floor.contains((q.0, y)) by {
            assert(on_corridor(a, b, (q.0, y)));
        }
        lemma_column_connected(floor, q.0, y_lo, y_hi);
        assert(connected(floor, bend, q));
        lemma_connected_trans(floor, p, bend, q);
    } else {
        let bend = (p.0, q.1);
        assert forall|y: int| y_lo <= y <= y_hi implies floor.contains((p.0, y)) by {
            assert(on_corridor(a, b, (p.0, y)));
        }
        lemma_column_connected(floor, p.0, y_lo, y_hi);
        assert(connected(floor, p, bend));
        assert forall|x: int| x_lo <= x <= x_hi implies floor.contains((x, q.1)) by {
            assert(on_corridor(a, b, (x, q.1)));
        }
        lemma_row_connected(floor, q.1, x_lo, x_hi);
        assert(connected(floor, bend, q));
        lemma_connected_trans(floor, p, bend, q);
    }
}

/// Lays the corridor between the middles of two rooms.
pub fn carve_corridor(
    rng: &mut ThreadRng,
    tiles: &mut Vec<Vec<Tile>>,
    width: usize,
    height: usize,
    a: &Room,
    b: &Room,
    floor_tiles: &Vec<Tile>,
    fallback: &Tile,
)
    requires
        is_grid(old(tiles)@, width as int, height as int),
        a.fits(width as int, height as int),
        b.fits(width as int, height as int),
        forall|k: int| 0 <= k < floor_tiles.len() ==> (#[trigger] floor_tiles[k]).walkable,
        fallback.walkable,
    ensures
        relaid(
            old(tiles)@,
            final(tiles)@,
            Set::new(|c: (int, int)| on_corridor(*a, *b, c)),
            floor_tiles@,
            fallback@,
        ),
{
    let ghost before = tiles@;
    let a_col = a.center_x();
    let a_row = a.center_y();
    let b_col = b.center_x();
    let b_row = b.center_y();
    let dx = if b_col > a_col {
        b_col - a_col
    } else {
        a_col - b_col
    };
    let dy = if b_row > a_row {
        b_row - a_row
    } else {
        a_row - b_row
    };
    let x_lo = if a_col <= b_col {
        a_col
    } else {
        b_col
    };
    let x_hi = if a_col <= b_col {
        b_col
    } else {
        a_col
    };
    let y_lo = if a_row <= b_row {
        a_row
    } else {
        b_row
    };
    let y_hi = if a_row <= b_row {
        b_row
    } else {
        a_row
    };
    if dx < dy {
        carve_row(rng, tiles, a_row, x_lo, x_hi, floor_tiles, fallback);
        let ghost mid = tiles@;
        proof {
            lemma_relaid_grows(
                before,
                mid,
                Set::new(|c: (int, int)| c.1 == a_row && x_lo <= c.0 <= x_hi),
                floor_tiles@,
                fallback@,
            );
            assert(is_grid(mid, width as int, height as int));
        }
        carve_column(rng, tiles, b_col, y_lo, y_hi, floor_tiles, fallback);
        proof {
            lemma_relaid_twice(
                before,
                mid,
                tiles@,
                Set::new(|c: (int, int)| c.1 == a_row && x_lo <= c.0 <= x_hi),
                Set::new(|c: (int, int)| c.0 == b_col && y_lo <= c.1 <= y_hi),
                floor_tiles@,
                fallback@,
            );
            assert(Set::new(|c: (int, int)| c.1 == a_row && x_lo <= c.0 <= x_hi).union(
                Set::new(|c: (int, int)| c.0 == b_col && y_lo <= c.1 <= y_hi),
            ) =~= Set::new(|c: (int, int)| on_corridor(*a, *b, c)));
        }
    } else {
        carve_column(rng, tiles, a_col, y_lo, y_hi, floor_tiles, fallback);
        let ghost mid = tiles@;
        proof {
            lemma_relaid_grows(
                before,
                mid,
                Set::new(|c: (int, int)| c.0 == a_col && y_lo <= c.1 <= y_hi),
                floor_tiles@,
                fallback@,
            );
            assert(is_grid(mid, width as int, height as int));
        }
        carve_row(rng, tiles, b_row, x_lo, x_hi, floor_tiles, fallback);
        proof {
            lemma_relaid_twice(
                before,
                mid,
                tiles@,
                Set::new(|c: (int, int)| c.0 == a_col && y_lo <= c.1 <= y_hi),
                Set::new(|c: (int, int)| c.1 == b_row && x_lo <= c.0 <= x_hi),
                floor_tiles@,
                fallback@,
            );
            assert(Set::new(|c: (int, int)| c.0 == a_col && y_lo <= c.1 <= y_hi).union(
                Set::new(|c: (int, int)| c.1 == b_row && x_lo <= c.0 <= x_hi),
            ) =~= Set::new(|c: (int, int)| on_corridor(*a, *b, c)));
        }
    }
}


/// Whether `parent` is a forest over its indices in which each item points to itself or
/// to an item before it.
pub open spec fn forest_ok(parent: Seq<usize>) -> bool {
    forall|i: int| 0 <= i < parent.len() ==> (#[trigger] parent[i]) <= i
}

/// The item that stands for the group of item `i`: the end of its chain of parents.
pub open spec fn root_of(parent: Seq<usize>, i: int) -> int
    decreases i,
{
    if 0 <= i < parent.len() && parent[i] < i {
        root_of(parent, parent[i] as int)
    } else {
        i
    }
}

/// The root of an item is an item that points to itself.
pub proof fn lemma_root_is_fixed(parent: Seq<usize>, i: int)
    requires
        forest_ok(parent),
        0 <= i < parent.len(),
    ensures
        0 <= root_of(parent, i) <= i,
        parent[root_of(parent, i)] == root_of(parent, i),
    decreases i,
{
    if parent[i] < i {
        lemma_root_is_fixed(parent, parent[i] as int);
    }
}

/// Pointing an item straight to its root changes no root.
pub proof fn lemma_shortcut_keeps_roots(parent: Seq<usize>, x: int, i: int)
    requires
        forest_ok(parent),
        0 <= x < parent.len(),
        0 <= i < parent.len(),
    ensures
        root_of(parent.update(x, root_of(parent, x) as usize), i) == root_of(parent, i),
    decreases i,
{
    let r = root_of(parent, x);
    lemma_root_is_fixed(parent, x);
    let after = parent.update(x, r as usize);
    if i == x {
        if r < x {
            lemma_shortcut_keeps_roots(parent, x, r);
            lemma_root_is_fixed(parent, r);
        }
    } else if parent[i] < i {
        lemma_shortcut_keeps_roots(parent, x, parent[i] as int);
    }
}

/// Hanging the root `hi` below the root `lo` moves the items of its group to `lo` and
/// leaves the other groups alone.
pub proof fn lemma_link_roots(parent: Seq<usize>, lo: int, hi: int, i: int)
    requires
        forest_ok(parent),
        0 <= lo < hi < parent.len(),
        parent[lo] == lo,
        parent[hi] == hi,
        0 <= i < parent.len(),
    ensures
        root_of(parent.update(hi, lo as usize), i) == if root_of(parent, i) == hi {
            lo
        } else {
            root_of(parent, i)
        },
    decreases i,
{
    let after = parent.update(hi, lo as usize);
    if i == hi {
        assert(root_of(after, lo) == lo);
    } else if parent[i] < i {
        lemma_link_roots(parent, lo, hi, parent[i] as int);
    }
}

/// Finds the root of item `x` and points the items on the way straight to it.
pub fn find_root(parent: &mut Vec<usize>, x: usize) -> (r: usize)
    requires
        forest_ok(old(parent)@),
        x < old(parent).len(),
    ensures
        forest_ok(final(parent)@),
        final(parent).len() == old(parent).len(),
        r == root_of(old(parent)@, x as int),
        r <= x,
        final(parent)[r as int] == r,
        forall|i: int|
            0 <= i < old(parent).len() ==> root_of(final(parent)@, i) == root_of(old(parent)@, i),
    decreases x,
{
    let p = parent[x];
    if p != x {
        let r = find_root(parent, p);
        let ghost mid = parent@;
        parent[x] = r;
        proof {
            assert(root_of(old(parent)@, x as int) == root_of(old(parent)@, p as int));
            assert(root_of(mid, x as int) == root_of(old(parent)@, x as int));
            assert(parent@ == mid.update(x as int, root_of(mid, x as int) as usize));
            assert forall|i: int| 0 <= i < old(parent).len() implies root_of(parent@, i)
                == root_of(old(parent)@, i) by {
                lemma_shortcut_keeps_roots(mid, x as int, i);
            }
            lemma_shortcut_keeps_roots(mid, x as int, r as int);
        }
        r
    } else {
        x
    }
}

/// Joins the groups of `a` and `b`; tells whether they were two groups.
pub fn join_groups(parent: &mut Vec<usize>, a: usize, b: usize) -> (joined: bool)
    requires
        forest_ok(old(parent)@),
        a < old(parent).len(),
        b < old(parent).len(),
    ensures
        forest_ok(final(parent)@),
        final(parent).len() == old(parent).len(),
        joined == (root_of(old(parent)@, a as int) != root_of(old(parent)@, b as int)),
        forall|i: int|
            0 <= i < old(parent).len() ==> root_of(final(parent)@, i) == merged_root(
                old(parent)@,
                a as int,
                b as int,
                i,
            ),
{
    let ra = find_root(parent, a);
    let ghost first = parent@;
    let rb = find_root(parent, b);
    let ghost mid = parent@;
    proof {
        assert(root_of(first, ra as int) == ra);
        lemma_root_is_fixed(mid, ra as int);
        assert(root_of(mid, ra as int) == ra);
        assert(root_of(mid, a as int) == ra);
        assert(root_of(mid, b as int) == rb);
    }
    if ra == rb {
        false
    } else if ra < rb {
        parent[rb] = ra;
        proof {
            assert forall|i: int| 0 <= i < mid.len() implies root_of(parent@, i) == merged_root(
                old(parent)@,
                a as int,
                b as int,
                i,
            ) by {
                lemma_link_roots(mid, ra as int, rb as int, i);
            }
        }
        true
    } else {
        parent[ra] = rb;
        proof {
            assert forall|i: int| 0 <= i < mid.len() implies root_of(parent@, i) == merged_root(
                old(parent)@,
                a as int,
                b as int,
                i,
            ) by {
                lemma_link_roots(mid, rb as int, ra as int, i);
            }
        }
        true
    }
}

/// The root of item `i` once the groups of `a` and `b` are joined: the smaller of the two
/// roots for the items of both groups.
pub open spec fn merged_root(parent: Seq<usize>, a: int, b: int, i: int) -> int {
    let ra = root_of(parent, a);
    let rb = root_of(parent, b);
    let lo = if ra <= rb {
        ra
    } else {
        rb
    };
    if root_of(parent, i) == ra || root_of(parent, i) == rb {
        lo
    } else {
        root_of(parent, i)
    }
}

/// A pair of rooms and the distance between their middles.
#[derive(Clone, Copy, Debug, PartialEq, Eq, Structural)]
pub struct Link {
    pub a: usize,
    pub b: usize,
    pub distance: u128,
}

/// The link between rooms `i` and `j`.
pub open spec fn link_of(rooms: Seq<Room>, i: int, j: int) -> Link {
    Link {
        a: i as usize,
        b: j as usize,
        distance: manhattan(rooms[i].center(), rooms[j].center()) as u128,
    }
}

/// The links from room `i` to the rooms after it and before room `end`, in their order.
pub open spec fn links_from(rooms: Seq<Room>, i: int, end: int) -> Seq<Link>
    decreases end - i,
{
    if end <= i + 1 {
        Seq::empty()
    } else {
        links_from(rooms, i, end - 1).push(link_of(rooms, i, end - 1))
    }
}

/// The links from each of the first `count` rooms to the rooms after it.
pub open spec fn links_of_first(rooms: Seq<Room>, count: int) -> Seq<Link>
    decreases count,
{
    if count <= 0 {
        Seq::empty()
    } else {
        links_of_first(rooms, count - 1) + links_from(rooms, count - 1, rooms.len() as int)
    }
}

/// The links between all pairs of rooms, each pair once: those of the first room, then
/// those of the second to the rooms after it, and so on.
pub open spec fn pair_links(rooms: Seq<Room>) -> Seq<Link> {
    links_of_first(rooms, rooms.len() as int)
}

/// The links between all pairs of rooms, each pair once.
pub fn all_links(rooms: &Vec<Room>, width: usize, height: usize) -> (links: Vec<Link>)
    requires
        forall|i: int| 0 <= i < rooms.len() ==> (#[trigger] rooms[i]).fits(width as int, height as int),
    ensures
        links@ == pair_links(rooms@),
        forall|i: int, j: int|
            0 <= i < j < rooms.len() ==> links@.contains(#[trigger] link_of(rooms@, i, j)),
        forall|k: int|
            0 <= k < links.len() ==> (#[trigger] links[k]).a < links[k].b < rooms.len() && links[k]
                == link_of(rooms@, links[k].a as int, links[k].b as int),
{
    let mut links: Vec<Link> = Vec::new();
    let n = rooms.len();
    let mut i: usize = 0;
    proof {
        assert(links@ =~= links_of_first(rooms@, 0));
    }
    while i < n
        invariant
            i <= n,
            n == rooms.len(),
            forall|k: int| 0 <= k < rooms.len() ==> (#[trigger] rooms[k]).fits(width as int, height as int),
            links@ == links_of_first(rooms@, i as int),
            forall|p: int, q: int|
                0 <= p < q < n && p < i ==> links@.contains(#[trigger] link_of(rooms@, p, q)),
            forall|k: int|
                0 <= k < links.len() ==> (#[trigger] links[k]).a < links[k].b < n && links[k]
                    == link_of(rooms@, links[k].a as int, links[k].b as int),
        decreases n - i,
    {
        let ghost earlier = links@;
        let mut j: usize = i + 1;
        proof {
            assert(links@ =~= earlier + links_from(rooms@, i as int, j as int));
        }
        while j < n
            invariant
                i < n,
                i < j <= n,
                n == rooms.len(),
                forall|k: int|
                    0 <= k < rooms.len() ==> (#[trigger] rooms[k]).fits(width as int, height as int),
                earlier == links_of_first(rooms@, i as int),
                links@ == earlier + links_from(rooms@, i as int, j as int),
                forall|p: int, q: int|
                    0 <= p < q < n && (p < i || (p == i && q < j)) ==> links@.contains(
                        #[trigger] link_of(rooms@, p, q),
                    ),
                forall|k: int|
                    0 <= k < links.len() ==> (#[trigger] links[k]).a < links[k].b < n && links[k]
                        == link_of(rooms@, links[k].a as int, links[k].b as int),
            decreases n - j,
        {
            assert(rooms[i as int].fits(width as int, height as int));
            assert(rooms[j as int].fits(width as int, height as int));
            let a_col = rooms[i].center_x();
            let a_row = rooms[i].center_y();
            let b_col = rooms[j].center_x();
            let b_row = rooms[j].center_y();
            let dx = if a_col > b_col {
                a_col - b_col
            } else {
                b_col - a_col
            };
            let dy = if a_row > b_row {
                a_row - b_row
            } else {
                b_row - a_row
            };
            let ghost before = links@;
            let link = Link { a: i, b: j, distance: dx as u128 + dy as u128 };
            links.push(link);
            proof {
                assert(link == link_of(rooms@, i as int, j as int));
                assert(links@[before.len() as int] == link);
                assert(links@ =~= earlier + links_from(rooms@, i as int, j + 1));
                assert forall|p: int, q: int|
                    0 <= p < q < n && (p < i || (p == i && q < j + 1)) implies links@.contains(
                    #[trigger] link_of(rooms@, p, q),
                ) by {
                    if p == i && q == j {
                    } else {
                        assert(before.contains(link_of(rooms@, p, q)));
                        let k = choose|k: int| 0 <= k < before.len() && before[k] == link_of(rooms@, p, q);
                        assert(links@[k] == link_of(rooms@, p, q));
                    }
                }
            }
            j += 1;
        }
        i += 1;
    }
    links
}

/// Whether the links come in the order of their distances, shortest first.
pub open spec fn by_distance(links: Seq<Link>) -> bool {
    forall|a: int, b: int| 0 <= a <= b < links.len() ==> links[a].distance <= links[b].distance
}

/// The sorted list with one more link put in: behind all links that are not longer.
pub open spec fn insert_link(sorted: Seq<Link>, link: Link) -> Seq<Link>
    decreases sorted.len(),
{
    if sorted.len() > 0 && sorted.last().distance > link.distance {
        insert_link(sorted.drop_last(), link).push(sorted.last())
    } else {
        sorted.push(link)
    }
}

/// The links in the order of their distances, shortest first; links of one distance keep
/// their order.
pub open spec fn sorted_links(links: Seq<Link>) -> Seq<Link>
    decreases links.len(),
{
    if links.len() == 0 {
        Seq::empty()
    } else {
        insert_link(sorted_links(links.drop_last()), links.last())
    }
}

proof fn lemma_insert_at(sorted: Seq<Link>, link: Link, at: int)
    requires
        0 <= at <= sorted.len(),
        forall|k: int| at <= k < sorted.len() ==> sorted[k].distance > link.distance,
        at > 0 ==> sorted[at - 1].distance <= link.distance,
    ensures
        sorted.insert(at, link) == insert_link(sorted, link),
    decreases sorted.len() - at,
{
    if at == sorted.len() {
        assert(sorted.insert(at, link) =~= sorted.push(link));
    } else {
        lemma_insert_at(sorted.drop_last(), link, at);
        assert(sorted.insert(at, link) =~= sorted.drop_last().insert(at, link).push(sorted.last()));
    }
}

/// Orders the links by distance, shortest first; links of one distance keep their order.
pub fn sort_links(links: &Vec<Link>) -> (sorted: Vec<Link>)
    ensures
        sorted@ == sorted_links(links@),
        by_distance(sorted@),
        sorted.len() == links.len(),
        forall|k: int| 0 <= k < links.len() ==> sorted@.contains(#[trigger] links[k]),
        forall|k: int| 0 <= k < sorted.len() ==> links@.contains(#[trigger] sorted[k]),
{
    let mut sorted: Vec<Link> = Vec::new();
    let mut i: usize = 0;
    proof {
        assert(links@.take(0) =~= Seq::empty());
    }
    while i < links.len()
        invariant
            i <= links.len(),
            sorted.len() == i,
            sorted@ == sorted_links(links@.take(i as int)),
            by_distance(sorted@),
            forall|k: int| 0 <= k < i ==> sorted@.contains(#[trigger] links[k]),
            forall|k: int| 0 <= k < sorted.len() ==> links@.contains(#[trigger] sorted[k]),
        decreases links.len() - i,
    {
        let link = links[i];
        let mut at: usize = sorted.len();
        while at > 0 && sorted[at - 1].distance > link.distance
            invariant
                at <= sorted.len(),
                forall|k: int| at <= k < sorted.len() ==> sorted[k].distance > link.distance,
            decreases at,
        {
            at -= 1;
        }
        let ghost before = sorted@;
        sorted.insert(at, link);
        proof {
            assert(sorted@ == before.insert(at as int, link));
            lemma_insert_at(before, link, at as int);
            assert(links@.take(i + 1).drop_last() =~= links@.take(i as int));
            assert forall|a: int, b: int| 0 <= a <= b < sorted.len() implies sorted[a].distance
                <= sorted[b].distance by {
                let pa = if a < at {
                    a
                } else {
                    a - 1
                };
                let pb = if b < at {
                    b
                } else {
                    b - 1
                };
                if a != at && b != at {
                    assert(before[pa].distance <= before[pb].distance);
                } else if a == at && b != at {
                    assert(before[pb].distance > link.distance);
                } else if a != at && b == at {
                    if at > 0 {
                        assert(before[at - 1].distance <= link.distance);
                        assert(before[pa].distance <= before[at - 1].distance);
                    }
                }
            }
            assert forall|k: int| 0 <= k < i + 1 implies sorted@.contains(#[trigger] links[k]) by {
                if k == i {
                    assert(sorted@[at as int] == link);
                } else {
                    assert(before.contains(links[k]));
                    let q = choose|q: int| 0 <= q < before.len() && before[q] == links[k];
                    if q < at {
                        assert(sorted@[q] == links[k]);
                    } else {
                        assert(sorted@[q + 1] == links[k]);
                    }
                }
            }
            assert forall|k: int| 0 <= k < sorted.len() implies links@.contains(
                #[trigger] sorted[k],
            ) by {
                if k < at {
                    assert(sorted[k] == before[k]);
                } else if k == at {
                    assert(links@[i as int] == link);
                } else {
                    assert(sorted[k] == before[k - 1]);
                }
            }
        }
        i += 1;
    }
    proof {
        assert(links@.take(links.len() as int) =~= links@);
    }
    sorted
}

/// The groups of `count` rooms after the rooms of each of the links were joined: every
/// room with the number of the first room of its group.
pub open spec fn groups_after(links: Seq<Link>, count: nat) -> Seq<int>
    decreases links.len(),
{
    if links.len() == 0 {
        Seq::new(count, |i: int| i)
    } else {
        let groups = groups_after(links.drop_last(), count);
        let a = groups[links.last().a as int];
        let b = groups[links.last().b as int];
        let first = if a <= b {
            a
        } else {
            b
        };
        Seq::new(
            count,
            |i: int|
                if groups[i] == a || groups[i] == b {
                    first
                } else {
                    groups[i]
                },
        )
    }
}

/// The pairs of rooms that get a corridor when the links are taken one after the other:
/// those whose rooms were not in one group yet.
pub open spec fn spanning_edges(links: Seq<Link>, count: nat) -> Seq<(usize, usize)>
    decreases links.len(),
{
    if links.len() == 0 {
        Seq::empty()
    } else {
        let groups = groups_after(links.drop_last(), count);
        let rest = spanning_edges(links.drop_last(), count);
        let last = links.last();
        if groups[last.a as int] != groups[last.b as int] {
            rest.push((last.a, last.b))
        } else {
            rest
        }
    }
}

/// The pairs of rooms that are joined by a corridor: taking the pairs from the closest to
/// the farthest, every pair that is not connected yet.
pub open spec fn corridor_edges(rooms: Seq<Room>) -> Seq<(usize, usize)> {
    spanning_edges(sorted_links(pair_links(rooms)), rooms.len())
}

/// Whether the middle of every room reaches the middle of every other room.
pub open spec fn centers_connected(floor: Set<(int, int)>, rooms: Seq<Room>) -> bool {
    forall|i: int, j: int|
        0 <= i < rooms.len() && 0 <= j < rooms.len() ==> connected(
            floor,
            (#[trigger] rooms[i]).center(),
            (#[trigger] rooms[j]).center(),
        )
}

/// Whether every floor cell of every room reaches every floor cell of every other room.
pub open spec fn rooms_reachable(floor: Set<(int, int)>, rooms: Seq<Room>) -> bool {
    forall|i: int, j: int, a: (int, int), b: (int, int)|
        0 <= i < rooms.len() && 0 <= j < rooms.len() && #[trigger] rooms[i].has_floor(a)
            && #[trigger] rooms[j].has_floor(b) ==> connected(floor, a, b)
}

/// Whether each room of the list keeps the gap to every other.
pub open spec fn rooms_apart(rooms: Seq<Room>) -> bool {
    forall|i: int, j: int|
        0 <= i < j < rooms.len() ==> (#[trigger] rooms[i]).apart(#[trigger] rooms[j])
}

/// Whether all rooms lie inside a grid of the given size.
pub open spec fn rooms_fit(rooms: Seq<Room>, width: int, height: int) -> bool {
    forall|i: int| 0 <= i < rooms.len() ==> (#[trigger] rooms[i]).fits(width, height)
}

/// Whether every room is a normal or a large one.
pub open spec fn rooms_sized(rooms: Seq<Room>) -> bool {
    forall|i: int| 0 <= i < rooms.len() ==> (#[trigger] rooms[i]).sized()
}

/// Whether each edge names two different rooms out of `count`, the earlier one first.
pub open spec fn edges_ok(edges: Seq<(usize, usize)>, count: int) -> bool {
    forall|k: int| 0 <= k < edges.len() ==> (#[trigger] edges[k]).0 < edges[k].1 < count
}

proof fn lemma_join_keeps_reach(
    floor: Set<(int, int)>,
    rooms: Seq<Room>,
    before: Seq<usize>,
    after: Seq<usize>,
    a: int,
    b: int,
)
    requires
        forest_ok(before),
        before.len() == rooms.len(),
        0 <= a < rooms.len(),
        0 <= b < rooms.len(),
        forall|i: int|
            0 <= i < rooms.len() ==> connected(
                floor,
                (#[trigger] rooms[i]).center(),
                rooms[root_of(before, i)].center(),
            ),
        forall|i: int|
            0 <= i < rooms.len() ==> root_of(after, i) == merged_root(before, a, b, i),
        connected(floor, rooms[a].center(), rooms[b].center()),
    ensures
        forall|i: int|
            0 <= i < rooms.len() ==> connected(
                floor,
                (#[trigger] rooms[i]).center(),
                rooms[root_of(after, i)].center(),
            ),
{
    let ra = root_of(before, a);
    let rb = root_of(before, b);
    lemma_root_is_fixed(before, a);
    lemma_root_is_fixed(before, b);
    let ca = rooms[a].center();
    let cb = rooms[b].center();
    let cra = rooms[ra].center();
    let crb = rooms[rb].center();
    assert(connected(floor, ca, cra));
    assert(connected(floor, cb, crb));
    lemma_connected_sym(floor, ca, cra);
    lemma_connected_sym(floor, cb, crb);
    lemma_connected_sym(floor, ca, cb);
    lemma_connected_trans(floor, cra, ca, cb);
    lemma_connected_trans(floor, cra, cb, crb);
    lemma_connected_sym(floor, cra, crb);
    lemma_connected_trans(floor, cra, crb, cra);
    lemma_connected_trans(floor, crb, cra, crb);
    assert forall|i: int| 0 <= i < rooms.len() implies connected(
        floor,
        (#[trigger] rooms[i]).center(),
        rooms[root_of(after, i)].center(),
    ) by {
        let r = root_of(before, i);
        assert(connected(floor, rooms[i].center(), rooms[r].center()));
        if r == ra {
            lemma_connected_trans(floor, rooms[i].center(), cra, crb);
        } else if r == rb {
            lemma_connected_trans(floor, rooms[i].center(), crb, cra);
        }
    }
}

proof fn lemma_corridor_step(
    before: Seq<Vec<Tile>>,
    tiles_before: Seq<Vec<Tile>>,
    tiles_after: Seq<Vec<Tile>>,
    width: int,
    height: int,
    rooms: Seq<Room>,
    edges_before: Seq<(usize, usize)>,
    a: usize,
    b: usize,
    floor_tiles: Seq<Tile>,
    fallback: TileView,
    parent_before: Seq<usize>,
    parent_after: Seq<usize>,
)
    requires
        is_grid(tiles_before, width, height),
        rooms_fit(rooms, width, height),
        a < rooms.len(),
        b < rooms.len(),
        relaid(before, tiles_before, corridor_cells(rooms, edges_before), floor_tiles, fallback),
        relaid(
            tiles_before,
            tiles_after,
            Set::new(|c: (int, int)| on_corridor(rooms[a as int], rooms[b as int], c)),
            floor_tiles,
            fallback,
        ),
        forest_ok(parent_before),
        parent_before.len() == rooms.len(),
        forall|i: int|
            0 <= i < rooms.len() ==> connected(
                floor_of(tiles_before),
                (#[trigger] rooms[i]).center(),
                rooms[root_of(parent_before, i)].center(),
            ),
        forall|i: int|
            0 <= i < rooms.len() ==> root_of(parent_after, i) == merged_root(
                parent_before,
                a as int,
                b as int,
                i,
            ),
    ensures
        relaid(
            before,
            tiles_after,
            corridor_cells(rooms, edges_before.push((a, b))),
            floor_tiles,
            fallback,
        ),
        is_grid(tiles_after, width, height),
        forall|i: int|
            0 <= i < rooms.len() ==> connected(
                floor_of(tiles_after),
                (#[trigger] rooms[i]).center(),
                rooms[root_of(parent_after, i)].center(),
            ),
{
    let from = rooms[a as int];
    let to = rooms[b as int];
    let edges_after = edges_before.push((a, b));
    let stretch = Set::new(|c: (int, int)| on_corridor(from, to, c));
    lemma_relaid_twice(
        before,
        tiles_before,
        tiles_after,
        corridor_cells(rooms, edges_before),
        stretch,
        floor_tiles,
        fallback,
    );
    assert forall|c: (int, int)|
        corridor_cells(rooms, edges_before).union(stretch).contains(c) == corridor_cells(
            rooms,
            edges_after,
        ).contains(c) by {
        if corridor_cells(rooms, edges_before).contains(c) {
            let q = choose|q: int|
                0 <= q < edges_before.len() && on_corridor(
                    rooms[(#[trigger] edges_before[q]).0 as int],
                    rooms[edges_before[q].1 as int],
                    c,
                );
            assert(edges_after[q] == edges_before[q]);
        }
        if stretch.contains(c) {
            assert(edges_after[edges_before.len() as int] == (a, b));
        }
        if corridor_cells(rooms, edges_after).contains(c) {
            let q = choose|q: int|
                0 <= q < edges_after.len() && on_corridor(
                    rooms[(#[trigger] edges_after[q]).0 as int],
                    rooms[edges_after[q].1 as int],
                    c,
                );
            if q < edges_before.len() {
                assert(edges_after[q] == edges_before[q]);
            }
        }
    }
    assert(corridor_cells(rooms, edges_before).union(stretch) =~= corridor_cells(rooms, edges_after));
    lemma_relaid_grows(tiles_before, tiles_after, stretch, floor_tiles, fallback);
    let floor = floor_of(tiles_after);
    assert(from.fits(width, height));
    assert(to.fits(width, height));
    assert forall|c: (int, int)| on_corridor(from, to, c) implies floor.contains(c) by {
        assert(stretch.contains(c));
        assert(tiles_before[c.1].len() == width);
        assert(cell_walkable(tiles_after, c.0, c.1));
    }
    lemma_corridor_connected(floor, from, to);
    assert forall|i: int| 0 <= i < rooms.len() implies connected(
        floor,
        (#[trigger] rooms[i]).center(),
        rooms[root_of(parent_before, i)].center(),
    ) by {
        lemma_root_is_fixed(parent_before, i);
        lemma_connected_mono(
            floor_of(tiles_before),
            floor,
            rooms[i].center(),
            rooms[root_of(parent_before, i)].center(),
        );
    }
    lemma_join_keeps_reach(floor, rooms, parent_before, parent_after, a as int, b as int);
}

proof fn lemma_spanning_step(
    sorted: Seq<Link>,
    k: int,
    count: nat,
    parent_before: Seq<usize>,
    parent_after: Seq<usize>,
    edges_before: Seq<(usize, usize)>,
    edges_after: Seq<(usize, usize)>,
    joined: bool,
)
    requires
        0 <= k < sorted.len(),
        sorted[k].a < count,
        sorted[k].b < count,
        forall|i: int|
            0 <= i < count ==> root_of(parent_before, i) == #[trigger] groups_after(
                sorted.take(k),
                count,
            )[i],
        forall|i: int|
            0 <= i < count ==> root_of(parent_after, i) == merged_root(
                parent_before,
                sorted[k].a as int,
                sorted[k].b as int,
                i,
            ),
        joined == (root_of(parent_before, sorted[k].a as int) != root_of(
            parent_before,
            sorted[k].b as int,
        )),
        edges_before == spanning_edges(sorted.take(k), count),
        edges_after == if joined {
            edges_before.push((sorted[k].a, sorted[k].b))
        } else {
            edges_before
        },
    ensures
        forall|i: int|
            0 <= i < count ==> root_of(parent_after, i) == #[trigger] groups_after(
                sorted.take(k + 1),
                count,
            )[i],
        edges_after == spanning_edges(sorted.take(k + 1), count),
{
    let link = sorted[k];
    let groups = groups_after(sorted.take(k), count);
    assert(sorted.take(k + 1).drop_last() =~= sorted.take(k));
    assert(sorted.take(k + 1).last() == link);
    assert(root_of(parent_before, link.a as int) == groups[link.a as int]);
    assert(root_of(parent_before, link.b as int) == groups[link.b as int]);
    assert forall|i: int| 0 <= i < count implies root_of(parent_after, i) == #[trigger] groups_after(
        sorted.take(k + 1),
        count,
    )[i] by {
        assert(root_of(parent_before, i) == groups[i]);
    }
}

/// Joins the rooms into one connected level: takes the pairs of rooms from the closest
/// to the farthest and lays a corridor between each pair that is not connected yet.
/// Returns the pairs that got a corridor.
pub fn connect_rooms(
    rng: &mut ThreadRng,
    tiles: &mut Vec<Vec<Tile>>,
    width: usize,
    height: usize,
    rooms: &Vec<Room>,
    floor_tiles: &Vec<Tile>,
    fallback: &Tile,
) -> (edges: Vec<(usize, usize)>)
    requires
        is_grid(old(tiles)@, width as int, height as int),
        rooms_fit(rooms@, width as int, height as int),
        forall|i: int|
            0 <= i < rooms.len() ==> floor_of(old(tiles)@).contains((#[trigger] rooms[i]).center()),
        forall|k: int| 0 <= k < floor_tiles.len() ==> (#[trigger] floor_tiles[k]).walkable,
        fallback.walkable,
    ensures
        edges@ == corridor_edges(rooms@),
        edges_ok(edges@, rooms.len() as int),
        relaid(
            old(tiles)@,
            final(tiles)@,
            corridor_cells(rooms@, edges@),
            floor_tiles@,
            fallback@,
        ),
        centers_connected(floor_of(final(tiles)@), rooms@),
{
    let n = rooms.len();
    let links = all_links(rooms, width, height);
    let sorted = sort_links(&links);
    let mut parent: Vec<usize> = Vec::new();
    let mut i: usize = 0;
    while i < n
        invariant
            i <= n,
            parent.len() == i,
            forall|k: int| 0 <= k < i ==> parent[k] == k,
        decreases n - i,
    {
        parent.push(i);
        i += 1;
    }
    let mut edges: Vec<(usize, usize)> = Vec::new();
    let ghost before = tiles@;
    proof {
        assert(corridor_cells(rooms@, edges@) =~= Set::empty());
        assert forall|i: int| 0 <= i < n implies connected(
            floor_of(tiles@),
            (#[trigger] rooms[i]).center(),
            rooms[root_of(parent@, i)].center(),
        ) by {
            lemma_connected_refl(floor_of(tiles@), rooms[i].center());
        }
        assert forall|q: int| 0 <= q < sorted.len() implies (#[trigger] sorted[q]).a < sorted[q].b
            < n by {
            assert(links@.contains(sorted[q]));
            let k = choose|k: int| 0 <= k < links.len() && links[k] == sorted[q];
            assert(links[k].a < links[k].b < n);
        }
        assert(sorted@.take(0) =~= Seq::empty());
        assert(edges@ =~= spanning_edges(sorted@.take(0), n as nat));
    }
    let mut k: usize = 0;
    while k < sorted.len()
        invariant
            k <= sorted.len(),
            n == rooms.len(),
            is_grid(tiles@, width as int, height as int),
            rooms_fit(rooms@, width as int, height as int),
            forall|q: int| 0 <= q < floor_tiles.len() ==> (#[trigger] floor_tiles[q]).walkable,
            fallback.walkable,
            forall|q: int| 0 <= q < sorted.len() ==> (#[trigger] sorted[q]).a < sorted[q].b < n,
            parent.len() == n,
            forest_ok(parent@),
            edges_ok(edges@, n as int),
            relaid(before, tiles@, corridor_cells(rooms@, edges@), floor_tiles@, fallback@),
            forall|i: int|
                0 <= i < n ==> connected(
                    floor_of(tiles@),
                    (#[trigger] rooms[i]).center(),
                    rooms[root_of(parent@, i)].center(),
                ),
            forall|i: int|
                0 <= i < n ==> root_of(parent@, i) == #[trigger] groups_after(
                    sorted@.take(k as int),
                    n as nat,
                )[i],
            edges@ == spanning_edges(sorted@.take(k as int), n as nat),
        decreases sorted.len() - k,
    {
        let link = sorted[k];
        assert(link.a < link.b < n);
        let ghost parent_before = parent@;
        let ghost tiles_before = tiles@;
        let ghost edges_before = edges@;
        let joined = join_groups(&mut parent, link.a, link.b);
        if joined {
            carve_corridor(
                rng,
                tiles,
                width,
                height,
                &rooms[link.a],
                &rooms[link.b],
                floor_tiles,
                fallback,
            );
            edges.push((link.a, link.b));
            proof {
                lemma_corridor_step(
                    before,
                    tiles_before,
                    tiles@,
                    width as int,
                    height as int,
                    rooms@,
                    edges_before,
                    link.a,
                    link.b,
                    floor_tiles@,
                    fallback@,
                    parent_before,
                    parent@,
                );
            }
        } else {
            proof {
                assert forall|i: int| 0 <= i < n implies connected(
                    floor_of(tiles@),
                    (#[trigger] rooms[i]).center(),
                    rooms[root_of(parent@, i)].center(),
                ) by {
                    assert(root_of(parent@, i) == root_of(parent_before, i));
                }
            }
        }
        proof {
            lemma_spanning_step(
                sorted@,
                k as int,
                n as nat,
                parent_before,
                parent@,
                edges_before,
                edges@,
                joined,
            );
        }
        k += 1;
    }
    proof {
        assert(sorted@.take(sorted.len() as int) =~= sorted@);
        lemma_all_joined(floor_of(tiles@), rooms@, links@, sorted@, parent@);
    }
    edges
}

proof fn lemma_all_joined(
    floor: Set<(int, int)>,
    rooms: Seq<Room>,
    links: Seq<Link>,
    sorted: Seq<Link>,
    parent: Seq<usize>,
)
    requires
        rooms.len() <= usize::MAX,
        forest_ok(parent),
        parent.len() == rooms.len(),
        forall|q: int| 0 <= q < sorted.len() ==> (#[trigger] sorted[q]).a < sorted[q].b < rooms.len(),
        forall|i: int, j: int|
            0 <= i < j < rooms.len() ==> links.contains(#[trigger] link_of(rooms, i, j)),
        forall|k: int| 0 <= k < links.len() ==> sorted.contains(#[trigger] links[k]),
        forall|i: int|
            0 <= i < rooms.len() ==> connected(
                floor,
                (#[trigger] rooms[i]).center(),
                rooms[root_of(parent, i)].center(),
            ),
        forall|i: int|
            0 <= i < rooms.len() ==> root_of(parent, i) == #[trigger] groups_after(
                sorted,
                rooms.len(),
            )[i],
    ensures
        centers_connected(floor, rooms),
{
    let n = rooms.len() as int;
    assert forall|i: int, j: int| 0 <= i < n && 0 <= j < n implies connected(
        floor,
        (#[trigger] rooms[i]).center(),
        (#[trigger] rooms[j]).center(),
    ) by {
        let ri = root_of(parent, i);
        let rj = root_of(parent, j);
        lemma_root_is_fixed(parent, i);
        lemma_root_is_fixed(parent, j);
        if i != j {
            let lo = if i < j {
                i
            } else {
                j
            };
            let hi = if i < j {
                j
            } else {
                i
            };
            assert(links.contains(link_of(rooms, lo, hi)));
            let at = choose|at: int| 0 <= at < links.len() && links[at] == link_of(rooms, lo, hi);
            assert(sorted.contains(links[at]));
            let q = choose|q: int| 0 <= q < sorted.len() && sorted[q] == links[at];
            let link = sorted[q];
            assert(link == link_of(rooms, lo, hi));
            assert(link.a == lo && link.b == hi);
            lemma_linked_stay_joined(sorted, rooms.len(), q, sorted.len() as int);
            assert(sorted.take(sorted.len() as int) =~= sorted);
            let groups = groups_after(sorted, rooms.len());
            assert(groups[lo] == groups[hi]);
            assert(root_of(parent, lo) == groups[lo]);
            assert(root_of(parent, hi) == groups[hi]);
            assert(ri == rj);
        }
        assert(connected(floor, rooms[i].center(), rooms[ri].center()));
        assert(connected(floor, rooms[j].center(), rooms[rj].center()));
        lemma_connected_sym(floor, rooms[j].center(), rooms[rj].center());
        lemma_connected_trans(floor, rooms[i].center(), rooms[ri].center(), rooms[j].center());
    }
}

/// The two rooms of a link are in one group once the link was taken, and stay so.
pub proof fn lemma_linked_stay_joined(sorted: Seq<Link>, count: nat, q: int, upto: int)
    requires
        0 <= q < upto <= sorted.len(),
        sorted[q].a < count,
        sorted[q].b < count,
    ensures
        groups_after(sorted.take(upto), count)[sorted[q].a as int] == groups_after(
            sorted.take(upto),
            count,
        )[sorted[q].b as int],
    decreases upto - q,
{
    assert(sorted.take(upto).drop_last() =~= sorted.take(upto - 1));
    assert(sorted.take(upto).last() == sorted[upto - 1]);
    if upto - 1 > q {
        lemma_linked_stay_joined(sorted, count, q, upto - 1);
    }
}

/// Whether `t` is a floor cell as the generator lays it from the tile catalog: a cell of
/// one of the floor templates, or, where the catalog has none, of the template
/// `floor_dark` if that can be walked on, and else the plain dark floor.
pub open spec fn is_floor_of(t: TileView, catalog: Seq<GameObjectView>) -> bool {
    let floors = catalog.filter(|o: GameObjectView| is_floor_entry(o));
    if floors.len() > 0 {
        exists|k: int| 0 <= k < floors.len() && is_tile_of(t, #[trigger] floors[k])
    } else {
        match find(catalog, "floor_dark"@) {
            Some(o) => if o.walkable {
                is_tile_of(t, o)
            } else {
                t == Tile::plain(true, 0, 6)
            },
            None => t == Tile::plain(true, 0, 6),
        }
    }
}

/// Whether the grid is as before, but for the cells of `cells`, which hold floor laid
/// from the tile catalog and can be walked on.
pub open spec fn carved(
    before: Seq<Vec<Tile>>,
    after: Seq<Vec<Tile>>,
    cells: Set<(int, int)>,
    catalog: Seq<GameObjectView>,
) -> bool {
    &&& after.len() == before.len()
    &&& forall|y: int| 0 <= y < before.len() ==> (#[trigger] after[y]).len() == before[y].len()
    &&& forall|x: int, y: int|
        0 <= y < before.len() && 0 <= x < before[y].len() ==> if cells.contains((x, y)) {
            (#[trigger] after[y][x]).walkable && is_floor_of(after[y][x]@, catalog)
        } else {
            after[y][x] == before[y][x]
        }
}

/// A copy of a cell of a template that is drawn with another of its sprites is a cell of
/// the template too.
pub proof fn lemma_other_sprite_same_template(made: TileView, t: TileView, o: GameObjectView)
    requires
        is_tile_of(made, o),
        made.same_but_sprite(t),
    ensures
        is_tile_of(t, o),
{
    let sprites = o.sprite_list();
    if sprites.len() > 0 {
        let pick = choose|pick: int| 0 <= pick < sprites.len() && made == tile_of(o, pick);
        assert(made.sprites == sprites);
        let j = choose|j: int| 0 <= j < sprites.len() && sprites[j] == t.sprite();
        assert(t == tile_of(o, j));
    }
}

/// Floor laid from the floor tiles of a catalog, or from its fallback, is floor of that
/// catalog.
pub proof fn lemma_choice_is_floor(
    t: TileView,
    floor_tiles: Seq<Tile>,
    fallback: TileView,
    catalog: Seq<GameObjectView>,
)
    requires
        is_floor_choice(t, floor_tiles, fallback),
        tiles_of(floor_tiles, catalog.filter(|o: GameObjectView| is_floor_entry(o))),
        match find(catalog, "floor_dark"@) {
            Some(o) => if o.walkable {
                is_tile_of(fallback, o)
            } else {
                fallback == Tile::plain(true, 0, 6)
            },
            None => fallback == Tile::plain(true, 0, 6),
        },
    ensures
        is_floor_of(t, catalog),
{
    let floors = catalog.filter(|o: GameObjectView| is_floor_entry(o));
    if floor_tiles.len() > 0 {
        let k = choose|k: int| 0 <= k < floor_tiles.len() && (#[trigger] floor_tiles[k])@.same_but_sprite(t);
        assert(is_tile_of(floor_tiles[k]@, floors[k]));
        lemma_other_sprite_same_template(floor_tiles[k]@, t, floors[k]);
    } else {
        match find(catalog, "floor_dark"@) {
            Some(o) => {
                if o.walkable {
                    lemma_other_sprite_same_template(fallback, t, o);
                } else {
                    assert(Tile::plain(true, 0, 6).sprites[0] == t.sprite());
                }
            },
            None => {
                assert(Tile::plain(true, 0, 6).sprites[0] == t.sprite());
            },
        }
    }
}

/// The cells that a level with the given rooms and corridors has floor on.
pub open spec fn level_cells(rooms: Seq<Room>, edges: Seq<(usize, usize)>) -> Set<(int, int)> {
    room_cells(rooms).union(corridor_cells(rooms, edges))
}

/// Whether `after` is `before` with the given rooms and the corridors between them carved
/// into it, and nothing else changed.
pub open spec fn rooms_carved(
    before: Seq<Vec<Tile>>,
    after: Seq<Vec<Tile>>,
    rooms: Seq<Room>,
    catalog: Seq<GameObjectView>,
) -> bool {
    carved(before, after, level_cells(rooms, corridor_edges(rooms)), catalog)
}

/// The floor tile used where the catalog has no floor template: the cell of the template
/// `floor_dark` if it can be walked on, else the plain dark floor.
pub fn fallback_floor(registry: &TileRegistry) -> (t: Tile)
    ensures
        t.walkable,
        match find(registry@, "floor_dark"@) {
            Some(o) => if o.walkable {
                is_tile_of(t@, o)
            } else {
                t@ == Tile::plain(true, 0, 6)
            },
            None => t@ == Tile::plain(true, 0, 6),
        },
{
    let t = registry.get_floor_dark();
    if t.walkable {
        t
    } else {
        Tile::new(true, 0, 6)
    }
}

/// Whether `t` is the tile a level is filled with before rooms are carved: a cell of the
/// first wall template of the catalog, or of `wall_dirt_top` where it has no wall template.
pub open spec fn is_default_wall(t: TileView, catalog: Seq<GameObjectView>) -> bool {
    let walls = catalog.filter(|o: GameObjectView| is_wall_entry(o));
    if walls.len() > 0 {
        is_tile_of(t, walls[0])
    } else {
        match find(catalog, "wall_dirt_top"@) {
            Some(o) => is_tile_of(t, o),
            None => t == Tile::plain(false, 0, 0),
        }
    }
}

/// The tile a level is filled with before rooms are carved.
pub fn default_wall(registry: &TileRegistry) -> (t: Tile)
    ensures
        is_default_wall(t@, registry@),
{
    let walls = registry.get_wall_tiles();
    if walls.len() > 0 {
        walls[0].clone()
    } else {
        registry.get_wall_dirt_top()
    }
}

/// Whether the room keeps the gap to all rooms of the list.
pub fn keeps_gap(rooms: &Vec<Room>, room: &Room, width: usize, height: usize) -> (ok: bool)
    requires
        rooms_fit(rooms@, width as int, height as int),
        room.fits(width as int, height as int),
    ensures
        ok == forall|i: int| 0 <= i < rooms.len() ==> (#[trigger] rooms[i]).apart(*room),
{
    let mut i: usize = 0;
    while i < rooms.len()
        invariant
            i <= rooms.len(),
            rooms_fit(rooms@, width as int, height as int),
            room.fits(width as int, height as int),
            forall|k: int| 0 <= k < i ==> (#[trigger] rooms[k]).apart(*room),
        decreases rooms.len() - i,
    {
        assert(rooms[i as int].fits(width as int, height as int));
        if room.too_close(&rooms[i]) {
            return false;
        }
        i += 1;
    }
    true
}

impl Dungeon {
    /// Whether the grid has the size the level states and the rooms lie inside it.
    pub open spec fn wf(&self) -> bool {
        &&& is_grid(self.tiles@, self.width as int, self.height as int)
        &&& forall|i: int|
            0 <= i < self.rooms.len() ==> (#[trigger] self.rooms[i]).x + self.rooms[i].width
                <= self.width && self.rooms[i].y + self.rooms[i].height <= self.height
    }

    /// Whether the cell is the first in reading order that can be walked on.
    pub open spec fn is_first_floor(&self, c: (int, int)) -> bool {
        &&& self.walkable(c.0, c.1)
        &&& forall|x: int, y: int|
            #[trigger] self.walkable(x, y) ==> c.1 < y || (c.1 == y && c.0 <= x)
    }

    /// Whether the cell is the place where a level starts: the first cell in reading
    /// order that can be walked on, or (1, 1) where there is none.
    pub open spec fn is_spawn(&self, c: (int, int)) -> bool {
        if exists|x: int, y: int| #[trigger] self.walkable(x, y) {
            self.is_first_floor(c)
        } else {
            c == (1int, 1int)
        }
    }

    /// The place where a level starts.
    pub fn spawn_point(&self) -> (p: (usize, usize))
        ensures
            self.is_spawn((p.0 as int, p.1 as int)),
    {
        let mut y: usize = 0;
        while y < self.height
            invariant
                y <= self.height,
                forall|c: int, r: int| 0 <= r < y ==> !#[trigger] self.walkable(c, r),
            decreases self.height - y,
        {
            let mut x: usize = 0;
            while x < self.width
                invariant
                    x <= self.width,
                    y < self.height,
                    forall|c: int, r: int| 0 <= r < y ==> !#[trigger] self.walkable(c, r),
                    forall|c: int| 0 <= c < x ==> !#[trigger] self.walkable(c, y as int),
                decreases self.width - x,
            {
                if self.is_walkable(x, y) {
                    return (x, y);
                }
                x += 1;
            }
            y += 1;
        }
        (1, 1)
    }

    /// Whether the level has a cell at (`x`, `y`) that can be walked on.
    pub open spec fn walkable(&self, x: int, y: int) -> bool {
        0 <= x < self.width && 0 <= y < self.height && cell_walkable(self.tiles@, x, y)
    }

    /// The cells of the level that can be walked on.
    pub open spec fn floor(&self) -> Set<(int, int)> {
        floor_of(self.tiles@)
    }

    /// Whether the level is a grid of copies of `wall` with its rooms and the corridors
    /// between them carved into it: the cells of the rooms and corridors hold floor of the
    /// catalog and can be walked on, all others are wall.
    pub open spec fn laid_out(&self, wall: TileView, catalog: Seq<GameObjectView>) -> bool {
        &&& self.wf()
        &&& forall|x: int, y: int|
            0 <= y < self.height && 0 <= x < self.width ==> if level_cells(
                self.rooms@,
                corridor_edges(self.rooms@),
            ).contains((x, y)) {
                (#[trigger] self.tiles[y][x]).walkable && is_floor_of(self.tiles[y][x]@, catalog)
            } else {
                self.tiles[y][x]@ == wall
            }
    }

    /// Whether the level is as the generator makes it from the tile catalog: a grid of
    /// wall with rooms that keep their gap carved into it, and corridors that let every
    /// room reach every other.
    pub open spec fn generated(&self, catalog: Seq<GameObjectView>) -> bool {
        &&& self.wf()
        &&& self.rooms.len() <= MAX_PLACEMENTS
        &&& rooms_fit(self.rooms@, self.width as int, self.height as int)
        &&& rooms_sized(self.rooms@)
        &&& rooms_apart(self.rooms@)
        &&& rooms_reachable(self.floor(), self.rooms@)
        &&& exists|wall: TileView|
            is_default_wall(wall, catalog) && #[trigger] self.laid_out(wall, catalog)
    }

    /// A level of the given size with 8 to 12 rooms.
    pub fn new_with_registry(width: usize, height: usize, registry: &TileRegistry) -> (d: Self)
        ensures
            d.width == width,
            d.height == height,
            d.wf(),
            d.rooms.len() <= 12,
            width >= 18 && height >= 18 ==> d.rooms.len() >= 1,
            d.generated(registry@),
            rooms_fit(d.rooms@, width as int, height as int),
            rooms_apart(d.rooms@),
            rooms_reachable(d.floor(), d.rooms@),
            exists|wall: TileView|
                is_default_wall(wall, registry@) && #[trigger] d.laid_out(wall, registry@),
    {
        Dungeon::new_with_room_count(width, height, registry, 8, 12)
    }

    /// A level of the given size: a grid of wall with rooms carved into it, their number
    /// drawn between `min_rooms` and `max_rooms`, and corridors that join them all. Where
    /// the placements run out the level has fewer rooms.
    pub fn new_with_room_count(
        width: usize,
        height: usize,
        registry: &TileRegistry,
        min_rooms: u32,
        max_rooms: u32,
    ) -> (d: Self)
        ensures
            d.width == width,
            d.height == height,
            d.wf(),
            d.rooms.len() <= min_rooms || d.rooms.len() <= max_rooms,
            d.rooms.len() <= MAX_PLACEMENTS,
            min_rooms >= 1 && width >= 18 && height >= 18 ==> d.rooms.len() >= 1,
            d.generated(registry@),
            rooms_fit(d.rooms@, width as int, height as int),
            rooms_apart(d.rooms@),
            rooms_reachable(d.floor(), d.rooms@),
            exists|wall: TileView|
                is_default_wall(wall, registry@) && #[trigger] d.laid_out(wall, registry@),
    {
        let wall = default_wall(registry);
        let mut tiles = fill_grid(width, height, &wall);
        let ghost before = tiles@;
        let rooms = Dungeon::generate_rooms(
            &mut tiles,
            width,
            height,
            registry,
            min_rooms,
            max_rooms,
        );
        let d = Dungeon { width, height, tiles, rooms };
        proof {
            let edges = corridor_edges(d.rooms@);
            assert forall|x: int, y: int| 0 <= y < d.height && 0 <= x < d.width implies if level_cells(
                d.rooms@,
                edges,
            ).contains((x, y)) {
                (#[trigger] d.tiles[y][x]).walkable && is_floor_of(d.tiles[y][x]@, registry@)
            } else {
                d.tiles[y][x]@ == wall@
            } by {
                assert(before[y].len() == width);
                assert(before[y][x]@ == wall@);
            }
            assert(d.laid_out(wall@, registry@));
        }
        d
    }

    /// Carves rooms into the grid and joins them by corridors. The number of rooms aimed
    /// at is drawn between `min_rooms` and `max_rooms`; each placement draws a size and a
    /// place and is dropped where the room would not keep the gap to the rooms so far.
    pub fn generate_rooms(
        tiles: &mut Vec<Vec<Tile>>,
        width: usize,
        height: usize,
        registry: &TileRegistry,
        min_rooms: u32,
        max_rooms: u32,
    ) -> (rooms: Vec<Room>)
        requires
            is_grid(old(tiles)@, width as int, height as int),
        ensures
            is_grid(final(tiles)@, width as int, height as int),
            rooms.len() <= min_rooms || rooms.len() <= max_rooms,
            rooms.len() <= MAX_PLACEMENTS,
            min_rooms >= 1 && width >= 18 && height >= 18 ==> rooms.len() >= 1,
            rooms_fit(rooms@, width as int, height as int),
            rooms_sized(rooms@),
            rooms_apart(rooms@),
            rooms_carved(old(tiles)@, final(tiles)@, rooms@, registry@),
            rooms_reachable(floor_of(final(tiles)@), rooms@),
    {
        let mut rng = rand::thread_rng();
        let floor_tiles = registry.get_walkable_tiles();
        let fallback = fallback_floor(registry);
        let most = if max_rooms >= min_rooms {
            max_rooms
        } else {
            min_rooms
        };
        let target = random_usize(&mut rng, min_rooms as usize, most as usize);
        let mut rooms: Vec<Room> = Vec::new();
        let mut attempts: usize = 0;
        let ghost before = tiles@;
        proof {
            assert(room_cells(rooms@) =~= Set::empty());
        }
        while rooms.len() < target && attempts < MAX_PLACEMENTS
            invariant
                attempts <= MAX_PLACEMENTS,
                rooms.len() <= attempts,
                rooms.len() <= target,
                min_rooms <= target,
                attempts >= 1 && width >= 18 && height >= 18 ==> rooms.len() >= 1,
                is_grid(before, width as int, height as int),
                is_grid(tiles@, width as int, height as int),
                rooms_fit(rooms@, width as int, height as int),
                rooms_sized(rooms@),
                rooms_apart(rooms@),
                forall|k: int| 0 <= k < floor_tiles.len() ==> (#[trigger] floor_tiles[k]).walkable,
                fallback.walkable,
                relaid(before, tiles@, room_cells(rooms@), floor_tiles@, fallback@),
            decreases MAX_PLACEMENTS - attempts,
        {
            attempts += 1;
            let large = percent_roll(&mut rng) < LARGE_ROOM_PERCENT;
            let room_width = if large {
                random_usize(&mut rng, NORMAL_ROOM_SIDE, MAX_ROOM_SIDE)
            } else {
                random_usize(&mut rng, MIN_ROOM_SIDE, NORMAL_ROOM_SIDE)
            };
            let room_height = if large {
                random_usize(&mut rng, NORMAL_ROOM_SIDE, MAX_ROOM_SIDE)
            } else {
                random_usize(&mut rng, MIN_ROOM_SIDE, NORMAL_ROOM_SIDE)
            };
            if width >= room_width + 3 && height >= room_height + 3 {
                let x = random_usize(&mut rng, 1, width - room_width - 2);
                let y = random_usize(&mut rng, 1, height - room_height - 2);
                let room = Room { x, y, width: room_width, height: room_height };
                if keeps_gap(&rooms, &room, width, height) {
                    let ghost tiles_before = tiles@;
                    let ghost rooms_before = rooms@;
                    carve_room(&mut rng, tiles, &room, &floor_tiles, &fallback);
                    rooms.push(room);
                    proof {
                        let cells = Set::new(|c: (int, int)| room.has_floor(c));
                        lemma_relaid_twice(
                            before,
                            tiles_before,
                            tiles@,
                            room_cells(rooms_before),
                            cells,
                            floor_tiles@,
                            fallback@,
                        );
                        assert forall|c: (int, int)|
                            room_cells(rooms_before).union(cells).contains(c) == room_cells(
                                rooms@,
                            ).contains(c) by {
                            if room_cells(rooms_before).contains(c) {
                                let i = choose|i: int|
                                    0 <= i < rooms_before.len() && (
                                    #[trigger] rooms_before[i]).has_floor(c);
                                assert(rooms@[i] == rooms_before[i]);
                            }
                            if cells.contains(c) {
                                assert(rooms@[rooms_before.len() as int] == room);
                            }
                            if room_cells(rooms@).contains(c) {
                                let i = choose|i: int|
                                    0 <= i < rooms@.len() && (#[trigger] rooms@[i]).has_floor(c);
                                if i < rooms_before.len() {
                                    assert(rooms@[i] == rooms_before[i]);
                                }
                            }
                        }
                        assert(room_cells(rooms_before).union(cells) =~= room_cells(rooms@));
                        lemma_relaid_grows(tiles_before, tiles@, cells, floor_tiles@, fallback@);
                        assert forall|i: int, j: int| 0 <= i < j < rooms.len() implies (
                        #[trigger] rooms[i]).apart(#[trigger] rooms[j]) by {
                            if j == rooms_before.len() {
                                assert(rooms_before[i].apart(room));
                            } else {
                                assert(rooms_before[i].apart(rooms_before[j]));
                            }
                        }
                    }
                }
            }
        }
        let ghost tiles_rooms = tiles@;
        proof {
            lemma_relaid_grows(before, tiles_rooms, room_cells(rooms@), floor_tiles@, fallback@);
            assert forall|i: int, c: (int, int)|
                0 <= i < rooms.len() && #[trigger] rooms[i].has_floor(c) implies floor_of(
                tiles_rooms,
            ).contains(c) by {
                assert(rooms[i].fits(width as int, height as int));
                assert(room_cells(rooms@).contains(c));
                assert(before[c.1].len() == width);
            }
            assert forall|i: int| 0 <= i < rooms.len() implies floor_of(tiles_rooms).contains(
                (#[trigger] rooms[i]).center(),
            ) by {
                lemma_center_in_ellipse(rooms[i].width as int, rooms[i].height as int);
                assert(rooms[i].fits(width as int, height as int));
                assert(rooms[i].has_floor(rooms[i].center()));
            }
        }
        let edges = connect_rooms(
            &mut rng,
            tiles,
            width,
            height,
            &rooms,
            &floor_tiles,
            &fallback,
        );
        proof {
            let floor = floor_of(tiles@);
            lemma_relaid_twice(
                before,
                tiles_rooms,
                tiles@,
                room_cells(rooms@),
                corridor_cells(rooms@, edges@),
                floor_tiles@,
                fallback@,
            );
            lemma_relaid_grows(
                tiles_rooms,
                tiles@,
                corridor_cells(rooms@, edges@),
                floor_tiles@,
                fallback@,
            );
            let cells = level_cells(rooms@, edges@);
            assert forall|x: int, y: int|
                0 <= y < before.len() && 0 <= x < before[y].len() implies if cells.contains((x, y)) {
                (#[trigger] tiles@[y][x]).walkable && is_floor_of(tiles@[y][x]@, registry@)
            } else {
                tiles@[y][x] == before[y][x]
            } by {
                if cells.contains((x, y)) {
                    lemma_choice_is_floor(tiles@[y][x]@, floor_tiles@, fallback@, registry@);
                }
            }
            assert(carved(before, tiles@, cells, registry@));
            assert(edges@ == corridor_edges(rooms@));
            assert forall|i: int, j: int, a: (int, int), b: (int, int)|
                0 <= i < rooms.len() && 0 <= j < rooms.len() && #[trigger] rooms[i].has_floor(a)
                    && #[trigger] rooms[j].has_floor(b) implies connected(floor, a, b) by {
                assert forall|d: (int, int)| rooms[i].has_floor(d) implies floor.contains(d) by {
                    assert(floor_of(tiles_rooms).contains(d));
                }
                assert forall|d: (int, int)| rooms[j].has_floor(d) implies floor.contains(d) by {
                    assert(floor_of(tiles_rooms).contains(d));
                }
                assert(rooms[i].fits(width as int, height as int));
                assert(rooms[j].fits(width as int, height as int));
                lemma_room_reaches_center(floor, rooms[i], a);
                lemma_room_reaches_center(floor, rooms[j], b);
                assert(connected(floor, rooms[i].center(), rooms[j].center()));
                lemma_connected_trans(floor, a, rooms[i].center(), rooms[j].center());
                lemma_connected_trans(floor, a, rooms[j].center(), b);
            }
        }
        rooms
    }

    /// Whether the level has a cell at (`x`, `y`) that can be walked on.
    pub fn is_walkable(&self, x: usize, y: usize) -> (r: bool)
        ensures
            r == self.walkable(x as int, y as int),
    {
        if y >= self.height || x >= self.width {
            return false;
        }
        if y >= self.tiles.len() {
            return false;
        }
        if x >= self.tiles[y].len() {
            return false;
        }
        self.tiles[y][x].walkable
    }
}

/// A level that the generator made with a room at least has cells to walk on: the
/// middle of every room is one.
pub proof fn lemma_rooms_have_floor(d: Dungeon, catalog: Seq<GameObjectView>)
    requires
        d.generated(catalog),
    ensures
        forall|i: int|
            0 <= i < d.rooms.len() ==> d.walkable(
                (#[trigger] d.rooms[i]).center().0,
                d.rooms[i].center().1,
            ),
        d.rooms.len() >= 1 ==> exists|x: int, y: int| #[trigger] d.walkable(x, y),
{
    let wall = choose|wall: TileView| is_default_wall(wall, catalog) && #[trigger] d.laid_out(wall, catalog);
    let cells = level_cells(d.rooms@, corridor_edges(d.rooms@));
    assert forall|i: int| 0 <= i < d.rooms.len() implies d.walkable(
        (#[trigger] d.rooms[i]).center().0,
        d.rooms[i].center().1,
    ) by {
        let room = d.rooms[i];
        let c = room.center();
        assert(room.fits(d.width as int, d.height as int));
        lemma_center_in_ellipse(room.width as int, room.height as int);
        assert(room.has_floor(c));
        assert(room_cells(d.rooms@).contains(c));
        assert(cells.contains(c));
        assert(0 <= c.1 < d.height && 0 <= c.0 < d.width);
        assert(d.tiles[c.1][c.0].walkable);
    }
    if d.rooms.len() >= 1 {
        let c = d.rooms[0].center();
        assert(d.walkable(c.0, c.1));
    }
}

} // verus!
