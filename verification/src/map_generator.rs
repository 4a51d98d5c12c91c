//! Setting up a level: the dungeon, its monsters and chests, and the stairs.

use crate::chest::{chest_views, Chest, ChestView};
use crate::config::LevelConfig;
use crate::consumable::Consumable;
use crate::dungeon::{
    is_default_wall, manhattan, rooms_apart, rooms_fit, rooms_reachable, Dungeon, Room,
    MAX_PLACEMENTS,
};
use crate::entity::{
    entity_from, entity_views, monster_defaults, Entity, EntityController, EntityView,
};
use crate::game_object::{GameObject, GameObjectView};
use crate::game_object_registry::{find, GameObjectRegistry};
use crate::rng::{random_index, random_usize, shuffle_positions};
use crate::text::{decimal, numbered_id};
use crate::tile::TileView;
use crate::tile_registry::TileRegistry;
use rand::rngs::ThreadRng;
use vstd::prelude::*;
use vstd::string::*;

verus! {

/// The width of a generated level.
pub const LEVEL_WIDTH: usize = 80;

/// The height of a generated level.
pub const LEVEL_HEIGHT: usize = 50;

/// How far from the middle of a room the stairs may lie.
pub const STAIRS_REACH: usize = 5;

/// Sets up levels.
pub struct MapGenerator;

/// The distance between two cells, counted in steps that may go along both axes at once.
pub open spec fn chebyshev(a: (int, int), b: (int, int)) -> int {
    let dx = if a.0 >= b.0 {
        a.0 - b.0
    } else {
        b.0 - a.0
    };
    let dy = if a.1 >= b.1 {
        a.1 - b.1
    } else {
        b.1 - a.1
    };
    if dx >= dy {
        dx
    } else {
        dy
    }
}

/// Whether room `i` is the room for the stairs: its middle is farther from `from` than
/// that of every room before it and as far as that of any room after it.
pub open spec fn is_farthest(rooms: Seq<Room>, from: (int, int), i: int) -> bool {
    &&& 0 <= i < rooms.len()
    &&& forall|j: int|
        0 <= j < rooms.len() ==> manhattan(from, (#[trigger] rooms[j]).center()) <= manhattan(
            from,
            rooms[i].center(),
        )
    &&& forall|j: int|
        0 <= j < i ==> manhattan(from, (#[trigger] rooms[j]).center()) < manhattan(
            from,
            rooms[i].center(),
        )
}

/// Whether `c` is the cell for the stairs around `center`: a cell that can be walked on,
/// within reach of the middle, as close to it as any such cell and the first in reading
/// order among those as close.
pub open spec fn is_nearest_floor(d: Dungeon, center: (int, int), c: (int, int)) -> bool {
    &&& d.walkable(c.0, c.1)
    &&& chebyshev(c, center) <= STAIRS_REACH
    &&& forall|x: int, y: int|
        #[trigger] d.walkable(x, y) && chebyshev((x, y), center) <= STAIRS_REACH ==> chebyshev(
            c,
            center,
        ) < chebyshev((x, y), center) || (chebyshev(c, center) == chebyshev((x, y), center) && (c.1
            < y || (c.1 == y && c.0 <= x)))
}

/// Whether `r` is where the stairs of the level belong, for players that start at `from`:
/// near the middle of the room farthest from there, the first of several that far.
/// There are no stairs where the catalog has no entry `stairs`, where the level has no
/// room or where no cell near the middle of the farthest room can be walked on.
pub open spec fn stairs_ok(
    d: Dungeon,
    from: (int, int),
    catalog: Seq<GameObjectView>,
    r: Option<(usize, usize)>,
) -> bool {
    if find(catalog, "stairs"@) is None {
        r is None
    } else if d.rooms.len() == 0 {
        r is None
    } else {
        let i = choose|i: int| is_farthest(d.rooms@, from, i);
        let center = d.rooms[i].center();
        match r {
            Some(c) => is_nearest_floor(d, center, (c.0 as int, c.1 as int)),
            None => forall|x: int, y: int|
                #[trigger] d.walkable(x, y) ==> chebyshev((x, y), center) > STAIRS_REACH,
        }
    }
}

fn center_distance(room: &Room, from_x: usize, from_y: usize) -> (r: u128)
    ensures
        r == manhattan((from_x as int, from_y as int), room.center()),
{
    let cx: u128 = room.x as u128 + (room.width / 2) as u128;
    let cy: u128 = room.y as u128 + (room.height / 2) as u128;
    let dx = if from_x as u128 >= cx {
        from_x as u128 - cx
    } else {
        cx - from_x as u128
    };
    let dy = if from_y as u128 >= cy {
        from_y as u128 - cy
    } else {
        cy - from_y as u128
    };
    dx + dy
}

fn farthest_room(rooms: &Vec<Room>, from_x: usize, from_y: usize) -> (r: Option<usize>)
    ensures
        match r {
            Some(i) => is_farthest(rooms@, (from_x as int, from_y as int), i as int),
            None => rooms.len() == 0,
        },
{
    let ghost from = (from_x as int, from_y as int);
    let mut best: Option<usize> = None;
    let mut best_distance: u128 = 0;
    let mut i: usize = 0;
    while i < rooms.len()
        invariant
            i <= rooms.len(),
            from == (from_x as int, from_y as int),
            forall|j: int| 0 <= j < i ==> manhattan(from, (#[trigger] rooms[j]).center()) <= best_distance,
            match best {
                Some(b) => b < i && manhattan(from, rooms[b as int].center()) == best_distance
                    && forall|j: int|
                    0 <= j < b ==> manhattan(from, (#[trigger] rooms[j]).center()) < best_distance,
                None => i == 0 && best_distance == 0,
            },
        decreases rooms.len() - i,
    {
        let distance = center_distance(&rooms[i], from_x, from_y);
        if best.is_none() || distance > best_distance {
            best_distance = distance;
            best = Some(i);
        }
        i += 1;
    }
    best
}

fn nearest_floor(dungeon: &Dungeon, room: &Room) -> (r: Option<(usize, usize)>)
    ensures
        match r {
            Some(c) => is_nearest_floor(*dungeon, room.center(), (c.0 as int, c.1 as int)),
            None => forall|x: int, y: int|
                #[trigger] dungeon.walkable(x, y) ==> chebyshev((x, y), room.center())
                    > STAIRS_REACH,
        },
{
    let cx: i128 = room.x as i128 + (room.width / 2) as i128;
    let cy: i128 = room.y as i128 + (room.height / 2) as i128;
    let ghost center = room.center();
    let mut reach: i128 = 0;
    while reach <= 5
        invariant
            0 <= reach <= 6,
            center == room.center(),
            cx == center.0,
            cy == center.1,
            forall|x: int, y: int|
                #[trigger] dungeon.walkable(x, y) ==> chebyshev((x, y), center) >= reach,
        decreases 6 - reach,
    {
        let mut dy: i128 = -reach;
        while dy <= reach
            invariant
                0 <= reach <= 5,
                -reach <= dy <= reach + 1,
                center == room.center(),
                cx == center.0,
                cy == center.1,
                forall|x: int, y: int|
                    #[trigger] dungeon.walkable(x, y) ==> chebyshev((x, y), center) >= reach,
                forall|x: int, y: int|
                    #[trigger] dungeon.walkable(x, y) && chebyshev((x, y), center) == reach ==> y
                        - cy >= dy,
            decreases reach + 1 - dy,
        {
            let mut dx: i128 = -reach;
            while dx <= reach
                invariant
                    0 <= reach <= 5,
                    -reach <= dy <= reach,
                    -reach <= dx <= reach + 1,
                    center == room.center(),
                    cx == center.0,
                    cy == center.1,
                    forall|x: int, y: int|
                        #[trigger] dungeon.walkable(x, y) ==> chebyshev((x, y), center) >= reach,
                    forall|x: int, y: int|
                        #[trigger] dungeon.walkable(x, y) && chebyshev((x, y), center) == reach
                            ==> y - cy >= dy,
                    forall|x: int, y: int|
                        #[trigger] dungeon.walkable(x, y) && chebyshev((x, y), center) == reach
                            && y - cy == dy ==> x - cx >= dx,
                decreases reach + 1 - dx,
            {
                let x = cx + dx;
                let y = cy + dy;
                if x >= 0 && y >= 0 && x < dungeon.width as i128 && y < dungeon.height as i128 {
                    if dungeon.is_walkable(x as usize, y as usize) {
                        return Some((x as usize, y as usize));
                    }
                }
                dx += 1;
            }
            dy += 1;
        }
        reach += 1;
    }
    None
}

impl MapGenerator {
    /// Where the stairs of the level belong, for players that start at (`player_x`,
    /// `player_y`).
    pub fn place_stairs(
        dungeon: &Dungeon,
        player_x: usize,
        player_y: usize,
        object_registry: &GameObjectRegistry,
    ) -> (r: Option<(usize, usize)>)
        ensures
            stairs_ok(*dungeon, (player_x as int, player_y as int), object_registry@, r),
    {
        if object_registry.get_object("stairs").is_none() {
            return None;
        }
        match farthest_room(&dungeon.rooms, player_x, player_y) {
            Some(i) => {
                proof {
                    let from = (player_x as int, player_y as int);
                    let other = choose|k: int| is_farthest(dungeon.rooms@, from, k);
                    assert(is_farthest(dungeon.rooms@, from, i as int));
                    assert(is_farthest(dungeon.rooms@, from, other));
                    assert(manhattan(from, dungeon.rooms[other].center()) == manhattan(
                        from,
                        dungeon.rooms[i as int].center(),
                    ));
                    assert(other == i);
                }
                nearest_floor(dungeon, &dungeon.rooms[i])
            },
            None => None,
        }
    }
}


/// Whether the cell lies in the bounding box of the room.
pub open spec fn in_box(room: Room, c: (int, int)) -> bool {
    room.x <= c.0 < room.x + room.width && room.y <= c.1 < room.y + room.height
}

/// Whether an entity stands on the cell.
pub open spec fn stands_on(entities: Seq<EntityView>, c: (int, int)) -> bool {
    exists|i: int| 0 <= i < entities.len() && (#[trigger] entities[i]).at(c.0, c.1)
}

/// Whether something can be put on the cell `c` of the room: it can be walked on, is not
/// where the players start, not where the stairs are, and no entity stands on it.
pub open spec fn is_free_spot(
    d: Dungeon,
    room: Room,
    spawn: (int, int),
    entities: Seq<EntityView>,
    stairs: Option<(usize, usize)>,
    c: (usize, usize),
) -> bool {
    &&& in_box(room, (c.0 as int, c.1 as int))
    &&& d.walkable(c.0 as int, c.1 as int)
    &&& (c.0 as int, c.1 as int) != spawn
    &&& !stands_on(entities, (c.0 as int, c.1 as int))
    &&& stairs != Some(c)
}

/// Whether one of the first `count` rooms of the level has the cell in its bounding box.
pub open spec fn in_rooms_before(d: Dungeon, count: int, c: (int, int)) -> bool {
    exists|j: int| 0 <= j < count && j < d.rooms.len() && in_box(#[trigger] d.rooms[j], c)
}

/// Whether some room of the level has the cell in its bounding box.
pub open spec fn in_some_room(d: Dungeon, c: (int, int)) -> bool {
    exists|i: int| 0 <= i < d.rooms.len() && in_box(#[trigger] d.rooms[i], c)
}

/// The cell an entity stands on.
pub open spec fn place_of(e: EntityView) -> (int, int) {
    (e.x as int, e.y as int)
}

/// The parameters behind an optional reference.
pub open spec fn owned(level: Option<&LevelConfig>) -> Option<LevelConfig> {
    match level {
        Some(l) => Some(*l),
        None => None,
    }
}

/// Whether monsters may be made from the template in a level with the given parameters.
pub open spec fn monster_allowed(
    catalog: Seq<GameObjectView>,
    level: Option<LevelConfig>,
    t: GameObjectView,
) -> bool {
    &&& catalog.contains(t)
    &&& t.is_monster()
    &&& level matches Some(l) ==> l.allows(t.id)
}

/// Whether `e` is as the generator makes monster number `number`: made from an allowed
/// template, at full health, on a cell of a room that can be walked on and is not where
/// the players start.
pub open spec fn monster_ok(
    d: Dungeon,
    spawn: (int, int),
    catalog: Seq<GameObjectView>,
    level: Option<LevelConfig>,
    e: EntityView,
    number: int,
) -> bool {
    &&& d.walkable(e.x as int, e.y as int)
    &&& (e.x as int, e.y as int) != spawn
    &&& in_some_room(d, (e.x as int, e.y as int))
    &&& exists|t: GameObjectView|
        monster_allowed(catalog, level, t) && e == #[trigger] entity_from(
            t,
            "monster_"@ + decimal(number as nat),
            e.x,
            e.y,
            EntityController::AI,
            monster_defaults(),
        )
}

/// Whether the entities are the monsters of a fresh level, each on a cell of its own.
pub open spec fn monsters_ok(
    d: Dungeon,
    spawn: (int, int),
    catalog: Seq<GameObjectView>,
    level: Option<LevelConfig>,
    entities: Seq<EntityView>,
) -> bool {
    &&& forall|k: int|
        0 <= k < entities.len() ==> monster_ok(d, spawn, catalog, level, #[trigger] entities[k], k)
    &&& forall|k: int, l: int|
        0 <= k < l < entities.len() ==> !(#[trigger] entities[k]).at(
            (#[trigger] entities[l]).x as int,
            entities[l].y as int,
        )
}

/// Whether `c` is as the generator makes chest number `number`: closed, made from a
/// chest template, on a cell that can be walked on and holds nothing else.
pub open spec fn chest_ok(
    d: Dungeon,
    spawn: (int, int),
    entities: Seq<EntityView>,
    stairs: Option<(usize, usize)>,
    catalog: Seq<GameObjectView>,
    c: ChestView,
    number: int,
) -> bool {
    &&& d.walkable(c.x as int, c.y as int)
    &&& in_some_room(d, (c.x as int, c.y as int))
    &&& (c.x as int, c.y as int) != spawn
    &&& !stands_on(entities, (c.x as int, c.y as int))
    &&& stairs != Some((c.x, c.y))
    &&& !c.is_open
    &&& c.open_object_id is None
    &&& c.id == "chest_"@ + decimal(number as nat)
    &&& exists|t: GameObjectView|
        #[trigger] catalog.contains(t) && t.object_type == "chest"@ && c.object_id == t.id
}

/// Whether the chests are those of a fresh level, each on a cell of its own.
pub open spec fn chests_ok(
    d: Dungeon,
    spawn: (int, int),
    entities: Seq<EntityView>,
    stairs: Option<(usize, usize)>,
    catalog: Seq<GameObjectView>,
    chests: Seq<ChestView>,
) -> bool {
    &&& forall|k: int|
        0 <= k < chests.len() ==> chest_ok(
            d,
            spawn,
            entities,
            stairs,
            catalog,
            #[trigger] chests[k],
            k,
        )
    &&& forall|k: int, l: int|
        0 <= k < l < chests.len() ==> !((#[trigger] chests[k]).x == (#[trigger] chests[l]).x
            && chests[k].y == chests[l].y)
}

/// Whether an entity stands on the cell.
pub fn any_entity_at(entities: &Vec<Entity>, x: usize, y: usize) -> (r: bool)
    ensures
        r == stands_on(entity_views(entities@), (x as int, y as int)),
{
    let mut i: usize = 0;
    while i < entities.len()
        invariant
            i <= entities.len(),
            forall|k: int| 0 <= k < i ==> !(#[trigger] entity_views(entities@)[k]).at(x as int, y as int),
        decreases entities.len() - i,
    {
        if entities[i].x == x && entities[i].y == y {
            assert(entity_views(entities@)[i as int].at(x as int, y as int));
            return true;
        }
        i += 1;
    }
    false
}

/// A reordering of a list without repeats has no repeats and the same items.
pub proof fn lemma_reordered(before: Seq<(usize, usize)>, after: Seq<(usize, usize)>)
    requires
        before.to_multiset() == after.to_multiset(),
        before.no_duplicates(),
    ensures
        after.no_duplicates(),
        after.len() == before.len(),
        forall|k: int| 0 <= k < after.len() ==> before.contains(#[trigger] after[k]),
        forall|c: (usize, usize)| before.contains(c) ==> after.contains(c),
{
    broadcast use vstd::seq_lib::group_to_multiset_ensures;

    before.to_multiset_ensures();
    after.to_multiset_ensures();
    before.lemma_multiset_has_no_duplicates();
    after.lemma_multiset_has_no_duplicates_conv();
    assert forall|k: int| 0 <= k < after.len() implies before.contains(#[trigger] after[k]) by {
        assert(after.contains(after[k]));
        assert(after.to_multiset().count(after[k]) > 0);
    }
    assert forall|c: (usize, usize)| before.contains(c) implies after.contains(c) by {
        assert(before.to_multiset().count(c) > 0);
    }
}

/// The cells of the room on which something can be put, in reading order.
fn free_spots(
    dungeon: &Dungeon,
    room: &Room,
    spawn: (usize, usize),
    entities: &Vec<Entity>,
    stairs: Option<(usize, usize)>,
) -> (spots: Vec<(usize, usize)>)
    requires
        room.x + room.width <= dungeon.width,
        room.y + room.height <= dungeon.height,
    ensures
        spots@.no_duplicates(),
        forall|c: (usize, usize)|
            spots@.contains(c) <==> is_free_spot(
                *dungeon,
                *room,
                (spawn.0 as int, spawn.1 as int),
                entity_views(entities@),
                stairs,
                c,
            ),
        forall|k: int|
            0 <= k < spots.len() ==> is_free_spot(
                *dungeon,
                *room,
                (spawn.0 as int, spawn.1 as int),
                entity_views(entities@),
                stairs,
                #[trigger] spots[k],
            ),
{
    let ghost from = (spawn.0 as int, spawn.1 as int);
    let ghost views = entity_views(entities@);
    let mut spots: Vec<(usize, usize)> = Vec::new();
    let mut dy: usize = 0;
    while dy < room.height
        invariant
            dy <= room.height,
            room.x + room.width <= dungeon.width,
            room.y + room.height <= dungeon.height,
            from == (spawn.0 as int, spawn.1 as int),
            views == entity_views(entities@),
            spots@.no_duplicates(),
            forall|c: (usize, usize)|
                spots@.contains(c) <==> is_free_spot(*dungeon, *room, from, views, stairs, c) && c.1
                    < room.y + dy,
        decreases room.height - dy,
    {
        let mut dx: usize = 0;
        while dx < room.width
            invariant
                dx <= room.width,
                dy < room.height,
                room.x + room.width <= dungeon.width,
                room.y + room.height <= dungeon.height,
                from == (spawn.0 as int, spawn.1 as int),
                views == entity_views(entities@),
                spots@.no_duplicates(),
                forall|c: (usize, usize)|
                    spots@.contains(c) <==> is_free_spot(*dungeon, *room, from, views, stairs, c) && (
                    c.1 < room.y + dy || (c.1 == room.y + dy && c.0 < room.x + dx)),
            decreases room.width - dx,
        {
            let x = room.x + dx;
            let y = room.y + dy;
            let on_stairs = match stairs {
                Some(s) => s.0 == x && s.1 == y,
                None => false,
            };
            let ghost before = spots@;
            let free = dungeon.is_walkable(x, y) && !(x == spawn.0 && y == spawn.1) && !any_entity_at(
                entities,
                x,
                y,
            ) && !on_stairs;
            proof {
                assert(free == is_free_spot(*dungeon, *room, from, views, stairs, (x, y)));
            }
            if free {
                spots.push((x, y));
                proof {
                    assert(!before.contains((x, y)));
                    assert forall|c: (usize, usize)| spots@.contains(c) <==> before.contains(c) || c == (
                        x,
                        y,
                    ) by {
                        if before.contains(c) {
                            let k = choose|k: int| 0 <= k < before.len() && before[k] == c;
                            assert(spots@[k] == c);
                        }
                        if c == (x, y) {
                            assert(spots@[before.len() as int] == c);
                        }
                        if spots@.contains(c) {
                            let k = choose|k: int| 0 <= k < spots@.len() && spots@[k] == c;
                            if k < before.len() {
                                assert(before[k] == c);
                            }
                        }
                    }
                }
            }
            proof {
                assert forall|c: (usize, usize)|
                    spots@.contains(c) <==> is_free_spot(*dungeon, *room, from, views, stairs, c) && (
                    c.1 < room.y + dy || (c.1 == room.y + dy && c.0 < room.x + dx + 1)) by {
                    if c == (x, y) {
                    } else {
                        assert(spots@.contains(c) <==> before.contains(c));
                    }
                }
            }
            dx += 1;
        }
        dy += 1;
    }
    proof {
        assert forall|k: int| 0 <= k < spots.len() implies is_free_spot(
            *dungeon,
            *room,
            from,
            views,
            stairs,
            #[trigger] spots[k],
        ) by {
            assert(spots@.contains(spots[k]));
        }
    }
    spots
}

/// Whether the catalog has a template that monsters of the level may be made from.
pub open spec fn has_monster_template(catalog: Seq<GameObjectView>, level: Option<LevelConfig>) -> bool {
    exists|t: GameObjectView| #[trigger] monster_allowed(catalog, level, t)
}

/// The templates monsters of the level may be made from.
fn monster_templates<'a>(registry: &'a GameObjectRegistry, level: Option<&LevelConfig>) -> (r: Vec<
    &'a GameObject,
>)
    ensures
        forall|k: int| 0 <= k < r.len() ==> monster_allowed(registry@, owned(level), (#[trigger] r[k])@),
        has_monster_template(registry@, owned(level)) ==> r.len() > 0,
{
    let all = registry.get_monster_characters();
    proof {
        assert forall|t: GameObjectView| registry@.contains(t) && t.is_monster() implies exists|k: int|
            0 <= k < all.len() && (#[trigger] all[k])@ == t by {
            let i = choose|i: int| 0 <= i < registry@.len() && registry@[i] == t;
            registry@.lemma_filter_contains(|o: GameObjectView| o.is_monster(), i);
            let found = crate::config::ref_views(all@);
            let k = choose|k: int| 0 <= k < found.len() && found[k] == t;
            assert(all[k]@ == t);
        }
    }
    match level {
        None => {
            proof {
                if has_monster_template(registry@, owned(level)) {
                    let t = choose|t: GameObjectView| #[trigger] monster_allowed(registry@, owned(level), t);
                    let k = choose|k: int| 0 <= k < all.len() && (#[trigger] all[k])@ == t;
                }
            }
            all
        },
        Some(l) => {
            let mut out: Vec<&GameObject> = Vec::new();
            let mut i: usize = 0;
            while i < all.len()
                invariant
                    i <= all.len(),
                    level == Some(l),
                    owned(level) == Some(*l),
                    forall|k: int|
                        0 <= k < all.len() ==> (#[trigger] all[k])@.is_monster()
                            && registry@.contains(all[k]@),
                    forall|k: int|
                        0 <= k < out.len() ==> monster_allowed(registry@, owned(level), (#[trigger] out[k])@),
                    forall|k: int| 0 <= k < i && l.allows((#[trigger] all[k])@.id) ==> out.len() > 0,
                decreases all.len() - i,
            {
                if l.is_allowed(&all[i].id) {
                    out.push(all[i]);
                }
                i += 1;
            }
            proof {
                if has_monster_template(registry@, owned(level)) {
                    let t = choose|t: GameObjectView| #[trigger] monster_allowed(registry@, owned(level), t);
                    let k = choose|k: int| 0 <= k < all.len() && (#[trigger] all[k])@ == t;
                    assert(l.allows(all[k]@.id));
                }
            }
            out
        },
    }
}

/// Puts monsters into one room: as many as drawn between `min_count` and `max_count`,
/// as far as the room has free cells, each on a cell of its own drawn at random.
fn spawn_room_monsters(
    rng: &mut ThreadRng,
    dungeon: &Dungeon,
    room_index: usize,
    spawn: (usize, usize),
    registry: &GameObjectRegistry,
    level: Option<&LevelConfig>,
    templates: &Vec<&GameObject>,
    min_count: u32,
    max_count: u32,
    entities: &mut Vec<Entity>,
)
    requires
        dungeon.wf(),
        room_index < dungeon.rooms.len(),
        templates.len() > 0,
        forall|k: int|
            0 <= k < templates.len() ==> monster_allowed(registry@, owned(level), (#[trigger] templates[k])@),
        monsters_ok(
            *dungeon,
            (spawn.0 as int, spawn.1 as int),
            registry@,
            owned(level),
            entity_views(old(entities)@),
        ),
    ensures
        monsters_ok(
            *dungeon,
            (spawn.0 as int, spawn.1 as int),
            registry@,
            owned(level),
            entity_views(final(entities)@),
        ),
        final(entities).len() >= old(entities).len(),
        final(entities).len() - old(entities).len() <= min_count || final(entities).len() - old(
            entities,
        ).len() <= max_count,
        forall|k: int|
            0 <= k < old(entities).len() ==> entity_views(final(entities)@)[k] == entity_views(
                old(entities)@,
            )[k],
        forall|k: int|
            old(entities).len() <= k < final(entities).len() ==> in_box(
                dungeon.rooms[room_index as int],
                place_of(#[trigger] entity_views(final(entities)@)[k]),
            ),
        final(entities).len() - old(entities).len() < min_count ==> forall|c: (usize, usize)|
            #[trigger] is_free_spot(
                *dungeon,
                dungeon.rooms[room_index as int],
                (spawn.0 as int, spawn.1 as int),
                entity_views(old(entities)@),
                None,
                c,
            ) ==> stands_on(entity_views(final(entities)@), (c.0 as int, c.1 as int)),
{
    let room = &dungeon.rooms[room_index];
    let mut spots = free_spots(dungeon, room, spawn, entities, None);
    if spots.len() == 0 {
        proof {
            assert forall|c: (usize, usize)|
                !is_free_spot(
                    *dungeon,
                    dungeon.rooms[room_index as int],
                    (spawn.0 as int, spawn.1 as int),
                    entity_views(entities@),
                    None,
                    c,
                ) by {
                if spots@.contains(c) {
                    let k = choose|k: int| 0 <= k < spots@.len() && spots@[k] == c;
                }
            }
        }
        return ;
    }
    let most = if max_count >= min_count {
        max_count
    } else {
        min_count
    };
    let wanted = random_usize(rng, min_count as usize, most as usize);
    let count = if wanted < spots.len() {
        wanted
    } else {
        spots.len()
    };
    let ghost ordered = spots@;
    shuffle_positions(rng, &mut spots);
    proof {
        lemma_reordered(ordered, spots@);
        assert forall|k: int| 0 <= k < spots.len() implies is_free_spot(
            *dungeon,
            *room,
            (spawn.0 as int, spawn.1 as int),
            entity_views(entities@),
            None,
            #[trigger] spots[k],
        ) by {
            assert(ordered.contains(spots[k]));
        }
    }
    let ghost start = entity_views(entities@);
    let ghost from = (spawn.0 as int, spawn.1 as int);
    let mut i: usize = 0;
    while i < count
        invariant
            i <= count <= spots.len(),
            room_index < dungeon.rooms.len(),
            *room == dungeon.rooms[room_index as int],
            from == (spawn.0 as int, spawn.1 as int),
            templates.len() > 0,
            forall|k: int|
                0 <= k < templates.len() ==> monster_allowed(
                    registry@,
                    owned(level),
                    (#[trigger] templates[k])@,
                ),
            spots@.no_duplicates(),
            forall|k: int|
                0 <= k < spots.len() ==> is_free_spot(
                    *dungeon,
                    *room,
                    from,
                    start,
                    None,
                    #[trigger] spots[k],
                ),
            entities.len() == start.len() + i,
            start == entity_views(old(entities)@),
            forall|k: int| 0 <= k < start.len() ==> entity_views(entities@)[k] == start[k],
            forall|k: int|
                0 <= k < i ==> (#[trigger] entity_views(entities@)[start.len() + k]).at(
                    spots[k].0 as int,
                    spots[k].1 as int,
                ),
            monsters_ok(*dungeon, from, registry@, owned(level), entity_views(entities@)),
        decreases count - i,
    {
        let (x, y) = spots[i];
        let template = templates[random_index(rng, templates.len())];
        let ghost before = entity_views(entities@);
        let number = entities.len();
        let monster = Entity::from_template(
            numbered_id("monster_", number as u64),
            x,
            y,
            template,
            EntityController::AI,
            &Entity::monster_defaults(),
        );
        entities.push(monster);
        proof {
            let after = entity_views(entities@);
            assert(after =~= before.push(monster@));
            assert(is_free_spot(*dungeon, *room, from, start, None, spots[i as int]));
            assert(in_box(dungeon.rooms[room_index as int], (x as int, y as int)));
            assert(monster_allowed(registry@, owned(level), template@));
            assert(monster_ok(*dungeon, from, registry@, owned(level), after[number as int], number as int));
            assert forall|k: int| 0 <= k < after.len() implies monster_ok(
                *dungeon,
                from,
                registry@,
                owned(level),
                #[trigger] after[k],
                k,
            ) by {
                if k < number {
                    assert(after[k] == before[k]);
                }
            }
            assert forall|k: int, l: int| 0 <= k < l < after.len() implies !(
            #[trigger] after[k]).at((#[trigger] after[l]).x as int, after[l].y as int) by {
                if l < number {
                    assert(after[k] == before[k] && after[l] == before[l]);
                } else if k < start.len() {
                    assert(after[k] == start[k]);
                    assert(!stands_on(start, (x as int, y as int)));
                } else {
                    let q = k - start.len();
                    assert(before[start.len() + q].at(spots[q].0 as int, spots[q].1 as int));
                    assert(spots[q] != spots[i as int]);
                }
            }
        }
        i += 1;
    }
    proof {
        let after = entity_views(entities@);
        assert forall|k: int| old(entities).len() <= k < entities.len() implies in_box(
            dungeon.rooms[room_index as int],
            place_of(#[trigger] after[k]),
        ) by {
            let q = k - start.len();
            assert(after[start.len() + q].at(spots[q].0 as int, spots[q].1 as int));
            assert(is_free_spot(*dungeon, *room, from, start, None, spots[q]));
            assert(place_of(after[k]) == (spots[q].0 as int, spots[q].1 as int));
        }
        if count < min_count {
            assert forall|c: (usize, usize)| #[trigger]
                is_free_spot(*dungeon, *room, from, start, None, c) implies stands_on(
                after,
                (c.0 as int, c.1 as int),
            ) by {
                assert(ordered.contains(c));
                assert(spots@.contains(c));
                let q = choose|q: int| 0 <= q < spots@.len() && spots@[q] == c;
                assert(after[start.len() + q].at(spots[q].0 as int, spots[q].1 as int));
            }
        }
    }
}

/// Whether something can be put on the cell `c`, which lies in one of the first `count`
/// rooms.
pub open spec fn is_free_among(
    d: Dungeon,
    count: int,
    spawn: (int, int),
    entities: Seq<EntityView>,
    stairs: Option<(usize, usize)>,
    c: (usize, usize),
) -> bool {
    exists|i: int|
        0 <= i < count && i < d.rooms.len() && is_free_spot(
            d,
            #[trigger] d.rooms[i],
            spawn,
            entities,
            stairs,
            c,
        )
}

/// Whether something can be put on the cell `c`, which lies in a room.
pub open spec fn is_free_cell(
    d: Dungeon,
    spawn: (int, int),
    entities: Seq<EntityView>,
    stairs: Option<(usize, usize)>,
    c: (usize, usize),
) -> bool {
    is_free_among(d, d.rooms.len() as int, spawn, entities, stairs, c)
}

/// The cells of all rooms on which something can be put, room by room.
fn all_free_spots(
    dungeon: &Dungeon,
    spawn: (usize, usize),
    entities: &Vec<Entity>,
    stairs: Option<(usize, usize)>,
) -> (spots: Vec<(usize, usize)>)
    requires
        dungeon.wf(),
        rooms_apart(dungeon.rooms@),
    ensures
        spots@.no_duplicates(),
        forall|k: int|
            0 <= k < spots.len() ==> is_free_cell(
                *dungeon,
                (spawn.0 as int, spawn.1 as int),
                entity_views(entities@),
                stairs,
                #[trigger] spots[k],
            ),
        forall|c: (usize, usize)|
            #[trigger] is_free_cell(
                *dungeon,
                (spawn.0 as int, spawn.1 as int),
                entity_views(entities@),
                stairs,
                c,
            ) ==> spots@.contains(c),
{
    let ghost from = (spawn.0 as int, spawn.1 as int);
    let ghost views = entity_views(entities@);
    let mut spots: Vec<(usize, usize)> = Vec::new();
    let mut i: usize = 0;
    while i < dungeon.rooms.len()
        invariant
            i <= dungeon.rooms.len(),
            dungeon.wf(),
            rooms_apart(dungeon.rooms@),
            from == (spawn.0 as int, spawn.1 as int),
            views == entity_views(entities@),
            spots@.no_duplicates(),
            forall|k: int|
                0 <= k < spots.len() ==> is_free_among(
                    *dungeon,
                    i as int,
                    from,
                    views,
                    stairs,
                    #[trigger] spots[k],
                ),
            forall|c: (usize, usize)|
                #[trigger] is_free_among(*dungeon, i as int, from, views, stairs, c) ==> spots@.contains(
                    c,
                ),
        decreases dungeon.rooms.len() - i,
    {
        let room = &dungeon.rooms[i];
        let found = free_spots(dungeon, room, spawn, entities, stairs);
        let ghost earlier = spots@;
        let mut m: usize = 0;
        while m < found.len()
            invariant
                m <= found.len(),
                i < dungeon.rooms.len(),
                *room == dungeon.rooms[i as int],
                rooms_apart(dungeon.rooms@),
                found@.no_duplicates(),
                forall|k: int|
                    0 <= k < found.len() ==> is_free_spot(
                        *dungeon,
                        *room,
                        from,
                        views,
                        stairs,
                        #[trigger] found[k],
                    ),
                spots@ == earlier + found@.take(m as int),
                spots@.no_duplicates(),
                forall|k: int|
                    0 <= k < earlier.len() ==> is_free_among(
                        *dungeon,
                        i as int,
                        from,
                        views,
                        stairs,
                        #[trigger] earlier[k],
                    ),
            decreases found.len() - m,
        {
            let ghost before = spots@;
            spots.push(found[m]);
            proof {
                assert(spots@ =~= earlier + found@.take(m + 1));
                assert forall|a: int, b: int| 0 <= a < b < spots@.len() implies spots@[a]
                    != spots@[b] by {
                    if b < before.len() {
                        assert(before[a] != before[b]);
                    } else if a < earlier.len() {
                        assert(is_free_among(*dungeon, i as int, from, views, stairs, earlier[a]));
                        let j = choose|j: int|
                            0 <= j < i && j < dungeon.rooms.len() && is_free_spot(
                                *dungeon,
                                #[trigger] dungeon.rooms[j],
                                from,
                                views,
                                stairs,
                                earlier[a],
                            );
                        assert(dungeon.rooms[j].apart(dungeon.rooms[i as int]));
                        assert(is_free_spot(*dungeon, *room, from, views, stairs, found[m as int]));
                    } else {
                        assert(found[a - earlier.len()] != found[m as int]);
                    }
                }
            }
            m += 1;
        }
        proof {
            assert(found@.take(found.len() as int) =~= found@);
            assert forall|c: (usize, usize)|
                #[trigger] is_free_among(*dungeon, i + 1, from, views, stairs, c) implies spots@.contains(
                c,
            ) by {
                let j = choose|j: int|
                    0 <= j < i + 1 && j < dungeon.rooms.len() && is_free_spot(
                        *dungeon,
                        #[trigger] dungeon.rooms[j],
                        from,
                        views,
                        stairs,
                        c,
                    );
                if j < i {
                    assert(is_free_among(*dungeon, i as int, from, views, stairs, c));
                    assert(earlier.contains(c));
                    let k = choose|k: int| 0 <= k < earlier.len() && earlier[k] == c;
                    assert(spots@[k] == c);
                } else {
                    assert(found@.contains(c));
                    let k = choose|k: int| 0 <= k < found@.len() && found@[k] == c;
                    assert(spots@[earlier.len() + k] == c);
                }
            }
            assert forall|k: int| 0 <= k < spots.len() implies is_free_among(
                *dungeon,
                i + 1,
                from,
                views,
                stairs,
                #[trigger] spots[k],
            ) by {
                if k < earlier.len() {
                    assert(is_free_among(*dungeon, i as int, from, views, stairs, earlier[k]));
                    let j = choose|j: int|
                        0 <= j < i && j < dungeon.rooms.len() && is_free_spot(
                            *dungeon,
                            #[trigger] dungeon.rooms[j],
                            from,
                            views,
                            stairs,
                            earlier[k],
                        );
                    assert(spots[k] == earlier[k]);
                    assert(is_free_spot(*dungeon, dungeon.rooms[j], from, views, stairs, spots[k]));
                } else {
                    assert(spots[k] == found[k - earlier.len()]);
                    assert(is_free_spot(
                        *dungeon,
                        dungeon.rooms[i as int],
                        from,
                        views,
                        stairs,
                        spots[k],
                    ));
                }
            }
        }
        i += 1;
    }
    spots
}

/// Puts up to `target` closed chests on free cells of the rooms, drawn at random.
fn spawn_level_chests(
    rng: &mut ThreadRng,
    dungeon: &Dungeon,
    spawn: (usize, usize),
    entities: &Vec<Entity>,
    stairs: Option<(usize, usize)>,
    registry: &GameObjectRegistry,
    target: usize,
) -> (chests: Vec<Chest>)
    requires
        dungeon.wf(),
        rooms_apart(dungeon.rooms@),
    ensures
        chests_ok(
            *dungeon,
            (spawn.0 as int, spawn.1 as int),
            entity_views(entities@),
            stairs,
            registry@,
            chest_views(chests@),
        ),
        chests_spread(
            *dungeon,
            (spawn.0 as int, spawn.1 as int),
            entity_views(entities@),
            stairs,
            registry@,
            chest_views(chests@),
            target as int,
        ),
{
    let mut chests: Vec<Chest> = Vec::new();
    let templates = registry.get_objects_by_type("chest");
    proof {
        if has_chest_template(registry@) {
            let t = choose|t: GameObjectView| #[trigger] registry@.contains(t) && t.object_type == "chest"@;
            let i = choose|i: int| 0 <= i < registry@.len() && registry@[i] == t;
            registry@.lemma_filter_contains(|o: GameObjectView| o.object_type == "chest"@, i);
            assert(crate::config::ref_views(templates@).len() > 0);
        }
    }
    if templates.len() == 0 {
        return chests;
    }
    proof {
        assert(registry@.contains(templates[0]@));
        assert(has_chest_template(registry@));
    }
    let mut spots = all_free_spots(dungeon, spawn, entities, stairs);
    let ghost ordered = spots@;
    shuffle_positions(rng, &mut spots);
    proof {
        lemma_reordered(ordered, spots@);
        assert forall|k: int| 0 <= k < spots.len() implies is_free_cell(
            *dungeon,
            (spawn.0 as int, spawn.1 as int),
            entity_views(entities@),
            stairs,
            #[trigger] spots[k],
        ) by {
            assert(ordered.contains(spots[k]));
            let q = choose|q: int| 0 <= q < ordered.len() && ordered[q] == spots[k];
        }
    }
    let count = if target < spots.len() {
        target
    } else {
        spots.len()
    };
    let ghost from = (spawn.0 as int, spawn.1 as int);
    let ghost views = entity_views(entities@);
    let mut i: usize = 0;
    while i < count
        invariant
            i <= count <= spots.len(),
            count <= target,
            templates.len() > 0,
            from == (spawn.0 as int, spawn.1 as int),
            views == entity_views(entities@),
            forall|k: int|
                0 <= k < templates.len() ==> (#[trigger] templates[k])@.object_type == "chest"@
                    && registry@.contains(templates[k]@),
            spots@.no_duplicates(),
            forall|k: int|
                0 <= k < spots.len() ==> is_free_cell(
                    *dungeon,
                    from,
                    views,
                    stairs,
                    #[trigger] spots[k],
                ),
            chests.len() == i,
            forall|k: int|
                0 <= k < i ==> (#[trigger] chest_views(chests@)[k]).x == spots[k].0 && chest_views(
                    chests@,
                )[k].y == spots[k].1,
            chests_ok(*dungeon, from, views, stairs, registry@, chest_views(chests@)),
        decreases count - i,
    {
        let (x, y) = spots[i];
        let template = templates[random_index(rng, templates.len())];
        let ghost before = chest_views(chests@);
        let chest = Chest {
            id: numbered_id("chest_", i as u64),
            x,
            y,
            object_id: template.id.clone(),
            open_object_id: None,
            is_open: false,
        };
        chests.push(chest);
        proof {
            let after = chest_views(chests@);
            assert(after =~= before.push(chest@));
            assert(is_free_cell(*dungeon, from, views, stairs, spots[i as int]));
            let j = choose|j: int|
                0 <= j < dungeon.rooms.len() && is_free_spot(
                    *dungeon,
                    #[trigger] dungeon.rooms[j],
                    from,
                    views,
                    stairs,
                    spots[i as int],
                );
            assert(in_box(dungeon.rooms[j], (x as int, y as int)));
            assert(registry@.contains(template@));
            assert(chest_ok(*dungeon, from, views, stairs, registry@, after[i as int], i as int));
            assert forall|k: int| 0 <= k < after.len() implies chest_ok(
                *dungeon,
                from,
                views,
                stairs,
                registry@,
                #[trigger] after[k],
                k,
            ) by {
                if k < i {
                    assert(after[k] == before[k]);
                }
            }
            assert forall|k: int, l: int| 0 <= k < l < after.len() implies !((
            #[trigger] after[k]).x == (#[trigger] after[l]).x && after[k].y == after[l].y) by {
                if l < i {
                    assert(after[k] == before[k] && after[l] == before[l]);
                } else {
                    assert(after[k] == before[k]);
                    assert(spots[k] != spots[i as int]);
                }
            }
        }
        i += 1;
    }
    proof {
        let placed = chest_views(chests@);
        if placed.len() < target {
            assert(count == spots.len());
            assert forall|c: (usize, usize)|
                #[trigger] is_free_cell(*dungeon, from, views, stairs, c) implies chest_on(
                placed,
                (c.0 as int, c.1 as int),
            ) by {
                assert(ordered.contains(c));
                assert(spots@.contains(c));
                let k = choose|k: int| 0 <= k < spots@.len() && spots@[k] == c;
                assert(placed[k].x == spots[k].0 && placed[k].y == spots[k].1);
            }
        }
    }
    chests
}

/// The fewest and the most monsters that are drawn for a room: those of the parameters
/// of the level, or one where there are none.
pub open spec fn monster_bounds(level: Option<LevelConfig>) -> (int, int) {
    match level {
        Some(l) => (
            l.min_monsters_per_room as int,
            if l.max_monsters_per_room >= l.min_monsters_per_room {
                l.max_monsters_per_room as int
            } else {
                l.min_monsters_per_room as int
            },
        ),
        None => (1int, 1int),
    }
}

/// The number of entities that stand in the bounding box of the room.
pub open spec fn held(room: Room, entities: Seq<EntityView>) -> int
    decreases entities.len(),
{
    if entities.len() == 0 {
        0
    } else {
        held(room, entities.drop_last()) + if in_box(room, place_of(entities.last())) {
            1int
        } else {
            0int
        }
    }
}

/// Whether the room holds as many monsters as are drawn for a room: not more than the
/// most, and not fewer than the fewest unless a monster stands on every cell of the room
/// that can be walked on and is not where the players start.
pub open spec fn room_filled(
    d: Dungeon,
    room: Room,
    spawn: (int, int),
    level: Option<LevelConfig>,
    entities: Seq<EntityView>,
) -> bool {
    &&& held(room, entities) <= monster_bounds(level).1
    &&& held(room, entities) < monster_bounds(level).0 ==> forall|c: (usize, usize)|
        #[trigger] is_free_spot(d, room, spawn, Seq::empty(), None, c) ==> stands_on(
            entities,
            (c.0 as int, c.1 as int),
        )
}

/// Whether the monsters are spread over the rooms as a fresh level has them: in every
/// room as many as are drawn for a room, as far as it has cells for them; and none at
/// all where the catalog has no template for them.
pub open spec fn monsters_spread(
    d: Dungeon,
    spawn: (int, int),
    catalog: Seq<GameObjectView>,
    level: Option<LevelConfig>,
    entities: Seq<EntityView>,
) -> bool {
    &&& entities.len() <= d.rooms.len() * monster_bounds(level).1
    &&& !has_monster_template(catalog, level) ==> entities.len() == 0
    &&& has_monster_template(catalog, level) ==> forall|i: int|
        0 <= i < d.rooms.len() ==> room_filled(d, #[trigger] d.rooms[i], spawn, level, entities)
}

/// Entities put behind others add to those the room holds where they stand in its
/// bounding box, all or none of them.
pub proof fn lemma_held_more(room: Room, before: Seq<EntityView>, after: Seq<EntityView>, inside: bool)
    requires
        before.len() <= after.len(),
        forall|k: int| 0 <= k < before.len() ==> after[k] == before[k],
        forall|k: int|
            before.len() <= k < after.len() ==> in_box(room, place_of(#[trigger] after[k])) == inside,
    ensures
        held(room, after) == held(room, before) + if inside {
            after.len() - before.len()
        } else {
            0
        },
    decreases after.len(),
{
    if after.len() == before.len() {
        assert(after =~= before);
    } else {
        let front = after.drop_last();
        assert forall|k: int| before.len() <= k < front.len() implies in_box(
            room,
            place_of(#[trigger] front[k]),
        ) == inside by {
            assert(front[k] == after[k]);
        }
        lemma_held_more(room, before, front, inside);
        assert(after.last() == after[after.len() - 1]);
    }
}

/// Whether the catalog has a template for chests.
pub open spec fn has_chest_template(catalog: Seq<GameObjectView>) -> bool {
    exists|t: GameObjectView| #[trigger] catalog.contains(t) && t.object_type == "chest"@
}

/// Whether the level has as many chests as it is to have: `target`, or one on every free
/// cell of its rooms where those are fewer; and none where the catalog has no template
/// for them.
pub open spec fn chests_spread(
    d: Dungeon,
    spawn: (int, int),
    entities: Seq<EntityView>,
    stairs: Option<(usize, usize)>,
    catalog: Seq<GameObjectView>,
    chests: Seq<ChestView>,
    target: int,
) -> bool {
    &&& chests.len() <= target
    &&& !has_chest_template(catalog) ==> chests.len() == 0
    &&& has_chest_template(catalog) && chests.len() < target ==> forall|c: (usize, usize)|
        #[trigger] is_free_cell(d, spawn, entities, stairs, c) ==> chest_on(
            chests,
            (c.0 as int, c.1 as int),
        )
}

/// Whether the monsters, the chests and the stairs are as a fresh level has them.
pub open spec fn seeded(
    d: Dungeon,
    catalog: Seq<GameObjectView>,
    level: Option<LevelConfig>,
    entities: Seq<EntityView>,
    chests: Seq<ChestView>,
    stairs: Option<(usize, usize)>,
) -> bool {
    exists|spawn: (int, int)|
        #![trigger d.is_spawn(spawn)]
        {
            &&& d.is_spawn(spawn)
            &&& monsters_ok(d, spawn, catalog, level, entities)
            &&& monsters_spread(d, spawn, catalog, level, entities)
            &&& stairs_ok(d, spawn, catalog, stairs)
            &&& chests_ok(d, spawn, entities, stairs, catalog, chests)
            &&& chests_spread(
                d,
                spawn,
                entities,
                stairs,
                catalog,
                chests,
                chest_target(level, d.rooms.len() as int),
            )
        }
}

/// The monsters of a fresh level are at full health.
pub proof fn lemma_fresh_monsters_healthy(
    d: Dungeon,
    spawn: (int, int),
    catalog: Seq<GameObjectView>,
    level: Option<LevelConfig>,
    entities: Seq<EntityView>,
)
    requires
        monsters_ok(d, spawn, catalog, level, entities),
    ensures
        crate::entity::all_wf(entities),
        forall|k: int|
            0 <= k < entities.len() ==> (#[trigger] entities[k]).current_health
                == entities[k].max_health && entities[k].is_monster(),
{
    assert forall|k: int| 0 <= k < entities.len() implies (#[trigger] entities[k]).current_health
        == entities[k].max_health && entities[k].is_monster() by {
        assert(monster_ok(d, spawn, catalog, level, entities[k], k));
    }
}

/// Whether a level of the given parameters may have that many rooms: no more than the
/// parameters ask for at most, and one at least where they ask for one; between 1 and 12
/// where there are no parameters.
pub open spec fn rooms_as_asked(level: Option<LevelConfig>, rooms: int) -> bool {
    match level {
        Some(l) => (rooms <= l.min_rooms || rooms <= l.max_rooms) && (l.min_rooms >= 1 ==> rooms
            >= 1),
        None => 1 <= rooms <= 12,
    }
}

/// The monsters, the chests and the stairs of a fresh level are on cells that can be
/// walked on; no chest lies under a monster, on the stairs or where the level starts.
pub proof fn lemma_seeded_on_floor(
    d: Dungeon,
    catalog: Seq<GameObjectView>,
    level: Option<LevelConfig>,
    entities: Seq<EntityView>,
    chests: Seq<ChestView>,
    stairs: Option<(usize, usize)>,
)
    requires
        seeded(d, catalog, level, entities, chests, stairs),
    ensures
        forall|k: int|
            0 <= k < entities.len() ==> d.walkable(
                (#[trigger] entities[k]).x as int,
                entities[k].y as int,
            ),
        forall|k: int|
            0 <= k < chests.len() ==> d.walkable((#[trigger] chests[k]).x as int, chests[k].y as int)
                && !stands_on(entities, (chests[k].x as int, chests[k].y as int)) && stairs != Some(
                (chests[k].x, chests[k].y),
            ) && !d.is_spawn((chests[k].x as int, chests[k].y as int)),
        stairs matches Some(c) ==> d.walkable(c.0 as int, c.1 as int),
{
    let spawn = choose|spawn: (int, int)|
        #![trigger d.is_spawn(spawn)]
        {
            &&& d.is_spawn(spawn)
            &&& monsters_ok(d, spawn, catalog, level, entities)
            &&& monsters_spread(d, spawn, catalog, level, entities)
            &&& stairs_ok(d, spawn, catalog, stairs)
            &&& chests_ok(d, spawn, entities, stairs, catalog, chests)
            &&& chests_spread(
                d,
                spawn,
                entities,
                stairs,
                catalog,
                chests,
                chest_target(level, d.rooms.len() as int),
            )
        };
    assert forall|k: int| 0 <= k < entities.len() implies d.walkable(
        (#[trigger] entities[k]).x as int,
        entities[k].y as int,
    ) by {
        assert(monster_ok(d, spawn, catalog, level, entities[k], k));
    }
    assert forall|k: int| 0 <= k < chests.len() implies d.walkable(
        (#[trigger] chests[k]).x as int,
        chests[k].y as int,
    ) && !stands_on(entities, (chests[k].x as int, chests[k].y as int)) && stairs != Some(
        (chests[k].x, chests[k].y),
    ) && !d.is_spawn((chests[k].x as int, chests[k].y as int)) by {
        assert(chest_ok(d, spawn, entities, stairs, catalog, chests[k], k));
        let c = (chests[k].x as int, chests[k].y as int);
        assert(d.walkable(c.0, c.1));
        if d.is_spawn(c) {
            assert(d.is_first_floor(c) && d.is_first_floor(spawn));
            assert(d.walkable(spawn.0, spawn.1));
        }
    }
}

/// The number of chests of a level: that of its parameters, or one for every two rooms,
/// rounded up, where there are none.
pub open spec fn chest_target(level: Option<LevelConfig>, rooms: int) -> int {
    match level {
        Some(l) => l.chest_count as int,
        None => (rooms + 1) / 2,
    }
}

impl MapGenerator {
    /// A fresh level: the dungeon, its monsters, no consumables, its chests and the
    /// stairs. Without parameters the level has 8 to 12 rooms, one monster in each room
    /// that has a free cell and a chest for every two rooms.
    pub fn generate_map(
        tile_registry: &TileRegistry,
        object_registry: &GameObjectRegistry,
        level_config: Option<&LevelConfig>,
    ) -> (r: (Dungeon, Vec<Entity>, Vec<Consumable>, Vec<Chest>, Option<(usize, usize)>))
        ensures
            r.0.width == LEVEL_WIDTH,
            r.0.height == LEVEL_HEIGHT,
            r.0.generated(tile_registry@),
            rooms_as_asked(owned(level_config), r.0.rooms.len() as int),
            seeded(
                r.0,
                object_registry@,
                owned(level_config),
                entity_views(r.1@),
                chest_views(r.3@),
                r.4,
            ),
            r.2.len() == 0,
            crate::entity::all_wf(entity_views(r.1@)),
    {
        let (min_rooms, max_rooms) = match level_config {
            Some(level) => (level.min_rooms, level.max_rooms),
            None => (8, 12),
        };
        let dungeon = Dungeon::new_with_room_count(
            LEVEL_WIDTH,
            LEVEL_HEIGHT,
            tile_registry,
            min_rooms,
            max_rooms,
        );
        let spawn = dungeon.spawn_point();
        let ghost from = (spawn.0 as int, spawn.1 as int);
        let mut rng = rand::thread_rng();
        let mut entities: Vec<Entity> = Vec::new();
        let templates = monster_templates(object_registry, level_config);
        let ghost bounds = monster_bounds(owned(level_config));
        if templates.len() > 0 {
            let (min_count, max_count) = match level_config {
                Some(level) => (level.min_monsters_per_room, level.max_monsters_per_room),
                None => (1, 1),
            };
            proof {
                assert(monster_allowed(object_registry@, owned(level_config), templates[0]@));
                assert(has_monster_template(object_registry@, owned(level_config)));
                assert(0 * bounds.1 == 0) by (nonlinear_arith);
            }
            let mut i: usize = 0;
            while i < dungeon.rooms.len()
                invariant
                    i <= dungeon.rooms.len(),
                    dungeon.wf(),
                    rooms_apart(dungeon.rooms@),
                    bounds == monster_bounds(owned(level_config)),
                    bounds.0 == min_count,
                    bounds.1 == if max_count >= min_count {
                        max_count as int
                    } else {
                        min_count as int
                    },
                    entities.len() <= i * bounds.1,
                    forall|k: int|
                        0 <= k < entities.len() ==> in_rooms_before(
                            dungeon,
                            i as int,
                            place_of(#[trigger] entity_views(entities@)[k]),
                        ),
                    forall|j: int|
                        0 <= j < i ==> room_filled(
                            dungeon,
                            #[trigger] dungeon.rooms[j],
                            from,
                            owned(level_config),
                            entity_views(entities@),
                        ),
                    from == (spawn.0 as int, spawn.1 as int),
                    templates.len() > 0,
                    forall|k: int|
                        0 <= k < templates.len() ==> monster_allowed(
                            object_registry@,
                            owned(level_config),
                            (#[trigger] templates[k])@,
                        ),
                    monsters_ok(
                        dungeon,
                        from,
                        object_registry@,
                        owned(level_config),
                        entity_views(entities@),
                    ),
                decreases dungeon.rooms.len() - i,
            {
                let ghost before = entity_views(entities@);
                spawn_room_monsters(
                    &mut rng,
                    &dungeon,
                    i,
                    spawn,
                    object_registry,
                    level_config,
                    &templates,
                    min_count,
                    max_count,
                    &mut entities,
                );
                proof {
                    let after = entity_views(entities@);
                    let room = dungeon.rooms[i as int];
                    assert((i + 1) * bounds.1 == i * bounds.1 + bounds.1) by (nonlinear_arith);
                    assert forall|k: int| 0 <= k < after.len() implies in_rooms_before(
                        dungeon,
                        i + 1,
                        place_of(#[trigger] after[k]),
                    ) by {
                        if k < before.len() {
                            assert(after[k] == before[k]);
                            assert(in_rooms_before(dungeon, i as int, place_of(before[k])));
                            let j = choose|j: int|
                                0 <= j < i && j < dungeon.rooms.len() && in_box(
                                    #[trigger] dungeon.rooms[j],
                                    place_of(before[k]),
                                );
                            assert(in_box(dungeon.rooms[j], place_of(after[k])));
                        } else {
                            assert(in_box(dungeon.rooms[i as int], place_of(after[k])));
                        }
                    }
                    assert forall|k: int| 0 <= k < before.len() implies !in_box(
                        room,
                        place_of(#[trigger] before[k]),
                    ) by {
                        assert(in_rooms_before(dungeon, i as int, place_of(before[k])));
                        let q = choose|q: int|
                            0 <= q < i && q < dungeon.rooms.len() && in_box(
                                #[trigger] dungeon.rooms[q],
                                place_of(before[k]),
                            );
                        assert(dungeon.rooms[q].apart(dungeon.rooms[i as int]));
                    }
                    assert forall|j: int| 0 <= j < i + 1 implies room_filled(
                        dungeon,
                        #[trigger] dungeon.rooms[j],
                        from,
                        owned(level_config),
                        after,
                    ) by {
                        let other = dungeon.rooms[j];
                        if j < i {
                            assert(room_filled(dungeon, other, from, owned(level_config), before));
                            assert(other.apart(room));
                            lemma_held_more(other, before, after, false);
                            assert forall|c: (usize, usize)|
                                stands_on(before, (c.0 as int, c.1 as int)) implies stands_on(
                                after,
                                (c.0 as int, c.1 as int),
                            ) by {
                                let k = choose|k: int|
                                    0 <= k < before.len() && (#[trigger] before[k]).at(
                                        c.0 as int,
                                        c.1 as int,
                                    );
                                assert(after[k] == before[k]);
                            }
                        } else {
                            lemma_held_more(room, Seq::empty(), before, false);
                            lemma_held_more(room, before, after, true);
                            assert forall|c: (usize, usize)| #[trigger]
                                is_free_spot(dungeon, room, from, Seq::empty(), None, c) implies is_free_spot(
                                dungeon,
                                room,
                                from,
                                before,
                                None,
                                c,
                            ) by {
                                if stands_on(before, (c.0 as int, c.1 as int)) {
                                    let k = choose|k: int|
                                        0 <= k < before.len() && (#[trigger] before[k]).at(
                                            c.0 as int,
                                            c.1 as int,
                                        );
                                    assert(!in_box(room, place_of(before[k])));
                                }
                            }
                        }
                    }
                }
                i += 1;
            }
        } else {
            proof {
                assert(0 <= dungeon.rooms.len() * bounds.1) by (nonlinear_arith)
                    requires
                        0 <= dungeon.rooms.len(),
                        0 <= bounds.1,
                ;
            }
        }
        let stairs = MapGenerator::place_stairs(&dungeon, spawn.0, spawn.1, object_registry);
        let consumables: Vec<Consumable> = Vec::new();
        let target: usize = match level_config {
            Some(level) => level.chest_count as usize,
            None => (dungeon.rooms.len() + 1) / 2,
        };
        let chests = spawn_level_chests(
            &mut rng,
            &dungeon,
            spawn,
            &entities,
            stairs,
            object_registry,
            target,
        );
        proof {
            assert(dungeon.is_spawn(from));
            assert(monsters_spread(
                dungeon,
                from,
                object_registry@,
                owned(level_config),
                entity_views(entities@),
            ));
            lemma_fresh_monsters_healthy(
                dungeon,
                from,
                object_registry@,
                owned(level_config),
                entity_views(entities@),
            );
        }
        (dungeon, entities, consumables, chests, stairs)
    }
}


/// Whether a living entity stands on the cell.
pub open spec fn living_on(entities: Seq<EntityView>, c: (int, int)) -> bool {
    exists|i: int| 0 <= i < entities.len() && (#[trigger] entities[i]).alive() && entities[i].at(c.0, c.1)
}

/// Whether a chest stands on the cell.
pub open spec fn chest_on(chests: Seq<ChestView>, c: (int, int)) -> bool {
    exists|i: int| 0 <= i < chests.len() && (#[trigger] chests[i]).x == c.0 && chests[i].y == c.1
}

/// Whether a monster can be put on the cell of the room when the monsters of a level are
/// put anew: it can be walked on, is not where the players start, and no living entity
/// stands on it.
pub open spec fn is_monster_spot(
    d: Dungeon,
    room: Room,
    spawn: (int, int),
    entities: Seq<EntityView>,
    c: (usize, usize),
) -> bool {
    &&& in_box(room, (c.0 as int, c.1 as int))
    &&& d.walkable(c.0 as int, c.1 as int)
    &&& (c.0 as int, c.1 as int) != spawn
    &&& !living_on(entities, (c.0 as int, c.1 as int))
}

/// Whether a chest can be put on the cell of the room when the chests of a level are put
/// anew: it can be walked on, is not where the players start nor where the stairs are,
/// and neither an entity nor a chest stands on it.
pub open spec fn is_chest_spot(
    d: Dungeon,
    room: Room,
    spawn: (int, int),
    entities: Seq<EntityView>,
    stairs: Option<(usize, usize)>,
    chests: Seq<ChestView>,
    c: (usize, usize),
) -> bool {
    &&& is_free_spot(d, room, spawn, entities, stairs, c)
    &&& !chest_on(chests, (c.0 as int, c.1 as int))
}

/// The monster made from a template when the monsters of a level are put anew: it has
/// the stats that the template states in its fields.
pub open spec fn plain_monster_from(t: GameObjectView, id: Seq<char>, x: usize, y: usize) -> EntityView {
    EntityView {
        id,
        x,
        y,
        object_id: t.id,
        attack: crate::entity::or_default(t.attack, 5),
        defense: crate::entity::or_default(t.defense, 0),
        attack_spread_percent: crate::entity::or_default(t.attack_spread_percent, 20),
        crit_chance_percent: crate::entity::or_default(t.crit_chance_percent, 0),
        crit_damage_percent: crate::entity::or_default(t.crit_damage_percent, 150),
        max_health: crate::entity::or_default(t.health, 20),
        current_health: crate::entity::or_default(t.health, 20),
        controller: EntityController::AI,
        facing_right: true,
    }
}

/// Whether `after` is `before` with monsters put anew: behind the entities of before
/// come at most one monster for each room, numbered from nothing, each made from a
/// monster of the catalog on a cell of a room where no living entity stood; and every
/// room that had a cell for a monster got one.
pub open spec fn monsters_added(
    d: Dungeon,
    spawn: (int, int),
    catalog: Seq<GameObjectView>,
    before: Seq<EntityView>,
    after: Seq<EntityView>,
) -> bool {
    &&& monsters_put(d, spawn, catalog, before, after)
    &&& has_monster_template(catalog, None) ==> forall|i: int|
        0 <= i < d.rooms.len() ==> room_served(d, #[trigger] d.rooms[i], spawn, before.len() as int, after)
    &&& !has_monster_template(catalog, None) ==> after == before
}

/// Whether `after` is `before` with new monsters behind it: at most one for each room,
/// numbered from nothing, each made from a monster of the catalog on a cell of a room
/// where no living entity stood.
pub open spec fn monsters_put(
    d: Dungeon,
    spawn: (int, int),
    catalog: Seq<GameObjectView>,
    before: Seq<EntityView>,
    after: Seq<EntityView>,
) -> bool {
    &&& before.len() <= after.len() <= before.len() + d.rooms.len()
    &&& after.take(before.len() as int) == before
    &&& forall|k: int|
        before.len() <= k < after.len() ==> exists|i: int, t: GameObjectView|
            #![trigger d.rooms[i], catalog.contains(t)]
            0 <= i < d.rooms.len() && is_monster_spot(
                d,
                d.rooms[i],
                spawn,
                after.take(k),
                ((#[trigger] after[k]).x, after[k].y),
            ) && catalog.contains(t) && t.is_monster() && after[k] == plain_monster_from(
                t,
                "monster_"@ + decimal((k - before.len()) as nat),
                after[k].x,
                after[k].y,
            )
}

/// Whether the room was served when monsters were put anew: it got a new monster, or it
/// has no cell left for one.
pub open spec fn room_served(
    d: Dungeon,
    room: Room,
    spawn: (int, int),
    old_count: int,
    entities: Seq<EntityView>,
) -> bool {
    (exists|c: (usize, usize)| #[trigger] is_monster_spot(d, room, spawn, entities, c)) ==> exists|
        k: int,
    |
        old_count <= k < entities.len() && in_box(room, place_of(#[trigger] entities[k]))
}

/// Whether `after` is `before` with chests put anew: behind the chests of before come at
/// most one closed chest for each room, numbered from nothing, each made from a chest of
/// the catalog on a cell of a room that held nothing.
pub open spec fn chests_added(
    d: Dungeon,
    spawn: (int, int),
    entities: Seq<EntityView>,
    stairs: Option<(usize, usize)>,
    catalog: Seq<GameObjectView>,
    before: Seq<ChestView>,
    after: Seq<ChestView>,
) -> bool {
    &&& before.len() <= after.len() <= before.len() + d.rooms.len()
    &&& after.take(before.len() as int) == before
    &&& forall|k: int|
        before.len() <= k < after.len() ==> exists|i: int, t: GameObjectView|
            #![trigger d.rooms[i], catalog.contains(t)]
            0 <= i < d.rooms.len() && is_chest_spot(
                d,
                d.rooms[i],
                spawn,
                entities,
                stairs,
                after.take(k),
                ((#[trigger] after[k]).x, after[k].y),
            ) && catalog.contains(t) && t.object_type == "chest"@ && after[k] == (ChestView {
                id: "chest_"@ + decimal((k - before.len()) as nat),
                x: after[k].x,
                y: after[k].y,
                object_id: t.id,
                open_object_id: None,
                is_open: false,
            })
}

/// Whether a chest stands on the cell.
pub fn any_chest_at(chests: &Vec<Chest>, x: usize, y: usize) -> (r: bool)
    ensures
        r == chest_on(chest_views(chests@), (x as int, y as int)),
{
    let ghost views = chest_views(chests@);
    let mut i: usize = 0;
    while i < chests.len()
        invariant
            i <= chests.len(),
            views == chest_views(chests@),
            forall|k: int| 0 <= k < i ==> !((#[trigger] views[k]).x == x && views[k].y == y),
        decreases chests.len() - i,
    {
        if chests[i].x == x && chests[i].y == y {
            assert(views[i as int].x == x);
            return true;
        }
        i += 1;
    }
    false
}

fn any_living_at(entities: &Vec<Entity>, x: usize, y: usize) -> (r: bool)
    ensures
        r == living_on(entity_views(entities@), (x as int, y as int)),
{
    let ghost views = entity_views(entities@);
    let mut i: usize = 0;
    while i < entities.len()
        invariant
            i <= entities.len(),
            views == entity_views(entities@),
            forall|k: int|
                0 <= k < i ==> !((#[trigger] views[k]).alive() && views[k].at(x as int, y as int)),
        decreases entities.len() - i,
    {
        if entities[i].is_alive() && entities[i].x == x && entities[i].y == y {
            assert(views[i as int].alive() && views[i as int].at(x as int, y as int));
            return true;
        }
        i += 1;
    }
    false
}

/// The cells of the room on which a monster can be put anew.
fn monster_spots(dungeon: &Dungeon, room: &Room, spawn: (usize, usize), entities: &Vec<Entity>) -> (spots:
    Vec<(usize, usize)>)
    requires
        room.x + room.width <= dungeon.width,
        room.y + room.height <= dungeon.height,
    ensures
        forall|k: int|
            0 <= k < spots.len() ==> is_monster_spot(
                *dungeon,
                *room,
                (spawn.0 as int, spawn.1 as int),
                entity_views(entities@),
                #[trigger] spots[k],
            ),
        spots.len() == 0 ==> forall|c: (usize, usize)|
            !#[trigger] is_monster_spot(
                *dungeon,
                *room,
                (spawn.0 as int, spawn.1 as int),
                entity_views(entities@),
                c,
            ),
{
    let mut spots: Vec<(usize, usize)> = Vec::new();
    let ghost from = (spawn.0 as int, spawn.1 as int);
    let ghost views = entity_views(entities@);
    let mut dy: usize = 0;
    while dy < room.height
        invariant
            dy <= room.height,
            room.x + room.width <= dungeon.width,
            room.y + room.height <= dungeon.height,
            from == (spawn.0 as int, spawn.1 as int),
            views == entity_views(entities@),
            forall|k: int|
                0 <= k < spots.len() ==> is_monster_spot(*dungeon, *room, from, views, #[trigger] spots[k]),
            spots.len() == 0 ==> forall|c: (usize, usize)|
                c.1 < room.y + dy ==> !#[trigger] is_monster_spot(*dungeon, *room, from, views, c),
        decreases room.height - dy,
    {
        let mut dx: usize = 0;
        while dx < room.width
            invariant
                dx <= room.width,
                dy < room.height,
                room.x + room.width <= dungeon.width,
                room.y + room.height <= dungeon.height,
                from == (spawn.0 as int, spawn.1 as int),
                views == entity_views(entities@),
                forall|k: int|
                    0 <= k < spots.len() ==> is_monster_spot(
                        *dungeon,
                        *room,
                        from,
                        views,
                        #[trigger] spots[k],
                    ),
                spots.len() == 0 ==> forall|c: (usize, usize)|
                    c.1 < room.y + dy || (c.1 == room.y + dy && c.0 < room.x + dx)
                        ==> !#[trigger] is_monster_spot(*dungeon, *room, from, views, c),
            decreases room.width - dx,
        {
            let x = room.x + dx;
            let y = room.y + dy;
            let free = dungeon.is_walkable(x, y) && !(x == spawn.0 && y == spawn.1) && !any_living_at(
                entities,
                x,
                y,
            );
            proof {
                assert(free == is_monster_spot(*dungeon, *room, from, views, (x, y)));
            }
            if free {
                spots.push((x, y));
            }
            proof {
                if spots.len() == 0 {
                    assert forall|c: (usize, usize)|
                        c.1 < room.y + dy || (c.1 == room.y + dy && c.0 < room.x + dx + 1) implies !#[trigger] is_monster_spot(
                        *dungeon,
                        *room,
                        from,
                        views,
                        c,
                    ) by {
                        if c == (x, y) {
                        }
                    }
                }
            }
            dx += 1;
        }
        dy += 1;
    }
    spots
}

/// The cells of the room on which a chest can be put anew: each of them once.
fn chest_spots(
    dungeon: &Dungeon,
    room: &Room,
    spawn: (usize, usize),
    entities: &Vec<Entity>,
    stairs: Option<(usize, usize)>,
    chests: &Vec<Chest>,
) -> (spots: Vec<(usize, usize)>)
    requires
        room.x + room.width <= dungeon.width,
        room.y + room.height <= dungeon.height,
    ensures
        spots@.no_duplicates(),
        forall|c: (usize, usize)|
            spots@.contains(c) <==> #[trigger] is_chest_spot(
                *dungeon,
                *room,
                (spawn.0 as int, spawn.1 as int),
                entity_views(entities@),
                stairs,
                chest_views(chests@),
                c,
            ),
        forall|k: int|
            0 <= k < spots.len() ==> is_chest_spot(
                *dungeon,
                *room,
                (spawn.0 as int, spawn.1 as int),
                entity_views(entities@),
                stairs,
                chest_views(chests@),
                #[trigger] spots[k],
            ),
{
    let found = free_spots(dungeon, room, spawn, entities, stairs);
    let ghost from = (spawn.0 as int, spawn.1 as int);
    let ghost placed = chest_views(chests@);
    let mut spots: Vec<(usize, usize)> = Vec::new();
    let mut i: usize = 0;
    while i < found.len()
        invariant
            i <= found.len(),
            from == (spawn.0 as int, spawn.1 as int),
            placed == chest_views(chests@),
            found@.no_duplicates(),
            forall|c: (usize, usize)|
                found@.contains(c) <==> is_free_spot(
                    *dungeon,
                    *room,
                    from,
                    entity_views(entities@),
                    stairs,
                    c,
                ),
            spots@.no_duplicates(),
            forall|c: (usize, usize)|
                spots@.contains(c) <==> #[trigger] found_without_chest(found@, i as int, placed, c),
        decreases found.len() - i,
    {
        let cell = found[i];
        let ghost before = spots@;
        let free = !any_chest_at(chests, cell.0, cell.1);
        if free {
            proof {
                if before.contains(cell) {
                    assert(found_without_chest(found@, i as int, placed, cell));
                    let j = choose|j: int| 0 <= j < i && j < found.len() && #[trigger] found[j] == cell;
                    assert(found[j] == found[i as int]);
                }
            }
            spots.push(cell);
            proof {
                assert(spots@[before.len() as int] == cell);
            }
        }
        proof {
            assert forall|c: (usize, usize)| spots@.contains(c) <==> #[trigger] found_without_chest(
                found@,
                i + 1,
                placed,
                c,
            ) by {
                if spots@.contains(c) {
                    let k = choose|k: int| 0 <= k < spots@.len() && spots@[k] == c;
                    if k < before.len() {
                        assert(before[k] == c);
                        assert(before.contains(c));
                        assert(found_without_chest(found@, i as int, placed, c));
                        let j = choose|j: int| 0 <= j < i && j < found.len() && #[trigger] found[j] == c;
                        assert(found[j] == c);
                    } else {
                        assert(c == cell);
                        assert(found[i as int] == c);
                    }
                }
                if found_without_chest(found@, i + 1, placed, c) {
                    let j = choose|j: int| 0 <= j < i + 1 && j < found.len() && #[trigger] found[j] == c;
                    if j < i {
                        assert(found_without_chest(found@, i as int, placed, c));
                        assert(before.contains(c));
                        let k = choose|k: int| 0 <= k < before.len() && before[k] == c;
                        assert(spots@[k] == c);
                    } else {
                        assert(c == cell);
                        assert(spots@[before.len() as int] == c);
                    }
                }
            }
        }
        i += 1;
    }
    proof {
        assert forall|c: (usize, usize)| spots@.contains(c) <==> #[trigger] is_chest_spot(
            *dungeon,
            *room,
            from,
            entity_views(entities@),
            stairs,
            placed,
            c,
        ) by {
            if spots@.contains(c) {
                assert(found_without_chest(found@, found.len() as int, placed, c));
                let j = choose|j: int|
                    0 <= j < found.len() && j < found.len() && #[trigger] found[j] == c;
                assert(found@.contains(c));
            }
            if is_chest_spot(*dungeon, *room, from, entity_views(entities@), stairs, placed, c) {
                assert(found@.contains(c));
                let j = choose|j: int| 0 <= j < found@.len() && found@[j] == c;
                assert(found[j] == c);
                assert(found_without_chest(found@, found.len() as int, placed, c));
            }
        }
        assert forall|k: int| 0 <= k < spots.len() implies is_chest_spot(
            *dungeon,
            *room,
            from,
            entity_views(entities@),
            stairs,
            placed,
            #[trigger] spots[k],
        ) by {
            assert(spots@.contains(spots[k]));
        }
    }
    spots
}

/// Whether `c` is one of the first `upto` cells of `found` and no chest stands on it.
spec fn found_without_chest(
    found: Seq<(usize, usize)>,
    upto: int,
    chests: Seq<ChestView>,
    c: (usize, usize),
) -> bool {
    &&& exists|j: int| 0 <= j < upto && j < found.len() && #[trigger] found[j] == c
    &&& !chest_on(chests, (c.0 as int, c.1 as int))
}

impl MapGenerator {
    /// Puts monsters anew: one in each room that has a cell for it, drawn at random,
    /// made from a monster of the catalog drawn at random.
    pub fn spawn_monsters(
        dungeon: &Dungeon,
        entities: &mut Vec<Entity>,
        object_registry: &GameObjectRegistry,
        player_x: usize,
        player_y: usize,
    )
        requires
            dungeon.wf(),
        ensures
            monsters_added(
                *dungeon,
                (player_x as int, player_y as int),
                object_registry@,
                entity_views(old(entities)@),
                entity_views(final(entities)@),
            ),
    {
        let ghost before = entity_views(entities@);
        let ghost from = (player_x as int, player_y as int);
        let templates = monster_templates(object_registry, None);
        proof {
            assert(before.take(before.len() as int) =~= before);
            assert(owned(None) == None::<LevelConfig>);
        }
        if templates.len() == 0 {
            return ;
        }
        proof {
            assert(monster_allowed(object_registry@, None, templates[0]@));
        }
        let mut rng = rand::thread_rng();
        let mut number: u64 = 0;
        let mut i: usize = 0;
        while i < dungeon.rooms.len()
            invariant
                i <= dungeon.rooms.len(),
                dungeon.wf(),
                from == (player_x as int, player_y as int),
                before == entity_views(old(entities)@),
                templates.len() > 0,
                forall|k: int|
                    0 <= k < templates.len() ==> (#[trigger] templates[k])@.is_monster()
                        && object_registry@.contains(templates[k]@),
                number == entities.len() - before.len(),
                number <= i,
                monsters_put(*dungeon, from, object_registry@, before, entity_views(entities@)),
                forall|j: int|
                    0 <= j < i ==> room_served(
                        *dungeon,
                        #[trigger] dungeon.rooms[j],
                        from,
                        before.len() as int,
                        entity_views(entities@),
                    ),
            decreases dungeon.rooms.len() - i,
        {
            let room = &dungeon.rooms[i];
            let at = (player_x, player_y);
            let spots = monster_spots(dungeon, room, at, entities);
            let ghost reached = entity_views(entities@);
            let ghost none_free = forall|c: (usize, usize)|
                !#[trigger] is_monster_spot(*dungeon, *room, from, reached, c);
            proof {
                if spots.len() == 0 {
                    assert forall|c: (usize, usize)| !#[trigger] is_monster_spot(
                        *dungeon,
                        *room,
                        from,
                        reached,
                        c,
                    ) by {
                        assert(!is_monster_spot(
                            *dungeon,
                            *room,
                            (at.0 as int, at.1 as int),
                            entity_views(entities@),
                            c,
                        ));
                    }
                }
            }
            if spots.len() > 0 {
                let (x, y) = spots[random_index(&mut rng, spots.len())];
                let template = templates[random_index(&mut rng, templates.len())];
                let ghost current = entity_views(entities@);
                let monster = Entity::new(
                    numbered_id("monster_", number),
                    x,
                    y,
                    template.id.clone(),
                    match template.attack {
                        Some(v) => v,
                        None => 5,
                    },
                    match template.defense {
                        Some(v) => v,
                        None => 0,
                    },
                    match template.attack_spread_percent {
                        Some(v) => v,
                        None => 20,
                    },
                    match template.crit_chance_percent {
                        Some(v) => v,
                        None => 0,
                    },
                    match template.crit_damage_percent {
                        Some(v) => v,
                        None => 150,
                    },
                    match template.health {
                        Some(v) => v,
                        None => 20,
                    },
                    EntityController::AI,
                );
                entities.push(monster);
                number += 1;
                proof {
                    let after = entity_views(entities@);
                    assert(after =~= current.push(monster@));
                    assert(after.take(before.len() as int) =~= current.take(before.len() as int));
                    assert forall|k: int| before.len() <= k < after.len() implies exists|
                        r: int,
                        t: GameObjectView,
                    |
                        #![trigger dungeon.rooms[r], object_registry@.contains(t)]
                        0 <= r < dungeon.rooms.len() && is_monster_spot(
                            *dungeon,
                            dungeon.rooms[r],
                            from,
                            after.take(k),
                            ((#[trigger] after[k]).x, after[k].y),
                        ) && object_registry@.contains(t) && t.is_monster() && after[k]
                            == plain_monster_from(
                            t,
                            "monster_"@ + decimal((k - before.len()) as nat),
                            after[k].x,
                            after[k].y,
                        ) by {
                        if k < current.len() {
                            assert(after[k] == current[k]);
                            assert(after.take(k) =~= current.take(k));
                            let (r, t) = choose|r: int, t: GameObjectView|
                                #![trigger dungeon.rooms[r], object_registry@.contains(t)]
                                0 <= r < dungeon.rooms.len() && is_monster_spot(
                                    *dungeon,
                                    dungeon.rooms[r],
                                    from,
                                    current.take(k),
                                    (current[k].x, current[k].y),
                                ) && object_registry@.contains(t) && t.is_monster() && current[k]
                                    == plain_monster_from(
                                    t,
                                    "monster_"@ + decimal((k - before.len()) as nat),
                                    current[k].x,
                                    current[k].y,
                                );
                            assert(in_box(dungeon.rooms[r], place_of(after[k])) && object_registry@.contains(t));
                        } else {
                            assert(after.take(k) =~= current);
                            assert(is_monster_spot(*dungeon, dungeon.rooms[i as int], from, current, (x, y)));
                            assert(object_registry@.contains(template@));
                        }
                    }
                    assert(in_box(dungeon.rooms[i as int], place_of(after[current.len() as int])));
                }
            }
            proof {
                let after = entity_views(entities@);
                assert forall|c: (int, int)| living_on(reached, c) implies living_on(after, c) by {
                    let k = choose|k: int|
                        0 <= k < reached.len() && (#[trigger] reached[k]).alive() && reached[k].at(c.0, c.1);
                    assert(after[k] == reached[k]);
                }
                assert forall|j: int| 0 <= j < i + 1 implies room_served(
                    *dungeon,
                    #[trigger] dungeon.rooms[j],
                    from,
                    before.len() as int,
                    after,
                ) by {
                    if exists|c: (usize, usize)|
                        #[trigger] is_monster_spot(*dungeon, dungeon.rooms[j], from, after, c) {
                        let c = choose|c: (usize, usize)|
                            #[trigger] is_monster_spot(*dungeon, dungeon.rooms[j], from, after, c);
                        assert(is_monster_spot(*dungeon, dungeon.rooms[j], from, reached, c));
                        if j < i {
                            assert(room_served(*dungeon, dungeon.rooms[j], from, before.len() as int, reached));
                            let k = choose|k: int|
                                before.len() <= k < reached.len() && in_box(
                                    dungeon.rooms[j],
                                    place_of(#[trigger] reached[k]),
                                );
                            assert(after[k] == reached[k]);
                        } else {
                            assert(*room == dungeon.rooms[j]);
                            assert(is_monster_spot(*dungeon, *room, from, reached, c));
                            assert(!none_free);
                            assert(spots.len() > 0);
                            assert(in_box(dungeon.rooms[j], place_of(after[reached.len() as int])));
                        }
                    }
                }
            }
            i += 1;
        }
    }

    /// Puts chests anew: in each room, with even odds, one closed chest on a cell that
    /// holds nothing, drawn at random, made from a chest of the catalog drawn at random.
    pub fn spawn_chests(
        dungeon: &Dungeon,
        entities: &Vec<Entity>,
        chests: &mut Vec<Chest>,
        object_registry: &GameObjectRegistry,
        player_x: usize,
        player_y: usize,
        stairs_pos: Option<(usize, usize)>,
    )
        requires
            dungeon.wf(),
        ensures
            chests_added(
                *dungeon,
                (player_x as int, player_y as int),
                entity_views(entities@),
                stairs_pos,
                object_registry@,
                chest_views(old(chests)@),
                chest_views(final(chests)@),
            ),
    {
        let ghost before = chest_views(chests@);
        let ghost from = (player_x as int, player_y as int);
        let ghost views = entity_views(entities@);
        let templates = object_registry.get_objects_by_type("chest");
        proof {
            assert(before.take(before.len() as int) =~= before);
        }
        if templates.len() == 0 {
            return ;
        }
        let mut rng = rand::thread_rng();
        let mut number: u64 = 0;
        let mut i: usize = 0;
        while i < dungeon.rooms.len()
            invariant
                i <= dungeon.rooms.len(),
                dungeon.wf(),
                from == (player_x as int, player_y as int),
                views == entity_views(entities@),
                before == chest_views(old(chests)@),
                templates.len() > 0,
                forall|k: int|
                    0 <= k < templates.len() ==> (#[trigger] templates[k])@.object_type == "chest"@
                        && object_registry@.contains(templates[k]@),
                number == chests.len() - before.len(),
                number <= i,
                chests_added(
                    *dungeon,
                    from,
                    views,
                    stairs_pos,
                    object_registry@,
                    before,
                    chest_views(chests@),
                ),
            decreases dungeon.rooms.len() - i,
        {
            let room = &dungeon.rooms[i];
            if random_index(&mut rng, 2) == 0 {
                let spots = chest_spots(
                    dungeon,
                    room,
                    (player_x, player_y),
                    entities,
                    stairs_pos,
                    chests,
                );
                if spots.len() > 0 {
                    let (x, y) = spots[random_index(&mut rng, spots.len())];
                    let template = templates[random_index(&mut rng, templates.len())];
                    let ghost current = chest_views(chests@);
                    let chest = Chest {
                        id: numbered_id("chest_", number),
                        x,
                        y,
                        object_id: template.id.clone(),
                        open_object_id: None,
                        is_open: false,
                    };
                    chests.push(chest);
                    number += 1;
                    proof {
                        let after = chest_views(chests@);
                        assert(after =~= current.push(chest@));
                        assert(after.take(before.len() as int) =~= current.take(before.len() as int));
                        assert forall|k: int| before.len() <= k < after.len() implies exists|
                            r: int,
                            t: GameObjectView,
                        |
                            #![trigger dungeon.rooms[r], object_registry@.contains(t)]
                            0 <= r < dungeon.rooms.len() && is_chest_spot(
                                *dungeon,
                                dungeon.rooms[r],
                                from,
                                views,
                                stairs_pos,
                                after.take(k),
                                ((#[trigger] after[k]).x, after[k].y),
                            ) && object_registry@.contains(t) && t.object_type == "chest"@ && after[k]
                                == (ChestView {
                                id: "chest_"@ + decimal((k - before.len()) as nat),
                                x: after[k].x,
                                y: after[k].y,
                                object_id: t.id,
                                open_object_id: None,
                                is_open: false,
                            }) by {
                            if k < current.len() {
                                assert(after[k] == current[k]);
                                assert(after.take(k) =~= current.take(k));
                                let (r, t) = choose|r: int, t: GameObjectView|
                                    #![trigger dungeon.rooms[r], object_registry@.contains(t)]
                                    0 <= r < dungeon.rooms.len() && is_chest_spot(
                                        *dungeon,
                                        dungeon.rooms[r],
                                        from,
                                        views,
                                        stairs_pos,
                                        current.take(k),
                                        (current[k].x, current[k].y),
                                    ) && object_registry@.contains(t) && t.object_type == "chest"@
                                        && current[k] == (ChestView {
                                        id: "chest_"@ + decimal((k - before.len()) as nat),
                                        x: current[k].x,
                                        y: current[k].y,
                                        object_id: t.id,
                                        open_object_id: None,
                                        is_open: false,
                                    });
                                assert(in_box(
                                    dungeon.rooms[r],
                                    (after[k].x as int, after[k].y as int),
                                ) && object_registry@.contains(t));
                            } else {
                                assert(after.take(k) =~= current);
                                assert(is_chest_spot(
                                    *dungeon,
                                    dungeon.rooms[i as int],
                                    from,
                                    views,
                                    stairs_pos,
                                    current,
                                    (x, y),
                                ));
                                assert(object_registry@.contains(template@));
                            }
                        }
                    }
                }
            }
            i += 1;
        }
    }
}

} // verus!
