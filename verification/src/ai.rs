//! What the monsters do once all players have moved: find a player near them, attack it
//! or walk towards it, or wander.

use crate::chest::{chest_views, Chest, ChestView};
use crate::combat::{
    attack_entity, attack_result, opt_message, rolls_allowed, AttackResult, AttackRolls,
};
use crate::consumable::{consumable_views, Consumable};
use crate::dungeon::Dungeon;
use crate::entity::{all_wf, entity_views, Entity, EntityController, EntityView};
use crate::game_object::GameObjectView;
use crate::game_object_registry::{find, GameObjectRegistry};
use crate::grid::{
    adjacent, connected, is_walk, lemma_connected_refl, lemma_connected_step,
    lemma_connected_trans, walk_between,
};
use crate::map_generator::chebyshev;
use crate::message::{GameMessage, GameMessageView};
use crate::rng::random_index;
use vstd::prelude::*;
use vstd::string::*;

verus! {

/// How far, in steps that may go along both axes at once, a monster notices a player.
pub const SIGHT: usize = 5;

/// Whether chest `i` is the first chest of the list on the cell (`x`, `y`).
pub open spec fn first_chest_at(chests: Seq<ChestView>, x: int, y: int, i: int) -> bool {
    &&& 0 <= i < chests.len()
    &&& chests[i].x == x && chests[i].y == y
    &&& forall|j: int| 0 <= j < i ==> !((#[trigger] chests[j]).x == x && chests[j].y == y)
}

/// Whether the chest lets entities pass in its present state: as its template says for
/// that state, or, without template, when it is open.
pub open spec fn chest_lets_pass(chest: ChestView, catalog: Seq<GameObjectView>) -> bool {
    match find(catalog, chest.object_id) {
        Some(o) => o.interactable_walkable(chest.is_open),
        None => chest.is_open,
    }
}

/// Whether no chest bars the cell (`x`, `y`).
pub open spec fn chest_passable(
    chests: Seq<ChestView>,
    catalog: Seq<GameObjectView>,
    x: int,
    y: int,
) -> bool {
    forall|i: int| first_chest_at(chests, x, y, i) ==> chest_lets_pass(#[trigger] chests[i], catalog)
}

/// Whether a living entity other than entity `me` stands on the cell. Entities are told
/// apart by their ids.
pub open spec fn taken(entities: Seq<EntityView>, me: int, c: (int, int)) -> bool {
    exists|i: int|
        0 <= i < entities.len() && (#[trigger] entities[i]).alive() && entities[i].at(c.0, c.1) && (0
            <= me < entities.len() ==> entities[i].id != entities[me].id)
}

/// The cell that lies (`dx`, `dy`) from the entity.
pub open spec fn cell_from(e: EntityView, dx: int, dy: int) -> (int, int) {
    (e.x + dx, e.y + dy)
}

/// Whether entity `idx` can step by (`dx`, `dy`): the cell there is a cell of the level
/// that can be walked on, no chest bars it and no other living entity stands on it.
pub open spec fn can_step(
    entities: Seq<EntityView>,
    d: Dungeon,
    chests: Seq<ChestView>,
    catalog: Seq<GameObjectView>,
    idx: int,
    dx: int,
    dy: int,
) -> bool {
    let c = cell_from(entities[idx], dx, dy);
    &&& d.walkable(c.0, c.1)
    &&& chest_passable(chests, catalog, c.0, c.1)
    &&& !taken(entities, idx, c)
}

/// The side an entity faces after trying a step: the side of the step, or as before
/// where the step goes up or down.
pub open spec fn facing_step(dx: int, before: bool) -> bool {
    if dx > 0 {
        true
    } else if dx < 0 {
        false
    } else {
        before
    }
}

/// The entities after entity `idx` tried the step (`dx`, `dy`).
pub open spec fn after_step(
    entities: Seq<EntityView>,
    d: Dungeon,
    chests: Seq<ChestView>,
    catalog: Seq<GameObjectView>,
    idx: int,
    dx: int,
    dy: int,
) -> Seq<EntityView> {
    if !(0 <= idx < entities.len()) {
        entities
    } else {
        let e = entities[idx];
        let turned = EntityView { facing_right: facing_step(dx, e.facing_right), ..e };
        if can_step(entities, d, chests, catalog, idx, dx, dy) {
            entities.update(
                idx,
                EntityView { x: (e.x + dx) as usize, y: (e.y + dy) as usize, ..turned },
            )
        } else {
            entities.update(idx, turned)
        }
    }
}

/// Whether no chest bars the cell (`x`, `y`).
pub fn chest_allows(chests: &Vec<Chest>, registry: &GameObjectRegistry, x: usize, y: usize) -> (r:
    bool)
    ensures
        r == chest_passable(chest_views(chests@), registry@, x as int, y as int),
{
    let ghost views = chest_views(chests@);
    let mut i: usize = 0;
    while i < chests.len()
        invariant
            i <= chests.len(),
            views == chest_views(chests@),
            forall|j: int| 0 <= j < i ==> !((#[trigger] views[j]).x == x && views[j].y == y),
        decreases chests.len() - i,
    {
        if chests[i].x == x && chests[i].y == y {
            assert(first_chest_at(views, x as int, y as int, i as int));
            let pass = match registry.get_object(chests[i].object_id.as_str()) {
                Some(o) => o.get_interactable_walkable(chests[i].is_open),
                None => chests[i].is_open,
            };
            assert(pass == chest_lets_pass(views[i as int], registry@));
            assert forall|k: int| first_chest_at(views, x as int, y as int, k) implies k == i by {}
            return pass;
        }
        i += 1;
    }
    true
}

/// Whether a living entity other than entity `me` stands on the cell.
pub fn is_taken(entities: &Vec<Entity>, me: usize, x: usize, y: usize) -> (r: bool)
    ensures
        r == taken(entity_views(entities@), me as int, (x as int, y as int)),
{
    let ghost views = entity_views(entities@);
    let mut i: usize = 0;
    while i < entities.len()
        invariant
            i <= entities.len(),
            views == entity_views(entities@),
            forall|k: int|
                0 <= k < i ==> !((#[trigger] views[k]).alive() && views[k].at(x as int, y as int) && (
                0 <= me < views.len() ==> views[k].id != views[me as int].id)),
        decreases entities.len() - i,
    {
        let e = &entities[i];
        if e.is_alive() && e.x == x && e.y == y {
            let other = if me < entities.len() {
                !(e.id == entities[me].id)
            } else {
                true
            };
            if other {
                assert(views[i as int].alive() && views[i as int].at(x as int, y as int));
                return true;
            }
        }
        i += 1;
    }
    false
}

/// Lets entity `entity_idx` try the step (`dx`, `dy`): it turns to the side of the step
/// and moves if the cell there is free. Tells whether it moved.
pub fn move_entity(
    entities: &mut Vec<Entity>,
    dungeon: &Dungeon,
    chests: &Vec<Chest>,
    registry: &GameObjectRegistry,
    entity_idx: usize,
    dx: i32,
    dy: i32,
) -> (moved: bool)
    ensures
        entity_views(final(entities)@) == after_step(
            entity_views(old(entities)@),
            *dungeon,
            chest_views(chests@),
            registry@,
            entity_idx as int,
            dx as int,
            dy as int,
        ),
        moved == (entity_idx < old(entities).len() && can_step(
            entity_views(old(entities)@),
            *dungeon,
            chest_views(chests@),
            registry@,
            entity_idx as int,
            dx as int,
            dy as int,
        )),
        final(entities).len() == old(entities).len(),
        all_wf(entity_views(old(entities)@)) ==> all_wf(entity_views(final(entities)@)),
{
    if entity_idx >= entities.len() {
        return false;
    }
    let ghost before = entity_views(entities@);
    let old_x = entities[entity_idx].x;
    let old_y = entities[entity_idx].y;
    let new_x: i128 = old_x as i128 + dx as i128;
    let new_y: i128 = old_y as i128 + dy as i128;
    let mut free = false;
    if new_x >= 0 && new_y >= 0 && new_x < dungeon.width as i128 && new_y < dungeon.height as i128 {
        let x = new_x as usize;
        let y = new_y as usize;
        free = dungeon.is_walkable(x, y) && chest_allows(chests, registry, x, y) && !is_taken(
            entities,
            entity_idx,
            x,
            y,
        );
    }
    if dx > 0 {
        entities[entity_idx].facing_right = true;
    } else if dx < 0 {
        entities[entity_idx].facing_right = false;
    }
    if free {
        entities[entity_idx].x = new_x as usize;
        entities[entity_idx].y = new_y as usize;
    }
    proof {
        assert(entity_views(entities@) =~= after_step(
            before,
            *dungeon,
            chest_views(chests@),
            registry@,
            entity_idx as int,
            dx as int,
            dy as int,
        ));
        assert forall|i: int| 0 <= i < entities.len() && before[i].wf() implies (
        #[trigger] entity_views(entities@)[i]).wf() by {}
    }
    free
}


/// Whether entity `me` may walk over the cell on its way to `target`: the cell can be
/// walked on, and no other living entity stands on it unless it is the target's own cell.
pub open spec fn passable(
    d: Dungeon,
    entities: Seq<EntityView>,
    me: int,
    target: (int, int),
    c: (int, int),
) -> bool {
    d.walkable(c.0, c.1) && (c == target || !taken(entities, me, c))
}

/// The cells a search from `start` to `target` may walk over: those that are passable,
/// and the cell it starts from.
pub open spec fn search_floor(
    d: Dungeon,
    entities: Seq<EntityView>,
    me: int,
    start: (int, int),
    target: (int, int),
) -> Set<(int, int)> {
    Set::new(|c: (int, int)| c == start || passable(d, entities, me, target, c))
}

/// The sign of a number.
pub open spec fn sign(v: int) -> int {
    if v > 0 {
        1
    } else if v < 0 {
        -1
    } else {
        0
    }
}

/// The four steps along an axis: left, right, up, down.
pub open spec fn step_of(code: u8) -> (int, int) {
    if code == 0 {
        (-1, 0)
    } else if code == 1 {
        (1, 0)
    } else if code == 2 {
        (0, -1)
    } else {
        (0, 1)
    }
}

/// Whether a shortest walk over `floor` from `start` to `target` goes to `next` first.
pub open spec fn starts_shortest(
    floor: Set<(int, int)>,
    start: (int, int),
    target: (int, int),
    next: (int, int),
) -> bool {
    exists|p: Seq<(int, int)>|
        #![trigger walk_between(floor, p, start, target)]
        walk_between(floor, p, start, target) && p.len() >= 2 && p[1] == next && forall|
            q: Seq<(int, int)>,
        |
            #[trigger] walk_between(floor, q, start, target) ==> p.len() <= q.len()
}

/// Whether `r` is the step that a search from `start` finds towards `target`. Where the
/// target can be reached over passable cells, the step is the first of a shortest way
/// there: it leads to a passable cell next to `start`; of several such steps it is the
/// first among left, right, up and down. Where the target cannot be reached, the step
/// is the direction of the target along each axis, whatever lies there. There is no
/// step from the target to itself.
pub open spec fn path_step_ok(
    d: Dungeon,
    entities: Seq<EntityView>,
    me: int,
    start: (int, int),
    target: (int, int),
    r: Option<(i32, i32)>,
) -> bool {
    let floor = search_floor(d, entities, me, start, target);
    if start == target {
        r is None
    } else if connected(floor, start, target) {
        &&& r matches Some(s)
        &&& exists|code: u8|
            code < 4 && #[trigger] step_of(code) == (s.0 as int, s.1 as int) && forall|earlier: u8|
                earlier < code ==> !starts_shortest(
                    floor,
                    start,
                    target,
                    (start.0 + (#[trigger] step_of(earlier)).0, start.1 + step_of(earlier).1),
                )
        &&& passable(d, entities, me, target, (start.0 + s.0, start.1 + s.1))
        &&& connected(floor, (start.0 + s.0, start.1 + s.1), target)
        &&& starts_shortest(floor, start, target, (start.0 + s.0, start.1 + s.1))
    } else {
        r == Some((sign(target.0 - start.0) as i32, sign(target.1 - start.1) as i32))
    }
}

spec fn cell(c: (usize, usize)) -> (int, int) {
    (c.0 as int, c.1 as int)
}

spec fn seen(visited: Seq<Vec<bool>>, c: (int, int)) -> bool {
    0 <= c.1 < visited.len() && 0 <= c.0 < visited[c.1].len() && visited[c.1][c.0]
}

spec fn in_queue(queue: Seq<(usize, usize)>, c: (int, int)) -> bool {
    exists|k: int| 0 <= k < queue.len() && cell(#[trigger] queue[k]) == c
}

spec fn next_to(start: (int, int), code: u8) -> (int, int) {
    (start.0 + step_of(code).0, start.1 + step_of(code).1)
}

spec fn first_ok(floor: Set<(int, int)>, start: (int, int), code: u8, c: (int, int)) -> bool {
    code < 4 && floor.contains(next_to(start, code)) && next_to(start, code) != start && connected(
        floor,
        next_to(start, code),
        c,
    )
}

spec fn row_unseen(row: Seq<bool>) -> nat
    decreases row.len(),
{
    if row.len() == 0 {
        0
    } else {
        row_unseen(row.drop_last()) + if row.last() {
            0nat
        } else {
            1nat
        }
    }
}

spec fn count_unseen(visited: Seq<Vec<bool>>) -> nat
    decreases visited.len(),
{
    if visited.len() == 0 {
        0
    } else {
        count_unseen(visited.drop_last()) + row_unseen(visited.last()@)
    }
}

proof fn lemma_row_mark(row: Seq<bool>, x: int)
    requires
        0 <= x < row.len(),
        !row[x],
    ensures
        row_unseen(row.update(x, true)) + 1 == row_unseen(row),
    decreases row.len(),
{
    let marked = row.update(x, true);
    if x == row.len() - 1 {
        assert(marked.drop_last() =~= row.drop_last());
    } else {
        assert(marked.drop_last() =~= row.drop_last().update(x, true));
        lemma_row_mark(row.drop_last(), x);
    }
}

proof fn lemma_grid_mark(before: Seq<Vec<bool>>, after: Seq<Vec<bool>>, y: int)
    requires
        after.len() == before.len(),
        0 <= y < before.len(),
        forall|j: int| 0 <= j < before.len() && j != y ==> after[j]@ == before[j]@,
        row_unseen(after[y]@) + 1 == row_unseen(before[y]@),
    ensures
        count_unseen(after) + 1 == count_unseen(before),
    decreases before.len(),
{
    if y == before.len() - 1 {
        lemma_grid_same(before.drop_last(), after.drop_last());
    } else {
        lemma_grid_mark(before.drop_last(), after.drop_last(), y);
    }
}

proof fn lemma_grid_same(before: Seq<Vec<bool>>, after: Seq<Vec<bool>>)
    requires
        after.len() == before.len(),
        forall|j: int| 0 <= j < before.len() ==> after[j]@ == before[j]@,
    ensures
        count_unseen(after) == count_unseen(before),
    decreases before.len(),
{
    if before.len() > 0 {
        lemma_grid_same(before.drop_last(), after.drop_last());
    }
}

spec fn in_grid<T>(grid: Seq<Vec<T>>, c: (int, int)) -> bool {
    0 <= c.1 < grid.len() && 0 <= c.0 < grid[c.1].len()
}

spec fn marked<T>(before: Seq<Vec<T>>, after: Seq<Vec<T>>, c: (int, int), value: T) -> bool {
    &&& after.len() == before.len()
    &&& forall|j: int| 0 <= j < before.len() && j != c.1 ==> #[trigger] after[j] == before[j]
    &&& after[c.1]@ == before[c.1]@.update(c.0, value)
}

spec fn reached_within(queue: Seq<(usize, usize)>, depths: Seq<nat>, n: (int, int), bound: int) -> bool {
    exists|j: int| 0 <= j < queue.len() && cell(#[trigger] queue[j]) == n && depths[j] <= bound
}

spec fn walk_of(
    floor: Set<(int, int)>,
    start: (int, int),
    c: (int, int),
    steps: nat,
    code: u8,
) -> bool {
    exists|p: Seq<(int, int)>|
        #![trigger walk_between(floor, p, start, c)]
        walk_between(floor, p, start, c) && p.len() == steps + 1 && steps >= 1 && p[1] == next_to(
            start,
            code,
        )
}

/// What holds of a search from `start` whose first `head` cells of the queue were
/// expanded: the cells seen so far are those of the queue, each can be reached, and all
/// passable cells next to an expanded cell were seen.
#[verifier::opaque]
spec fn search_inv(
    d: Dungeon,
    floor: Set<(int, int)>,
    start: (int, int),
    visited: Seq<Vec<bool>>,
    first: Seq<Vec<u8>>,
    queue: Seq<(usize, usize)>,
    head: int,
) -> bool {
    &&& visited.len() == d.tiles.len()
    &&& first.len() == d.tiles.len()
    &&& forall|y: int|
        0 <= y < d.tiles.len() ==> (#[trigger] visited[y]).len() == d.tiles[y].len()
    &&& forall|y: int| 0 <= y < d.tiles.len() ==> (#[trigger] first[y]).len() == d.tiles[y].len()
    &&& queue.len() >= 1
    &&& cell(queue[0]) == start
    &&& floor.contains(start)
    &&& in_grid(visited, start) ==> seen(visited, start)
    &&& 0 <= head <= queue.len()
    &&& forall|c: (int, int)|
        #[trigger] seen(visited, c) ==> floor.contains(c) && connected(floor, start, c) && in_queue(
            queue,
            c,
        )
    &&& forall|k: int|
        1 <= k < queue.len() ==> seen(visited, cell(#[trigger] queue[k])) && cell(queue[k]) != start
    &&& forall|c: (int, int)|
        #[trigger] seen(visited, c) && c != start ==> first_ok(floor, start, first[c.1][c.0], c)
    &&& forall|k: int, n: (int, int)|
        0 <= k < head && #[trigger] adjacent(cell(queue[k]), n) && floor.contains(n) ==> n == start
            || seen(visited, n)
}

/// What holds of the number of steps that the search took to each cell of its queue: the
/// numbers rise along the queue by one at most, each cell has a walk of that many steps,
/// and the cells next to an expanded cell were reached with one step more at most.
#[verifier::opaque]
spec fn depth_inv(
    floor: Set<(int, int)>,
    start: (int, int),
    first: Seq<Vec<u8>>,
    queue: Seq<(usize, usize)>,
    depths: Seq<nat>,
    head: int,
) -> bool {
    &&& depths.len() == queue.len()
    &&& queue.len() >= 1
    &&& depths[0] == 0
    &&& cell(queue[0]) == start
    &&& 0 <= head <= queue.len()
    &&& forall|i: int, j: int| 0 <= i <= j < depths.len() ==> depths[i] <= depths[j]
    &&& head < queue.len() ==> forall|k: int|
        0 <= k < depths.len() ==> #[trigger] depths[k] <= depths[head] + 1
    &&& forall|k: int, n: (int, int)|
        0 <= k < head && #[trigger] adjacent(cell(queue[k]), n) && floor.contains(n)
            ==> reached_within(queue, depths, n, (depths[k] + 1) as int)
    &&& forall|j: int|
        1 <= j < queue.len() ==> walk_of(
            floor,
            start,
            cell(#[trigger] queue[j]),
            depths[j],
            first[queue[j].1 as int][queue[j].0 as int],
        )
}

proof fn lemma_take_up(
    d: Dungeon,
    floor: Set<(int, int)>,
    start: (int, int),
    visited: Seq<Vec<bool>>,
    first: Seq<Vec<u8>>,
    queue: Seq<(usize, usize)>,
    head: int,
    visited_after: Seq<Vec<bool>>,
    first_after: Seq<Vec<u8>>,
    from: (usize, usize),
    code: u8,
    n: (usize, usize),
)
    requires
        search_inv(d, floor, start, visited, first, queue, head),
        head < queue.len(),
        from == queue[head],
        adjacent(cell(from), cell(n)),
        code < 4,
        if head == 0 {
            next_to(start, code) == cell(n)
        } else {
            code == first[from.1 as int][from.0 as int]
        },
        in_grid(visited, cell(n)),
        !seen(visited, cell(n)),
        floor.contains(cell(n)),
        marked(visited, visited_after, cell(n), true),
        marked(first, first_after, cell(n), code),
    ensures
        search_inv(d, floor, start, visited_after, first_after, queue.push(n), head),
        forall|c: (int, int)| seen(visited, c) ==> seen(visited_after, c),
        forall|c: (int, int)|
            #[trigger] seen(visited, c) ==> first_after[c.1][c.0] == first[c.1][c.0],
        seen(visited_after, cell(n)),
        count_unseen(visited_after) + 1 == count_unseen(visited),
{
    reveal(search_inv);
    let c = cell(n);
    let queue_after = queue.push(n);
    assert(c != start);
    assert(floor.contains(cell(from)));
    if head == 0 {
        lemma_connected_refl(floor, start);
    } else {
        assert(seen(visited, cell(from)));
    }
    assert(connected(floor, start, cell(from)));
    lemma_connected_step(floor, cell(from), c);
    lemma_connected_trans(floor, start, cell(from), c);
    lemma_row_mark(visited[c.1]@, c.0);
    assert forall|j: int| 0 <= j < visited.len() && j != c.1 implies visited_after[j]@
        == visited[j]@ by {
        assert(visited_after[j] == visited[j]);
    }
    lemma_grid_mark(visited, visited_after, c.1);
    assert forall|q: (int, int)| seen(visited, q) implies seen(visited_after, q) by {
        if q.1 != c.1 {
            assert(visited_after[q.1] == visited[q.1]);
        }
    }
    assert forall|q: (int, int)| #[trigger] seen(visited, q) implies first_after[q.1][q.0]
        == first[q.1][q.0] by {
        if q.1 != c.1 {
            assert(first_after[q.1] == first[q.1]);
        }
    }
    assert forall|q: (int, int)| seen(visited_after, q) && q != c implies seen(visited, q) by {
        if q.1 != c.1 {
            assert(visited_after[q.1] == visited[q.1]);
        }
    }
    assert forall|y: int| 0 <= y < d.tiles.len() implies (#[trigger] visited_after[y]).len()
        == d.tiles[y].len() by {
        assert(visited[y].len() == d.tiles[y].len());
        if y != c.1 {
            assert(visited_after[y] == visited[y]);
        }
    }
    assert forall|y: int| 0 <= y < d.tiles.len() implies (#[trigger] first_after[y]).len()
        == d.tiles[y].len() by {
        assert(first[y].len() == d.tiles[y].len());
        if y != c.1 {
            assert(first_after[y] == first[y]);
        }
    }
    assert forall|q: (int, int)| #[trigger] seen(visited_after, q) implies floor.contains(q)
        && connected(floor, start, q) && in_queue(queue_after, q) by {
        if q == c {
            assert(cell(queue_after[queue.len() as int]) == c);
        } else {
            assert(seen(visited, q));
            let k = choose|k: int| 0 <= k < queue.len() && cell(#[trigger] queue[k]) == q;
            assert(cell(queue_after[k]) == q);
        }
    }
    assert forall|k: int| 1 <= k < queue_after.len() implies seen(
        visited_after,
        cell(#[trigger] queue_after[k]),
    ) && cell(queue_after[k]) != start by {
        if k < queue.len() {
            assert(queue_after[k] == queue[k]);
            assert(seen(visited, cell(queue[k])));
        }
    }
    assert forall|q: (int, int)| #[trigger] seen(visited_after, q) && q != start implies first_ok(
        floor,
        start,
        first_after[q.1][q.0],
        q,
    ) by {
        if q == c {
            if head == 0 {
                lemma_connected_refl(floor, c);
            } else {
                assert(cell(queue[head]) != start);
                assert(first_ok(floor, start, code, cell(from)));
                lemma_connected_trans(floor, next_to(start, code), cell(from), c);
            }
        } else {
            assert(seen(visited, q));
            assert(first_ok(floor, start, first[q.1][q.0], q));
            if q.1 != c.1 {
                assert(first_after[q.1] == first[q.1]);
            }
        }
    }
    assert forall|k: int, m: (int, int)|
        0 <= k < head && #[trigger] adjacent(cell(queue_after[k]), m) && floor.contains(
            m,
        ) implies m == start || seen(visited_after, m) by {
        assert(queue_after[k] == queue[k]);
        assert(adjacent(cell(queue[k]), m));
    }
}

proof fn lemma_depth_push(
    d: Dungeon,
    floor: Set<(int, int)>,
    start: (int, int),
    visited: Seq<Vec<bool>>,
    first: Seq<Vec<u8>>,
    first_after: Seq<Vec<u8>>,
    queue: Seq<(usize, usize)>,
    depths: Seq<nat>,
    head: int,
    code: u8,
    n: (usize, usize),
)
    requires
        search_inv(d, floor, start, visited, first, queue, head),
        depth_inv(floor, start, first, queue, depths, head),
        head < queue.len(),
        adjacent(cell(queue[head]), cell(n)),
        floor.contains(cell(n)),
        code < 4,
        if head == 0 {
            next_to(start, code) == cell(n)
        } else {
            code == first[queue[head].1 as int][queue[head].0 as int]
        },
        first_after[n.1 as int][n.0 as int] == code,
        forall|c: (int, int)|
            #[trigger] seen(visited, c) ==> first_after[c.1][c.0] == first[c.1][c.0],
    ensures
        depth_inv(floor, start, first_after, queue.push(n), depths.push(depths[head] + 1), head),
{
    reveal(search_inv);
    reveal(depth_inv);
    let queue_after = queue.push(n);
    let deeper = (depths[head] + 1) as nat;
    let depths_after = depths.push(deeper);
    assert forall|i: int, j: int| 0 <= i <= j < depths_after.len() implies depths_after[i]
        <= depths_after[j] by {
        if j < depths.len() {
            assert(depths[i] <= depths[j]);
        } else if i < depths.len() {
            assert(depths[i] <= depths[head] + 1);
        }
    }
    assert forall|k: int| 0 <= k < depths_after.len() implies #[trigger] depths_after[k]
        <= depths_after[head] + 1 by {
        if k < depths.len() {
            assert(depths[k] <= depths[head] + 1);
        }
    }
    assert forall|k: int, m: (int, int)|
        0 <= k < head && #[trigger] adjacent(cell(queue_after[k]), m) && floor.contains(
            m,
        ) implies reached_within(queue_after, depths_after, m, (depths_after[k] + 1) as int) by {
        assert(adjacent(cell(queue[k]), m));
        assert(reached_within(queue, depths, m, (depths[k] + 1) as int));
        let j = choose|j: int| 0 <= j < queue.len() && cell(#[trigger] queue[j]) == m && depths[j] <= depths[k] + 1;
        assert(cell(queue_after[j]) == m && depths_after[j] <= depths_after[k] + 1);
    }
    assert forall|j: int| 1 <= j < queue_after.len() implies walk_of(
        floor,
        start,
        cell(#[trigger] queue_after[j]),
        depths_after[j],
        first_after[queue_after[j].1 as int][queue_after[j].0 as int],
    ) by {
        if j < queue.len() {
            assert(queue_after[j] == queue[j]);
            assert(seen(visited, cell(queue[j])));
            assert(walk_of(
                floor,
                start,
                cell(queue[j]),
                depths[j],
                first[queue[j].1 as int][queue[j].0 as int],
            ));
        } else if head == 0 {
            let p = seq![start, cell(n)];
            assert(walk_between(floor, p, start, cell(n)));
            assert(p.len() == deeper + 1);
        } else {
            let from = queue[head];
            assert(walk_of(
                floor,
                start,
                cell(from),
                depths[head],
                first[from.1 as int][from.0 as int],
            ));
            let p = choose|p: Seq<(int, int)>|
                #![trigger walk_between(floor, p, start, cell(from))]
                walk_between(floor, p, start, cell(from)) && p.len() == depths[head] + 1
                    && depths[head] >= 1 && p[1] == next_to(
                    start,
                    first[from.1 as int][from.0 as int],
                );
            let longer = p.push(cell(n));
            assert forall|i: int| 0 <= i < longer.len() - 1 implies adjacent(
                #[trigger] longer[i],
                longer[i + 1],
            ) by {
                if i < p.len() - 1 {
                    assert(adjacent(p[i], p[i + 1]));
                }
            }
            assert forall|i: int| 0 <= i < longer.len() implies floor.contains(#[trigger] longer[i]) by {
                if i < p.len() {
                    assert(floor.contains(p[i]));
                }
            }
            assert(walk_between(floor, longer, start, cell(n)));
            assert(longer[1] == p[1]);
        }
    }
}

proof fn lemma_depth_kept(
    d: Dungeon,
    floor: Set<(int, int)>,
    start: (int, int),
    visited: Seq<Vec<bool>>,
    first: Seq<Vec<u8>>,
    queue: Seq<(usize, usize)>,
    depths: Seq<nat>,
    head: int,
)
    requires
        search_inv(d, floor, start, visited, first, queue, head),
        depth_inv(floor, start, first, queue, depths, head),
    ensures
        0 <= head <= queue.len(),
        depths.len() == queue.len(),
        head < queue.len() ==> (head == 0 <==> cell(queue[head]) == start),
        head < queue.len() && head >= 1 ==> seen(visited, cell(queue[head])) && first_ok(
            floor,
            start,
            first[queue[head].1 as int][queue[head].0 as int],
            cell(queue[head]),
        ),
        floor.contains(start),
{
    reveal(search_inv);
    reveal(depth_inv);
}

/// Looks at the cell `n` next to the cell `from` that the search expands: takes it up if
/// it is passable and new.
fn visit(
    entities: &Vec<Entity>,
    dungeon: &Dungeon,
    me: usize,
    target: (usize, usize),
    visited: &mut Vec<Vec<bool>>,
    first: &mut Vec<Vec<u8>>,
    queue: &mut Vec<(usize, usize)>,
    from: (usize, usize),
    code: u8,
    n: (usize, usize),
    Ghost(start): Ghost<(int, int)>,
    Ghost(head): Ghost<int>,
    Ghost(depths): Ghost<Seq<nat>>,
) -> (added: bool)
    requires
        search_inv(
            *dungeon,
            search_floor(*dungeon, entity_views(entities@), me as int, start, cell(target)),
            start,
            old(visited)@,
            old(first)@,
            old(queue)@,
            head,
        ),
        depth_inv(
            search_floor(*dungeon, entity_views(entities@), me as int, start, cell(target)),
            start,
            old(first)@,
            old(queue)@,
            depths,
            head,
        ),
        order_inv(
            search_floor(*dungeon, entity_views(entities@), me as int, start, cell(target)),
            start,
            old(first)@,
            old(queue)@,
            depths,
            head,
        ),
        head < old(queue).len(),
        from == old(queue)[head],
        adjacent(cell(from), cell(n)),
        code < 4,
        if head == 0 {
            next_to(start, code) == cell(n) && firsts_below(old(first)@, old(queue)@, code as int)
        } else {
            code == old(first)[from.1 as int][from.0 as int]
        },
    ensures
        order_inv(
            search_floor(*dungeon, entity_views(entities@), me as int, start, cell(target)),
            start,
            final(first)@,
            final(queue)@,
            if added {
                depths.push(depths[head] + 1)
            } else {
                depths
            },
            head,
        ),
        head == 0 ==> firsts_below(final(first)@, final(queue)@, code + 1),
        search_inv(
            *dungeon,
            search_floor(*dungeon, entity_views(entities@), me as int, start, cell(target)),
            start,
            final(visited)@,
            final(first)@,
            final(queue)@,
            head,
        ),
        depth_inv(
            search_floor(*dungeon, entity_views(entities@), me as int, start, cell(target)),
            start,
            final(first)@,
            final(queue)@,
            if added {
                depths.push(depths[head] + 1)
            } else {
                depths
            },
            head,
        ),
        final(queue)@ == if added {
            old(queue)@.push(n)
        } else {
            old(queue)@
        },
        forall|c: (int, int)| seen(old(visited)@, c) ==> seen(final(visited)@, c),
        forall|c: (int, int)|
            #[trigger] seen(old(visited)@, c) ==> final(first)[c.1][c.0] == old(first)[c.1][c.0],
        search_floor(*dungeon, entity_views(entities@), me as int, start, cell(target)).contains(
            cell(n),
        ) ==> cell(n) == start || seen(final(visited)@, cell(n)),
        count_unseen(final(visited)@) + final(queue).len() == count_unseen(old(visited)@) + old(
            queue,
        ).len(),
{
    let ghost floor = search_floor(*dungeon, entity_views(entities@), me as int, start, cell(target));
    let ghost visited_before = visited@;
    let ghost first_before = first@;
    let ghost queue_before = queue@;
    let (x, y) = n;
    if !dungeon.is_walkable(x, y) {
        return false;
    }
    proof {
        reveal(search_inv);
    }
    assert(y < dungeon.tiles.len() && x < dungeon.tiles[y as int].len());
    assert(visited[y as int].len() == dungeon.tiles[y as int].len());
    assert(first[y as int].len() == dungeon.tiles[y as int].len());
    if visited[y][x] {
        return false;
    }
    let is_target = x == target.0 && y == target.1;
    if !is_target && is_taken(entities, me, x, y) {
        return false;
    }
    visited[y][x] = true;
    first[y][x] = code;
    queue.push(n);
    proof {
        assert(passable(*dungeon, entity_views(entities@), me as int, cell(target), cell(n)));
        assert(floor.contains(cell(n)));
        assert(marked(visited_before, visited@, cell(n), true));
        assert(marked(first_before, first@, cell(n), code));
        lemma_take_up(
            *dungeon,
            floor,
            start,
            visited_before,
            first_before,
            queue_before,
            head,
            visited@,
            first@,
            from,
            code,
            n,
        );
        lemma_depth_push(
            *dungeon,
            floor,
            start,
            visited_before,
            first_before,
            first@,
            queue_before,
            depths,
            head,
            code,
            n,
        );
        lemma_order_push(
            *dungeon,
            floor,
            start,
            visited_before,
            first_before,
            first@,
            queue_before,
            depths,
            head,
            code,
            n,
        );
    }
    true
}

proof fn lemma_expanded(
    d: Dungeon,
    floor: Set<(int, int)>,
    start: (int, int),
    visited: Seq<Vec<bool>>,
    first: Seq<Vec<u8>>,
    queue: Seq<(usize, usize)>,
    depths: Seq<nat>,
    head: int,
)
    requires
        search_inv(d, floor, start, visited, first, queue, head),
        depth_inv(floor, start, first, queue, depths, head),
        head < queue.len(),
        forall|code: u8|
            code < 4 && floor.contains(#[trigger] next_to(cell(queue[head]), code)) ==> next_to(
                cell(queue[head]),
                code,
            ) == start || seen(visited, next_to(cell(queue[head]), code)),
    ensures
        search_inv(d, floor, start, visited, first, queue, head + 1),
        depth_inv(floor, start, first, queue, depths, head + 1),
{
    reveal(search_inv);
    reveal(depth_inv);
    let c = cell(queue[head]);
    assert forall|n: (int, int)| #[trigger] adjacent(c, n) && floor.contains(n) implies n == start
        || seen(visited, n) by {
        assert(n == next_to(c, 0) || n == next_to(c, 1) || n == next_to(c, 2) || n == next_to(c, 3));
    }
    assert forall|k: int, n: (int, int)|
        0 <= k < head + 1 && #[trigger] adjacent(cell(queue[k]), n) && floor.contains(
            n,
        ) implies reached_within(queue, depths, n, (depths[k] + 1) as int) by {
        if k == head {
            if n == start {
                assert(cell(queue[0]) == n && depths[0] <= depths[head] + 1);
            } else {
                assert(seen(visited, n));
                assert(in_queue(queue, n));
                let j = choose|j: int| 0 <= j < queue.len() && cell(#[trigger] queue[j]) == n;
                assert(depths[j] <= depths[head] + 1);
            }
        }
    }
    if head + 1 < queue.len() {
        assert forall|k: int| 0 <= k < depths.len() implies #[trigger] depths[k] <= depths[head + 1]
            + 1 by {
            assert(depths[k] <= depths[head] + 1);
            assert(depths[head] <= depths[head + 1]);
        }
    }
}

proof fn lemma_depth_facts(
    floor: Set<(int, int)>,
    start: (int, int),
    first: Seq<Vec<u8>>,
    queue: Seq<(usize, usize)>,
    depths: Seq<nat>,
    head: int,
)
    requires
        depth_inv(floor, start, first, queue, depths, head),
    ensures
        0 <= head <= queue.len(),
        depths.len() == queue.len(),
        queue.len() >= 1,
        depths[0] == 0,
        cell(queue[0]) == start,
        forall|i: int, j: int| 0 <= i <= j < depths.len() ==> depths[i] <= depths[j],
        forall|k: int, n: (int, int)|
            0 <= k < head && #[trigger] adjacent(cell(queue[k]), n) && floor.contains(n)
                ==> reached_within(queue, depths, n, (depths[k] + 1) as int),
{
    reveal(depth_inv);
}

proof fn lemma_walk_takes_steps(
    floor: Set<(int, int)>,
    start: (int, int),
    first: Seq<Vec<u8>>,
    queue: Seq<(usize, usize)>,
    depths: Seq<nat>,
    head: int,
    q: Seq<(int, int)>,
    i: int,
)
    requires
        depth_inv(floor, start, first, queue, depths, head),
        head < queue.len(),
        is_walk(floor, q),
        q[0] == start,
        0 <= i < q.len(),
    ensures
        i >= depths[head] || reached_within(queue, depths, q[i], i),
    decreases i,
{
    lemma_depth_facts(floor, start, first, queue, depths, head);
    if i == 0 {
        assert(cell(queue[0]) == q[0] && depths[0] <= 0);
    } else {
        lemma_walk_takes_steps(floor, start, first, queue, depths, head, q, i - 1);
        if i < depths[head] {
            let j = choose|j: int|
                0 <= j < queue.len() && cell(#[trigger] queue[j]) == q[i - 1] && depths[j] <= i - 1;
            if j >= head {
                assert(depths[head] <= depths[j]);
            }
            assert(adjacent(q[i - 1], q[i - 1 + 1]));
            assert(adjacent(cell(queue[j]), q[i]));
            assert(reached_within(queue, depths, q[i], (depths[j] + 1) as int));
            let m = choose|m: int|
                0 <= m < queue.len() && cell(#[trigger] queue[m]) == q[i] && depths[m] <= depths[j] + 1;
            assert(depths[m] <= i);
        }
    }
}

spec fn code_at(first: Seq<Vec<u8>>, c: (usize, usize)) -> u8 {
    first[c.1 as int][c.0 as int]
}

spec fn firsts_below(first: Seq<Vec<u8>>, queue: Seq<(usize, usize)>, bound: int) -> bool {
    forall|k: int| 1 <= k < queue.len() ==> code_at(first, #[trigger] queue[k]) < bound
}

/// What holds of the first steps that the search noted for the cells of its queue: among
/// the cells reached with one number of steps they rise along the queue, those of the
/// cells taken up from the cell that is expanded are not later than its own, and no walk
/// to a cell of as many steps as the search took begins with an earlier step.
#[verifier::opaque]
spec fn order_inv(
    floor: Set<(int, int)>,
    start: (int, int),
    first: Seq<Vec<u8>>,
    queue: Seq<(usize, usize)>,
    depths: Seq<nat>,
    head: int,
) -> bool {
    &&& forall|i: int, j: int|
        1 <= i <= j < queue.len() && depths[i] == depths[j] ==> code_at(first, #[trigger] queue[i])
            <= code_at(first, #[trigger] queue[j])
    &&& 1 <= head < queue.len() ==> forall|k: int|
        1 <= k < queue.len() && depths[k] == depths[head] + 1 ==> code_at(first, #[trigger] queue[k])
            <= code_at(first, queue[head])
    &&& forall|j: int, g: u8|
        #![trigger walk_of(floor, start, cell(queue[j]), depths[j], g)]
        1 <= j < queue.len() && g < code_at(first, queue[j]) ==> !walk_of(
            floor,
            start,
            cell(queue[j]),
            depths[j],
            g,
        )
}

proof fn lemma_walk_reaches(
    floor: Set<(int, int)>,
    start: (int, int),
    first: Seq<Vec<u8>>,
    queue: Seq<(usize, usize)>,
    depths: Seq<nat>,
    head: int,
    q: Seq<(int, int)>,
    i: int,
)
    requires
        depth_inv(floor, start, first, queue, depths, head),
        head < queue.len(),
        is_walk(floor, q),
        q[0] == start,
        0 <= i < q.len(),
        i <= depths[head],
    ensures
        reached_within(queue, depths, q[i], i),
{
    lemma_depth_facts(floor, start, first, queue, depths, head);
    if i == 0 {
        assert(cell(queue[0]) == q[0] && depths[0] <= 0);
    } else {
        lemma_walk_takes_steps(floor, start, first, queue, depths, head, q, i - 1);
        let j = choose|j: int|
            0 <= j < queue.len() && cell(#[trigger] queue[j]) == q[i - 1] && depths[j] <= i - 1;
        if j >= head {
            assert(depths[head] <= depths[j]);
        }
        assert(adjacent(q[i - 1], q[i - 1 + 1]));
        assert(adjacent(cell(queue[j]), q[i]));
        assert(reached_within(queue, depths, q[i], (depths[j] + 1) as int));
        let m = choose|m: int|
            0 <= m < queue.len() && cell(#[trigger] queue[m]) == q[i] && depths[m] <= depths[j] + 1;
        assert(depths[m] <= i);
    }
}

proof fn lemma_order_facts(
    floor: Set<(int, int)>,
    start: (int, int),
    first: Seq<Vec<u8>>,
    queue: Seq<(usize, usize)>,
    depths: Seq<nat>,
    head: int,
    j: int,
    g: u8,
)
    requires
        order_inv(floor, start, first, queue, depths, head),
        1 <= j < queue.len(),
        walk_of(floor, start, cell(queue[j]), depths[j], g),
    ensures
        code_at(first, queue[j]) <= g,
        forall|i: int|
            1 <= i <= j && depths[i] == depths[j] ==> code_at(first, #[trigger] queue[i]) <= code_at(
                first,
                queue[j],
            ),
{
    reveal(order_inv);
}

/// No walk to a cell that the search takes up now, of as many steps as the search took,
/// begins with an earlier step than the one noted for the cell.
proof fn lemma_first_is_earliest(
    d: Dungeon,
    floor: Set<(int, int)>,
    start: (int, int),
    visited: Seq<Vec<bool>>,
    first: Seq<Vec<u8>>,
    queue: Seq<(usize, usize)>,
    depths: Seq<nat>,
    head: int,
    code: u8,
    n: (usize, usize),
    g: u8,
)
    requires
        search_inv(d, floor, start, visited, first, queue, head),
        depth_inv(floor, start, first, queue, depths, head),
        order_inv(floor, start, first, queue, depths, head),
        head < queue.len(),
        !seen(visited, cell(n)),
        cell(n) != start,
        code < 4,
        if head == 0 {
            next_to(start, code) == cell(n)
        } else {
            code == code_at(first, queue[head])
        },
        g < code,
    ensures
        !walk_of(floor, start, cell(n), (depths[head] + 1) as nat, g),
{
    let deeper = (depths[head] + 1) as nat;
    lemma_depth_facts(floor, start, first, queue, depths, head);
    lemma_depth_kept(d, floor, start, visited, first, queue, depths, head);
    if walk_of(floor, start, cell(n), deeper, g) {
        let p = choose|p: Seq<(int, int)>|
            #![trigger walk_between(floor, p, start, cell(n))]
            walk_between(floor, p, start, cell(n)) && p.len() == deeper + 1 && deeper >= 1 && p[1]
                == next_to(start, g);
        if head == 0 {
            assert(p[1] == p.last());
            assert(step_of(g) == step_of(code));
            assert(false);
        } else {
            assert(depths[head] >= 1) by {
                reveal(depth_inv);
                let from = queue[head];
                assert(walk_of(floor, start, cell(from), depths[head], code_at(first, from)));
            }
            let q = p.drop_last();
            let last = deeper - 1;
            assert(is_walk(floor, q)) by {
                assert forall|i: int| 0 <= i < q.len() implies floor.contains(#[trigger] q[i]) by {
                    assert(q[i] == p[i]);
                }
                assert forall|i: int| 0 <= i < q.len() - 1 implies adjacent(#[trigger] q[i], q[i + 1]) by {
                    assert(adjacent(p[i], p[i + 1]));
                }
            }
            assert(q[1] == p[1]);
            lemma_walk_reaches(floor, start, first, queue, depths, head, q, last);
            let m = choose|m: int|
                0 <= m < queue.len() && cell(#[trigger] queue[m]) == q[last] && depths[m] <= last;
            assert(adjacent(p[last], p[last + 1]));
            assert(adjacent(cell(queue[m]), cell(n)));
            assert(floor.contains(p[last + 1]));
            if m < head {
                reveal(search_inv);
                assert(false);
            } else {
                assert(depths[head] <= depths[m]);
                assert(walk_between(floor, q, start, cell(queue[m])));
                assert(walk_of(floor, start, cell(queue[m]), depths[m], g));
                lemma_order_facts(floor, start, first, queue, depths, head, m, g);
                assert(code_at(first, queue[head]) <= code_at(first, queue[m]));
                assert(false);
            }
        }
    }
}

proof fn lemma_order_push(
    d: Dungeon,
    floor: Set<(int, int)>,
    start: (int, int),
    visited: Seq<Vec<bool>>,
    first: Seq<Vec<u8>>,
    first_after: Seq<Vec<u8>>,
    queue: Seq<(usize, usize)>,
    depths: Seq<nat>,
    head: int,
    code: u8,
    n: (usize, usize),
)
    requires
        search_inv(d, floor, start, visited, first, queue, head),
        depth_inv(floor, start, first, queue, depths, head),
        order_inv(floor, start, first, queue, depths, head),
        head < queue.len(),
        !seen(visited, cell(n)),
        cell(n) != start,
        code < 4,
        if head == 0 {
            next_to(start, code) == cell(n) && firsts_below(first, queue, code as int)
        } else {
            code == code_at(first, queue[head])
        },
        first_after[n.1 as int][n.0 as int] == code,
        forall|c: (int, int)|
            #[trigger] seen(visited, c) ==> first_after[c.1][c.0] == first[c.1][c.0],
    ensures
        order_inv(floor, start, first_after, queue.push(n), depths.push(depths[head] + 1), head),
        head == 0 ==> firsts_below(first_after, queue.push(n), code + 1),
{
    let queue_after = queue.push(n);
    let deeper = (depths[head] + 1) as nat;
    let depths_after = depths.push(deeper);
    lemma_depth_facts(floor, start, first, queue, depths, head);
    assert forall|k: int| 1 <= k < queue.len() implies code_at(first_after, #[trigger] queue_after[k])
        == code_at(first, queue[k]) by {
        reveal(search_inv);
        assert(seen(visited, cell(queue[k])));
    }
    assert(code_at(first_after, queue_after[queue.len() as int]) == code);
    assert forall|g: u8| g < code implies !walk_of(floor, start, cell(n), deeper, g) by {
        lemma_first_is_earliest(d, floor, start, visited, first, queue, depths, head, code, n, g);
    }
    assert(forall|k: int| 0 <= k < depths.len() ==> #[trigger] depths[k] <= depths[head] + 1) by {
        reveal(depth_inv);
    }
    reveal(order_inv);
    assert forall|i: int, j: int|
        1 <= i <= j < queue_after.len() && depths_after[i] == depths_after[j] implies code_at(
        first_after,
        #[trigger] queue_after[i],
    ) <= code_at(first_after, #[trigger] queue_after[j]) by {
        if j < queue.len() {
            assert(code_at(first, queue[i]) <= code_at(first, queue[j]));
        } else if i < queue.len() {
            assert(depths[i] == depths[head] + 1);
            if head == 0 {
                assert(code_at(first, queue[i]) < code);
            } else {
                assert(code_at(first, queue[i]) <= code_at(first, queue[head]));
            }
        }
    }
    if 1 <= head {
        assert forall|k: int|
            1 <= k < queue_after.len() && depths_after[k] == depths_after[head] + 1 implies code_at(
            first_after,
            #[trigger] queue_after[k],
        ) <= code_at(first_after, queue_after[head]) by {
            if k < queue.len() {
                assert(code_at(first, queue[k]) <= code_at(first, queue[head]));
            }
        }
    }
    assert forall|j: int, g: u8|
        #![trigger walk_of(floor, start, cell(queue_after[j]), depths_after[j], g)]
        1 <= j < queue_after.len() && g < code_at(first_after, queue_after[j]) implies !walk_of(
        floor,
        start,
        cell(queue_after[j]),
        depths_after[j],
        g,
    ) by {
        if j < queue.len() {
            assert(queue_after[j] == queue[j]);
            assert(!walk_of(floor, start, cell(queue[j]), depths[j], g));
        }
    }
    if head == 0 {
        assert forall|k: int| 1 <= k < queue_after.len() implies code_at(
            first_after,
            #[trigger] queue_after[k],
        ) < code + 1 by {
            if k < queue.len() {
                assert(code_at(first, queue[k]) < code);
            }
        }
    }
}

proof fn lemma_order_expanded(
    floor: Set<(int, int)>,
    start: (int, int),
    first: Seq<Vec<u8>>,
    queue: Seq<(usize, usize)>,
    depths: Seq<nat>,
    head: int,
)
    requires
        depth_inv(floor, start, first, queue, depths, head),
        order_inv(floor, start, first, queue, depths, head),
        head < queue.len(),
    ensures
        order_inv(floor, start, first, queue, depths, head + 1),
{
    reveal(depth_inv);
    reveal(order_inv);
    if head + 1 < queue.len() {
        assert forall|k: int|
            1 <= k < queue.len() && depths[k] == depths[head + 1] + 1 implies code_at(
            first,
            #[trigger] queue[k],
        ) <= code_at(first, queue[head + 1]) by {
            assert(depths[k] <= depths[head] + 1);
            assert(depths[head] <= depths[head + 1]);
            if head >= 1 {
                assert(code_at(first, queue[k]) <= code_at(first, queue[head]));
                assert(code_at(first, queue[head]) <= code_at(first, queue[head + 1]));
            }
        }
    }
}

proof fn lemma_order_begins(
    floor: Set<(int, int)>,
    start: (usize, usize),
    first: Seq<Vec<u8>>,
)
    ensures
        order_inv(floor, cell(start), first, seq![start], seq![0nat], 0),
        firsts_below(first, seq![start], 0),
{
    reveal(order_inv);
}

/// No shortest walk to the cell that the search found begins with an earlier step than
/// the one noted for it.
proof fn lemma_found_first(
    d: Dungeon,
    floor: Set<(int, int)>,
    start: (int, int),
    target: (int, int),
    visited: Seq<Vec<bool>>,
    first: Seq<Vec<u8>>,
    queue: Seq<(usize, usize)>,
    depths: Seq<nat>,
    head: int,
)
    requires
        search_inv(d, floor, start, visited, first, queue, head),
        depth_inv(floor, start, first, queue, depths, head),
        order_inv(floor, start, first, queue, depths, head),
        head < queue.len(),
        cell(queue[head]) == target,
        start != target,
        forall|k: int| 0 <= k < head ==> cell(#[trigger] queue[k]) != target,
    ensures
        forall|g: u8|
            g < first[target.1][target.0] ==> !starts_shortest(
                floor,
                start,
                target,
                (start.0 + (#[trigger] step_of(g)).0, start.1 + step_of(g).1),
            ),
{
    lemma_depth_kept(d, floor, start, visited, first, queue, depths, head);
    lemma_depth_facts(floor, start, first, queue, depths, head);
    assert(head >= 1);
    let code = first[target.1][target.0];
    assert(code == code_at(first, queue[head]));
    assert(walk_of(floor, start, target, depths[head], code)) by {
        reveal(depth_inv);
    }
    let mine = choose|p: Seq<(int, int)>|
        #![trigger walk_between(floor, p, start, target)]
        walk_between(floor, p, start, target) && p.len() == depths[head] + 1 && depths[head] >= 1
            && p[1] == next_to(start, code);
    assert forall|g: u8| g < code implies !starts_shortest(
        floor,
        start,
        target,
        (start.0 + (#[trigger] step_of(g)).0, start.1 + step_of(g).1),
    ) by {
        if starts_shortest(floor, start, target, next_to(start, g)) {
            let p = choose|p: Seq<(int, int)>|
                #![trigger walk_between(floor, p, start, target)]
                walk_between(floor, p, start, target) && p.len() >= 2 && p[1] == next_to(start, g)
                    && forall|q: Seq<(int, int)>|
                    #[trigger] walk_between(floor, q, start, target) ==> p.len() <= q.len();
            assert(p.len() <= mine.len());
            let last = p.len() - 1;
            lemma_walk_takes_steps(floor, start, first, queue, depths, head, p, last);
            if last < depths[head] {
                let j = choose|j: int|
                    0 <= j < queue.len() && cell(#[trigger] queue[j]) == p[last] && depths[j] <= last;
                if j >= head {
                    assert(depths[head] <= depths[j]);
                }
            }
            assert(p.len() == depths[head] + 1);
            assert(walk_of(floor, start, target, depths[head], g));
            lemma_order_facts(floor, start, first, queue, depths, head, head, g);
        }
    }
}

proof fn lemma_connected_step_in(
    d: Dungeon,
    floor: Set<(int, int)>,
    start: (int, int),
    visited: Seq<Vec<bool>>,
    first: Seq<Vec<u8>>,
    queue: Seq<(usize, usize)>,
    head: int,
)
    requires
        search_inv(d, floor, start, visited, first, queue, head),
        1 <= head < queue.len(),
    ensures
        in_grid(first, cell(queue[head])),
        connected(floor, start, cell(queue[head])),
{
    reveal(search_inv);
    assert(seen(visited, cell(queue[head])));
}

proof fn lemma_found(
    d: Dungeon,
    floor: Set<(int, int)>,
    start: (int, int),
    target: (int, int),
    visited: Seq<Vec<bool>>,
    first: Seq<Vec<u8>>,
    queue: Seq<(usize, usize)>,
    depths: Seq<nat>,
    head: int,
)
    requires
        search_inv(d, floor, start, visited, first, queue, head),
        depth_inv(floor, start, first, queue, depths, head),
        head < queue.len(),
        cell(queue[head]) == target,
        start != target,
        forall|k: int| 0 <= k < head ==> cell(#[trigger] queue[k]) != target,
    ensures
        in_grid(first, target),
        first[target.1][target.0] < 4,
        floor.contains(next_to(start, first[target.1][target.0])),
        next_to(start, first[target.1][target.0]) != start,
        connected(floor, start, target),
        connected(floor, next_to(start, first[target.1][target.0]), target),
        starts_shortest(floor, start, target, next_to(start, first[target.1][target.0])),
{
    lemma_depth_kept(d, floor, start, visited, first, queue, depths, head);
    lemma_depth_facts(floor, start, first, queue, depths, head);
    assert(head >= 1);
    assert(seen(visited, cell(queue[head])));
    let code = first[target.1][target.0];
    assert(first_ok(floor, start, code, target));
    lemma_connected_step_in(d, floor, start, visited, first, queue, head);
    assert(walk_of(floor, start, cell(queue[head]), depths[head], code)) by {
        reveal(depth_inv);
    }
    let p = choose|p: Seq<(int, int)>|
        #![trigger walk_between(floor, p, start, target)]
        walk_between(floor, p, start, target) && p.len() == depths[head] + 1 && depths[head] >= 1
            && p[1] == next_to(start, code);
    assert forall|q: Seq<(int, int)>| #[trigger] walk_between(floor, q, start, target) implies p.len()
        <= q.len() by {
        let last = q.len() - 1;
        lemma_walk_takes_steps(floor, start, first, queue, depths, head, q, last);
        if last < depths[head] {
            let j = choose|j: int|
                0 <= j < queue.len() && cell(#[trigger] queue[j]) == q[last] && depths[j] <= last;
            if j >= head {
                assert(depths[head] <= depths[j]);
            }
        }
    }
}

proof fn lemma_walk_stays(
    floor: Set<(int, int)>,
    start: (int, int),
    region: Set<(int, int)>,
    p: Seq<(int, int)>,
    i: int,
)
    requires
        is_walk(floor, p),
        p[0] == start,
        region.contains(start),
        forall|c: (int, int), n: (int, int)|
            region.contains(c) && #[trigger] adjacent(c, n) && floor.contains(n) ==> region.contains(
                n,
            ),
        0 <= i < p.len(),
    ensures
        region.contains(p[i]),
    decreases i,
{
    if i > 0 {
        lemma_walk_stays(floor, start, region, p, i - 1);
        assert(adjacent(p[i - 1], p[i - 1 + 1]));
    }
}

proof fn lemma_search_exhausted(
    d: Dungeon,
    floor: Set<(int, int)>,
    start: (int, int),
    target: (int, int),
    visited: Seq<Vec<bool>>,
    first: Seq<Vec<u8>>,
    queue: Seq<(usize, usize)>,
)
    requires
        search_inv(d, floor, start, visited, first, queue, queue.len() as int),
        start != target,
        forall|k: int| 0 <= k < queue.len() ==> cell(#[trigger] queue[k]) != target,
    ensures
        !connected(floor, start, target),
{
    reveal(search_inv);
    if connected(floor, start, target) {
        let p = choose|p: Seq<(int, int)>| #[trigger] walk_between(floor, p, start, target);
        let region = Set::new(|c: (int, int)| c == start || seen(visited, c));
        assert forall|c: (int, int), n: (int, int)|
            region.contains(c) && #[trigger] adjacent(c, n) && floor.contains(n) implies region.contains(
            n,
        ) by {
            if c == start {
                assert(adjacent(cell(queue[0]), n));
            } else {
                assert(seen(visited, c));
                let k = choose|k: int| 0 <= k < queue.len() && cell(#[trigger] queue[k]) == c;
                assert(adjacent(cell(queue[k]), n));
            }
        }
        lemma_walk_stays(floor, start, region, p, p.len() - 1);
        assert(seen(visited, target));
        let k = choose|k: int| 0 <= k < queue.len() && cell(#[trigger] queue[k]) == target;
        assert(false);
    }
}

proof fn lemma_search_begins(
    d: Dungeon,
    floor: Set<(int, int)>,
    start: (usize, usize),
    blank: Seq<Vec<bool>>,
    visited: Seq<Vec<bool>>,
    first: Seq<Vec<u8>>,
)
    requires
        floor.contains(cell(start)),
        blank.len() == d.tiles.len(),
        first.len() == d.tiles.len(),
        forall|y: int| 0 <= y < d.tiles.len() ==> (#[trigger] blank[y]).len() == d.tiles[y].len(),
        forall|y: int| 0 <= y < d.tiles.len() ==> (#[trigger] first[y]).len() == d.tiles[y].len(),
        forall|y: int, x: int|
            0 <= y < blank.len() && 0 <= x < blank[y].len() ==> !#[trigger] blank[y][x],
        if in_grid(blank, cell(start)) {
            marked(blank, visited, cell(start), true)
        } else {
            visited == blank
        },
    ensures
        search_inv(d, floor, cell(start), visited, first, seq![start], 0),
        depth_inv(floor, cell(start), first, seq![start], seq![0nat], 0),
{
    reveal(search_inv);
    reveal(depth_inv);
    let queue = seq![start];
    assert forall|c: (int, int)| seen(visited, c) implies c == cell(start) by {
        if in_grid(blank, cell(start)) && c.1 != cell(start).1 {
            assert(visited[c.1] == blank[c.1]);
        }
    }
    assert forall|y: int| 0 <= y < d.tiles.len() implies (#[trigger] visited[y]).len()
        == d.tiles[y].len() by {
        assert(blank[y].len() == d.tiles[y].len());
        if in_grid(blank, cell(start)) && y != cell(start).1 {
            assert(visited[y] == blank[y]);
        }
    }
    lemma_connected_refl(floor, cell(start));
    assert(cell(queue[0]) == cell(start));
    assert(in_queue(queue, cell(start)));
}

/// A grid of the shape of `tiles` whose cells all hold `value`.
fn blank_grid<T: Copy>(tiles: &Vec<Vec<crate::tile::Tile>>, value: T) -> (grid: Vec<Vec<T>>)
    ensures
        grid.len() == tiles.len(),
        forall|y: int| 0 <= y < tiles.len() ==> (#[trigger] grid[y]).len() == tiles[y].len(),
        forall|y: int, x: int|
            0 <= y < grid.len() && 0 <= x < grid[y].len() ==> #[trigger] grid[y][x] == value,
{
    let mut grid: Vec<Vec<T>> = Vec::new();
    let mut y: usize = 0;
    while y < tiles.len()
        invariant
            y <= tiles.len(),
            grid.len() == y,
            forall|r: int| 0 <= r < y ==> (#[trigger] grid[r]).len() == tiles[r].len(),
            forall|r: int, x: int|
                0 <= r < grid.len() && 0 <= x < grid[r].len() ==> #[trigger] grid[r][x] == value,
        decreases tiles.len() - y,
    {
        let mut row: Vec<T> = Vec::new();
        let mut x: usize = 0;
        while x < tiles[y].len()
            invariant
                y < tiles.len(),
                x <= tiles[y as int].len(),
                row.len() == x,
                forall|c: int| 0 <= c < x ==> #[trigger] row[c] == value,
            decreases tiles[y as int].len() - x,
        {
            row.push(value);
            x += 1;
        }
        grid.push(row);
        y += 1;
    }
    grid
}

fn step_for(code: u8) -> (s: (i32, i32))
    requires
        code < 4,
    ensures
        (s.0 as int, s.1 as int) == step_of(code),
{
    if code == 0 {
        (-1, 0)
    } else if code == 1 {
        (1, 0)
    } else if code == 2 {
        (0, -1)
    } else {
        (0, 1)
    }
}

fn direction(from: usize, to: usize) -> (s: i32)
    ensures
        s == sign(to - from),
{
    if to > from {
        1
    } else if to < from {
        -1
    } else {
        0
    }
}

/// The cell next to `from` in the direction with the given number, where cell numbers
/// reach that far.
fn cell_next_to(from: (usize, usize), code: u8) -> (r: Option<(usize, usize)>)
    requires
        code < 4,
    ensures
        match r {
            Some(n) => cell(n) == next_to(cell(from), code),
            None => next_to(cell(from), code).0 < 0 || next_to(cell(from), code).1 < 0 || next_to(
                cell(from),
                code,
            ).0 > usize::MAX || next_to(cell(from), code).1 > usize::MAX,
        },
{
    let (x, y) = from;
    if code == 0 {
        if x > 0 {
            Some((x - 1, y))
        } else {
            None
        }
    } else if code == 1 {
        if x < usize::MAX {
            Some((x + 1, y))
        } else {
            None
        }
    } else if code == 2 {
        if y > 0 {
            Some((x, y - 1))
        } else {
            None
        }
    } else {
        if y < usize::MAX {
            Some((x, y + 1))
        } else {
            None
        }
    }
}

/// The step that takes entity `entity_idx` from (`start_x`, `start_y`) towards
/// (`target_x`, `target_y`): the first step of a shortest way over cells that can be
/// walked on and that no other living entity stands on, found by searching the level
/// cell by cell outwards from the start; of several such steps the first among left,
/// right, up and down. Where there is no such way the step is the direction of the
/// target, whatever lies there.
pub fn find_path_step(
    entities: &Vec<Entity>,
    dungeon: &Dungeon,
    start_x: usize,
    start_y: usize,
    target_x: usize,
    target_y: usize,
    entity_idx: usize,
) -> (r: Option<(i32, i32)>)
    ensures
        path_step_ok(
            *dungeon,
            entity_views(entities@),
            entity_idx as int,
            (start_x as int, start_y as int),
            (target_x as int, target_y as int),
            r,
        ),
{
    if start_x == target_x && start_y == target_y {
        return None;
    }
    let ghost start = (start_x as int, start_y as int);
    let ghost target = (target_x as int, target_y as int);
    let ghost floor = search_floor(*dungeon, entity_views(entities@), entity_idx as int, start, target);
    let mut visited: Vec<Vec<bool>> = blank_grid(&dungeon.tiles, false);
    let mut first: Vec<Vec<u8>> = blank_grid(&dungeon.tiles, 0u8);
    let ghost blank = visited@;
    if start_y < visited.len() && start_x < visited[start_y].len() {
        visited[start_y][start_x] = true;
    }
    let mut queue: Vec<(usize, usize)> = Vec::new();
    queue.push((start_x, start_y));
    let mut head: usize = 0;
    let ghost mut depths: Seq<nat> = seq![0nat];
    proof {
        lemma_search_begins(*dungeon, floor, (start_x, start_y), blank, visited@, first@);
        lemma_order_begins(floor, (start_x, start_y), first@);
        assert(queue@ =~= seq![(start_x, start_y)]);
    }
    while head < queue.len()
        invariant
            start == (start_x as int, start_y as int),
            target == (target_x as int, target_y as int),
            start != target,
            floor == search_floor(*dungeon, entity_views(entities@), entity_idx as int, start, target),
            head <= queue.len(),
            depths.len() == queue.len(),
            search_inv(*dungeon, floor, start, visited@, first@, queue@, head as int),
            depth_inv(floor, start, first@, queue@, depths, head as int),
            order_inv(floor, start, first@, queue@, depths, head as int),
            head == 0 ==> queue.len() == 1,
            forall|k: int| 0 <= k < head ==> cell(#[trigger] queue[k]) != target,
        decreases count_unseen(visited@) + queue.len() - head,
    {
        let from = queue[head];
        if from.0 == target_x && from.1 == target_y {
            proof {
                lemma_found(*dungeon, floor, start, target, visited@, first@, queue@, depths, head as int);
                lemma_found_first(
                    *dungeon,
                    floor,
                    start,
                    target,
                    visited@,
                    first@,
                    queue@,
                    depths,
                    head as int,
                );
            }
            let code = first[from.1][from.0];
            return Some(step_for(code));
        }
        proof {
            lemma_depth_kept(*dungeon, floor, start, visited@, first@, queue@, depths, head as int);
        }
        let inherited: u8 = if head == 0 {
            0
        } else {
            proof {
                reveal(search_inv);
            }
            first[from.1][from.0]
        };
        let ghost seen_at_first = visited@;
        let ghost measure = count_unseen(visited@) + queue.len();
        let mut code: u8 = 0;
        while code < 4
            invariant
                code <= 4,
                head < queue.len(),
                depths.len() == queue.len(),
                from == queue[head as int],
                inherited < 4,
                head >= 1 ==> seen(seen_at_first, cell(from)) && inherited == first@[from.1 as int][from.0 as int],
                head == 0 <==> cell(from) == start,
                start == (start_x as int, start_y as int),
                target == (target_x as int, target_y as int),
                floor == search_floor(*dungeon, entity_views(entities@), entity_idx as int, start, target),
                search_inv(*dungeon, floor, start, visited@, first@, queue@, head as int),
                depth_inv(floor, start, first@, queue@, depths, head as int),
                order_inv(floor, start, first@, queue@, depths, head as int),
                head == 0 ==> firsts_below(first@, queue@, code as int),
                forall|k: int| 0 <= k < head ==> cell(#[trigger] queue[k]) != target,
                forall|c: (int, int)| seen(seen_at_first, c) ==> seen(visited@, c),
                count_unseen(visited@) + queue.len() == measure,
                forall|other: u8|
                    other < code && floor.contains(#[trigger] next_to(cell(from), other)) ==> next_to(
                        cell(from),
                        other,
                    ) == start || seen(visited@, next_to(cell(from), other)),
            decreases 4 - code,
        {
            match cell_next_to(from, code) {
                Some(n) => {
                    let mark = if head == 0 {
                        code
                    } else {
                        inherited
                    };
                    let added = visit(
                        entities,
                        dungeon,
                        entity_idx,
                        (target_x, target_y),
                        &mut visited,
                        &mut first,
                        &mut queue,
                        from,
                        mark,
                        n,
                        Ghost(start),
                        Ghost(head as int),
                        Ghost(depths),
                    );
                    proof {
                        if added {
                            depths = depths.push(depths[head as int] + 1);
                        }
                    }
                },
                None => {},
            }
            code += 1;
        }
        proof {
            lemma_order_expanded(floor, start, first@, queue@, depths, head as int);
            lemma_expanded(*dungeon, floor, start, visited@, first@, queue@, depths, head as int);
        }
        head += 1;
    }
    proof {
        lemma_search_exhausted(*dungeon, floor, start, target, visited@, first@, queue@);
    }
    Some((direction(start_x, target_x), direction(start_y, target_y)))
}

/// The cell an entity stands on.
pub open spec fn place(e: EntityView) -> (int, int) {
    (e.x as int, e.y as int)
}

/// Whether entity `i` is a living player that the monster `me` notices.
pub open spec fn sighted(entities: Seq<EntityView>, me: int, i: int) -> bool {
    &&& 0 <= i < entities.len()
    &&& entities[i].is_player()
    &&& entities[i].alive()
    &&& chebyshev(place(entities[i]), place(entities[me])) <= SIGHT
}

/// Whether entity `i` is the player the monster `me` goes for: the nearest it notices,
/// and of several at one distance the first.
pub open spec fn is_nearest_player(entities: Seq<EntityView>, me: int, i: int) -> bool {
    &&& sighted(entities, me, i)
    &&& forall|j: int|
        #[trigger] sighted(entities, me, j) ==> chebyshev(place(entities[i]), place(entities[me]))
            <= chebyshev(place(entities[j]), place(entities[me])) && (j < i ==> chebyshev(
            place(entities[i]),
            place(entities[me]),
        ) < chebyshev(place(entities[j]), place(entities[me])))
}

/// Whether the two cells share an edge.
pub open spec fn side_by_side(a: (int, int), b: (int, int)) -> bool {
    adjacent(a, b)
}

fn cell_distance(ax: usize, ay: usize, bx: usize, by_row: usize) -> (r: usize)
    ensures
        r == chebyshev((ax as int, ay as int), (bx as int, by_row as int)),
{
    let dx = if ax >= bx {
        ax - bx
    } else {
        bx - ax
    };
    let dy = if ay >= by_row {
        ay - by_row
    } else {
        by_row - ay
    };
    if dx >= dy {
        dx
    } else {
        dy
    }
}

/// The player the monster `me` goes for.
pub fn nearest_player(entities: &Vec<Entity>, me: usize) -> (r: Option<usize>)
    requires
        me < entities.len(),
    ensures
        match r {
            Some(i) => is_nearest_player(entity_views(entities@), me as int, i as int),
            None => forall|i: int| !sighted(entity_views(entities@), me as int, i),
        },
{
    let ghost views = entity_views(entities@);
    let mx = entities[me].x;
    let my = entities[me].y;
    let mut best: Option<usize> = None;
    let mut best_distance: usize = SIGHT + 1;
    let mut i: usize = 0;
    while i < entities.len()
        invariant
            i <= entities.len(),
            me < entities.len(),
            views == entity_views(entities@),
            mx == views[me as int].x,
            my == views[me as int].y,
            best_distance <= SIGHT + 1,
            forall|j: int|
                0 <= j < i && #[trigger] sighted(views, me as int, j) ==> best_distance <= chebyshev(
                    place(views[j]),
                    place(views[me as int]),
                ),
            match best {
                Some(b) => b < i && sighted(views, me as int, b as int) && best_distance
                    == chebyshev(place(views[b as int]), place(views[me as int])) && forall|j: int|
                    0 <= j < b && #[trigger] sighted(views, me as int, j) ==> best_distance
                        < chebyshev(place(views[j]), place(views[me as int])),
                None => best_distance == SIGHT + 1,
            },
        decreases entities.len() - i,
    {
        let e = &entities[i];
        if e.is_player() && e.is_alive() {
            let distance = cell_distance(e.x, e.y, mx, my);
            if distance <= SIGHT && distance < best_distance {
                best_distance = distance;
                best = Some(i);
            }
        }
        i += 1;
    }
    best
}

/// Whether entity `j` is the first living player on the cell.
pub open spec fn player_on(entities: Seq<EntityView>, c: (int, int), j: int) -> bool {
    &&& 0 <= j < entities.len()
    &&& entities[j].is_player() && entities[j].alive() && entities[j].at(c.0, c.1)
    &&& forall|k: int|
        0 <= k < j ==> !((#[trigger] entities[k]).is_player() && entities[k].alive()
            && entities[k].at(c.0, c.1))
}

/// The first living player on the cell.
pub fn living_player_at(entities: &Vec<Entity>, x: usize, y: usize) -> (r: Option<usize>)
    ensures
        match r {
            Some(j) => player_on(entity_views(entities@), (x as int, y as int), j as int),
            None => forall|j: int| !player_on(entity_views(entities@), (x as int, y as int), j),
        },
{
    let ghost views = entity_views(entities@);
    let mut i: usize = 0;
    while i < entities.len()
        invariant
            i <= entities.len(),
            views == entity_views(entities@),
            forall|k: int|
                0 <= k < i ==> !((#[trigger] views[k]).is_player() && views[k].alive()
                    && views[k].at(x as int, y as int)),
        decreases entities.len() - i,
    {
        let e = &entities[i];
        if e.is_player() && e.is_alive() && e.x == x && e.y == y {
            assert(views[i as int].is_player() && views[i as int].alive());
            return Some(i);
        }
        i += 1;
    }
    None
}

/// Whether the two entities are the same actor: all but place, side and health agree.
pub open spec fn same_actor(a: EntityView, b: EntityView) -> bool {
    b == (EntityView { x: b.x, y: b.y, facing_right: b.facing_right, current_health: b.current_health, ..a })
}

/// Whether `after` is what a turn of the monster `me` may leave of `before`: the monster
/// itself moved by at most one cell along each axis and kept its health, the players
/// kept their places and lost health at most, and the other monsters are as they were.
pub open spec fn monster_acted(before: Seq<EntityView>, after: Seq<EntityView>, me: int) -> bool {
    &&& after.len() == before.len()
    &&& forall|j: int|
        0 <= j < before.len() ==> same_actor(before[j], #[trigger] after[j]) && if j == me {
            &&& after[j].current_health == before[j].current_health
            &&& -1 <= after[j].x - before[j].x <= 1
            &&& -1 <= after[j].y - before[j].y <= 1
        } else if before[j].is_player() {
            &&& after[j].x == before[j].x && after[j].y == before[j].y
            &&& after[j].facing_right == before[j].facing_right
            &&& after[j].current_health <= before[j].current_health
        } else {
            after[j] == before[j]
        }
}

/// Lets the monster `idx` take the step (`dx`, `dy`): it attacks the living player on the
/// cell there, if there is one, and else moves there if the cell is free.
pub fn step_or_attack(
    entities: &mut Vec<Entity>,
    dungeon: &Dungeon,
    chests: &Vec<Chest>,
    registry: &GameObjectRegistry,
    consumables: &mut Vec<Consumable>,
    next_id: &mut u64,
    idx: usize,
    dx: i32,
    dy: i32,
) -> (r: Option<GameMessage>)
    requires
        idx < old(entities).len(),
        old(entities)[idx as int]@.is_monster(),
        -1 <= dx <= 1,
        -1 <= dy <= 1,
    ensures
        monster_acted(entity_views(old(entities)@), entity_views(final(entities)@), idx as int),
        consumable_views(final(consumables)@) == consumable_views(old(consumables)@),
        *final(next_id) == *old(next_id),
        all_wf(entity_views(old(entities)@)) ==> all_wf(entity_views(final(entities)@)),
        living_target(entity_views(old(entities)@), idx as int, dx as int, dy as int) is Some ==> r is Some
            && attacked(
            entity_views(old(entities)@),
            consumable_views(old(consumables)@),
            *old(next_id),
            registry@,
            idx as int,
            living_target(entity_views(old(entities)@), idx as int, dx as int, dy as int)->0,
            entity_views(final(entities)@),
            opt_message(r),
        ),
        living_target(entity_views(old(entities)@), idx as int, dx as int, dy as int) is None ==> r is None
            && entity_views(final(entities)@) == after_step(
            entity_views(old(entities)@),
            *dungeon,
            chest_views(chests@),
            registry@,
            idx as int,
            dx as int,
            dy as int,
        ),
{
    let ghost before = entity_views(entities@);
    let to_x: i128 = entities[idx].x as i128 + dx as i128;
    let to_y: i128 = entities[idx].y as i128 + dy as i128;
    let target = if to_x >= 0 && to_y >= 0 && to_x <= usize::MAX as i128 && to_y
        <= usize::MAX as i128 {
        living_player_at(entities, to_x as usize, to_y as usize)
    } else {
        None
    };
    proof {
        let c = cell_from(before[idx as int], dx as int, dy as int);
        match target {
            Some(j) => {
                assert(player_on(before, c, j as int));
                assert forall|k: int| player_on(before, c, k) implies k == j by {}
            },
            None => {
                assert forall|k: int| !player_on(before, c, k) by {
                    if player_on(before, c, k) {
                        assert(before[k].at(c.0, c.1));
                    }
                }
            },
        }
    }
    match target {
        Some(j) => {
            let r = attack_entity(entities, idx, j, registry, consumables, next_id);
            proof {
                let rolls = choose|rolls: AttackRolls|
                    (idx < before.len() ==> rolls_allowed(old(entities)[idx as int]@, rolls)) && (
                    AttackResult {
                        entities: entity_views(entities@),
                        consumables: consumable_views(consumables@),
                        next_id: *next_id,
                        message: opt_message(r),
                    }) == #[trigger] attack_result(
                        before,
                        consumable_views(old(consumables)@),
                        *old(next_id),
                        registry@,
                        idx as int,
                        j as int,
                        rolls,
                    );
                assert(before[j as int].is_player());
                assert(monster_acted(before, entity_views(entities@), idx as int));
                assert(old(entities)[idx as int]@ == before[idx as int]);
                assert(rolls_allowed(old(entities)[idx as int]@, rolls));
                assert(living_target(before, idx as int, dx as int, dy as int) == Some(j as int));
                assert((AttackResult {
                    entities: entity_views(entities@),
                    consumables: consumable_views(old(consumables)@),
                    next_id: *old(next_id),
                    message: opt_message(r),
                }) == attack_result(
                    before,
                    consumable_views(old(consumables)@),
                    *old(next_id),
                    registry@,
                    idx as int,
                    j as int,
                    rolls,
                ));
                assert(attacked(
                    before,
                    consumable_views(old(consumables)@),
                    *old(next_id),
                    registry@,
                    idx as int,
                    j as int,
                    entity_views(entities@),
                    opt_message(r),
                ));
            }
            r
        },
        None => {
            move_entity(entities, dungeon, chests, registry, idx, dx, dy);
            proof {
                assert(monster_acted(before, entity_views(entities@), idx as int));
                assert(living_target(before, idx as int, dx as int, dy as int) is None);
            }
            None
        },
    }
}

/// Whether `after` and `message` are what an attack of the monster `ai` on the player
/// `ti` may lead to: the outcome of the attack for some rolls the monster may draw. The
/// consumables stay as they are, since no monster dies.
pub open spec fn attacked(
    before: Seq<EntityView>,
    consumables: Seq<crate::consumable::ConsumableView>,
    next_id: u64,
    catalog: Seq<GameObjectView>,
    ai: int,
    ti: int,
    after: Seq<EntityView>,
    message: Option<GameMessageView>,
) -> bool {
    exists|rolls: AttackRolls|
        rolls_allowed(before[ai], rolls) && (AttackResult {
            entities: after,
            consumables,
            next_id,
            message,
        }) == #[trigger] attack_result(before, consumables, next_id, catalog, ai, ti, rolls)
}

/// The first living player on the cell that lies (`dx`, `dy`) from entity `me`.
pub open spec fn living_target(entities: Seq<EntityView>, me: int, dx: int, dy: int) -> Option<int> {
    let c = cell_from(entities[me], dx, dy);
    if exists|j: int| player_on(entities, c, j) {
        Some(choose|j: int| player_on(entities, c, j))
    } else {
        None
    }
}


/// Whether `after` and `message` are what taking the step `step` may lead to for the
/// monster `me`: nothing without a step, an attack where a living player stands on the
/// cell of the step, and else the move there if the cell is free.
pub open spec fn stepped(
    before: Seq<EntityView>,
    d: Dungeon,
    chests: Seq<ChestView>,
    catalog: Seq<GameObjectView>,
    consumables: Seq<crate::consumable::ConsumableView>,
    next_id: u64,
    me: int,
    step: Option<(i32, i32)>,
    after: Seq<EntityView>,
    message: Option<GameMessageView>,
) -> bool {
    match step {
        None => after == before && message is None,
        Some(s) => match living_target(before, me, s.0 as int, s.1 as int) {
            Some(j) => message is Some && attacked(
                before,
                consumables,
                next_id,
                catalog,
                me,
                j,
                after,
                message,
            ),
            None => message is None && after == after_step(
                before,
                d,
                chests,
                catalog,
                me,
                s.0 as int,
                s.1 as int,
            ),
        },
    }
}

/// Whether `after` and `message` are what the turn of the monster `me` may lead to.
/// A monster that notices no player tries a step in one of the four directions. One that
/// stands side by side with the player it goes for attacks it. Any other takes the step
/// that the search for a way to that player finds.
pub open spec fn turn_rule(
    before: Seq<EntityView>,
    d: Dungeon,
    chests: Seq<ChestView>,
    catalog: Seq<GameObjectView>,
    consumables: Seq<crate::consumable::ConsumableView>,
    next_id: u64,
    me: int,
    after: Seq<EntityView>,
    message: Option<GameMessageView>,
) -> bool {
    if forall|i: int| !sighted(before, me, i) {
        message is None && exists|code: u8|
            code < 4 && after == #[trigger] after_step(
                before,
                d,
                chests,
                catalog,
                me,
                step_of(code).0,
                step_of(code).1,
            )
    } else {
        let t = choose|t: int| is_nearest_player(before, me, t);
        if side_by_side(place(before[me]), place(before[t])) {
            message is Some && attacked(before, consumables, next_id, catalog, me, t, after, message)
        } else {
            exists|step: Option<(i32, i32)>|
                path_step_ok(d, before, me, place(before[me]), place(before[t]), step)
                    && #[trigger] stepped(
                    before,
                    d,
                    chests,
                    catalog,
                    consumables,
                    next_id,
                    me,
                    step,
                    after,
                    message,
                )
        }
    }
}

/// The turn of the monster `idx`.
pub fn monster_turn(
    entities: &mut Vec<Entity>,
    dungeon: &Dungeon,
    chests: &Vec<Chest>,
    registry: &GameObjectRegistry,
    consumables: &mut Vec<Consumable>,
    next_id: &mut u64,
    idx: usize,
) -> (r: Option<GameMessage>)
    requires
        idx < old(entities).len(),
        old(entities)[idx as int]@.is_monster(),
    ensures
        monster_acted(entity_views(old(entities)@), entity_views(final(entities)@), idx as int),
        consumable_views(final(consumables)@) == consumable_views(old(consumables)@),
        *final(next_id) == *old(next_id),
        all_wf(entity_views(old(entities)@)) ==> all_wf(entity_views(final(entities)@)),
        turn_rule(
            entity_views(old(entities)@),
            *dungeon,
            chest_views(chests@),
            registry@,
            consumable_views(old(consumables)@),
            *old(next_id),
            idx as int,
            entity_views(final(entities)@),
            opt_message(r),
        ),
{
    let ghost before = entity_views(entities@);
    let ghost items = consumable_views(consumables@);
    match nearest_player(entities, idx) {
        None => {
            let mut rng = rand::thread_rng();
            let code = random_index(&mut rng, 4) as u8;
            let (dx, dy) = step_for(code);
            move_entity(entities, dungeon, chests, registry, idx, dx, dy);
            proof {
                assert(entity_views(entities@) == after_step(
                    before,
                    *dungeon,
                    chest_views(chests@),
                    registry@,
                    idx as int,
                    step_of(code).0,
                    step_of(code).1,
                ));
                assert(monster_acted(before, entity_views(entities@), idx as int));
            }
            None
        },
        Some(t) => {
            proof {
                let other = choose|k: int| is_nearest_player(before, idx as int, k);
                assert(is_nearest_player(before, idx as int, t as int));
                assert(sighted(before, idx as int, t as int));
                assert(sighted(before, idx as int, other));
                assert(other == t);
            }
            let ax = entities[idx].x;
            let ay = entities[idx].y;
            let tx = entities[t].x;
            let ty = entities[t].y;
            let beside = (ay == ty && ((ax < usize::MAX && ax + 1 == tx) || (tx < usize::MAX && tx
                + 1 == ax))) || (ax == tx && ((ay < usize::MAX && ay + 1 == ty) || (ty
                < usize::MAX && ty + 1 == ay)));
            if beside {
                let r = attack_entity(entities, idx, t, registry, consumables, next_id);
                proof {
                    let rolls = choose|rolls: AttackRolls|
                        (idx < before.len() ==> rolls_allowed(old(entities)[idx as int]@, rolls))
                            && (AttackResult {
                            entities: entity_views(entities@),
                            consumables: consumable_views(consumables@),
                            next_id: *next_id,
                            message: opt_message(r),
                        }) == #[trigger] attack_result(
                            before,
                            items,
                            *old(next_id),
                            registry@,
                            idx as int,
                            t as int,
                            rolls,
                        );
                    assert(before[t as int].is_player());
                    assert(old(entities)[idx as int]@ == before[idx as int]);
                    assert(monster_acted(before, entity_views(entities@), idx as int));
                    assert((AttackResult {
                        entities: entity_views(entities@),
                        consumables: items,
                        next_id: *old(next_id),
                        message: opt_message(r),
                    }) == attack_result(
                        before,
                        items,
                        *old(next_id),
                        registry@,
                        idx as int,
                        t as int,
                        rolls,
                    ));
                    assert(attacked(
                        before,
                        items,
                        *old(next_id),
                        registry@,
                        idx as int,
                        t as int,
                        entity_views(entities@),
                        opt_message(r),
                    ));
                }
                r
            } else {
                let step = find_path_step(entities, dungeon, ax, ay, tx, ty, idx);
                let r = match step {
                    Some((dx, dy)) => {
                        proof {
                            let start = place(before[idx as int]);
                            let target = place(before[t as int]);
                            if connected(
                                search_floor(*dungeon, before, idx as int, start, target),
                                start,
                                target,
                            ) {
                                let code = choose|code: u8|
                                    code < 4 && #[trigger] step_of(code) == (dx as int, dy as int);
                            }
                        }
                        step_or_attack(
                            entities,
                            dungeon,
                            chests,
                            registry,
                            consumables,
                            next_id,
                            idx,
                            dx,
                            dy,
                        )
                    },
                    None => {
                        proof {
                            assert(monster_acted(before, before, idx as int));
                        }
                        None
                    },
                };
                proof {
                    assert(stepped(
                        before,
                        *dungeon,
                        chest_views(chests@),
                        registry@,
                        items,
                        *old(next_id),
                        idx as int,
                        step,
                        entity_views(entities@),
                        opt_message(r),
                    ));
                }
                r
            }
        },
    }
}

/// Whether `after` is what the turns of the monsters may leave of `before`: every entity
/// is the same actor as before; the players kept their places and lost health at most;
/// the monsters kept their health and moved by at most one cell along each axis, the
/// dead ones not at all.
pub open spec fn monsters_acted(before: Seq<EntityView>, after: Seq<EntityView>) -> bool {
    &&& after.len() == before.len()
    &&& forall|j: int|
        0 <= j < before.len() ==> same_actor(before[j], #[trigger] after[j]) && if before[j].is_player() {
            &&& after[j].x == before[j].x && after[j].y == before[j].y
            &&& after[j].facing_right == before[j].facing_right
            &&& after[j].current_health <= before[j].current_health
        } else {
            &&& after[j].current_health == before[j].current_health
            &&& -1 <= after[j].x - before[j].x <= 1
            &&& -1 <= after[j].y - before[j].y <= 1
            &&& !before[j].alive() ==> after[j] == before[j]
        }
}

/// The places in the list of the monsters that are alive.
pub fn living_monsters(entities: &Vec<Entity>) -> (r: Vec<usize>)
    ensures
        forall|k: int|
            0 <= k < r.len() ==> (#[trigger] r[k]) < entities.len() && entities[r[k] as int]@.is_monster()
                && entities[r[k] as int]@.alive(),
        forall|a: int, b: int| 0 <= a < b < r.len() ==> r[a] < r[b],
        forall|i: int|
            0 <= i < entities.len() && (#[trigger] entities[i])@.is_monster() && entities[i]@.alive()
                ==> r@.contains(i as usize),
{
    let mut out: Vec<usize> = Vec::new();
    let mut i: usize = 0;
    while i < entities.len()
        invariant
            i <= entities.len(),
            forall|k: int|
                0 <= k < out.len() ==> (#[trigger] out[k]) < i && entities[out[k] as int]@.is_monster()
                    && entities[out[k] as int]@.alive(),
            forall|a: int, b: int| 0 <= a < b < out.len() ==> out[a] < out[b],
            forall|j: int|
                0 <= j < i && (#[trigger] entities[j])@.is_monster() && entities[j]@.alive()
                    ==> out@.contains(j as usize),
        decreases entities.len() - i,
    {
        if entities[i].is_monster() && entities[i].is_alive() {
            let ghost before = out@;
            out.push(i);
            proof {
                assert(out@[before.len() as int] == i);
                assert forall|j: int|
                    0 <= j < i + 1 && (#[trigger] entities[j])@.is_monster()
                        && entities[j]@.alive() implies out@.contains(j as usize) by {
                    if j < i {
                        assert(before.contains(j as usize));
                        let k = choose|k: int| 0 <= k < before.len() && before[k] == j as usize;
                        assert(out@[k] == j as usize);
                    }
                }
            }
        }
        i += 1;
    }
    out
}

/// Whether `turns` are the living monsters of the list in its order.
pub open spec fn is_turn_order(entities: Seq<EntityView>, turns: Seq<usize>) -> bool {
    &&& forall|k: int|
        0 <= k < turns.len() ==> (#[trigger] turns[k]) < entities.len() && entities[turns[k] as int].is_monster()
            && entities[turns[k] as int].alive()
    &&& forall|a: int, b: int| 0 <= a < b < turns.len() ==> turns[a] < turns[b]
    &&& forall|i: int|
        0 <= i < entities.len() && (#[trigger] entities[i]).is_monster() && entities[i].alive()
            ==> turns.contains(i as usize)
}

/// The events among the outcomes of the turns, in their order.
pub open spec fn events_of(outcomes: Seq<Option<GameMessageView>>) -> Seq<GameMessageView>
    decreases outcomes.len(),
{
    if outcomes.len() == 0 {
        Seq::empty()
    } else {
        let rest = events_of(outcomes.drop_last());
        match outcomes.last() {
            Some(m) => rest.push(m),
            None => rest,
        }
    }
}

/// Whether `states` and `outcomes` are a course of the monsters' phase: the entities
/// before the first turn and after each turn, and what each turn reported, where every
/// turn follows the rule of a monster's turn.
pub open spec fn is_phase(
    before: Seq<EntityView>,
    d: Dungeon,
    chests: Seq<ChestView>,
    catalog: Seq<GameObjectView>,
    consumables: Seq<crate::consumable::ConsumableView>,
    next_id: u64,
    turns: Seq<usize>,
    states: Seq<Seq<EntityView>>,
    outcomes: Seq<Option<GameMessageView>>,
) -> bool {
    &&& states.len() == turns.len() + 1
    &&& outcomes.len() == turns.len()
    &&& states[0] == before
    &&& forall|k: int|
        0 <= k < turns.len() ==> turn_rule(
            #[trigger] states[k],
            d,
            chests,
            catalog,
            consumables,
            next_id,
            turns[k] as int,
            states[k + 1],
            outcomes[k],
        )
}

/// Whether `after` and `messages` are what the monsters' phase may lead to: the living
/// monsters of the list took their turns one after the other in its order, and
/// `messages` are the events of their attacks.
pub open spec fn phase_done(
    before: Seq<EntityView>,
    d: Dungeon,
    chests: Seq<ChestView>,
    catalog: Seq<GameObjectView>,
    consumables: Seq<crate::consumable::ConsumableView>,
    next_id: u64,
    after: Seq<EntityView>,
    messages: Seq<GameMessageView>,
) -> bool {
    exists|
        turns: Seq<usize>,
        states: Seq<Seq<EntityView>>,
        outcomes: Seq<Option<GameMessageView>>,
    |
        #![trigger is_phase(before, d, chests, catalog, consumables, next_id, turns, states, outcomes)]
        is_turn_order(before, turns) && is_phase(
            before,
            d,
            chests,
            catalog,
            consumables,
            next_id,
            turns,
            states,
            outcomes,
        ) && states.last() == after && messages == events_of(outcomes)
}

/// The turns of all living monsters, one after the other in the order of the list.
/// Returns the events of their attacks.
pub fn process_ai_turns(
    entities: &mut Vec<Entity>,
    dungeon: &Dungeon,
    chests: &Vec<Chest>,
    registry: &GameObjectRegistry,
    consumables: &mut Vec<Consumable>,
    next_id: &mut u64,
) -> (messages: Vec<GameMessage>)
    ensures
        phase_done(
            entity_views(old(entities)@),
            *dungeon,
            chest_views(chests@),
            registry@,
            consumable_views(old(consumables)@),
            *old(next_id),
            entity_views(final(entities)@),
            crate::message::message_views(messages@),
        ),
        monsters_acted(entity_views(old(entities)@), entity_views(final(entities)@)),
        consumable_views(final(consumables)@) == consumable_views(old(consumables)@),
        *final(next_id) == *old(next_id),
        all_wf(entity_views(old(entities)@)) ==> all_wf(entity_views(final(entities)@)),
        messages.len() <= old(entities).len(),
{
    let ghost before = entity_views(entities@);
    let ghost items = consumable_views(consumables@);
    let turns = living_monsters(entities);
    let mut messages: Vec<GameMessage> = Vec::new();
    let mut k: usize = 0;
    let ghost mut states: Seq<Seq<EntityView>> = seq![before];
    let ghost mut outcomes: Seq<Option<GameMessageView>> = Seq::empty();
    proof {
        if turns.len() > 0 {
            lemma_rising(turns@, turns.len() - 1);
        }
        assert forall|a: int| 0 <= a < turns.len() implies before[(#[trigger] turns[a]) as int]
            == old(entities)[turns[a] as int]@ by {}
        assert forall|i: int|
            0 <= i < before.len() && (#[trigger] before[i]).is_monster() && before[i].alive() implies turns@.contains(
            i as usize,
        ) by {
            assert(before[i] == old(entities)[i]@);
        }
        assert(is_turn_order(before, turns@));
        assert(crate::message::message_views(messages@) =~= events_of(outcomes));
    }
    while k < turns.len()
        invariant
            k <= turns.len(),
            turns.len() <= before.len(),
            messages.len() <= k,
            before == entity_views(old(entities)@),
            items == consumable_views(old(consumables)@),
            entities.len() == before.len(),
            forall|a: int|
                0 <= a < turns.len() ==> (#[trigger] turns[a]) < before.len()
                    && before[turns[a] as int].is_monster() && before[turns[a] as int].alive(),
            forall|a: int, b: int| 0 <= a < b < turns.len() ==> turns[a] < turns[b],
            monsters_acted(before, entity_views(entities@)),
            forall|a: int|
                k <= a < turns.len() ==> entity_views(entities@)[(#[trigger] turns[a]) as int]
                    == before[turns[a] as int],
            forall|j: int|
                0 <= j < before.len() && !before[j].is_player() && !before[j].alive()
                    ==> #[trigger] entity_views(entities@)[j] == before[j],
            consumable_views(consumables@) == items,
            *next_id == *old(next_id),
            all_wf(before) ==> all_wf(entity_views(entities@)),
            states.len() == k + 1,
            outcomes.len() == k,
            states[0] == before,
            states.last() == entity_views(entities@),
            forall|q: int|
                0 <= q < k ==> turn_rule(
                    #[trigger] states[q],
                    *dungeon,
                    chest_views(chests@),
                    registry@,
                    items,
                    *old(next_id),
                    turns[q] as int,
                    states[q + 1],
                    outcomes[q],
                ),
            crate::message::message_views(messages@) == events_of(outcomes),
        decreases turns.len() - k,
    {
        let idx = turns[k];
        let ghost current = entity_views(entities@);
        let ghost told = crate::message::message_views(messages@);
        assert(current[idx as int] == before[idx as int]);
        let r = monster_turn(entities, dungeon, chests, registry, consumables, next_id, idx);
        let ghost outcome = opt_message(r);
        match r {
            Some(m) => {
                messages.push(m);
                proof {
                    assert(crate::message::message_views(messages@) =~= told.push(m@));
                }
            },
            None => {},
        }
        proof {
            let after = entity_views(entities@);
            assert(monster_acted(current, after, idx as int));
            assert forall|j: int| 0 <= j < before.len() implies same_actor(
                before[j],
                #[trigger] after[j],
            ) && if before[j].is_player() {
                &&& after[j].x == before[j].x && after[j].y == before[j].y
                &&& after[j].facing_right == before[j].facing_right
                &&& after[j].current_health <= before[j].current_health
            } else {
                &&& after[j].current_health == before[j].current_health
                &&& -1 <= after[j].x - before[j].x <= 1
                &&& -1 <= after[j].y - before[j].y <= 1
                &&& !before[j].alive() ==> after[j] == before[j]
            } by {
                assert(same_actor(before[j], current[j]));
                assert(same_actor(current[j], after[j]));
            }
            assert forall|a: int| k + 1 <= a < turns.len() implies after[(#[trigger] turns[a]) as int]
                == before[turns[a] as int] by {
                assert(turns[k as int] < turns[a]);
                assert(current[turns[a] as int] == before[turns[a] as int]);
            }
            let earlier = states;
            let reported = outcomes;
            states = states.push(after);
            outcomes = outcomes.push(outcome);
            assert(outcomes.drop_last() =~= reported);
            assert forall|q: int| 0 <= q < k + 1 implies turn_rule(
                #[trigger] states[q],
                *dungeon,
                chest_views(chests@),
                registry@,
                items,
                *old(next_id),
                turns[q] as int,
                states[q + 1],
                outcomes[q],
            ) by {
                if q < k {
                    assert(states[q] == earlier[q] && states[q + 1] == earlier[q + 1]);
                    assert(outcomes[q] == reported[q]);
                } else {
                    assert(states[q] == current);
                }
            }
        }
        k += 1;
    }
    proof {
        assert(is_phase(
            before,
            *dungeon,
            chest_views(chests@),
            registry@,
            items,
            *old(next_id),
            turns@,
            states,
            outcomes,
        ));
    }
    messages
}

proof fn lemma_rising(turns: Seq<usize>, a: int)
    requires
        forall|i: int, j: int| 0 <= i < j < turns.len() ==> turns[i] < turns[j],
        0 <= a < turns.len(),
    ensures
        turns[a] >= a,
    decreases a,
{
    if a > 0 {
        lemma_rising(turns, a - 1);
    }
}

} // verus!
