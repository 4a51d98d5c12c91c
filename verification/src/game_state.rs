//! The game as a whole: the level with all that is in it, whose turn it is, and what the
//! players have confirmed. Commands of the players are handled one at a time.

use crate::ai::{
    after_step, can_step, chest_passable, first_chest_at, monsters_acted, move_entity, phase_done,
    place, process_ai_turns, step_of,
};
use crate::chest::{chest_views, Chest, ChestView};
use crate::combat::{
    attack_entity, attack_result, lemma_next_id_is_new, lemma_numbered_push, lemma_numbered_remove,
    new_consumable, next_number, numbered_below, opt_message, rolls_allowed, AttackResult,
    AttackRolls,
};
use crate::config::LevelConfig;
use crate::consumable::{consumable_views, Consumable, ConsumableView};
use crate::dungeon::{lemma_rooms_have_floor, Dungeon};
use crate::entity::{
    all_wf, entity_from, entity_views, healed, player_defaults, Entity, EntityController,
    EntityView,
};
use crate::game_object::GameObjectView;
use crate::game_object_registry::{find, of_type, GameObjectRegistry};
use crate::map_generator::{
    lemma_seeded_on_floor, rooms_as_asked, seeded, MapGenerator, LEVEL_HEIGHT, LEVEL_WIDTH,
};
use crate::message::{
    healing_message, message_views, plain_message, GameMessage, GameMessageView, MessageType,
    PlayerCommand,
};
use crate::rng::random_index;
use crate::text::{numbered_id, same_text};
use crate::tile_registry::TileRegistry;
use vstd::prelude::*;
use vstd::string::*;

verus! {

/// The part of a turn the game is in.
#[derive(Clone, Copy, Debug, PartialEq, Eq, Structural)]
pub enum TurnPhase {
    /// The players move.
    PlayerPhase,
    /// The monsters move.
    AIPhase,
}

/// A set of ids.
#[derive(Debug)]
pub struct IdSet {
    ids: Vec<String>,
}

impl View for IdSet {
    type V = Set<Seq<char>>;

    closed spec fn view(&self) -> Set<Seq<char>> {
        Set::new(|s: Seq<char>| exists|i: int| 0 <= i < self.ids.len() && (#[trigger] self.ids[i])@ == s)
    }
}

impl IdSet {
    /// Whether no id is stored twice.
    pub closed spec fn distinct(&self) -> bool {
        forall|i: int, j: int| 0 <= i < j < self.ids.len() ==> self.ids[i]@ != self.ids[j]@
    }

    /// The empty set.
    pub fn new() -> (r: Self)
        ensures
            r@ == Set::<Seq<char>>::empty(),
            r.distinct(),
    {
        let r = IdSet { ids: Vec::new() };
        assert(r@ =~= Set::<Seq<char>>::empty());
        r
    }

    /// Whether the id is in the set.
    pub fn contains(&self, id: &str) -> (r: bool)
        ensures
            r == self@.contains(id@),
    {
        let mut i: usize = 0;
        while i < self.ids.len()
            invariant
                i <= self.ids.len(),
                forall|k: int| 0 <= k < i ==> (#[trigger] self.ids[k])@ != id@,
            decreases self.ids.len() - i,
        {
            if same_text(&self.ids[i], id) {
                return true;
            }
            i += 1;
        }
        false
    }

    /// Puts the id into the set; tells whether it was new.
    pub fn insert(&mut self, id: &str) -> (added: bool)
        ensures
            final(self)@ == old(self)@.insert(id@),
            added == !old(self)@.contains(id@),
            old(self).distinct() ==> final(self).distinct(),
    {
        if self.contains(id) {
            assert(self@ =~= self@.insert(id@));
            return false;
        }
        let ghost before = self.ids@;
        self.ids.push(String::from_str(id));
        proof {
            assert forall|s: Seq<char>| self@.contains(s) == old(self)@.insert(id@).contains(s) by {
                if old(self)@.insert(id@).contains(s) {
                    if s == id@ {
                        assert(self.ids[before.len() as int]@ == s);
                    } else {
                        let i = choose|i: int| 0 <= i < before.len() && (#[trigger] before[i])@ == s;
                        assert(self.ids[i]@ == s);
                    }
                }
                if self@.contains(s) {
                    let i = choose|i: int| 0 <= i < self.ids.len() && (#[trigger] self.ids[i])@ == s;
                    if i < before.len() {
                        assert(before[i]@ == s);
                    }
                }
            }
            assert(self@ =~= old(self)@.insert(id@));
            if old(self).distinct() {
                assert forall|i: int, j: int| 0 <= i < j < self.ids.len() implies self.ids[i]@
                    != self.ids[j]@ by {
                    if j < before.len() {
                        assert(before[i]@ != before[j]@);
                    } else {
                        assert(before[i]@ != id@);
                    }
                }
            }
        }
        true
    }

    /// Empties the set.
    pub fn clear(&mut self)
        ensures
            final(self)@ == Set::<Seq<char>>::empty(),
            final(self).distinct(),
    {
        self.ids.clear();
        assert(self@ =~= Set::<Seq<char>>::empty());
    }

    /// The ids of the set.
    pub fn to_vec(&self) -> (r: Vec<String>)
        ensures
            forall|s: Seq<char>| self@.contains(s) <==> exists|i: int| 0 <= i < r.len() && (#[trigger] r[i])@ == s,
    {
        let mut out: Vec<String> = Vec::new();
        let mut i: usize = 0;
        while i < self.ids.len()
            invariant
                i <= self.ids.len(),
                out.len() == i,
                forall|k: int| 0 <= k < i ==> (#[trigger] out[k])@ == self.ids[k]@,
            decreases self.ids.len() - i,
        {
            out.push(self.ids[i].clone());
            i += 1;
        }
        proof {
            assert forall|s: Seq<char>| self@.contains(s) <==> exists|i: int|
                0 <= i < out.len() && (#[trigger] out[i])@ == s by {
                if self@.contains(s) {
                    let i = choose|i: int| 0 <= i < self.ids.len() && (#[trigger] self.ids[i])@ == s;
                    assert(out[i]@ == s);
                }
                if exists|i: int| 0 <= i < out.len() && (#[trigger] out[i])@ == s {
                    let i = choose|i: int| 0 <= i < out.len() && (#[trigger] out[i])@ == s;
                    assert(self.ids[i]@ == s);
                }
            }
        }
        out
    }
}

/// The game.
pub struct GameState {
    pub dungeon: Dungeon,
    /// The players and the monsters.
    pub entities: Vec<Entity>,
    pub consumables: Vec<Consumable>,
    pub chests: Vec<Chest>,
    pub tile_registry: TileRegistry,
    pub object_registry: GameObjectRegistry,
    /// The parameters levels are generated from, if any.
    pub level_config: Option<LevelConfig>,
    pub stairs_position: Option<(usize, usize)>,
    /// The players who confirmed that they want to leave the level.
    pub player_confirmations: IdSet,
    /// The players who confirmed that they want to restart the level.
    pub restart_confirmations: IdSet,
    pub turn_phase: TurnPhase,
    /// The players who have taken their turn.
    pub players_acted_this_turn: IdSet,
    pub current_turn: u32,
    /// The number the next consumable gets.
    pub next_consumable_id: u64,
}

/// The game as plain values.
pub ghost struct GameView {
    pub dungeon: Dungeon,
    pub entities: Seq<EntityView>,
    pub consumables: Seq<ConsumableView>,
    pub chests: Seq<ChestView>,
    pub tile_catalog: Seq<GameObjectView>,
    pub catalog: Seq<GameObjectView>,
    pub level_config: Option<LevelConfig>,
    pub stairs_position: Option<(usize, usize)>,
    pub player_confirmations: Set<Seq<char>>,
    pub restart_confirmations: Set<Seq<char>>,
    pub turn_phase: TurnPhase,
    pub acted: Set<Seq<char>>,
    pub current_turn: u32,
    pub next_consumable_id: u64,
}

impl View for GameState {
    type V = GameView;

    open spec fn view(&self) -> GameView {
        GameView {
            dungeon: self.dungeon,
            entities: entity_views(self.entities@),
            consumables: consumable_views(self.consumables@),
            chests: chest_views(self.chests@),
            tile_catalog: self.tile_registry@,
            catalog: self.object_registry@,
            level_config: self.level_config,
            stairs_position: self.stairs_position,
            player_confirmations: self.player_confirmations@,
            restart_confirmations: self.restart_confirmations@,
            turn_phase: self.turn_phase,
            acted: self.players_acted_this_turn@,
            current_turn: self.current_turn,
            next_consumable_id: self.next_consumable_id,
        }
    }
}

/// Whether the list has a player.
pub open spec fn has_player(entities: Seq<EntityView>) -> bool {
    exists|i: int| 0 <= i < entities.len() && (#[trigger] entities[i]).is_player()
}

/// Whether the list has a living player.
pub open spec fn has_living_player(entities: Seq<EntityView>) -> bool {
    exists|i: int| 0 <= i < entities.len() && (#[trigger] entities[i]).is_player() && entities[i].alive()
}

/// Whether there are players and all of them are dead.
pub open spec fn all_players_dead(entities: Seq<EntityView>) -> bool {
    has_player(entities) && !has_living_player(entities)
}

/// Whether every player has its id in `ids`.
pub open spec fn all_players_in(entities: Seq<EntityView>, ids: Set<Seq<char>>) -> bool {
    forall|i: int|
        0 <= i < entities.len() && (#[trigger] entities[i]).is_player() ==> ids.contains(entities[i].id)
}

/// Whether every living player has its id in `ids`.
pub open spec fn all_living_players_in(entities: Seq<EntityView>, ids: Set<Seq<char>>) -> bool {
    forall|i: int|
        0 <= i < entities.len() && (#[trigger] entities[i]).is_player() && entities[i].alive()
            ==> ids.contains(entities[i].id)
}

/// Whether a turn is over: there are living players and all of them have acted.
pub open spec fn turn_over(entities: Seq<EntityView>, acted: Set<Seq<char>>) -> bool {
    has_living_player(entities) && all_living_players_in(entities, acted)
}

/// Whether entity `i` is the player with the given id: the first player of the list
/// that has it.
pub open spec fn is_player_with(entities: Seq<EntityView>, id: Seq<char>, i: int) -> bool {
    &&& 0 <= i < entities.len()
    &&& entities[i].is_player() && entities[i].id == id
    &&& forall|j: int| 0 <= j < i ==> !((#[trigger] entities[j]).is_player() && entities[j].id == id)
}

/// Whether entity `i` is the first player of the list.
pub open spec fn is_first_player(entities: Seq<EntityView>, i: int) -> bool {
    &&& 0 <= i < entities.len()
    &&& entities[i].is_player()
    &&& forall|j: int| 0 <= j < i ==> !(#[trigger] entities[j]).is_player()
}

/// Whether entity `i` is the first living player of the list.
pub open spec fn is_first_living_player(entities: Seq<EntityView>, i: int) -> bool {
    &&& 0 <= i < entities.len()
    &&& entities[i].is_player() && entities[i].alive()
    &&& forall|j: int| 0 <= j < i ==> !((#[trigger] entities[j]).is_player() && entities[j].alive())
}

/// Whether a living entity stands on the cell.
pub open spec fn alive_at(entities: Seq<EntityView>, c: (int, int)) -> bool {
    exists|i: int| 0 <= i < entities.len() && (#[trigger] entities[i]).alive() && entities[i].at(c.0, c.1)
}

/// Whether the cell can be walked on and no living entity stands on it.
pub open spec fn free_floor(d: Dungeon, entities: Seq<EntityView>, c: (int, int)) -> bool {
    d.walkable(c.0, c.1) && !alive_at(entities, c)
}

/// The cell next to `p` in the direction with the given number: left, right, up, down.
pub open spec fn beside(p: (int, int), code: u8) -> (int, int) {
    (p.0 + step_of(code).0, p.1 + step_of(code).1)
}

/// Whether `c` is the first free cell next to `p`, looking left, right, up and down.
pub open spec fn is_first_free_beside(
    d: Dungeon,
    entities: Seq<EntityView>,
    p: (int, int),
    c: (int, int),
) -> bool {
    exists|code: u8|
        code < 4 && c == #[trigger] beside(p, code) && free_floor(d, entities, c) && forall|
            other: u8,
        |
            other < code ==> !free_floor(d, entities, #[trigger] beside(p, other))
}

/// Whether a cell next to `p` is free.
pub open spec fn has_free_beside(d: Dungeon, entities: Seq<EntityView>, p: (int, int)) -> bool {
    exists|code: u8| code < 4 && free_floor(d, entities, #[trigger] beside(p, code))
}

/// Whether `c` is the first free cell of the level in reading order.
pub open spec fn is_first_free_floor(d: Dungeon, entities: Seq<EntityView>, c: (int, int)) -> bool {
    &&& free_floor(d, entities, c)
    &&& forall|x: int, y: int|
        #[trigger] free_floor(d, entities, (x, y)) ==> c.1 < y || (c.1 == y && c.0 <= x)
}

/// Whether `c` is where a player joins the game: the first free cell next to the first
/// living player, or else the first free cell of the level, or (1, 1) where no cell is
/// free.
pub open spec fn is_join_cell(d: Dungeon, entities: Seq<EntityView>, c: (int, int)) -> bool {
    if exists|f: int|
        is_first_living_player(entities, f) && has_free_beside(d, entities, place(entities[f])) {
        let f = choose|f: int| is_first_living_player(entities, f);
        is_first_free_beside(d, entities, place(entities[f]), c)
    } else if exists|x: int, y: int| #[trigger] free_floor(d, entities, (x, y)) {
        is_first_free_floor(d, entities, c)
    } else {
        c == (1int, 1int)
    }
}


/// The ids of the players of the list, in its order.
pub open spec fn player_ids(entities: Seq<EntityView>) -> Seq<Seq<char>>
    decreases entities.len(),
{
    if entities.len() == 0 {
        Seq::empty()
    } else {
        let rest = player_ids(entities.drop_last());
        if entities.last().is_player() {
            rest.push(entities.last().id)
        } else {
            rest
        }
    }
}

/// The list without the players that have the given id.
pub open spec fn without_player(entities: Seq<EntityView>, id: Seq<char>) -> Seq<EntityView>
    decreases entities.len(),
{
    if entities.len() == 0 {
        Seq::empty()
    } else {
        let rest = without_player(entities.drop_last(), id);
        if entities.last().is_player() && entities.last().id == id {
            rest
        } else {
            rest.push(entities.last())
        }
    }
}

/// Whether any entity of the list, dead or alive, stands on the cell.
pub open spec fn any_at(entities: Seq<EntityView>, c: (int, int)) -> bool {
    exists|i: int| 0 <= i < entities.len() && (#[trigger] entities[i]).at(c.0, c.1)
}

/// Whether `c` is the first cell next to `p`, looking left, right, up and down, that can
/// be walked on and that none of the entities stands on.
pub open spec fn is_first_open_beside(
    d: Dungeon,
    entities: Seq<EntityView>,
    p: (int, int),
    c: (int, int),
) -> bool {
    exists|code: u8|
        code < 4 && c == #[trigger] beside(p, code) && d.walkable(c.0, c.1) && !any_at(entities, c)
            && forall|other: u8|
            other < code ==> !(d.walkable(
                (#[trigger] beside(p, other)).0,
                beside(p, other).1,
            ) && !any_at(entities, beside(p, other)))
}

/// Whether `c` is where a player starts a fresh level, given the players that started
/// before: the first starts where the level starts, the others on the first open cell
/// next to the first player, or where the level starts if there is none.
pub open spec fn is_respawn_cell(
    d: Dungeon,
    spawn: (int, int),
    earlier: Seq<EntityView>,
    c: (int, int),
) -> bool {
    if earlier.len() == 0 {
        c == spawn
    } else if exists|n: (int, int)| is_first_open_beside(d, earlier, place(earlier[0]), n) {
        is_first_open_beside(d, earlier, place(earlier[0]), c)
    } else {
        c == spawn
    }
}

/// Whether `players` are the players with the given ids as they start a fresh level:
/// each made anew from the template, at full health, on its cell.
pub open spec fn respawned(
    d: Dungeon,
    spawn: (int, int),
    template: GameObjectView,
    ids: Seq<Seq<char>>,
    players: Seq<EntityView>,
) -> bool {
    &&& players.len() == ids.len()
    &&& forall|k: int|
        0 <= k < players.len() ==> (#[trigger] players[k]) == entity_from(
            template,
            ids[k],
            players[k].x,
            players[k].y,
            EntityController::Player,
            player_defaults(),
        ) && is_respawn_cell(d, spawn, players.take(k), place(players[k]))
}

/// Whether `after` is the game `before` restarted: a fresh level with its monsters,
/// chests and stairs, the players of before at full health where the level starts, the
/// first turn, and nothing confirmed.
pub open spec fn restarted(before: GameView, after: GameView) -> bool {
    let ids = if find(before.catalog, "player"@) is Some {
        player_ids(before.entities)
    } else {
        Seq::empty()
    };
    &&& after.tile_catalog == before.tile_catalog
    &&& after.catalog == before.catalog
    &&& after.level_config == before.level_config
    &&& after.next_consumable_id == before.next_consumable_id
    &&& after.turn_phase == TurnPhase::PlayerPhase
    &&& after.current_turn == 1
    &&& after.acted == Set::<Seq<char>>::empty()
    &&& after.player_confirmations == Set::<Seq<char>>::empty()
    &&& after.restart_confirmations == Set::<Seq<char>>::empty()
    &&& after.consumables.len() == 0
    &&& after.dungeon.width == LEVEL_WIDTH && after.dungeon.height == LEVEL_HEIGHT
    &&& after.dungeon.generated(after.tile_catalog)
    &&& rooms_as_asked(after.level_config, after.dungeon.rooms.len() as int)
    &&& ids.len() <= after.entities.len()
    &&& seeded(
        after.dungeon,
        after.catalog,
        after.level_config,
        after.entities.skip(ids.len() as int),
        after.chests,
        after.stairs_position,
    )
    &&& exists|spawn: (int, int)|
        #![trigger after.dungeon.is_spawn(spawn)]
        after.dungeon.is_spawn(spawn) && respawned(
            after.dungeon,
            spawn,
            find(before.catalog, "player"@)->0,
            ids,
            after.entities.take(ids.len() as int),
        )
}

/// The monsters take their turns only once there are living players and all of them have
/// acted; then a new turn begins in which nobody has acted yet.
pub proof fn lemma_turn_invariant(before: GameView, after: GameView, messages: Seq<GameMessageView>)
    requires
        turn_finished(before, after, messages),
    ensures
        after.entities != before.entities ==> turn_over(before.entities, before.acted),
        messages.len() > 0 ==> turn_over(before.entities, before.acted),
        turn_over(before.entities, before.acted) ==> after.acted == Set::<Seq<char>>::empty()
            && after.current_turn == next_turn(before.current_turn) && after.turn_phase
            == TurnPhase::PlayerPhase,
        !turn_over(before.entities, before.acted) ==> after == before,
{
}

/// Whether a living entity stands on the cell.
pub fn living_entity_at(entities: &Vec<Entity>, x: usize, y: usize) -> (r: bool)
    ensures
        r == alive_at(entity_views(entities@), (x as int, y as int)),
{
    let ghost views = entity_views(entities@);
    let mut i: usize = 0;
    while i < entities.len()
        invariant
            i <= entities.len(),
            views == entity_views(entities@),
            forall|k: int|
                0 <= k < i ==> !((#[trigger] views[k]).alive() && views[k].at(x as int, y as int)),
        decreases entities.len() - i,
    {
        if entities[i].is_alive() && entities[i].x == x && entities[i].y == y {
            assert(views[i as int].alive() && views[i as int].at(x as int, y as int));
            return true;
        }
        i += 1;
    }
    false
}

/// The cell next to (`x`, `y`) in the direction with the given number, where the grid
/// of cell numbers has one.
fn cell_beside(x: usize, y: usize, code: u8) -> (r: Option<(usize, usize)>)
    requires
        code < 4,
    ensures
        match r {
            Some(c) => (c.0 as int, c.1 as int) == beside((x as int, y as int), code),
            None => beside((x as int, y as int), code).0 < 0 || beside((x as int, y as int), code).1
                < 0 || beside((x as int, y as int), code).0 > usize::MAX || beside(
                (x as int, y as int),
                code,
            ).1 > usize::MAX,
        },
{
    if code == 0 {
        if x > 0 {
            Some((x - 1, y))
        } else {
            None
        }
    } else if code == 1 {
        if x < usize::MAX {
            Some((x + 1, y))
        } else {
            None
        }
    } else if code == 2 {
        if y > 0 {
            Some((x, y - 1))
        } else {
            None
        }
    } else {
        if y < usize::MAX {
            Some((x, y + 1))
        } else {
            None
        }
    }
}

/// The first free cell next to (`x`, `y`), looking left, right, up and down.
pub fn first_free_beside(dungeon: &Dungeon, entities: &Vec<Entity>, x: usize, y: usize) -> (r:
    Option<(usize, usize)>)
    ensures
        match r {
            Some(c) => is_first_free_beside(
                *dungeon,
                entity_views(entities@),
                (x as int, y as int),
                (c.0 as int, c.1 as int),
            ),
            None => !has_free_beside(*dungeon, entity_views(entities@), (x as int, y as int)),
        },
{
    let ghost views = entity_views(entities@);
    let ghost p = (x as int, y as int);
    let mut code: u8 = 0;
    while code < 4
        invariant
            code <= 4,
            views == entity_views(entities@),
            p == (x as int, y as int),
            forall|other: u8| other < code ==> !free_floor(*dungeon, views, #[trigger] beside(p, other)),
        decreases 4 - code,
    {
        match cell_beside(x, y, code) {
            Some(c) => {
                if dungeon.is_walkable(c.0, c.1) && !living_entity_at(entities, c.0, c.1) {
                    assert(free_floor(*dungeon, views, beside(p, code)));
                    return Some(c);
                }
            },
            None => {},
        }
        code += 1;
    }
    None
}

/// The first cell next to (`x`, `y`), looking left, right, up and down, that can be
/// walked on and that none of the entities stands on.
pub fn first_open_beside(dungeon: &Dungeon, entities: &Vec<Entity>, x: usize, y: usize) -> (r:
    Option<(usize, usize)>)
    ensures
        match r {
            Some(c) => is_first_open_beside(
                *dungeon,
                entity_views(entities@),
                (x as int, y as int),
                (c.0 as int, c.1 as int),
            ),
            None => forall|n: (int, int)|
                !is_first_open_beside(*dungeon, entity_views(entities@), (x as int, y as int), n),
        },
{
    let ghost views = entity_views(entities@);
    let ghost p = (x as int, y as int);
    let mut code: u8 = 0;
    while code < 4
        invariant
            code <= 4,
            views == entity_views(entities@),
            p == (x as int, y as int),
            forall|other: u8|
                other < code ==> !(dungeon.walkable(
                    (#[trigger] beside(p, other)).0,
                    beside(p, other).1,
                ) && !any_at(views, beside(p, other))),
        decreases 4 - code,
    {
        match cell_beside(x, y, code) {
            Some(c) => {
                if dungeon.is_walkable(c.0, c.1) && !crate::map_generator::any_entity_at(
                    entities,
                    c.0,
                    c.1,
                ) {
                    assert(beside(p, code) == (c.0 as int, c.1 as int));
                    assert(!any_at(views, beside(p, code))) by {
                        if any_at(views, beside(p, code)) {
                            let i = choose|i: int|
                                0 <= i < views.len() && (#[trigger] views[i]).at(
                                    beside(p, code).0,
                                    beside(p, code).1,
                                );
                            assert(crate::map_generator::stands_on(views, beside(p, code)));
                        }
                    }
                    return Some(c);
                } else {
                    proof {
                        if crate::map_generator::stands_on(views, beside(p, code)) {
                            let i = choose|i: int|
                                0 <= i < views.len() && (#[trigger] views[i]).at(
                                    beside(p, code).0,
                                    beside(p, code).1,
                                );
                            assert(any_at(views, beside(p, code)));
                        }
                    }
                }
            },
            None => {},
        }
        code += 1;
    }
    None
}

/// The first free cell of the level in reading order.
pub fn first_free_floor(dungeon: &Dungeon, entities: &Vec<Entity>) -> (r: Option<(usize, usize)>)
    ensures
        match r {
            Some(c) => is_first_free_floor(
                *dungeon,
                entity_views(entities@),
                (c.0 as int, c.1 as int),
            ),
            None => forall|x: int, y: int|
                !#[trigger] free_floor(*dungeon, entity_views(entities@), (x, y)),
        },
{
    let ghost views = entity_views(entities@);
    let mut y: usize = 0;
    while y < dungeon.height
        invariant
            y <= dungeon.height,
            views == entity_views(entities@),
            forall|c: int, r: int| 0 <= r < y ==> !#[trigger] free_floor(*dungeon, views, (c, r)),
        decreases dungeon.height - y,
    {
        let mut x: usize = 0;
        while x < dungeon.width
            invariant
                x <= dungeon.width,
                y < dungeon.height,
                views == entity_views(entities@),
                forall|c: int, r: int|
                    0 <= r < y ==> !#[trigger] free_floor(*dungeon, views, (c, r)),
                forall|c: int| 0 <= c < x ==> !#[trigger] free_floor(*dungeon, views, (c, y as int)),
            decreases dungeon.width - x,
        {
            if dungeon.is_walkable(x, y) && !living_entity_at(entities, x, y) {
                return Some((x, y));
            }
            x += 1;
        }
        y += 1;
    }
    None
}

/// The first living player of the list.
pub fn first_living_player(entities: &Vec<Entity>) -> (r: Option<usize>)
    ensures
        match r {
            Some(f) => is_first_living_player(entity_views(entities@), f as int),
            None => forall|f: int| !is_first_living_player(entity_views(entities@), f),
        },
{
    let ghost views = entity_views(entities@);
    let mut i: usize = 0;
    while i < entities.len()
        invariant
            i <= entities.len(),
            views == entity_views(entities@),
            forall|j: int| 0 <= j < i ==> !((#[trigger] views[j]).is_player() && views[j].alive()),
        decreases entities.len() - i,
    {
        if entities[i].is_player() && entities[i].is_alive() {
            assert(views[i as int].is_player() && views[i as int].alive());
            return Some(i);
        }
        i += 1;
    }
    None
}

/// The cell where a player joins the game.
pub fn join_cell(dungeon: &Dungeon, entities: &Vec<Entity>) -> (c: (usize, usize))
    ensures
        is_join_cell(*dungeon, entity_views(entities@), (c.0 as int, c.1 as int)),
{
    let ghost views = entity_views(entities@);
    match first_living_player(entities) {
        Some(f) => {
            proof {
                assert forall|g: int| is_first_living_player(views, g) implies g == f by {}
            }
            match first_free_beside(dungeon, entities, entities[f].x, entities[f].y) {
                Some(c) => {
                    proof {
                        let code = choose|code: u8|
                            code < 4 && (c.0 as int, c.1 as int) == #[trigger] beside(
                                place(views[f as int]),
                                code,
                            ) && free_floor(*dungeon, views, (c.0 as int, c.1 as int));
                        assert(has_free_beside(*dungeon, views, place(views[f as int])));
                    }
                    return c;
                },
                None => {},
            }
        },
        None => {},
    }
    match first_free_floor(dungeon, entities) {
        Some(c) => c,
        None => (1, 1),
    }
}


/// The texts of a list of strings.
pub open spec fn texts(s: Seq<String>) -> Seq<Seq<char>> {
    s.map_values(|t: String| t@)
}

/// Whether `g` is a game that was just set up from the two catalogs and the parameters.
pub open spec fn fresh(
    g: GameView,
    tile_catalog: Seq<GameObjectView>,
    catalog: Seq<GameObjectView>,
    level: Option<LevelConfig>,
) -> bool {
    &&& g.tile_catalog == tile_catalog
    &&& g.catalog == catalog
    &&& g.level_config == level
    &&& g.next_consumable_id == 0
    &&& g.turn_phase == TurnPhase::PlayerPhase
    &&& g.current_turn == 1
    &&& g.acted == Set::<Seq<char>>::empty()
    &&& g.player_confirmations == Set::<Seq<char>>::empty()
    &&& g.restart_confirmations == Set::<Seq<char>>::empty()
    &&& g.consumables.len() == 0
    &&& g.dungeon.width == LEVEL_WIDTH && g.dungeon.height == LEVEL_HEIGHT
    &&& g.dungeon.generated(tile_catalog)
    &&& rooms_as_asked(level, g.dungeon.rooms.len() as int)
    &&& seeded(g.dungeon, catalog, level, g.entities, g.chests, g.stairs_position)
}

/// The ids of the players of the list, in its order.
pub fn player_id_list(entities: &Vec<Entity>) -> (ids: Vec<String>)
    ensures
        texts(ids@) == player_ids(entity_views(entities@)),
{
    let ghost views = entity_views(entities@);
    let mut ids: Vec<String> = Vec::new();
    let mut i: usize = 0;
    assert(views.take(0) =~= Seq::empty());
    assert(texts(ids@) =~= Seq::empty());
    while i < entities.len()
        invariant
            i <= entities.len(),
            views == entity_views(entities@),
            texts(ids@) == player_ids(views.take(i as int)),
        decreases entities.len() - i,
    {
        let ghost before = ids@;
        assert(views.take(i + 1).drop_last() =~= views.take(i as int));
        if entities[i].is_player() {
            ids.push(entities[i].id.clone());
            assert(texts(ids@) =~= texts(before).push(views[i as int].id));
        }
        i += 1;
    }
    assert(views.take(i as int) =~= views);
    ids
}

/// The entities of two lists, one after the other, as plain values.
pub proof fn lemma_views_of_joined(a: Seq<Entity>, b: Seq<Entity>)
    ensures
        entity_views(a + b) == entity_views(a) + entity_views(b),
        entity_views(a + b).take(a.len() as int) == entity_views(a),
        entity_views(a + b).skip(a.len() as int) == entity_views(b),
{
    assert(entity_views(a + b) =~= entity_views(a) + entity_views(b));
    assert(entity_views(a + b).take(a.len() as int) =~= entity_views(a));
    assert(entity_views(a + b).skip(a.len() as int) =~= entity_views(b));
}

impl GameState {
    /// A game with a fresh level without parameters.
    pub fn new_with_registry(tile_registry: TileRegistry, object_registry: GameObjectRegistry) -> (g:
        Self)
        ensures
            fresh(g@, tile_registry@, object_registry@, None),
            all_wf(g@.entities),
            ids_numbered(g@),
    {
        GameState::new_with_level(tile_registry, object_registry, None)
    }

    /// A game with a fresh level made with the given parameters.
    pub fn new_with_level(
        tile_registry: TileRegistry,
        object_registry: GameObjectRegistry,
        level_config: Option<LevelConfig>,
    ) -> (g: Self)
        ensures
            fresh(g@, tile_registry@, object_registry@, level_config),
            all_wf(g@.entities),
            ids_numbered(g@),
    {
        let level = match &level_config {
            Some(l) => Some(l),
            None => None,
        };
        let (dungeon, entities, consumables, chests, stairs_position) = MapGenerator::generate_map(
            &tile_registry,
            &object_registry,
            level,
        );
        GameState {
            dungeon,
            entities,
            consumables,
            chests,
            tile_registry,
            object_registry,
            level_config,
            stairs_position,
            player_confirmations: IdSet::new(),
            restart_confirmations: IdSet::new(),
            turn_phase: TurnPhase::PlayerPhase,
            players_acted_this_turn: IdSet::new(),
            current_turn: 1,
            next_consumable_id: 0,
        }
    }

    /// Whether there are players and all of them are dead.
    pub fn are_all_players_dead(&self) -> (r: bool)
        ensures
            r == all_players_dead(self@.entities),
    {
        let ghost views = entity_views(self.entities@);
        let mut any = false;
        let mut i: usize = 0;
        while i < self.entities.len()
            invariant
                i <= self.entities.len(),
                views == entity_views(self.entities@),
                forall|k: int| 0 <= k < i ==> !((#[trigger] views[k]).is_player() && views[k].alive()),
                any == exists|k: int| 0 <= k < i && (#[trigger] views[k]).is_player(),
            decreases self.entities.len() - i,
        {
            if self.entities[i].is_player() {
                if self.entities[i].is_alive() {
                    assert(views[i as int].is_player() && views[i as int].alive());
                    return false;
                }
                assert(views[i as int].is_player());
                any = true;
            }
            i += 1;
        }
        any
    }

    /// The player with the given id.
    pub fn find_player(&self, player_id: &str) -> (r: Option<usize>)
        ensures
            match r {
                Some(i) => is_player_with(self@.entities, player_id@, i as int),
                None => forall|i: int| !is_player_with(self@.entities, player_id@, i),
            },
    {
        let ghost views = entity_views(self.entities@);
        let mut i: usize = 0;
        while i < self.entities.len()
            invariant
                i <= self.entities.len(),
                views == entity_views(self.entities@),
                forall|j: int|
                    0 <= j < i ==> !((#[trigger] views[j]).is_player() && views[j].id == player_id@),
            decreases self.entities.len() - i,
        {
            if self.entities[i].is_player() && same_text(&self.entities[i].id, player_id) {
                assert(views[i as int].is_player() && views[i as int].id == player_id@);
                return Some(i);
            }
            i += 1;
        }
        None
    }

    /// The first player of the list.
    pub fn get_player(&self) -> (r: Option<&Entity>)
        ensures
            match r {
                Some(e) => exists|i: int|
                    is_first_player(self@.entities, i) && *e == self.entities[i],
                None => !has_player(self@.entities),
            },
    {
        let ghost views = entity_views(self.entities@);
        let mut i: usize = 0;
        while i < self.entities.len()
            invariant
                i <= self.entities.len(),
                views == entity_views(self.entities@),
                forall|j: int| 0 <= j < i ==> !(#[trigger] views[j]).is_player(),
            decreases self.entities.len() - i,
        {
            if self.entities[i].is_player() {
                assert(is_first_player(views, i as int));
                return Some(&self.entities[i]);
            }
            i += 1;
        }
        None
    }

    /// The first player of the list, to be changed in place.
    pub fn get_player_mut(&mut self) -> (r: Option<&mut Entity>)
        ensures
            r is Some <==> has_player(old(self)@.entities),
            match r {
                Some(e) => exists|i: int|
                    is_first_player(old(self)@.entities, i) && *e == old(self).entities[i]
                        && final(self)@ == (GameView {
                        entities: old(self)@.entities.update(i, (*final(e))@),
                        ..old(self)@
                    }),
                None => *final(self) == *old(self),
            },
    {
        let ghost views = entity_views(self.entities@);
        let mut i: usize = 0;
        while i < self.entities.len()
            invariant
                i <= self.entities.len(),
                *self == *old(self),
                views == entity_views(self.entities@),
                forall|j: int| 0 <= j < i ==> !(#[trigger] views[j]).is_player(),
            decreases self.entities.len() - i,
        {
            if self.entities[i].is_player() {
                assert(is_first_player(views, i as int));
                let e = &mut self.entities[i];
                proof {
                    assert(entity_views(old(self).entities@.update(i as int, *final(e))) =~= views.update(
                        i as int,
                        (*final(e))@,
                    ));
                }
                return Some(e);
            }
            i += 1;
        }
        None
    }

    /// Whether every player has its id in `ids`.
    fn players_all_in(&self, ids: &IdSet, living_only: bool) -> (r: bool)
        ensures
            r == if living_only {
                all_living_players_in(self@.entities, ids@)
            } else {
                all_players_in(self@.entities, ids@)
            },
    {
        let ghost views = entity_views(self.entities@);
        let mut i: usize = 0;
        while i < self.entities.len()
            invariant
                i <= self.entities.len(),
                views == entity_views(self.entities@),
                forall|j: int|
                    0 <= j < i && (#[trigger] views[j]).is_player() && (!living_only
                        || views[j].alive()) ==> ids@.contains(views[j].id),
            decreases self.entities.len() - i,
        {
            let e = &self.entities[i];
            if e.is_player() && (!living_only || e.is_alive()) {
                if !ids.contains(e.id.as_str()) {
                    assert(views[i as int].is_player());
                    return false;
                }
            }
            i += 1;
        }
        true
    }

    /// Whether the list has a player, or a living one.
    fn any_player(&self, living_only: bool) -> (r: bool)
        ensures
            r == if living_only {
                has_living_player(self@.entities)
            } else {
                has_player(self@.entities)
            },
    {
        let ghost views = entity_views(self.entities@);
        let mut i: usize = 0;
        while i < self.entities.len()
            invariant
                i <= self.entities.len(),
                views == entity_views(self.entities@),
                forall|j: int|
                    0 <= j < i ==> !((#[trigger] views[j]).is_player() && (!living_only
                        || views[j].alive())),
            decreases self.entities.len() - i,
        {
            let e = &self.entities[i];
            if e.is_player() && (!living_only || e.is_alive()) {
                assert(views[i as int].is_player());
                return true;
            }
            i += 1;
        }
        false
    }

    /// Starts the level anew: a fresh dungeon with its monsters, chests and stairs, the
    /// players of before at full health where the level starts, the first turn, and
    /// nothing confirmed.
    pub fn restart_level(&mut self)
        ensures
            restarted(old(self)@, final(self)@),
            all_wf(final(self)@.entities),
            ids_numbered(final(self)@),
    {
        let ids = player_id_list(&self.entities);
        self.player_confirmations.clear();
        self.restart_confirmations.clear();
        self.turn_phase = TurnPhase::PlayerPhase;
        self.players_acted_this_turn.clear();
        self.current_turn = 1;
        let level = match &self.level_config {
            Some(l) => Some(l),
            None => None,
        };
        let (dungeon, mut monsters, consumables, chests, stairs_position) =
            MapGenerator::generate_map(&self.tile_registry, &self.object_registry, level);
        self.dungeon = dungeon;
        self.consumables = consumables;
        self.chests = chests;
        self.stairs_position = stairs_position;
        let spawn = self.dungeon.spawn_point();
        let ghost from = (spawn.0 as int, spawn.1 as int);
        let mut players: Vec<Entity> = Vec::new();
        assert(all_wf(entity_views(monsters@)));
        match self.object_registry.get_object("player") {
            Some(template) => {
                let mut k: usize = 0;
                assert(texts(ids@).take(0) =~= Seq::empty());
                while k < ids.len()
                    invariant
                        k <= ids.len(),
                        players.len() == k,
                        all_wf(entity_views(players@)),
                        from == (spawn.0 as int, spawn.1 as int),
                        respawned(
                            self.dungeon,
                            from,
                            template@,
                            texts(ids@).take(k as int),
                            entity_views(players@),
                        ),
                    decreases ids.len() - k,
                {
                    let cell = if players.len() == 0 {
                        spawn
                    } else {
                        match first_open_beside(
                            &self.dungeon,
                            &players,
                            players[0].x,
                            players[0].y,
                        ) {
                            Some(c) => c,
                            None => spawn,
                        }
                    };
                    let ghost before = entity_views(players@);
                    let player = Entity::from_template(
                        ids[k].clone(),
                        cell.0,
                        cell.1,
                        template,
                        EntityController::Player,
                        &Entity::player_defaults(),
                    );
                    players.push(player);
                    proof {
                        let after = entity_views(players@);
                        assert(after =~= before.push(player@));
                        assert(texts(ids@).take(k + 1) =~= texts(ids@).take(k as int).push(ids[k as int]@));
                        assert(is_respawn_cell(self.dungeon, from, before, place(player@)));
                        assert forall|j: int| 0 <= j < after.len() implies (#[trigger] after[j])
                            == entity_from(
                            template@,
                            texts(ids@).take(k + 1)[j],
                            after[j].x,
                            after[j].y,
                            EntityController::Player,
                            player_defaults(),
                        ) && is_respawn_cell(self.dungeon, from, after.take(j), place(after[j])) by {
                            if j < k {
                                assert(after[j] == before[j]);
                                assert(after.take(j) =~= before.take(j));
                            } else {
                                assert(after.take(j) =~= before);
                            }
                        }
                    }
                    k += 1;
                }
                assert(texts(ids@).take(ids.len() as int) =~= texts(ids@));
            },
            None => {},
        }
        let ghost player_list = players@;
        let ghost monster_list = monsters@;
        players.append(&mut monsters);
        self.entities = players;
        proof {
            let before = old(self)@;
            let after = self@;
            let wanted = if find(before.catalog, "player"@) is Some {
                player_ids(before.entities)
            } else {
                Seq::empty()
            };
            lemma_views_of_joined(player_list, monster_list);
            assert(self.entities@ == player_list + monster_list);
            assert(player_list.len() == wanted.len());
            assert(after.entities.take(wanted.len() as int) == entity_views(player_list));
            assert(after.entities.skip(wanted.len() as int) == entity_views(monster_list));
            assert(self.dungeon.is_spawn(from));
            assert(respawned(
                after.dungeon,
                from,
                find(before.catalog, "player"@)->0,
                wanted,
                after.entities.take(wanted.len() as int),
            ));
            assert(after.level_config == before.level_config);
            assert(seeded(
                after.dungeon,
                after.catalog,
                after.level_config,
                after.entities.skip(wanted.len() as int),
                after.chests,
                after.stairs_position,
            ));
            assert(after.dungeon.generated(after.tile_catalog));
            assert(after.acted == Set::<Seq<char>>::empty());
            assert(after.consumables.len() == 0);
            assert forall|i: int| 0 <= i < after.entities.len() implies (
            #[trigger] after.entities[i]).wf() by {
                if i < player_list.len() {
                    assert(after.entities[i] == entity_views(player_list)[i]);
                } else {
                    assert(after.entities[i] == entity_views(monster_list)[i - player_list.len()]);
                }
            }
        }
    }

    /// Takes note that the player wants to restart the level. Once every player has said
    /// so the level is restarted and the restart reported.
    pub fn confirm_restart(&mut self, player_id: &str) -> (r: Option<GameMessage>)
        ensures
            restart_confirmed(old(self)@, player_id@, final(self)@, opt_message(r)),
            all_wf(old(self)@.entities) ==> all_wf(final(self)@.entities),
            numbers_kept(old(self)@, final(self)@),
    {
        self.restart_confirmations.insert(player_id);
        if self.any_player(false) && self.players_all_in(&self.restart_confirmations, false) {
            self.restart_level();
            Some(GameMessage::level_event(String::from_str("Level restarted!")))
        } else {
            None
        }
    }

    /// Takes note that the player wants to leave the level by the stairs. Reports that
    /// the level is complete once every living player has said so.
    pub fn confirm_stairs(&mut self, player_id: &str) -> (r: Option<GameMessage>)
        ensures
            stairs_confirmed(old(self)@, player_id@, final(self)@, opt_message(r)),
    {
        self.player_confirmations.insert(player_id);
        if self.players_all_in(&self.player_confirmations, true) {
            Some(
                GameMessage::level_event(
                    String::from_str(
                        "Level complete! All players confirmed. Preparing next level...",
                    ),
                ),
            )
        } else {
            None
        }
    }

    /// Lets a player join the game. Returns its place in the list of entities, or nothing
    /// where the catalog has no entry `player`: then nobody joins.
    pub fn add_player(&mut self, player_id: String) -> (r: Option<usize>)
        ensures
            joined(old(self)@, player_id@, final(self)@, r),
            all_wf(old(self)@.entities) ==> all_wf(final(self)@.entities),
    {
        let cell = join_cell(&self.dungeon, &self.entities);
        match self.object_registry.get_object("player") {
            Some(template) => {
                let ghost before = entity_views(self.entities@);
                let player = Entity::from_template(
                    player_id,
                    cell.0,
                    cell.1,
                    template,
                    EntityController::Player,
                    &Entity::player_defaults(),
                );
                let idx = self.entities.len();
                self.entities.push(player);
                proof {
                    assert(entity_views(self.entities@) =~= before.push(player@));
                    assert(is_join_cell(old(self)@.dungeon, before, (cell.0 as int, cell.1 as int)));
                    if all_wf(before) {
                        assert forall|i: int| 0 <= i < self.entities.len() implies (
                        #[trigger] entity_views(self.entities@)[i]).wf() by {
                            if i < before.len() {
                                assert(before[i].wf());
                            }
                        }
                    }
                }
                Some(idx)
            },
            None => None,
        }
    }

    /// Takes the player with the given id out of the game.
    pub fn remove_player(&mut self, player_id: &str)
        ensures
            final(self)@ == (GameView {
                entities: without_player(old(self)@.entities, player_id@),
                ..old(self)@
            }),
    {
        let ghost all = entity_views(self.entities@);
        let mut i: usize = 0;
        let ghost mut done: int = 0;
        proof {
            assert(all.take(0) =~= Seq::empty());
            assert(entity_views(self.entities@).take(0) =~= Seq::empty());
            assert(entity_views(self.entities@).skip(0) =~= all.skip(0));
        }
        while i < self.entities.len()
            invariant
                i <= self.entities.len(),
                0 <= done <= all.len(),
                self.entities.len() - i == all.len() - done,
                entity_views(self.entities@).take(i as int) == without_player(
                    all.take(done),
                    player_id@,
                ),
                entity_views(self.entities@).skip(i as int) == all.skip(done),
                self@ == (GameView { entities: entity_views(self.entities@), ..old(self)@ }),
            decreases self.entities.len() - i,
        {
            let ghost current = entity_views(self.entities@);
            proof {
                assert(current[i as int] == current.skip(i as int)[0]);
                assert(all[done] == all.skip(done)[0]);
                assert(all.take(done + 1).drop_last() =~= all.take(done));
            }
            if self.entities[i].is_player() && same_text(&self.entities[i].id, player_id) {
                self.entities.remove(i);
                proof {
                    let after = entity_views(self.entities@);
                    assert(after =~= current.remove(i as int));
                    assert(after.take(i as int) =~= current.take(i as int));
                    assert(after.skip(i as int) =~= current.skip(i as int).skip(1));
                    assert(all.skip(done + 1) =~= all.skip(done).skip(1));
                }
            } else {
                proof {
                    assert(current.take(i + 1) =~= current.take(i as int).push(current[i as int]));
                    assert(current.skip(i + 1) =~= current.skip(i as int).skip(1));
                    assert(all.skip(done + 1) =~= all.skip(done).skip(1));
                }
                i += 1;
            }
            proof {
                done = done + 1;
            }
        }
        proof {
            assert(entity_views(self.entities@).take(i as int) =~= entity_views(self.entities@));
            assert(all.take(done) =~= all);
        }
    }

    /// Lets entity `entity_idx` try the step (`dx`, `dy`).
    pub fn move_entity(&mut self, entity_idx: usize, dx: i32, dy: i32)
        ensures
            final(self)@ == (GameView {
                entities: after_step(
                    old(self)@.entities,
                    old(self)@.dungeon,
                    old(self)@.chests,
                    old(self)@.catalog,
                    entity_idx as int,
                    dx as int,
                    dy as int,
                ),
                ..old(self)@
            }),
    {
        move_entity(
            &mut self.entities,
            &self.dungeon,
            &self.chests,
            &self.object_registry,
            entity_idx,
            dx,
            dy,
        );
    }

    /// The attack of entity `attacker_idx` on entity `target_idx`.
    pub fn attack_entity(&mut self, attacker_idx: usize, target_idx: usize) -> (r: Option<
        GameMessage,
    >)
        ensures
            exists|rolls: AttackRolls|
                (attacker_idx < old(self).entities.len() ==> rolls_allowed(
                    old(self)@.entities[attacker_idx as int],
                    rolls,
                )) && #[trigger] attack_applied(
                    old(self)@,
                    attacker_idx as int,
                    target_idx as int,
                    rolls,
                    final(self)@,
                    opt_message(r),
                ),
            all_wf(old(self)@.entities) ==> all_wf(final(self)@.entities),
            final(self).entities.len() == old(self).entities.len(),
            r is Some <==> attacker_idx < old(self).entities.len() && target_idx < old(
                self,
            ).entities.len(),
            numbers_kept(old(self)@, final(self)@),
    {
        let ghost before = self@;
        let r = attack_entity(
            &mut self.entities,
            attacker_idx,
            target_idx,
            &self.object_registry,
            &mut self.consumables,
            &mut self.next_consumable_id,
        );
        proof {
            let rolls = choose|rolls: AttackRolls|
                (attacker_idx < old(self).entities.len() ==> rolls_allowed(
                    old(self).entities[attacker_idx as int]@,
                    rolls,
                )) && (AttackResult {
                    entities: entity_views(self.entities@),
                    consumables: consumable_views(self.consumables@),
                    next_id: self.next_consumable_id,
                    message: opt_message(r),
                }) == #[trigger] attack_result(
                    entity_views(old(self).entities@),
                    consumable_views(old(self).consumables@),
                    old(self).next_consumable_id,
                    self.object_registry@,
                    attacker_idx as int,
                    target_idx as int,
                    rolls,
                );
            if attacker_idx < old(self).entities.len() {
                assert(before.entities[attacker_idx as int] == old(self).entities[attacker_idx as int]@);
            }
            assert(attack_applied(
                before,
                attacker_idx as int,
                target_idx as int,
                rolls,
                self@,
                opt_message(r),
            ));
            assert(attacker_idx < old(self).entities.len() ==> rolls_allowed(
                old(self)@.entities[attacker_idx as int],
                rolls,
            ));
            assert(before == old(self)@);
        }
        r
    }

    /// The step that takes entity `entity_idx` from one cell towards another.
    pub fn find_path_step(
        &self,
        start_x: usize,
        start_y: usize,
        target_x: usize,
        target_y: usize,
        entity_idx: usize,
    ) -> (r: Option<(i32, i32)>)
        ensures
            crate::ai::path_step_ok(
                self.dungeon,
                self@.entities,
                entity_idx as int,
                (start_x as int, start_y as int),
                (target_x as int, target_y as int),
                r,
            ),
    {
        crate::ai::find_path_step(
            &self.entities,
            &self.dungeon,
            start_x,
            start_y,
            target_x,
            target_y,
            entity_idx,
        )
    }

    /// Where the stairs of the level belong, for players that start at (`player_x`,
    /// `player_y`).
    pub fn place_stairs(
        dungeon: &Dungeon,
        player_x: usize,
        player_y: usize,
        object_registry: &GameObjectRegistry,
    ) -> (r: Option<(usize, usize)>)
        ensures
            crate::map_generator::stairs_ok(
                *dungeon,
                (player_x as int, player_y as int),
                object_registry@,
                r,
            ),
    {
        MapGenerator::place_stairs(dungeon, player_x, player_y, object_registry)
    }

    /// The turns of all living monsters.
    pub fn process_ai_turns(&mut self) -> (messages: Vec<GameMessage>)
        ensures
            final(self)@ == (GameView { entities: final(self)@.entities, ..old(self)@ }),
            monsters_acted(old(self)@.entities, final(self)@.entities),
            phase_done(
                old(self)@.entities,
                old(self)@.dungeon,
                old(self)@.chests,
                old(self)@.catalog,
                old(self)@.consumables,
                old(self)@.next_consumable_id,
                final(self)@.entities,
                message_views(messages@),
            ),
            all_wf(old(self)@.entities) ==> all_wf(final(self)@.entities),
    {
        process_ai_turns(
            &mut self.entities,
            &self.dungeon,
            &self.chests,
            &self.object_registry,
            &mut self.consumables,
            &mut self.next_consumable_id,
        )
    }
}

/// Whether `after` is the game `before` with the outcome of the attack of entity `ai` on
/// entity `ti` for the given rolls, and `message` the event of the attack.
pub open spec fn attack_applied(
    before: GameView,
    ai: int,
    ti: int,
    rolls: AttackRolls,
    after: GameView,
    message: Option<GameMessageView>,
) -> bool {
    let outcome = attack_result(
        before.entities,
        before.consumables,
        before.next_consumable_id,
        before.catalog,
        ai,
        ti,
        rolls,
    );
    &&& after == (GameView {
        entities: outcome.entities,
        consumables: outcome.consumables,
        next_consumable_id: outcome.next_id,
        ..before
    })
    &&& message == outcome.message
}

/// Whether `after` and `message` are what the wish of a player to restart leads to: the
/// wish is noted, and once every player has uttered it the game is restarted and the
/// restart reported.
pub open spec fn restart_confirmed(
    before: GameView,
    player_id: Seq<char>,
    after: GameView,
    message: Option<GameMessageView>,
) -> bool {
    let noted = GameView {
        restart_confirmations: before.restart_confirmations.insert(player_id),
        ..before
    };
    if has_player(before.entities) && all_players_in(before.entities, noted.restart_confirmations) {
        restarted(noted, after) && message == Some(
            plain_message(MessageType::LevelEvent, "Level restarted!"@),
        )
    } else {
        after == noted && message is None
    }
}

/// Whether `after` and `message` are what the wish of a player to leave by the stairs
/// leads to: the wish is noted, and once every living player has uttered it the level is
/// reported complete.
pub open spec fn stairs_confirmed(
    before: GameView,
    player_id: Seq<char>,
    after: GameView,
    message: Option<GameMessageView>,
) -> bool {
    let noted = GameView {
        player_confirmations: before.player_confirmations.insert(player_id),
        ..before
    };
    &&& after == noted
    &&& message == if all_living_players_in(before.entities, noted.player_confirmations) {
        Some(
            plain_message(
                MessageType::LevelEvent,
                "Level complete! All players confirmed. Preparing next level..."@,
            ),
        )
    } else {
        None
    }
}

/// Whether `after` and `r` are what a player joining the game leads to: the player made
/// from the catalog entry `player` comes last in the list of entities, on the cell where
/// players join. Where the catalog has no such entry nothing changes.
pub open spec fn joined(before: GameView, player_id: Seq<char>, after: GameView, r: Option<usize>) -> bool {
    match find(before.catalog, "player"@) {
        None => r is None && after == before,
        Some(template) => r == Some(before.entities.len() as usize) && exists|c: (usize, usize)|
            #![trigger is_join_cell(before.dungeon, before.entities, (c.0 as int, c.1 as int))]
            is_join_cell(before.dungeon, before.entities, (c.0 as int, c.1 as int)) && after == (
            GameView {
                entities: before.entities.push(
                    entity_from(
                        template,
                        player_id,
                        c.0,
                        c.1,
                        EntityController::Player,
                        player_defaults(),
                    ),
                ),
                ..before
            }),
    }
}


/// Whether chest `i` is the first closed chest of the list on the cell (`x`, `y`).
pub open spec fn first_closed_chest_at(chests: Seq<ChestView>, x: int, y: int, i: int) -> bool {
    &&& 0 <= i < chests.len()
    &&& chests[i].x == x && chests[i].y == y && !chests[i].is_open
    &&& forall|j: int|
        0 <= j < i ==> !((#[trigger] chests[j]).x == x && chests[j].y == y && !chests[j].is_open)
}

/// Whether entity `t` is the enemy that entity `me` finds on the cell: the first living
/// monster of the list there that has another id.
pub open spec fn is_enemy_at(entities: Seq<EntityView>, me: int, c: (int, int), t: int) -> bool {
    &&& 0 <= t < entities.len()
    &&& entities[t].id != entities[me].id && entities[t].at(c.0, c.1) && entities[t].alive()
        && entities[t].is_monster()
    &&& forall|j: int|
        0 <= j < t ==> !((#[trigger] entities[j]).id != entities[me].id && entities[j].at(c.0, c.1)
            && entities[j].alive() && entities[j].is_monster())
}

/// Whether consumable `i` is the first of the list on the cell (`x`, `y`).
pub open spec fn first_consumable_at(items: Seq<ConsumableView>, x: int, y: int, i: int) -> bool {
    &&& 0 <= i < items.len()
    &&& items[i].x == x && items[i].y == y
    &&& forall|j: int| 0 <= j < i ==> !((#[trigger] items[j]).x == x && items[j].y == y)
}

/// The step an action asks for; other actions ask for none.
pub open spec fn action_step(action: Seq<char>) -> Option<(int, int)> {
    if action == "move_up"@ {
        Some((0int, -1int))
    } else if action == "move_down"@ {
        Some((0int, 1int))
    } else if action == "move_left"@ {
        Some((-1int, 0int))
    } else if action == "move_right"@ {
        Some((1int, 0int))
    } else {
        None
    }
}

/// What opening the closed chest `i` on the cell `c` leads to: the chest is open, and
/// where the catalog has consumables one of them lies on the cell and the opening is
/// reported.
pub open spec fn chest_opened(
    before: GameView,
    i: int,
    c: (int, int),
    after: GameView,
    messages: Seq<GameMessageView>,
) -> bool {
    let templates = of_type(before.catalog, "consumable"@);
    let chests = before.chests.update(i, ChestView { is_open: true, ..before.chests[i] });
    if templates.len() == 0 {
        after == (GameView { chests, ..before }) && messages.len() == 0
    } else {
        &&& messages == seq![plain_message(MessageType::LevelEvent, "Chest opened!"@)]
        &&& exists|pick: int|
            0 <= pick < templates.len() && after == (GameView {
                chests,
                consumables: before.consumables.push(
                    new_consumable(
                        before.next_consumable_id,
                        c.0 as usize,
                        c.1 as usize,
                        #[trigger] templates[pick],
                    ),
                ),
                next_consumable_id: next_number(before.next_consumable_id),
                ..before
            })
    }
}

/// What the attack of the player `idx` on the monster `t` leads to: the outcome of the
/// attack for some rolls the player may draw, and its event.
pub open spec fn enemy_attacked(
    before: GameView,
    idx: int,
    t: int,
    after: GameView,
    messages: Seq<GameMessageView>,
) -> bool {
    exists|rolls: AttackRolls|
        rolls_allowed(before.entities[idx], rolls) && messages.len() == 1 && #[trigger] attack_applied(
            before,
            idx,
            t,
            rolls,
            after,
            Some(messages[0]),
        )
}

/// The health gained by healing from `before` to `after`.
pub open spec fn gained(before: u32, after: u32) -> u32 {
    if after >= before {
        (after - before) as u32
    } else {
        0
    }
}

/// What arriving on a cell leads to for the player `idx`: where a consumable lies there
/// whose template has a healing power, the first such consumable heals the player, is
/// reported and is gone.
pub open spec fn picked_up(
    mid: GameView,
    idx: int,
    after: GameView,
    messages: Seq<GameMessageView>,
) -> bool {
    let e = mid.entities[idx];
    if exists|i: int| first_consumable_at(mid.consumables, e.x as int, e.y as int, i) {
        let i = choose|i: int| first_consumable_at(mid.consumables, e.x as int, e.y as int, i);
        match find(mid.catalog, mid.consumables[i].object_id) {
            Some(t) => match t.healing_power {
                Some(power) => {
                    let health = healed(
                        e.current_health as int,
                        power as int,
                        e.max_health as int,
                    ) as u32;
                    &&& after == (GameView {
                        entities: mid.entities.update(idx, EntityView { current_health: health, ..e }),
                        consumables: mid.consumables.remove(i),
                        ..mid
                    })
                    &&& messages == seq![
                        healing_message(t.name, e.id, gained(e.current_health, health), health),
                    ]
                },
                None => after == mid && messages.len() == 0,
            },
            None => after == mid && messages.len() == 0,
        }
    } else {
        after == mid && messages.len() == 0
    }
}

/// What the step (`dx`, `dy`) of the player `idx` leads to where neither a closed chest
/// nor an enemy is on the cell there: the player turns, moves if the cell is free, and
/// picks up what lies where it arrives.
pub open spec fn walked(
    before: GameView,
    idx: int,
    dx: int,
    dy: int,
    after: GameView,
    messages: Seq<GameMessageView>,
) -> bool {
    let mid = GameView {
        entities: after_step(before.entities, before.dungeon, before.chests, before.catalog, idx, dx, dy),
        ..before
    };
    if can_step(before.entities, before.dungeon, before.chests, before.catalog, idx, dx, dy) {
        picked_up(mid, idx, after, messages)
    } else {
        after == mid && messages.len() == 0
    }
}

/// What the step (`dx`, `dy`) of the player `idx` leads to. A step out of the level does
/// nothing. A closed chest on the cell of the step is opened; else an enemy there is
/// attacked; else the player walks.
pub open spec fn acted_on(
    before: GameView,
    idx: int,
    dx: int,
    dy: int,
    after: GameView,
    messages: Seq<GameMessageView>,
) -> bool {
    let c = (before.entities[idx].x + dx, before.entities[idx].y + dy);
    if !(0 <= c.0 < before.dungeon.width && 0 <= c.1 < before.dungeon.height) {
        after == before && messages.len() == 0
    } else if exists|i: int| first_closed_chest_at(before.chests, c.0, c.1, i) {
        chest_opened(
            before,
            choose|i: int| first_closed_chest_at(before.chests, c.0, c.1, i),
            c,
            after,
            messages,
        )
    } else if exists|t: int| is_enemy_at(before.entities, idx, c, t) {
        enemy_attacked(
            before,
            idx,
            choose|t: int| is_enemy_at(before.entities, idx, c, t),
            after,
            messages,
        )
    } else {
        walked(before, idx, dx, dy, after, messages)
    }
}

/// Whether the two games are in the same turn of the same level: they differ at most in
/// the entities, the consumables, the chests and the number of the next consumable.
pub open spec fn same_round(before: GameView, after: GameView) -> bool {
    after == (GameView {
        entities: after.entities,
        consumables: after.consumables,
        chests: after.chests,
        next_consumable_id: after.next_consumable_id,
        ..before
    })
}

/// Whether every consumable of the game bears a number below the number that the next
/// one gets, so that the id of the next one is new.
pub open spec fn ids_numbered(g: GameView) -> bool {
    numbered_below(g.consumables, g.next_consumable_id)
}

/// Whether the consumables of `after` bear numbers below the next, as far as those of
/// `before` did and a number was left.
pub open spec fn numbers_kept(before: GameView, after: GameView) -> bool {
    ids_numbered(before) && before.next_consumable_id < u64::MAX ==> ids_numbered(after)
}

/// The number of the turn after turn `t`.
pub open spec fn next_turn(t: u32) -> u32 {
    if t == u32::MAX {
        t
    } else {
        (t + 1) as u32
    }
}

/// What the end of a player's move leads to. Once there are living players and all of
/// them have acted, the monsters take their turns and the next turn begins, in which
/// nobody has acted yet. Until then nothing happens: no monster moves.
pub open spec fn turn_finished(before: GameView, after: GameView, messages: Seq<GameMessageView>) -> bool {
    if turn_over(before.entities, before.acted) {
        &&& monsters_acted(before.entities, after.entities)
        &&& phase_done(
            before.entities,
            before.dungeon,
            before.chests,
            before.catalog,
            before.consumables,
            before.next_consumable_id,
            after.entities,
            messages,
        )
        &&& after == (GameView {
            entities: after.entities,
            turn_phase: TurnPhase::PlayerPhase,
            acted: Set::<Seq<char>>::empty(),
            current_turn: next_turn(before.current_turn),
            ..before
        })
    } else {
        after == before && messages.len() == 0
    }
}

/// What the move of the player `idx` leads to: a known action is carried out and the
/// player has acted; any other action changes nothing.
pub open spec fn moved(
    before: GameView,
    idx: int,
    action: Seq<char>,
    player_id: Seq<char>,
    mid: GameView,
    messages: Seq<GameMessageView>,
) -> bool {
    match action_step(action) {
        Some(d) => exists|done: GameView|
            #[trigger] acted_on(before, idx, d.0, d.1, done, messages) && mid == (GameView {
                acted: done.acted.insert(player_id),
                ..done
            }),
        None => mid == before && messages.len() == 0,
    }
}

/// The events of an optional event.
pub open spec fn as_list(m: Option<GameMessageView>) -> Seq<GameMessageView> {
    match m {
        Some(x) => seq![x],
        None => Seq::empty(),
    }
}

/// What a command of the player `player_id` leads to.
///
/// Where all players are dead the level is restarted, whatever the command. Else a wish
/// to restart or to take the stairs is noted. Else the command is a move: it counts only
/// in the players' phase, for a player of the game that has not acted in this turn, and
/// is followed by the end of the turn where that is due.
pub open spec fn command_handled(
    before: GameView,
    action: Seq<char>,
    confirm_stairs: Option<bool>,
    confirm_restart: Option<bool>,
    player_id: Seq<char>,
    after: GameView,
    messages: Seq<GameMessageView>,
    level_complete: bool,
    restart_done: bool,
) -> bool {
    if all_players_dead(before.entities) {
        &&& restarted(before, after)
        &&& messages == seq![
            plain_message(MessageType::LevelEvent, "All players died! Level restarted."@),
        ]
        &&& !level_complete && !restart_done
    } else if confirm_restart == Some(true) {
        &&& !level_complete
        &&& exists|m: Option<GameMessageView>|
            #[trigger] restart_confirmed(before, player_id, after, m) && restart_done == (m is Some)
                && messages == as_list(m)
    } else if confirm_stairs == Some(true) {
        &&& !restart_done
        &&& exists|m: Option<GameMessageView>|
            #[trigger] stairs_confirmed(before, player_id, after, m) && level_complete == (m is Some)
                && messages == as_list(m)
    } else if before.turn_phase != TurnPhase::PlayerPhase || before.acted.contains(player_id) || !(
    exists|i: int| is_player_with(before.entities, player_id, i)) {
        after == before && messages.len() == 0 && !level_complete && !restart_done
    } else {
        let idx = choose|i: int| is_player_with(before.entities, player_id, i);
        &&& !level_complete && !restart_done
        &&& exists|mid: GameView, first: Seq<GameMessageView>, second: Seq<GameMessageView>|
            #[trigger] moved(before, idx, action, player_id, mid, first) && #[trigger] turn_finished(
                mid,
                after,
                second,
            ) && messages == first + second
    }
}

/// The step an action asks for.
pub fn parse_action(action: &String) -> (r: Option<(i32, i32)>)
    ensures
        match r {
            Some(d) => action_step(action@) == Some((d.0 as int, d.1 as int)),
            None => action_step(action@) is None,
        },
{
    if same_text(action, "move_up") {
        Some((0, -1))
    } else if same_text(action, "move_down") {
        Some((0, 1))
    } else if same_text(action, "move_left") {
        Some((-1, 0))
    } else if same_text(action, "move_right") {
        Some((1, 0))
    } else {
        None
    }
}

/// The first closed chest on the cell.
pub fn first_closed_chest(chests: &Vec<Chest>, x: usize, y: usize) -> (r: Option<usize>)
    ensures
        match r {
            Some(i) => first_closed_chest_at(chest_views(chests@), x as int, y as int, i as int),
            None => forall|i: int| !first_closed_chest_at(chest_views(chests@), x as int, y as int, i),
        },
{
    let ghost views = chest_views(chests@);
    let mut i: usize = 0;
    while i < chests.len()
        invariant
            i <= chests.len(),
            views == chest_views(chests@),
            forall|j: int|
                0 <= j < i ==> !((#[trigger] views[j]).x == x && views[j].y == y && !views[j].is_open),
        decreases chests.len() - i,
    {
        if chests[i].x == x && chests[i].y == y && !chests[i].is_open {
            assert(views[i as int].x == x && !views[i as int].is_open);
            return Some(i);
        }
        i += 1;
    }
    None
}

/// The enemy that entity `me` finds on the cell.
pub fn enemy_at(entities: &Vec<Entity>, me: usize, x: usize, y: usize) -> (r: Option<usize>)
    requires
        me < entities.len(),
    ensures
        match r {
            Some(t) => is_enemy_at(entity_views(entities@), me as int, (x as int, y as int), t as int),
            None => forall|t: int|
                !is_enemy_at(entity_views(entities@), me as int, (x as int, y as int), t),
        },
{
    let ghost views = entity_views(entities@);
    let mut i: usize = 0;
    while i < entities.len()
        invariant
            i <= entities.len(),
            me < entities.len(),
            views == entity_views(entities@),
            forall|j: int|
                0 <= j < i ==> !((#[trigger] views[j]).id != views[me as int].id && views[j].at(
                    x as int,
                    y as int,
                ) && views[j].alive() && views[j].is_monster()),
        decreases entities.len() - i,
    {
        let e = &entities[i];
        if e.x == x && e.y == y && e.is_alive() && e.is_monster() && !(e.id == entities[me].id) {
            assert(views[i as int].alive() && views[i as int].is_monster());
            return Some(i);
        }
        i += 1;
    }
    None
}

/// The first consumable on the cell.
pub fn first_consumable(items: &Vec<Consumable>, x: usize, y: usize) -> (r: Option<usize>)
    ensures
        match r {
            Some(i) => first_consumable_at(consumable_views(items@), x as int, y as int, i as int),
            None => forall|i: int|
                !first_consumable_at(consumable_views(items@), x as int, y as int, i),
        },
{
    let ghost views = consumable_views(items@);
    let mut i: usize = 0;
    while i < items.len()
        invariant
            i <= items.len(),
            views == consumable_views(items@),
            forall|j: int| 0 <= j < i ==> !((#[trigger] views[j]).x == x && views[j].y == y),
        decreases items.len() - i,
    {
        if items[i].x == x && items[i].y == y {
            assert(views[i as int].x == x);
            return Some(i);
        }
        i += 1;
    }
    None
}

/// The events of two lists, one after the other, as plain values.
pub proof fn lemma_messages_joined(a: Seq<GameMessage>, b: Seq<GameMessage>)
    ensures
        message_views(a + b) == message_views(a) + message_views(b),
{
    assert(message_views(a + b) =~= message_views(a) + message_views(b));
}


impl GameState {
    /// Lets the player `idx` pick up what lies on its cell.
    pub fn pick_up(&mut self, idx: usize) -> (messages: Vec<GameMessage>)
        requires
            idx < old(self).entities.len(),
        ensures
            picked_up(old(self)@, idx as int, final(self)@, message_views(messages@)),
            all_wf(old(self)@.entities) ==> all_wf(final(self)@.entities),
            final(self).entities.len() == old(self).entities.len(),
            same_round(old(self)@, final(self)@),
            numbers_kept(old(self)@, final(self)@),
    {
        let ghost before = self@;
        let mut messages: Vec<GameMessage> = Vec::new();
        let x = self.entities[idx].x;
        let y = self.entities[idx].y;
        match first_consumable(&self.consumables, x, y) {
            Some(ci) => {
                proof {
                    assert forall|k: int|
                        first_consumable_at(before.consumables, x as int, y as int, k) implies k
                        == ci by {}
                    assert(before.consumables[ci as int].object_id == self.consumables[ci as int].object_id@);
                }
                let found = match self.object_registry.get_object(
                    self.consumables[ci].object_id.as_str(),
                ) {
                    Some(t) => match t.healing_power {
                        Some(power) => Some((power, t.name.clone())),
                        None => None,
                    },
                    None => None,
                };
                match found {
                    Some((power, name)) => {
                        let health_before = self.entities[idx].current_health;
                        self.entities[idx].heal(power);
                        let health = self.entities[idx].current_health;
                        let amount = if health >= health_before {
                            health - health_before
                        } else {
                            0
                        };
                        let message = GameMessage::healing(
                            name,
                            self.entities[idx].id.clone(),
                            amount,
                            health,
                        );
                        messages.push(message);
                        self.consumables.remove(ci);
                        proof {
                            let e = before.entities[idx as int];
                            assert(entity_views(self.entities@) =~= before.entities.update(
                                idx as int,
                                EntityView { current_health: health, ..e },
                            ));
                            assert(consumable_views(self.consumables@) =~= before.consumables.remove(
                                ci as int,
                            ));
                            if ids_numbered(before) {
                                lemma_numbered_remove(
                                    before.consumables,
                                    before.next_consumable_id,
                                    ci as int,
                                );
                            }
                            assert(message_views(messages@) =~= seq![message@]);
                            assert forall|i: int|
                                0 <= i < self.entities.len() && before.entities[i].wf() implies (
                            #[trigger] entity_views(self.entities@)[i]).wf() by {}
                        }
                    },
                    None => {},
                }
            },
            None => {},
        }
        messages
    }

    /// Carries out the step (`dx`, `dy`) of the player `idx`: it opens the closed chest
    /// on the cell of the step, or else attacks the enemy there, or else walks and picks
    /// up what lies where it arrives.
    pub fn player_action(&mut self, idx: usize, dx: i32, dy: i32) -> (messages: Vec<GameMessage>)
        requires
            idx < old(self).entities.len(),
        ensures
            acted_on(
                old(self)@,
                idx as int,
                dx as int,
                dy as int,
                final(self)@,
                message_views(messages@),
            ),
            final(self).entities.len() == old(self).entities.len(),
            all_wf(old(self)@.entities) ==> all_wf(final(self)@.entities),
            same_round(old(self)@, final(self)@),
            numbers_kept(old(self)@, final(self)@),
    {
        let ghost before = self@;
        let mut messages: Vec<GameMessage> = Vec::new();
        let to_x: i128 = self.entities[idx].x as i128 + dx as i128;
        let to_y: i128 = self.entities[idx].y as i128 + dy as i128;
        if to_x < 0 || to_y < 0 || to_x >= self.dungeon.width as i128 || to_y
            >= self.dungeon.height as i128 {
            return messages;
        }
        let x = to_x as usize;
        let y = to_y as usize;
        let ghost c = (x as int, y as int);
        match first_closed_chest(&self.chests, x, y) {
            Some(ci) => {
                proof {
                    assert forall|k: int|
                        first_closed_chest_at(before.chests, x as int, y as int, k) implies k
                        == ci by {}
                }
                self.chests[ci].is_open = true;
                let templates = self.object_registry.get_objects_by_type("consumable");
                let ghost opened = before.chests.update(
                    ci as int,
                    ChestView { is_open: true, ..before.chests[ci as int] },
                );
                proof {
                    assert(chest_views(self.chests@) =~= opened);
                }
                if templates.len() > 0 {
                    let mut rng = rand::thread_rng();
                    let pick = random_index(&mut rng, templates.len());
                    let item = Consumable {
                        id: numbered_id("consumable_", self.next_consumable_id),
                        x,
                        y,
                        object_id: templates[pick].id.clone(),
                    };
                    self.consumables.push(item);
                    self.next_consumable_id = if self.next_consumable_id == u64::MAX {
                        0
                    } else {
                        self.next_consumable_id + 1
                    };
                    let message = GameMessage::level_event(String::from_str("Chest opened!"));
                    messages.push(message);
                    proof {
                        let all = of_type(before.catalog, "consumable"@);
                        assert(crate::config::ref_views(templates@)[pick as int] == templates[pick as int]@);
                        assert(consumable_views(self.consumables@) =~= before.consumables.push(
                            new_consumable(before.next_consumable_id, x, y, all[pick as int]),
                        ));
                        assert(message_views(messages@) =~= seq![
                            plain_message(MessageType::LevelEvent, "Chest opened!"@),
                        ]);
                        assert(self@ == (GameView {
                            chests: opened,
                            consumables: before.consumables.push(
                                new_consumable(before.next_consumable_id, x, y, all[pick as int]),
                            ),
                            next_consumable_id: next_number(before.next_consumable_id),
                            ..before
                        }));
                        assert(chest_opened(before, ci as int, c, self@, message_views(messages@)));
                        if ids_numbered(before) && before.next_consumable_id < u64::MAX {
                            lemma_numbered_push(
                                before.consumables,
                                before.next_consumable_id,
                                x,
                                y,
                                all[pick as int],
                            );
                        }
                    }
                } else {
                    proof {
                        assert(crate::config::ref_views(templates@).len() == 0);
                        assert(chest_opened(before, ci as int, c, self@, message_views(messages@)));
                    }
                }
            },
            None => {
                match enemy_at(&self.entities, idx, x, y) {
                    Some(t) => {
                        proof {
                            assert forall|k: int| is_enemy_at(before.entities, idx as int, c, k) implies k
                                == t by {}
                        }
                        let r = self.attack_entity(idx, t);
                        proof {
                            let rolls = choose|rolls: AttackRolls|
                                (idx < before.entities.len() ==> rolls_allowed(
                                    before.entities[idx as int],
                                    rolls,
                                )) && #[trigger] attack_applied(
                                    before,
                                    idx as int,
                                    t as int,
                                    rolls,
                                    self@,
                                    opt_message(r),
                                );
                            assert(opt_message(r) is Some);
                        }
                        match r {
                            Some(m) => {
                                messages.push(m);
                                proof {
                                    assert(message_views(messages@) =~= seq![m@]);
                                    let rolls = choose|rolls: AttackRolls|
                                        (idx < before.entities.len() ==> rolls_allowed(
                                            before.entities[idx as int],
                                            rolls,
                                        )) && #[trigger] attack_applied(
                                            before,
                                            idx as int,
                                            t as int,
                                            rolls,
                                            self@,
                                            Some(m@),
                                        );
                                    assert(attack_applied(
                                        before,
                                        idx as int,
                                        t as int,
                                        rolls,
                                        self@,
                                        Some(message_views(messages@)[0]),
                                    ));
                                    assert(enemy_attacked(
                                        before,
                                        idx as int,
                                        t as int,
                                        self@,
                                        message_views(messages@),
                                    ));
                                }
                            },
                            None => {},
                        }
                    },
                    None => {
                        let went = move_entity(
                            &mut self.entities,
                            &self.dungeon,
                            &self.chests,
                            &self.object_registry,
                            idx,
                            dx,
                            dy,
                        );
                        if went {
                            messages = self.pick_up(idx);
                        }
                        proof {
                            assert(walked(
                                before,
                                idx as int,
                                dx as int,
                                dy as int,
                                self@,
                                message_views(messages@),
                            ));
                        }
                    },
                }
            },
        }
        messages
    }

    /// Ends the move of a player: once there are living players and all of them have
    /// acted the monsters take their turns and the next turn begins. Returns the events
    /// of the monsters' attacks.
    pub fn finish_turn(&mut self) -> (messages: Vec<GameMessage>)
        ensures
            turn_finished(old(self)@, final(self)@, message_views(messages@)),
            all_wf(old(self)@.entities) ==> all_wf(final(self)@.entities),
    {
        if self.any_player(true) && self.players_all_in(&self.players_acted_this_turn, true) {
            self.turn_phase = TurnPhase::AIPhase;
            let messages = self.process_ai_turns();
            self.turn_phase = TurnPhase::PlayerPhase;
            self.players_acted_this_turn.clear();
            self.current_turn = if self.current_turn == u32::MAX {
                self.current_turn
            } else {
                self.current_turn + 1
            };
            messages
        } else {
            Vec::new()
        }
    }

    /// Handles one command of the player `player_id`. Returns the events of the command,
    /// whether the level is complete and whether a restart was confirmed.
    pub fn handle_command(&mut self, cmd: &PlayerCommand, player_id: &str) -> (r: (
        Vec<GameMessage>,
        bool,
        bool,
    ))
        ensures
            command_handled(
                old(self)@,
                cmd.action@,
                cmd.confirm_stairs,
                cmd.confirm_restart,
                player_id@,
                final(self)@,
                message_views(r.0@),
                r.1,
                r.2,
            ),
            old(self).turn_phase == TurnPhase::PlayerPhase ==> final(self).turn_phase
                == TurnPhase::PlayerPhase,
            final(self).current_turn != old(self).current_turn ==> final(self)@.acted == Set::<
                Seq<char>,
            >::empty(),
            all_wf(old(self)@.entities) ==> all_wf(final(self)@.entities),
            numbers_kept(old(self)@, final(self)@),
    {
        let ghost before = self@;
        let mut messages: Vec<GameMessage> = Vec::new();
        if self.are_all_players_dead() {
            self.restart_level();
            let message = GameMessage::level_event(
                String::from_str("All players died! Level restarted."),
            );
            messages.push(message);
            proof {
                assert(message_views(messages@) =~= seq![
                    plain_message(MessageType::LevelEvent, "All players died! Level restarted."@),
                ]);
            }
            return (messages, false, false);
        }
        if let Some(true) = cmd.confirm_restart {
            let r = self.confirm_restart(player_id);
            let done = r.is_some();
            proof {
                assert(restart_confirmed(before, player_id@, self@, opt_message(r)));
            }
            match r {
                Some(m) => {
                    messages.push(m);
                    proof {
                        assert(message_views(messages@) =~= as_list(Some(m@)));
                    }
                },
                None => {
                    proof {
                        assert(message_views(messages@) =~= as_list(None));
                    }
                },
            }
            return (messages, false, done);
        }
        if let Some(true) = cmd.confirm_stairs {
            let r = self.confirm_stairs(player_id);
            let done = r.is_some();
            proof {
                assert(stairs_confirmed(before, player_id@, self@, opt_message(r)));
            }
            match r {
                Some(m) => {
                    messages.push(m);
                    proof {
                        assert(message_views(messages@) =~= as_list(Some(m@)));
                    }
                },
                None => {
                    proof {
                        assert(message_views(messages@) =~= as_list(None));
                    }
                },
            }
            return (messages, done, false);
        }
        let in_phase = match self.turn_phase {
            TurnPhase::PlayerPhase => true,
            TurnPhase::AIPhase => false,
        };
        if !in_phase || self.players_acted_this_turn.contains(player_id) {
            return (messages, false, false);
        }
        match self.find_player(player_id) {
            None => (messages, false, false),
            Some(idx) => {
                proof {
                    assert forall|k: int| is_player_with(before.entities, player_id@, k) implies k
                        == idx by {}
                }
                let messages = self.move_player(idx, &cmd.action, player_id);
                proof {
                    assert(!all_players_dead(before.entities));
                    assert(cmd.confirm_restart != Some(true));
                    assert(cmd.confirm_stairs != Some(true));
                    assert(before.turn_phase == TurnPhase::PlayerPhase);
                    assert(!before.acted.contains(player_id@));
                    assert(is_player_with(before.entities, player_id@, idx as int));
                    let chosen = choose|i: int| is_player_with(before.entities, player_id@, i);
                    assert(chosen == idx);
                }
                (messages, false, false)
            },
        }
    }

    /// The move of the player `idx`: a known action is carried out and the player has
    /// acted; then the turn ends where that is due.
    pub fn move_player(&mut self, idx: usize, action: &String, player_id: &str) -> (messages: Vec<
        GameMessage,
    >)
        requires
            idx < old(self).entities.len(),
        ensures
            exists|mid: GameView, first: Seq<GameMessageView>, second: Seq<GameMessageView>|
                #[trigger] moved(old(self)@, idx as int, action@, player_id@, mid, first)
                    && #[trigger] turn_finished(mid, final(self)@, second) && message_views(
                    messages@,
                ) == first + second,
            final(self).turn_phase == old(self).turn_phase || final(self).turn_phase
                == TurnPhase::PlayerPhase,
            final(self).current_turn != old(self).current_turn ==> final(self)@.acted == Set::<
                Seq<char>,
            >::empty(),
            all_wf(old(self)@.entities) ==> all_wf(final(self)@.entities),
            numbers_kept(old(self)@, final(self)@),
    {
        let ghost before = self@;
        let mut messages: Vec<GameMessage> = Vec::new();
        match parse_action(action) {
            Some((dx, dy)) => {
                messages = self.player_action(idx, dx, dy);
                let ghost done = self@;
                self.players_acted_this_turn.insert(player_id);
                proof {
                    assert(self@ == (GameView { acted: done.acted.insert(player_id@), ..done }));
                    let d = action_step(action@)->0;
                    assert(d == (dx as int, dy as int));
                    assert(acted_on(before, idx as int, d.0, d.1, done, message_views(messages@)));
                    assert(moved(
                        before,
                        idx as int,
                        action@,
                        player_id@,
                        self@,
                        message_views(messages@),
                    ));
                }
            },
            None => {
                proof {
                    assert(message_views(messages@).len() == 0);
                    assert(moved(
                        before,
                        idx as int,
                        action@,
                        player_id@,
                        self@,
                        message_views(messages@),
                    ));
                }
            },
        }
        let ghost mid = self@;
        let ghost first = messages@;
        let mut after = self.finish_turn();
        let ghost second = after@;
        messages.append(&mut after);
        proof {
            lemma_messages_joined(first, second);
            assert(moved(before, idx as int, action@, player_id@, mid, message_views(first)));
            assert(turn_finished(mid, self@, message_views(second)));
            assert(message_views(messages@) == message_views(first) + message_views(second));
        }
        messages
    }
}

/// Whether the two lists hold the same actors: entity for entity the same id, the same
/// kind and, for a player, alive in the one as in the other.
pub open spec fn same_actors(before: Seq<EntityView>, after: Seq<EntityView>) -> bool {
    &&& after.len() == before.len()
    &&& forall|k: int|
        0 <= k < before.len() ==> (#[trigger] after[k]).id == before[k].id && after[k].controller
            == before[k].controller && (before[k].is_player() ==> after[k].alive()
            == before[k].alive())
}

/// The step of a living player leaves the actors who they are: no player joins, leaves
/// or dies by it, and it is still the same turn.
pub proof fn lemma_action_keeps_actors(
    before: GameView,
    idx: int,
    dx: int,
    dy: int,
    after: GameView,
    messages: Seq<GameMessageView>,
)
    requires
        acted_on(before, idx, dx, dy, after, messages),
        0 <= idx < before.entities.len(),
        before.entities[idx].is_player(),
        before.entities[idx].alive(),
        all_wf(before.entities),
    ensures
        same_actors(before.entities, after.entities),
        after.acted == before.acted,
        after.turn_phase == before.turn_phase,
        after.current_turn == before.current_turn,
{
    let c = (before.entities[idx].x + dx, before.entities[idx].y + dy);
    let e = before.entities[idx];
    assert(e.wf());
    if !(0 <= c.0 < before.dungeon.width && 0 <= c.1 < before.dungeon.height) {
    } else if exists|i: int| first_closed_chest_at(before.chests, c.0, c.1, i) {
    } else if exists|t: int| is_enemy_at(before.entities, idx, c, t) {
        let t = choose|t: int| is_enemy_at(before.entities, idx, c, t);
        let rolls = choose|rolls: AttackRolls|
            rolls_allowed(before.entities[idx], rolls) && messages.len() == 1
                && #[trigger] attack_applied(before, idx, t, rolls, after, Some(messages[0]));
        assert(before.entities[t].is_monster());
        assert forall|k: int| 0 <= k < before.entities.len() implies (#[trigger] after.entities[k]).id
            == before.entities[k].id && after.entities[k].controller == before.entities[k].controller
            && (before.entities[k].is_player() ==> after.entities[k].alive()
            == before.entities[k].alive()) by {}
    } else {
        let stepped = after_step(
            before.entities,
            before.dungeon,
            before.chests,
            before.catalog,
            idx,
            dx,
            dy,
        );
        assert forall|k: int| 0 <= k < before.entities.len() implies (#[trigger] stepped[k]).id
            == before.entities[k].id && stepped[k].controller == before.entities[k].controller
            && stepped[k].current_health == before.entities[k].current_health
            && stepped[k].max_health == before.entities[k].max_health by {}
        let mid = GameView { entities: stepped, ..before };
        let moved_to = stepped[idx];
        assert(moved_to.current_health > 0 && moved_to.current_health <= moved_to.max_health);
        if can_step(before.entities, before.dungeon, before.chests, before.catalog, idx, dx, dy) {
            assert(picked_up(mid, idx, after, messages));
            if exists|i: int| first_consumable_at(mid.consumables, moved_to.x as int, moved_to.y as int, i) {
                let i = choose|i: int|
                    first_consumable_at(mid.consumables, moved_to.x as int, moved_to.y as int, i);
                match find(mid.catalog, mid.consumables[i].object_id) {
                    Some(t) => match t.healing_power {
                        Some(power) => {
                            let health = healed(
                                moved_to.current_health as int,
                                power as int,
                                moved_to.max_health as int,
                            );
                            assert(0 < health <= moved_to.max_health);
                            assert(after.entities == stepped.update(
                                idx,
                                EntityView { current_health: health as u32, ..moved_to },
                            ));
                        },
                        None => {},
                    },
                    None => {},
                }
            }
        } else {
            assert(after == mid);
        }
        assert(after.entities.len() == before.entities.len());
        assert forall|k: int| 0 <= k < before.entities.len() implies (#[trigger] after.entities[k]).id
            == before.entities[k].id && after.entities[k].controller == before.entities[k].controller
            && (before.entities[k].is_player() ==> after.entities[k].alive()
            == before.entities[k].alive()) by {
            assert(stepped[k].id == before.entities[k].id);
            if k != idx {
                assert(after.entities[k] == stepped[k]);
            }
        }
    }
}

/// The move of the last living player who had not acted ends the turn: the monsters
/// have taken their turns, nobody has acted in the new turn, its number is the next and
/// it is the players' phase again.
pub proof fn lemma_last_move_begins_turn(
    before: GameView,
    action: Seq<char>,
    confirm_stairs: Option<bool>,
    confirm_restart: Option<bool>,
    player_id: Seq<char>,
    idx: int,
    after: GameView,
    messages: Seq<GameMessageView>,
    level_complete: bool,
    restart_done: bool,
)
    requires
        command_handled(
            before,
            action,
            confirm_stairs,
            confirm_restart,
            player_id,
            after,
            messages,
            level_complete,
            restart_done,
        ),
        all_wf(before.entities),
        before.turn_phase == TurnPhase::PlayerPhase,
        confirm_stairs != Some(true),
        confirm_restart != Some(true),
        action_step(action) is Some,
        is_player_with(before.entities, player_id, idx),
        before.entities[idx].alive(),
        !before.acted.contains(player_id),
        all_living_players_in(before.entities, before.acted.insert(player_id)),
    ensures
        after.acted == Set::<Seq<char>>::empty(),
        after.current_turn == next_turn(before.current_turn),
        before.current_turn < u32::MAX ==> after.current_turn == before.current_turn + 1,
        after.turn_phase == TurnPhase::PlayerPhase,
        exists|mid: Seq<EntityView>|
            same_actors(before.entities, mid) && #[trigger] monsters_acted(mid, after.entities),
        !level_complete,
        !restart_done,
{
    assert(has_living_player(before.entities));
    assert(!all_players_dead(before.entities));
    let chosen = choose|i: int| is_player_with(before.entities, player_id, i);
    assert(chosen == idx) by {
        if chosen < idx {
            assert(before.entities[chosen].is_player());
        } else if idx < chosen {
            assert(before.entities[idx].is_player());
        }
    }
    let (mid, first, second) = choose|
        mid: GameView,
        first: Seq<GameMessageView>,
        second: Seq<GameMessageView>,
    |
        #[trigger] moved(before, idx, action, player_id, mid, first) && #[trigger] turn_finished(
            mid,
            after,
            second,
        ) && messages == first + second;
    let d = action_step(action)->0;
    let done = choose|done: GameView|
        #[trigger] acted_on(before, idx, d.0, d.1, done, first) && mid == (GameView {
            acted: done.acted.insert(player_id),
            ..done
        });
    lemma_action_keeps_actors(before, idx, d.0, d.1, done, first);
    assert(mid.entities[idx].is_player() && mid.entities[idx].alive());
    assert(has_living_player(mid.entities));
    assert forall|i: int|
        0 <= i < mid.entities.len() && (#[trigger] mid.entities[i]).is_player()
            && mid.entities[i].alive() implies mid.acted.contains(mid.entities[i].id) by {
        assert(before.entities[i].is_player() && before.entities[i].alive());
    }
    assert(turn_over(mid.entities, mid.acted));
    assert(monsters_acted(mid.entities, after.entities));
}

/// A restart brings every player back alive and at full health, where the catalog entry
/// of the players does not state a health of nothing.
pub proof fn lemma_restart_revives(before: GameView, after: GameView)
    requires
        restarted(before, after),
        find(before.catalog, "player"@) is Some,
        find(before.catalog, "player"@)->0.health != Some(0u32),
    ensures
        player_ids(before.entities).len() <= after.entities.len(),
        forall|k: int|
            0 <= k < player_ids(before.entities).len() ==> (#[trigger] after.entities[k]).is_player()
                && after.entities[k].id == player_ids(before.entities)[k]
                && after.entities[k].current_health == after.entities[k].max_health
                && after.entities[k].alive(),
{
    let ids = player_ids(before.entities);
    let template = find(before.catalog, "player"@)->0;
    let spawn = choose|spawn: (int, int)|
        #![trigger after.dungeon.is_spawn(spawn)]
        after.dungeon.is_spawn(spawn) && respawned(
            after.dungeon,
            spawn,
            template,
            ids,
            after.entities.take(ids.len() as int),
        );
    let players = after.entities.take(ids.len() as int);
    assert forall|k: int| 0 <= k < ids.len() implies (#[trigger] after.entities[k]).is_player()
        && after.entities[k].id == ids[k] && after.entities[k].current_health
        == after.entities[k].max_health && after.entities[k].alive() by {
        assert(players[k] == after.entities[k]);
        assert(players[k] == entity_from(
            template,
            ids[k],
            players[k].x,
            players[k].y,
            EntityController::Player,
            player_defaults(),
        ));
    }
}

/// A player who steps onto a closed chest opens it: where the catalog has consumables,
/// one of them lies on the cell of the chest afterwards, under an id that no other
/// consumable has, and the opening is reported. The player stays where it is.
pub proof fn lemma_chest_gives_consumable(
    before: GameView,
    idx: int,
    dx: int,
    dy: int,
    i: int,
    after: GameView,
    messages: Seq<GameMessageView>,
)
    requires
        acted_on(before, idx, dx, dy, after, messages),
        0 <= before.entities[idx].x + dx < before.dungeon.width,
        0 <= before.entities[idx].y + dy < before.dungeon.height,
        first_closed_chest_at(
            before.chests,
            before.entities[idx].x + dx,
            before.entities[idx].y + dy,
            i,
        ),
        of_type(before.catalog, "consumable"@).len() > 0,
        ids_numbered(before),
    ensures
        after.entities == before.entities,
        after.chests == before.chests.update(i, ChestView { is_open: true, ..before.chests[i] }),
        after.consumables.len() == before.consumables.len() + 1,
        after.consumables.drop_last() == before.consumables,
        after.consumables.last().x == before.chests[i].x,
        after.consumables.last().y == before.chests[i].y,
        exists|pick: int|
            0 <= pick < of_type(before.catalog, "consumable"@).len() && after.consumables.last().object_id
                == (#[trigger] of_type(before.catalog, "consumable"@)[pick]).id,
        forall|k: int|
            0 <= k < before.consumables.len() ==> (#[trigger] before.consumables[k]).id
                != after.consumables.last().id,
        messages == seq![plain_message(MessageType::LevelEvent, "Chest opened!"@)],
{
    let c = (before.entities[idx].x + dx, before.entities[idx].y + dy);
    let templates = of_type(before.catalog, "consumable"@);
    let chosen = choose|k: int| first_closed_chest_at(before.chests, c.0, c.1, k);
    assert(chosen == i) by {
        if chosen < i {
            assert(!(before.chests[chosen].x == c.0 && before.chests[chosen].y == c.1
                && !before.chests[chosen].is_open));
        } else if i < chosen {
            assert(!(before.chests[i].x == c.0 && before.chests[i].y == c.1 && !before.chests[i].is_open));
        }
    }
    assert(chest_opened(before, i, c, after, messages));
    let pick = choose|pick: int|
        0 <= pick < templates.len() && after == (GameView {
            chests: before.chests.update(i, ChestView { is_open: true, ..before.chests[i] }),
            consumables: before.consumables.push(
                new_consumable(
                    before.next_consumable_id,
                    c.0 as usize,
                    c.1 as usize,
                    #[trigger] templates[pick],
                ),
            ),
            next_consumable_id: next_number(before.next_consumable_id),
            ..before
        });
    let item = new_consumable(before.next_consumable_id, c.0 as usize, c.1 as usize, templates[pick]);
    assert(after.consumables == before.consumables.push(item));
    assert(after.consumables.drop_last() =~= before.consumables);
    assert(after.consumables.last() == item);
    lemma_next_id_is_new(
        before.consumables,
        before.next_consumable_id,
        c.0 as usize,
        c.1 as usize,
        templates[pick],
    );
}

/// A fresh game has a room at least where its parameters ask for one, and always
/// without parameters; with a room, its level starts on a cell that can be walked on,
/// and so stand its monsters, its chests and its stairs.
pub proof fn lemma_fresh_on_floor(
    g: GameView,
    tile_catalog: Seq<GameObjectView>,
    catalog: Seq<GameObjectView>,
    level: Option<LevelConfig>,
)
    requires
        fresh(g, tile_catalog, catalog, level),
    ensures
        (level matches Some(l) ==> l.min_rooms >= 1) ==> g.dungeon.rooms.len() >= 1,
        g.dungeon.rooms.len() >= 1 ==> forall|spawn: (int, int)|
            #[trigger] g.dungeon.is_spawn(spawn) ==> g.dungeon.walkable(spawn.0, spawn.1),
        forall|k: int|
            0 <= k < g.entities.len() ==> g.dungeon.walkable(
                (#[trigger] g.entities[k]).x as int,
                g.entities[k].y as int,
            ),
        forall|k: int|
            0 <= k < g.chests.len() ==> g.dungeon.walkable(
                (#[trigger] g.chests[k]).x as int,
                g.chests[k].y as int,
            ),
        g.stairs_position matches Some(c) ==> g.dungeon.walkable(c.0 as int, c.1 as int),
{
    lemma_rooms_have_floor(g.dungeon, tile_catalog);
    lemma_seeded_on_floor(g.dungeon, catalog, level, g.entities, g.chests, g.stairs_position);
}

/// After a restart the level has a room at least where its parameters ask for one, and
/// always without parameters; with a room, the level starts on a cell that can be
/// walked on, and every entity, every chest and the stairs are on such cells.
pub proof fn lemma_restart_on_floor(before: GameView, after: GameView)
    requires
        restarted(before, after),
    ensures
        (after.level_config matches Some(l) ==> l.min_rooms >= 1) ==> after.dungeon.rooms.len() >= 1,
        after.dungeon.rooms.len() >= 1 ==> forall|spawn: (int, int)|
            #[trigger] after.dungeon.is_spawn(spawn) ==> after.dungeon.walkable(spawn.0, spawn.1),
        after.dungeon.rooms.len() >= 1 ==> forall|k: int|
            0 <= k < after.entities.len() ==> after.dungeon.walkable(
                (#[trigger] after.entities[k]).x as int,
                after.entities[k].y as int,
            ),
        forall|k: int|
            0 <= k < after.chests.len() ==> after.dungeon.walkable(
                (#[trigger] after.chests[k]).x as int,
                after.chests[k].y as int,
            ),
        after.stairs_position matches Some(c) ==> after.dungeon.walkable(c.0 as int, c.1 as int),
{
    let d = after.dungeon;
    let ids = if find(before.catalog, "player"@) is Some {
        player_ids(before.entities)
    } else {
        Seq::empty()
    };
    let count = ids.len() as int;
    let monsters = after.entities.skip(count);
    let players = after.entities.take(count);
    lemma_rooms_have_floor(d, after.tile_catalog);
    lemma_seeded_on_floor(
        d,
        after.catalog,
        after.level_config,
        monsters,
        after.chests,
        after.stairs_position,
    );
    if d.rooms.len() >= 1 {
        let spawn = choose|spawn: (int, int)|
            #![trigger d.is_spawn(spawn)]
            d.is_spawn(spawn) && respawned(
                d,
                spawn,
                find(before.catalog, "player"@)->0,
                ids,
                players,
            );
        assert(d.walkable(spawn.0, spawn.1));
        assert forall|k: int| 0 <= k < after.entities.len() implies d.walkable(
            (#[trigger] after.entities[k]).x as int,
            after.entities[k].y as int,
        ) by {
            if k < count {
                assert(players[k] == after.entities[k]);
                assert(is_respawn_cell(d, spawn, players.take(k), place(players[k])));
            } else {
                assert(monsters[k - count] == after.entities[k]);
            }
        }
    }
}

} // verus!
