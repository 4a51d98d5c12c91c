//! The picture of the game that is sent to a player after each command.

use crate::chest::{chest_views, Chest, ChestView};
use crate::combat::{display_name, name_of};
use crate::consumable::{consumable_views, Consumable, ConsumableView};
use crate::entity::{entity_views, Entity, EntityController, EntityView};
use crate::game_object::GameObjectView;
use crate::game_state::{all_players_dead, GameState, GameView, TurnPhase};
use crate::message::GameMessage;
use crate::text::{same_text, text_of};
use crate::tile::Tile;
use vstd::prelude::*;
use vstd::string::*;

verus! {

/// An entity as it is sent.
#[derive(Debug)]
pub struct EntityData {
    pub id: String,
    pub object_id: String,
    pub x: usize,
    pub y: usize,
    pub controller: EntityController,
    pub current_health: u32,
    pub max_health: u32,
    pub attack: i32,
    pub defense: i32,
    pub crit_chance_percent: u32,
    pub crit_damage_percent: u32,
    pub facing_right: bool,
}

/// A consumable as it is sent.
#[derive(Debug)]
pub struct ConsumableData {
    pub id: String,
    pub object_id: String,
    pub x: usize,
    pub y: usize,
}

/// A chest as it is sent.
#[derive(Debug)]
pub struct ChestData {
    pub id: String,
    pub object_id: String,
    pub open_object_id: Option<String>,
    pub x: usize,
    pub y: usize,
    pub is_open: bool,
}

/// A player as it is sent.
#[derive(Debug)]
pub struct PlayerData {
    pub id: String,
    pub name: String,
    pub is_alive: bool,
    pub has_acted_this_turn: bool,
}

/// A cell of the grid as it is sent.
#[derive(Debug)]
pub struct TileData {
    pub walkable: bool,
    pub tile_id: String,
}

/// The picture of the game for one player.
#[derive(Debug)]
pub struct GameUpdate {
    pub map: Vec<Vec<TileData>>,
    pub entities: Vec<EntityData>,
    pub consumables: Vec<ConsumableData>,
    pub chests: Vec<ChestData>,
    pub players: Vec<PlayerData>,
    pub current_player_id: Option<String>,
    pub width: usize,
    pub height: usize,
    pub messages: Vec<GameMessage>,
    pub stairs_position: Option<(usize, usize)>,
    pub on_stairs: bool,
    pub level_complete: bool,
    pub all_players_dead: bool,
    pub restart_confirmed: bool,
    pub turn_phase: String,
    pub current_turn: u32,
    pub is_my_turn: bool,
}

impl View for EntityData {
    type V = EntityView;

    /// The entity that is sent; the spread of its attack is not sent and counts as none.
    open spec fn view(&self) -> EntityView {
        EntityView {
            id: self.id@,
            x: self.x,
            y: self.y,
            object_id: self.object_id@,
            attack: self.attack,
            defense: self.defense,
            attack_spread_percent: 0,
            crit_chance_percent: self.crit_chance_percent,
            crit_damage_percent: self.crit_damage_percent,
            max_health: self.max_health,
            current_health: self.current_health,
            controller: self.controller,
            facing_right: self.facing_right,
        }
    }
}

impl View for ConsumableData {
    type V = ConsumableView;

    open spec fn view(&self) -> ConsumableView {
        ConsumableView { id: self.id@, x: self.x, y: self.y, object_id: self.object_id@ }
    }
}

impl View for ChestData {
    type V = ChestView;

    open spec fn view(&self) -> ChestView {
        ChestView {
            id: self.id@,
            x: self.x,
            y: self.y,
            object_id: self.object_id@,
            open_object_id: match self.open_object_id {
                Some(s) => Some(s@),
                None => None,
            },
            is_open: self.is_open,
        }
    }
}

/// A player that is sent, as plain values.
pub ghost struct PlayerView {
    pub id: Seq<char>,
    pub name: Seq<char>,
    pub is_alive: bool,
    pub has_acted_this_turn: bool,
}

impl View for PlayerData {
    type V = PlayerView;

    open spec fn view(&self) -> PlayerView {
        PlayerView {
            id: self.id@,
            name: self.name@,
            is_alive: self.is_alive,
            has_acted_this_turn: self.has_acted_this_turn,
        }
    }
}

/// The entity as it is sent: without the spread of its attack.
pub open spec fn sent(e: EntityView) -> EntityView {
    EntityView { attack_spread_percent: 0, ..e }
}

/// The living entities of the list as they are sent.
pub open spec fn living_sent(entities: Seq<EntityView>) -> Seq<EntityView>
    decreases entities.len(),
{
    if entities.len() == 0 {
        Seq::empty()
    } else {
        let rest = living_sent(entities.drop_last());
        if entities.last().alive() {
            rest.push(sent(entities.last()))
        } else {
            rest
        }
    }
}

/// The players of the game as they are sent.
pub open spec fn players_sent(
    entities: Seq<EntityView>,
    catalog: Seq<GameObjectView>,
    acted: Set<Seq<char>>,
) -> Seq<PlayerView>
    decreases entities.len(),
{
    if entities.len() == 0 {
        Seq::empty()
    } else {
        let rest = players_sent(entities.drop_last(), catalog, acted);
        let e = entities.last();
        if e.is_player() {
            rest.push(
                PlayerView {
                    id: e.id,
                    name: name_of(catalog, e),
                    is_alive: e.alive(),
                    has_acted_this_turn: acted.contains(e.id),
                },
            )
        } else {
            rest
        }
    }
}

/// The chest as it is sent: without the entry of its open state.
pub open spec fn chest_sent(c: ChestView) -> ChestView {
    ChestView { open_object_id: None, ..c }
}

/// Whether an entity with the given id stands on the cell.
pub open spec fn stands_at(entities: Seq<EntityView>, id: Seq<char>, c: (usize, usize)) -> bool {
    exists|i: int|
        0 <= i < entities.len() && (#[trigger] entities[i]).id == id && entities[i].x == c.0
            && entities[i].y == c.1
}

/// Whether the player with the given id stands on the stairs.
pub open spec fn is_on_stairs(g: GameView, player: Option<Seq<char>>) -> bool {
    player is Some && g.stairs_position is Some && stands_at(
        g.entities,
        player->0,
        g.stairs_position->0,
    )
}

/// Whether there is a living player with the given id.
pub open spec fn plays(entities: Seq<EntityView>, id: Seq<char>) -> bool {
    exists|i: int|
        0 <= i < entities.len() && (#[trigger] entities[i]).id == id && entities[i].is_player()
            && entities[i].alive()
}

/// Whether the player with the given id may move now.
pub open spec fn may_move(g: GameView, player: Option<Seq<char>>) -> bool {
    player is Some && g.turn_phase == TurnPhase::PlayerPhase && !g.acted.contains(player->0) && plays(
        g.entities,
        player->0,
    )
}

/// The name of a phase as it is sent.
pub open spec fn phase_name(phase: TurnPhase) -> Seq<char> {
    match phase {
        TurnPhase::PlayerPhase => "player"@,
        TurnPhase::AIPhase => "ai"@,
    }
}

/// Whether `map` shows the grid: each cell with its template and whether it can be
/// walked on.
pub open spec fn shows_grid(map: Seq<Vec<TileData>>, tiles: Seq<Vec<Tile>>) -> bool {
    &&& map.len() == tiles.len()
    &&& forall|y: int| 0 <= y < tiles.len() ==> (#[trigger] map[y]).len() == tiles[y].len()
    &&& forall|y: int, x: int|
        0 <= y < tiles.len() && 0 <= x < tiles[y].len() ==> (#[trigger] map[y][x]).walkable
            == tiles[y][x].walkable && map[y][x].tile_id@ == tiles[y][x].tile_id@
}

/// Whether `u` is the picture of the game `g` for the given player: the grid, the living
/// entities, the consumables, the chests and the players, whether the player stands on
/// the stairs and may move, and no events and no outcome of a command yet.
pub open spec fn pictures(u: GameUpdate, g: GameView, player: Option<Seq<char>>) -> bool {
    &&& shows_grid(u.map@, g.dungeon.tiles@)
    &&& u.entities@.map_values(|e: EntityData| e@) == living_sent(g.entities)
    &&& u.consumables@.map_values(|c: ConsumableData| c@) == g.consumables
    &&& u.chests@.map_values(|c: ChestData| c@) == g.chests.map_values(|c: ChestView| chest_sent(c))
    &&& u.players@.map_values(|p: PlayerData| p@) == players_sent(g.entities, g.catalog, g.acted)
    &&& (match u.current_player_id {
        Some(s) => Some(s@),
        None => None,
    }) == player
    &&& u.width == g.dungeon.width
    &&& u.height == g.dungeon.height
    &&& u.messages.len() == 0
    &&& u.stairs_position == g.stairs_position
    &&& u.on_stairs == is_on_stairs(g, player)
    &&& !u.level_complete
    &&& u.all_players_dead == all_players_dead(g.entities)
    &&& !u.restart_confirmed
    &&& u.turn_phase@ == phase_name(g.turn_phase)
    &&& u.current_turn == g.current_turn
    &&& u.is_my_turn == may_move(g, player)
}

fn grid_data(tiles: &Vec<Vec<Tile>>) -> (map: Vec<Vec<TileData>>)
    ensures
        shows_grid(map@, tiles@),
{
    let mut map: Vec<Vec<TileData>> = Vec::new();
    let mut y: usize = 0;
    while y < tiles.len()
        invariant
            y <= tiles.len(),
            map.len() == y,
            forall|r: int| 0 <= r < y ==> (#[trigger] map[r]).len() == tiles[r].len(),
            forall|r: int, x: int|
                0 <= r < y && 0 <= x < tiles[r].len() ==> (#[trigger] map[r][x]).walkable
                    == tiles[r][x].walkable && map[r][x].tile_id@ == tiles[r][x].tile_id@,
        decreases tiles.len() - y,
    {
        let mut row: Vec<TileData> = Vec::new();
        let mut x: usize = 0;
        while x < tiles[y].len()
            invariant
                y < tiles.len(),
                x <= tiles[y as int].len(),
                row.len() == x,
                forall|c: int|
                    0 <= c < x ==> (#[trigger] row[c]).walkable == tiles[y as int][c].walkable
                        && row[c].tile_id@ == tiles[y as int][c].tile_id@,
            decreases tiles[y as int].len() - x,
        {
            row.push(TileData { walkable: tiles[y][x].walkable, tile_id: tiles[y][x].tile_id.clone() });
            x += 1;
        }
        map.push(row);
        y += 1;
    }
    map
}

fn entities_data(entities: &Vec<Entity>) -> (out: Vec<EntityData>)
    ensures
        out@.map_values(|e: EntityData| e@) == living_sent(entity_views(entities@)),
{
    let ghost views = entity_views(entities@);
    let mut out: Vec<EntityData> = Vec::new();
    let mut i: usize = 0;
    assert(views.take(0) =~= Seq::empty());
    assert(out@.map_values(|e: EntityData| e@) =~= Seq::empty());
    while i < entities.len()
        invariant
            i <= entities.len(),
            views == entity_views(entities@),
            out@.map_values(|e: EntityData| e@) == living_sent(views.take(i as int)),
        decreases entities.len() - i,
    {
        let ghost before = out@.map_values(|e: EntityData| e@);
        assert(views.take(i + 1).drop_last() =~= views.take(i as int));
        let e = &entities[i];
        if e.is_alive() {
            let data = EntityData {
                id: e.id.clone(),
                object_id: e.object_id.clone(),
                x: e.x,
                y: e.y,
                controller: e.controller,
                current_health: e.current_health,
                max_health: e.max_health,
                attack: e.attack,
                defense: e.defense,
                crit_chance_percent: e.crit_chance_percent,
                crit_damage_percent: e.crit_damage_percent,
                facing_right: e.facing_right,
            };
            out.push(data);
            assert(out@.map_values(|e: EntityData| e@) =~= before.push(sent(views[i as int])));
        }
        i += 1;
    }
    assert(views.take(i as int) =~= views);
    out
}

fn consumables_data(items: &Vec<Consumable>) -> (out: Vec<ConsumableData>)
    ensures
        out@.map_values(|c: ConsumableData| c@) == consumable_views(items@),
{
    let mut out: Vec<ConsumableData> = Vec::new();
    let mut i: usize = 0;
    while i < items.len()
        invariant
            i <= items.len(),
            out.len() == i,
            forall|k: int| 0 <= k < i ==> (#[trigger] out[k])@ == items[k]@,
        decreases items.len() - i,
    {
        let c = &items[i];
        out.push(ConsumableData { id: c.id.clone(), object_id: c.object_id.clone(), x: c.x, y: c.y });
        i += 1;
    }
    assert(out@.map_values(|c: ConsumableData| c@) =~= consumable_views(items@));
    out
}

fn chests_data(chests: &Vec<Chest>) -> (out: Vec<ChestData>)
    ensures
        out@.map_values(|c: ChestData| c@) == chest_views(chests@).map_values(
            |c: ChestView| chest_sent(c),
        ),
{
    let mut out: Vec<ChestData> = Vec::new();
    let mut i: usize = 0;
    while i < chests.len()
        invariant
            i <= chests.len(),
            out.len() == i,
            forall|k: int| 0 <= k < i ==> (#[trigger] out[k])@ == chest_sent(chests[k]@),
        decreases chests.len() - i,
    {
        let c = &chests[i];
        out.push(
            ChestData {
                id: c.id.clone(),
                object_id: c.object_id.clone(),
                open_object_id: None,
                x: c.x,
                y: c.y,
                is_open: c.is_open,
            },
        );
        i += 1;
    }
    assert(out@.map_values(|c: ChestData| c@) =~= chest_views(chests@).map_values(
        |c: ChestView| chest_sent(c),
    ));
    out
}

fn players_data(game: &GameState) -> (out: Vec<PlayerData>)
    ensures
        out@.map_values(|p: PlayerData| p@) == players_sent(game@.entities, game@.catalog, game@.acted),
{
    let ghost views = game@.entities;
    let ghost catalog = game@.catalog;
    let ghost acted = game@.acted;
    let mut out: Vec<PlayerData> = Vec::new();
    let mut i: usize = 0;
    assert(views.take(0) =~= Seq::empty());
    assert(out@.map_values(|p: PlayerData| p@) =~= Seq::empty());
    while i < game.entities.len()
        invariant
            i <= game.entities.len(),
            views == game@.entities,
            catalog == game@.catalog,
            acted == game@.acted,
            out@.map_values(|p: PlayerData| p@) == players_sent(views.take(i as int), catalog, acted),
        decreases game.entities.len() - i,
    {
        let ghost before = out@.map_values(|p: PlayerData| p@);
        assert(views.take(i + 1).drop_last() =~= views.take(i as int));
        let e = &game.entities[i];
        if e.is_player() {
            let data = PlayerData {
                id: e.id.clone(),
                name: display_name(&game.object_registry, e),
                is_alive: e.is_alive(),
                has_acted_this_turn: game.players_acted_this_turn.contains(e.id.as_str()),
            };
            out.push(data);
            assert(out@.map_values(|p: PlayerData| p@) =~= before.push(data@));
        }
        i += 1;
    }
    assert(views.take(i as int) =~= views);
    out
}

fn entity_stands_at(entities: &Vec<Entity>, id: &str, x: usize, y: usize) -> (r: bool)
    ensures
        r == stands_at(entity_views(entities@), id@, (x, y)),
{
    let ghost views = entity_views(entities@);
    let mut i: usize = 0;
    while i < entities.len()
        invariant
            i <= entities.len(),
            views == entity_views(entities@),
            forall|k: int|
                0 <= k < i ==> !((#[trigger] views[k]).id == id@ && views[k].x == x && views[k].y == y),
        decreases entities.len() - i,
    {
        let e = &entities[i];
        if e.x == x && e.y == y && same_text(&e.id, id) {
            assert(views[i as int].id == id@);
            return true;
        }
        i += 1;
    }
    false
}

fn living_player_with(entities: &Vec<Entity>, id: &str) -> (r: bool)
    ensures
        r == plays(entity_views(entities@), id@),
{
    let ghost views = entity_views(entities@);
    let mut i: usize = 0;
    while i < entities.len()
        invariant
            i <= entities.len(),
            views == entity_views(entities@),
            forall|k: int|
                0 <= k < i ==> !((#[trigger] views[k]).id == id@ && views[k].is_player()
                    && views[k].alive()),
        decreases entities.len() - i,
    {
        let e = &entities[i];
        if e.is_player() && e.is_alive() && same_text(&e.id, id) {
            assert(views[i as int].id == id@ && views[i as int].is_player());
            return true;
        }
        i += 1;
    }
    false
}

/// The picture of the game for the given player, or for nobody in particular. It holds
/// no events and no outcome of a command: those are added by who handled the command.
pub fn game_state_to_update(game: &GameState, player_id: Option<&str>) -> (u: GameUpdate)
    ensures
        pictures(u, game@, text_of(player_id)),
{
    let on_stairs = match player_id {
        Some(pid) => match game.stairs_position {
            Some((sx, sy)) => entity_stands_at(&game.entities, pid, sx, sy),
            None => false,
        },
        None => false,
    };
    let in_player_phase = match game.turn_phase {
        TurnPhase::PlayerPhase => true,
        TurnPhase::AIPhase => false,
    };
    let is_my_turn = match player_id {
        Some(pid) => in_player_phase && !game.players_acted_this_turn.contains(pid)
            && living_player_with(&game.entities, pid),
        None => false,
    };
    let turn_phase = if in_player_phase {
        String::from_str("player")
    } else {
        String::from_str("ai")
    };
    let current_player_id = match player_id {
        Some(pid) => Some(String::from_str(pid)),
        None => None,
    };
    GameUpdate {
        map: grid_data(&game.dungeon.tiles),
        entities: entities_data(&game.entities),
        consumables: consumables_data(&game.consumables),
        chests: chests_data(&game.chests),
        players: players_data(game),
        current_player_id,
        width: game.dungeon.width,
        height: game.dungeon.height,
        messages: Vec::new(),
        stairs_position: game.stairs_position,
        on_stairs,
        level_complete: false,
        all_players_dead: game.are_all_players_dead(),
        restart_confirmed: false,
        turn_phase,
        current_turn: game.current_turn,
        is_my_turn,
    }
}

} // verus!
