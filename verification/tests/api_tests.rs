use dungeon_crawler::api::game_state_to_update;
use dungeon_crawler::chest::Chest;
use dungeon_crawler::config::create_default_config;
use dungeon_crawler::consumable::Consumable;
use dungeon_crawler::dungeon::{fill_grid, Dungeon, Room};
use dungeon_crawler::entity::{Entity, EntityController};
use dungeon_crawler::game_object_registry::GameObjectRegistry;
use dungeon_crawler::game_state::{GameState, IdSet, TurnPhase};
use dungeon_crawler::tile::Tile;
use dungeon_crawler::tile_registry::TileRegistry;

fn game() -> GameState {
    let config = create_default_config();
    let registry = TileRegistry::load_from_config(&config);
    let mut tiles = fill_grid(4, 3, &registry.get_tile("floor_dark").unwrap());
    tiles[0][0] = registry.get_tile("wall_dirt_top").unwrap();
    let mut entities = vec![
        Entity::new("ann".to_string(), 1, 1, "player".to_string(), 10, 1, 20, 5, 150, 100, EntityController::Player),
        Entity::new("m1".to_string(), 2, 2, "orc".to_string(), 5, 0, 20, 0, 150, 50, EntityController::AI),
        Entity::new("bob".to_string(), 3, 1, "ghost".to_string(), 10, 0, 20, 0, 150, 100, EntityController::Player),
        Entity::new("m2".to_string(), 3, 2, "orc".to_string(), 5, 0, 20, 0, 150, 50, EntityController::AI),
    ];
    entities[0].current_health = 60;
    entities[0].facing_right = false;
    entities[2].current_health = 0;
    entities[3].current_health = 0;
    let mut acted = IdSet::new();
    acted.insert("bob");
    GameState {
        dungeon: Dungeon { width: 4, height: 3, tiles, rooms: vec![Room { x: 0, y: 0, width: 4, height: 3 }] },
        entities,
        consumables: vec![Consumable { id: "c0".to_string(), x: 2, y: 1, object_id: "health_potion".to_string() }],
        chests: vec![Chest {
            id: "chest_0".to_string(),
            x: 1,
            y: 2,
            object_id: "chest".to_string(),
            open_object_id: Some("chest_open".to_string()),
            is_open: true,
        }],
        tile_registry: registry,
        object_registry: GameObjectRegistry::load_from_config(&config),
        level_config: None,
        stairs_position: Some((1, 1)),
        player_confirmations: IdSet::new(),
        restart_confirmations: IdSet::new(),
        turn_phase: TurnPhase::PlayerPhase,
        players_acted_this_turn: acted,
        current_turn: 7,
        next_consumable_id: 1,
    }
}

#[test]
fn update_shows_the_living_entities_and_all_players() {
    let g = game();
    let u = game_state_to_update(&g, Some("ann"));
    assert_eq!(u.entities.len(), 2);
    assert_eq!(u.entities[0].id, "ann");
    assert_eq!(u.entities[0].object_id, "player");
    assert_eq!((u.entities[0].x, u.entities[0].y), (1, 1));
    assert_eq!(u.entities[0].controller, EntityController::Player);
    assert_eq!((u.entities[0].current_health, u.entities[0].max_health), (60, 100));
    assert_eq!((u.entities[0].attack, u.entities[0].defense), (10, 1));
    assert_eq!((u.entities[0].crit_chance_percent, u.entities[0].crit_damage_percent), (5, 150));
    assert!(!u.entities[0].facing_right);
    assert_eq!(u.entities[1].id, "m1");
    assert_eq!(u.players.len(), 2);
    assert_eq!(u.players[0].id, "ann");
    assert_eq!(u.players[0].name, "Player Character");
    assert!(u.players[0].is_alive);
    assert!(!u.players[0].has_acted_this_turn);
    assert_eq!(u.players[1].id, "bob");
    assert_eq!(u.players[1].name, "bob");
    assert!(!u.players[1].is_alive);
    assert!(u.players[1].has_acted_this_turn);
}

#[test]
fn update_shows_the_grid_and_what_lies_on_it() {
    let g = game();
    let u = game_state_to_update(&g, Some("ann"));
    assert_eq!((u.width, u.height), (4, 3));
    assert_eq!(u.map.len(), 3);
    assert!(u.map.iter().all(|row| row.len() == 4));
    assert!(!u.map[0][0].walkable);
    assert_eq!(u.map[0][0].tile_id, "wall_dirt_top");
    assert!(u.map[2][3].walkable);
    assert_eq!(u.map[2][3].tile_id, "floor_dark");
    assert_eq!(u.consumables.len(), 1);
    assert_eq!(u.consumables[0].id, "c0");
    assert_eq!(u.consumables[0].object_id, "health_potion");
    assert_eq!((u.consumables[0].x, u.consumables[0].y), (2, 1));
    assert_eq!(u.chests.len(), 1);
    assert_eq!(u.chests[0].id, "chest_0");
    assert_eq!(u.chests[0].object_id, "chest");
    assert_eq!(u.chests[0].open_object_id, None);
    assert_eq!((u.chests[0].x, u.chests[0].y), (1, 2));
    assert!(u.chests[0].is_open);
    assert_eq!(u.stairs_position, Some((1, 1)));
    assert!(u.messages.is_empty());
    assert!(!u.level_complete);
    assert!(!u.restart_confirmed);
    assert!(!u.all_players_dead);
    assert_eq!(u.turn_phase, "player");
    assert_eq!(u.current_turn, 7);
}

#[test]
fn update_tells_the_player_about_its_turn_and_the_stairs() {
    let mut g = game();
    let u = game_state_to_update(&g, Some("ann"));
    assert_eq!(u.current_player_id, Some("ann".to_string()));
    assert!(u.on_stairs);
    assert!(u.is_my_turn);
    let u = game_state_to_update(&g, Some("bob"));
    assert!(!u.on_stairs);
    assert!(!u.is_my_turn);
    let u = game_state_to_update(&g, Some("m1"));
    assert!(!u.on_stairs);
    assert!(!u.is_my_turn);
    let u = game_state_to_update(&g, None);
    assert_eq!(u.current_player_id, None);
    assert!(!u.on_stairs);
    assert!(!u.is_my_turn);
    g.players_acted_this_turn.insert("ann");
    assert!(!game_state_to_update(&g, Some("ann")).is_my_turn);
    g.players_acted_this_turn.clear();
    g.turn_phase = TurnPhase::AIPhase;
    let u = game_state_to_update(&g, Some("ann"));
    assert!(!u.is_my_turn);
    assert_eq!(u.turn_phase, "ai");
    g.stairs_position = Some((2, 2));
    assert!(game_state_to_update(&g, Some("m1")).on_stairs);
    assert!(!game_state_to_update(&g, Some("ann")).on_stairs);
    g.stairs_position = None;
    assert!(!game_state_to_update(&g, Some("ann")).on_stairs);
}

#[test]
fn update_tells_when_all_players_are_dead() {
    let mut g = game();
    g.entities[0].current_health = 0;
    let u = game_state_to_update(&g, Some("ann"));
    assert!(u.all_players_dead);
    assert!(!u.is_my_turn);
    assert_eq!(u.entities.len(), 1);
    assert_eq!(u.players.len(), 2);
}
