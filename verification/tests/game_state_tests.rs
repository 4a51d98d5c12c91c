use dungeon_crawler::ai::chest_allows;
use dungeon_crawler::chest::Chest;
use dungeon_crawler::config::{create_default_config, GameConfig, LevelConfig};
use dungeon_crawler::consumable::Consumable;
use dungeon_crawler::dungeon::{fill_grid, Dungeon, Room};
use dungeon_crawler::entity::{Entity, EntityController};
use dungeon_crawler::game_object::GameObject;
use dungeon_crawler::game_object_registry::GameObjectRegistry;
use dungeon_crawler::game_state::{
    enemy_at, first_closed_chest, first_consumable, first_free_beside, first_free_floor, first_living_player,
    first_open_beside, join_cell, living_entity_at, parse_action, player_id_list, GameState, IdSet, TurnPhase,
};
use dungeon_crawler::message::{MessageType, PlayerCommand};
use dungeon_crawler::tile::Tile;
use dungeon_crawler::tile_registry::TileRegistry;

fn config() -> GameConfig {
    let mut config = create_default_config();
    config.game_objects.push(GameObject::new(
        "chest".to_string(),
        "Chest".to_string(),
        "chest".to_string(),
        false,
        0,
        0,
    ));
    config
}

fn open_level(width: usize, height: usize) -> Dungeon {
    Dungeon {
        width,
        height,
        tiles: fill_grid(width, height, &Tile::new(true, 0, 6)),
        rooms: vec![Room { x: 0, y: 0, width, height }],
    }
}

fn level_from(rows: &[&str]) -> Dungeon {
    let height = rows.len();
    let width = rows[0].len();
    let mut tiles = fill_grid(width, height, &Tile::new(false, 0, 0));
    for (y, row) in rows.iter().enumerate() {
        for (x, c) in row.chars().enumerate() {
            if c == '.' {
                tiles[y][x] = Tile::new(true, 0, 6);
            }
        }
    }
    Dungeon { width, height, tiles, rooms: Vec::new() }
}

fn game_with(dungeon: Dungeon, entities: Vec<Entity>, config: &GameConfig) -> GameState {
    GameState {
        dungeon,
        entities,
        consumables: Vec::new(),
        chests: Vec::new(),
        tile_registry: TileRegistry::load_from_config(config),
        object_registry: GameObjectRegistry::load_from_config(config),
        level_config: None,
        stairs_position: None,
        player_confirmations: IdSet::new(),
        restart_confirmations: IdSet::new(),
        turn_phase: TurnPhase::PlayerPhase,
        players_acted_this_turn: IdSet::new(),
        current_turn: 1,
        next_consumable_id: 0,
    }
}

fn game(entities: Vec<Entity>) -> GameState {
    game_with(open_level(10, 10), entities, &config())
}

fn player(id: &str, x: usize, y: usize) -> Entity {
    Entity::new(id.to_string(), x, y, "player".to_string(), 5, 0, 0, 0, 150, 100, EntityController::Player)
}

fn monster(id: &str, x: usize, y: usize, health: u32) -> Entity {
    Entity::new(id.to_string(), x, y, "orc".to_string(), 5, 0, 0, 0, 150, health, EntityController::AI)
}

fn action(name: &str) -> PlayerCommand {
    PlayerCommand { action: name.to_string(), confirm_stairs: None, confirm_restart: None }
}

#[test]
fn scenario_player_moving_into_a_monster_attacks_it() {
    let mut g = game(vec![player("ann", 1, 1), monster("m1", 1, 2, 20), player("bob", 8, 8)]);
    let (messages, level_complete, restart_confirmed) = g.handle_command(&action("move_down"), "ann");
    assert_eq!(messages.len(), 1);
    assert_eq!(messages[0].message_type, MessageType::Combat);
    assert_eq!(messages[0].damage, Some(5));
    assert_eq!(messages[0].target_health_after, Some(15));
    assert_eq!(messages[0].text, "Player Character dealt 5 damage to Orc");
    assert_eq!(g.entities[1].current_health, 15);
    assert_eq!(g.entities[1].max_health, 20);
    assert_eq!((g.entities[0].x, g.entities[0].y), (1, 1));
    assert_eq!((g.entities[1].x, g.entities[1].y), (1, 2));
    assert!(!level_complete);
    assert!(!restart_confirmed);
    assert!(g.players_acted_this_turn.contains("ann"));
    assert_eq!(g.current_turn, 1);
}

#[test]
fn scenario_player_moving_into_a_weak_monster_kills_it() {
    let mut g = game(vec![player("ann", 1, 1), monster("m1", 1, 2, 3)]);
    let (messages, _, _) = g.handle_command(&action("move_down"), "ann");
    assert_eq!(messages.len(), 1);
    assert_eq!(messages[0].message_type, MessageType::Combat);
    assert_eq!(messages[0].target_died, Some(true));
    assert_eq!(g.entities[1].current_health, 0);
    assert_eq!((g.entities[0].x, g.entities[0].y), (1, 1));
    assert_eq!(g.current_turn, 2);
    assert!(!g.players_acted_this_turn.contains("ann"));
}

#[test]
fn scenario_lone_player_on_the_stairs_completes_the_level() {
    let mut g = game(vec![player("ann", 4, 4), monster("m1", 9, 9, 20)]);
    g.stairs_position = Some((4, 4));
    let cmd = PlayerCommand { action: String::new(), confirm_stairs: Some(true), confirm_restart: None };
    let (messages, level_complete, restart_confirmed) = g.handle_command(&cmd, "ann");
    assert!(level_complete);
    assert!(!restart_confirmed);
    assert_eq!(messages.len(), 1);
    assert_eq!(messages[0].message_type, MessageType::LevelEvent);
    assert_eq!(messages[0].text, "Level complete! All players confirmed. Preparing next level...");
    assert!(g.player_confirmations.contains("ann"));
    assert_eq!((g.entities[0].x, g.entities[0].y), (4, 4));
    assert_eq!(g.current_turn, 1);
}

#[test]
fn scenario_all_players_dead_restarts_the_level() {
    let mut g = game(vec![player("ann", 1, 1), monster("m1", 1, 2, 20), player("bob", 2, 2)]);
    g.entities[0].current_health = 0;
    g.entities[2].current_health = 0;
    g.current_turn = 9;
    g.players_acted_this_turn.insert("ann");
    g.player_confirmations.insert("bob");
    g.restart_confirmations.insert("ann");
    g.consumables.push(Consumable { id: "c".to_string(), x: 1, y: 1, object_id: "health_potion".to_string() });
    assert!(g.are_all_players_dead());
    let (messages, level_complete, restart_confirmed) = g.handle_command(&action("move_up"), "ann");
    assert_eq!(messages.len(), 1);
    assert_eq!(messages[0].message_type, MessageType::LevelEvent);
    assert_eq!(messages[0].text, "All players died! Level restarted.");
    assert!(!level_complete);
    assert!(!restart_confirmed);
    assert_eq!((g.dungeon.width, g.dungeon.height), (80, 50));
    assert!(g.dungeon.rooms.len() >= 1);
    let players: Vec<&Entity> = g.entities.iter().filter(|e| e.controller == EntityController::Player).collect();
    assert_eq!(players.len(), 2);
    assert_eq!(players[0].id, "ann");
    assert_eq!(players[1].id, "bob");
    for p in &players {
        assert_eq!(p.current_health, 100);
        assert_eq!(p.max_health, 100);
    }
    for e in &g.entities {
        assert!(g.dungeon.is_walkable(e.x, e.y), "{} stands in a wall", e.id);
        assert!(e.is_alive());
        assert_eq!(e.current_health, e.max_health);
    }
    assert_eq!(g.current_turn, 1);
    assert_eq!(g.turn_phase, TurnPhase::PlayerPhase);
    assert!(!g.players_acted_this_turn.contains("ann"));
    assert!(!g.player_confirmations.contains("bob"));
    assert!(!g.restart_confirmations.contains("ann"));
    assert!(g.consumables.is_empty());
    assert!(!g.are_all_players_dead());
}

#[test]
fn scenario_player_moving_onto_a_closed_chest_opens_it() {
    let mut g = game(vec![player("ann", 1, 1), player("bob", 8, 8)]);
    g.chests.push(Chest {
        id: "chest_0".to_string(),
        x: 2,
        y: 1,
        object_id: "chest".to_string(),
        open_object_id: None,
        is_open: false,
    });
    assert!(!chest_allows(&g.chests, &g.object_registry, 2, 1));
    let (messages, _, _) = g.handle_command(&action("move_right"), "ann");
    assert!(g.chests[0].is_open);
    assert_eq!(g.consumables.len(), 1);
    assert_eq!((g.consumables[0].x, g.consumables[0].y), (2, 1));
    assert_eq!(g.consumables[0].object_id, "health_potion");
    assert_eq!(g.consumables[0].id, "consumable_0");
    assert_eq!(g.next_consumable_id, 1);
    assert_eq!(messages.len(), 1);
    assert_eq!(messages[0].message_type, MessageType::LevelEvent);
    assert_eq!(messages[0].text, "Chest opened!");
    assert!(chest_allows(&g.chests, &g.object_registry, 2, 1));
    assert_eq!((g.entities[0].x, g.entities[0].y), (1, 1));
    assert!(g.players_acted_this_turn.contains("ann"));
}

#[test]
fn opened_chest_can_be_walked_over_and_its_potion_heals() {
    let mut g = game(vec![player("ann", 1, 1), player("bob", 8, 8)]);
    g.entities[0].current_health = 95;
    g.chests.push(Chest {
        id: "chest_0".to_string(),
        x: 2,
        y: 1,
        object_id: "chest".to_string(),
        open_object_id: None,
        is_open: false,
    });
    g.handle_command(&action("move_right"), "ann");
    g.handle_command(&action("move_up"), "bob");
    assert_eq!(g.current_turn, 2);
    let (messages, _, _) = g.handle_command(&action("move_right"), "ann");
    assert_eq!((g.entities[0].x, g.entities[0].y), (2, 1));
    assert_eq!(g.entities[0].current_health, 100);
    assert!(g.consumables.is_empty());
    assert_eq!(messages.len(), 1);
    assert_eq!(messages[0].text, "Health Potion healed ann for 5 HP");
    assert_eq!(messages[0].message_type, MessageType::Healing);
    assert_eq!(messages[0].damage, Some(5));
    assert_eq!(messages[0].target_health_after, Some(100));
    assert_eq!(messages[0].is_crit, None);
    assert!(g.chests[0].is_open);
}

#[test]
fn chest_opens_empty_without_consumable_templates() {
    let config = GameConfig {
        game_objects: vec![GameObject::new(
            "chest".to_string(),
            "Chest".to_string(),
            "chest".to_string(),
            false,
            0,
            0,
        )],
        levels: Vec::new(),
    };
    let mut g = game_with(open_level(5, 5), vec![player("ann", 1, 1), player("bob", 3, 3)], &config);
    g.chests.push(Chest {
        id: "chest_0".to_string(),
        x: 1,
        y: 0,
        object_id: "chest".to_string(),
        open_object_id: None,
        is_open: false,
    });
    let (messages, _, _) = g.handle_command(&action("move_up"), "ann");
    assert!(g.chests[0].is_open);
    assert!(g.consumables.is_empty());
    assert!(messages.is_empty());
    assert_eq!(g.next_consumable_id, 0);
}

#[test]
fn monsters_move_only_once_all_living_players_have_acted() {
    let mut g = game(vec![player("ann", 1, 1), player("bob", 8, 8), monster("m1", 4, 1, 20), player("dead", 5, 5)]);
    g.entities[3].current_health = 0;
    let (messages, _, _) = g.handle_command(&action("move_down"), "ann");
    assert!(messages.is_empty());
    assert_eq!((g.entities[0].x, g.entities[0].y), (1, 2));
    assert_eq!((g.entities[2].x, g.entities[2].y), (4, 1));
    assert_eq!(g.current_turn, 1);
    assert_eq!(g.turn_phase, TurnPhase::PlayerPhase);
    assert!(g.players_acted_this_turn.contains("ann"));
    assert!(!g.players_acted_this_turn.contains("bob"));
    g.handle_command(&action("move_down"), "ann");
    assert_eq!((g.entities[0].x, g.entities[0].y), (1, 2));
    assert_eq!((g.entities[2].x, g.entities[2].y), (4, 1));
    assert_eq!(g.current_turn, 1);
    g.handle_command(&action("move_left"), "bob");
    assert_eq!((g.entities[1].x, g.entities[1].y), (7, 8));
    assert_ne!((g.entities[2].x, g.entities[2].y), (4, 1));
    assert_eq!(g.current_turn, 2);
    assert_eq!(g.turn_phase, TurnPhase::PlayerPhase);
    assert!(!g.players_acted_this_turn.contains("ann"));
    assert!(!g.players_acted_this_turn.contains("bob"));
    assert!(g.players_acted_this_turn.to_vec().is_empty());
}

#[test]
fn monster_beside_a_player_strikes_back_at_the_end_of_the_turn() {
    let mut g = game(vec![player("ann", 1, 1), monster("m1", 1, 2, 20)]);
    let (messages, _, _) = g.handle_command(&action("move_down"), "ann");
    assert_eq!(messages.len(), 2);
    assert_eq!(messages[0].text, "Player Character dealt 5 damage to Orc");
    assert_eq!(messages[1].text, "Orc dealt 5 damage to Player Character");
    assert_eq!(g.entities[0].current_health, 95);
    assert_eq!(g.entities[1].current_health, 15);
    assert_eq!(g.current_turn, 2);
}

#[test]
fn unknown_action_is_ignored_and_costs_no_turn() {
    let mut g = game(vec![player("ann", 1, 1), monster("m1", 5, 1, 20)]);
    let (messages, level_complete, restart_confirmed) = g.handle_command(&action("dance"), "ann");
    assert!(messages.is_empty());
    assert!(!level_complete && !restart_confirmed);
    assert_eq!((g.entities[0].x, g.entities[0].y), (1, 1));
    assert_eq!((g.entities[1].x, g.entities[1].y), (5, 1));
    assert_eq!(g.current_turn, 1);
    assert!(!g.players_acted_this_turn.contains("ann"));
    g.handle_command(&action("move_right"), "ann");
    assert_eq!((g.entities[0].x, g.entities[0].y), (2, 1));
    assert_eq!(g.current_turn, 2);
}

#[test]
fn unknown_action_of_a_dead_player_lets_a_finished_turn_end() {
    let mut g = game(vec![player("ann", 1, 1), player("ghost", 3, 3), monster("m1", 5, 1, 20)]);
    g.entities[1].current_health = 0;
    g.players_acted_this_turn.insert("ann");
    let (messages, _, _) = g.handle_command(&action("wave"), "ghost");
    assert!(messages.is_empty());
    assert_eq!(g.current_turn, 2);
    assert!(!g.players_acted_this_turn.contains("ann"));
    assert_ne!((g.entities[2].x, g.entities[2].y), (5, 1));
    assert_eq!((g.entities[1].x, g.entities[1].y), (3, 3));
}

#[test]
fn command_of_a_stranger_or_out_of_phase_does_nothing() {
    let mut g = game(vec![player("ann", 1, 1), monster("m1", 5, 1, 20)]);
    let (messages, _, _) = g.handle_command(&action("move_right"), "nobody");
    assert!(messages.is_empty());
    assert_eq!(g.current_turn, 1);
    assert!(!g.players_acted_this_turn.contains("nobody"));
    let (messages, _, _) = g.handle_command(&action("move_right"), "m1");
    assert!(messages.is_empty());
    assert_eq!((g.entities[1].x, g.entities[1].y), (5, 1));
    g.turn_phase = TurnPhase::AIPhase;
    g.handle_command(&action("move_right"), "ann");
    assert_eq!((g.entities[0].x, g.entities[0].y), (1, 1));
    assert_eq!(g.turn_phase, TurnPhase::AIPhase);
    assert_eq!(g.current_turn, 1);
}

#[test]
fn barred_move_still_counts_as_the_turn() {
    let mut g = game_with(level_from(&["..#", "...", "..."]), vec![player("ann", 1, 0), player("bob", 2, 2)], &config());
    g.handle_command(&action("move_right"), "ann");
    assert_eq!((g.entities[0].x, g.entities[0].y), (1, 0));
    assert!(g.players_acted_this_turn.contains("ann"));
    let mut g = game_with(level_from(&["..#", "...", "..."]), vec![player("ann", 1, 0), player("bob", 2, 2)], &config());
    g.handle_command(&action("move_up"), "ann");
    assert_eq!((g.entities[0].x, g.entities[0].y), (1, 0));
    assert!(g.players_acted_this_turn.contains("ann"));
    g.handle_command(&action("move_right"), "bob");
    assert_eq!((g.entities[1].x, g.entities[1].y), (2, 2));
    assert_eq!(g.current_turn, 2);
}

#[test]
fn player_does_not_walk_into_another_player() {
    let mut g = game(vec![player("ann", 1, 1), player("bob", 2, 1)]);
    let (messages, _, _) = g.handle_command(&action("move_right"), "ann");
    assert!(messages.is_empty());
    assert_eq!((g.entities[0].x, g.entities[0].y), (1, 1));
    assert_eq!(g.entities[1].current_health, 100);
}

#[test]
fn picking_up_heals_up_to_full_health() {
    let mut g = game(vec![player("ann", 1, 1), player("bob", 8, 8)]);
    g.entities[0].current_health = 50;
    g.consumables.push(Consumable { id: "c1".to_string(), x: 1, y: 2, object_id: "health_potion".to_string() });
    g.consumables.push(Consumable { id: "c2".to_string(), x: 5, y: 5, object_id: "health_potion".to_string() });
    let (messages, _, _) = g.handle_command(&action("move_down"), "ann");
    assert_eq!(g.entities[0].current_health, 70);
    assert_eq!(messages.len(), 1);
    assert_eq!(messages[0].text, "Health Potion healed ann for 20 HP");
    assert_eq!(messages[0].attacker, Some("Health Potion".to_string()));
    assert_eq!(messages[0].target, Some("ann".to_string()));
    assert_eq!(messages[0].target_died, Some(false));
    assert_eq!(g.consumables.len(), 1);
    assert_eq!(g.consumables[0].id, "c2");
}

#[test]
fn consumable_without_healing_power_stays() {
    let mut g = game(vec![player("ann", 1, 1), player("bob", 8, 8)]);
    g.entities[0].current_health = 50;
    g.consumables.push(Consumable { id: "c1".to_string(), x: 1, y: 2, object_id: "orc".to_string() });
    g.consumables.push(Consumable { id: "c2".to_string(), x: 1, y: 2, object_id: "health_potion".to_string() });
    let (messages, _, _) = g.handle_command(&action("move_down"), "ann");
    assert!(messages.is_empty());
    assert_eq!(g.entities[0].current_health, 50);
    assert_eq!(g.consumables.len(), 2);
    assert_eq!(g.pick_up(0).len(), 0);
}

#[test]
fn restart_needs_the_wish_of_every_player() {
    let mut g = game(vec![player("ann", 1, 1), player("bob", 8, 8), monster("m1", 5, 5, 20)]);
    g.current_turn = 4;
    let cmd = PlayerCommand { action: "move_up".to_string(), confirm_stairs: Some(true), confirm_restart: Some(true) };
    let (messages, level_complete, restart_confirmed) = g.handle_command(&cmd, "ann");
    assert!(messages.is_empty());
    assert!(!level_complete && !restart_confirmed);
    assert!(g.restart_confirmations.contains("ann"));
    assert!(!g.player_confirmations.contains("ann"));
    assert_eq!((g.entities[0].x, g.entities[0].y), (1, 1));
    assert_eq!(g.current_turn, 4);
    let (messages, level_complete, restart_confirmed) = g.handle_command(&cmd, "bob");
    assert!(restart_confirmed);
    assert!(!level_complete);
    assert_eq!(messages.len(), 1);
    assert_eq!(messages[0].text, "Level restarted!");
    assert_eq!(messages[0].message_type, MessageType::LevelEvent);
    assert_eq!(g.current_turn, 1);
    assert!(!g.restart_confirmations.contains("ann"));
    assert_eq!((g.dungeon.width, g.dungeon.height), (80, 50));
    assert_eq!(player_id_list(&g.entities), vec!["ann".to_string(), "bob".to_string()]);
}

#[test]
fn restart_wish_of_a_stranger_is_noted_only() {
    let mut g = game(vec![monster("m1", 5, 5, 20)]);
    assert!(g.confirm_restart("x").is_none());
    assert!(g.restart_confirmations.contains("x"));
    assert_eq!(g.dungeon.width, 10);
}

#[test]
fn stairs_need_the_wish_of_every_living_player() {
    let mut g = game(vec![player("ann", 1, 1), player("bob", 8, 8), player("dead", 3, 3)]);
    g.entities[2].current_health = 0;
    assert!(g.confirm_stairs("ann").is_none());
    let m = g.confirm_stairs("bob").unwrap();
    assert_eq!(m.text, "Level complete! All players confirmed. Preparing next level...");
    assert!(g.player_confirmations.contains("ann") && g.player_confirmations.contains("bob"));
    let cmd = PlayerCommand { action: "move_up".to_string(), confirm_stairs: Some(false), confirm_restart: Some(false) };
    let (_, level_complete, _) = g.handle_command(&cmd, "ann");
    assert!(!level_complete);
    assert_eq!((g.entities[0].x, g.entities[0].y), (1, 0));
}

#[test]
fn player_joins_beside_the_first_living_player() {
    let mut g = game(vec![monster("m1", 0, 0, 20)]);
    assert_eq!(g.add_player("a".to_string()), Some(1));
    assert_eq!((g.entities[1].x, g.entities[1].y), (1, 0));
    assert_eq!(g.entities[1].id, "a");
    assert_eq!(g.entities[1].object_id, "player");
    assert_eq!(g.entities[1].controller, EntityController::Player);
    assert_eq!(g.entities[1].attack, 10);
    assert_eq!(g.entities[1].max_health, 100);
    assert_eq!(g.entities[1].current_health, 100);
    assert_eq!(g.add_player("b".to_string()), Some(2));
    assert_eq!((g.entities[2].x, g.entities[2].y), (2, 0));
    assert_eq!(g.add_player("c".to_string()), Some(3));
    assert_eq!((g.entities[3].x, g.entities[3].y), (1, 1));
    assert_eq!(g.add_player("d".to_string()), Some(4));
    assert_eq!((g.entities[4].x, g.entities[4].y), (3, 0));
    g.entities[1].current_health = 0;
    assert_eq!(g.add_player("e".to_string()), Some(5));
    assert_eq!((g.entities[5].x, g.entities[5].y), (1, 0));
}

#[test]
fn join_cell_looks_left_right_up_down() {
    let level = open_level(5, 5);
    let mut entities = vec![player("p", 2, 2)];
    assert_eq!(join_cell(&level, &entities), (1, 2));
    assert_eq!(first_free_beside(&level, &entities, 2, 2), Some((1, 2)));
    entities.push(monster("m", 1, 2, 5));
    assert_eq!(join_cell(&level, &entities), (3, 2));
    entities.push(monster("m", 3, 2, 5));
    assert_eq!(join_cell(&level, &entities), (2, 1));
    entities.push(monster("m", 2, 1, 5));
    assert_eq!(join_cell(&level, &entities), (2, 3));
    entities.push(monster("m", 2, 3, 5));
    assert_eq!(first_free_beside(&level, &entities, 2, 2), None);
    assert_eq!(join_cell(&level, &entities), (0, 0));
    assert_eq!(first_free_floor(&level, &entities), Some((0, 0)));
    entities[1].current_health = 0;
    assert_eq!(join_cell(&level, &entities), (1, 2));
    assert_eq!(first_open_beside(&level, &entities, 2, 2), None);
    assert_eq!(first_free_beside(&level, &entities, 0, 0), Some((1, 0)));
    assert_eq!(first_free_beside(&level, &entities, 4, 4), Some((3, 4)));
    assert_eq!(first_open_beside(&level, &Vec::new(), 0, 4), Some((1, 4)));
}

#[test]
fn player_joins_on_the_first_free_floor_or_at_one_one() {
    let walls = level_from(&["###", "###", "###"]);
    let mut g = game_with(walls, Vec::new(), &config());
    assert_eq!(g.add_player("a".to_string()), Some(0));
    assert_eq!((g.entities[0].x, g.entities[0].y), (1, 1));
    let some = level_from(&["###", "#..", "###"]);
    let mut g = game_with(some, vec![monster("m", 1, 1, 5)], &config());
    g.add_player("a".to_string());
    assert_eq!((g.entities[1].x, g.entities[1].y), (2, 1));
    assert_eq!(first_living_player(&g.entities), Some(1));
    assert!(living_entity_at(&g.entities, 2, 1));
    assert!(!living_entity_at(&g.entities, 0, 0));
}

#[test]
fn nobody_joins_without_a_player_template() {
    let config = GameConfig { game_objects: Vec::new(), levels: Vec::new() };
    let mut g = game_with(open_level(5, 5), vec![monster("m1", 0, 0, 20)], &config);
    assert_eq!(g.add_player("a".to_string()), None);
    assert_eq!(g.entities.len(), 1);
}

#[test]
fn leaving_player_is_taken_out_of_the_list() {
    let mut g = game(vec![
        player("ann", 1, 1),
        monster("bob", 3, 3, 20),
        player("bob", 2, 2),
        player("cid", 4, 4),
        player("bob", 6, 6),
    ]);
    g.remove_player("bob");
    let ids: Vec<(&str, EntityController)> = g.entities.iter().map(|e| (e.id.as_str(), e.controller)).collect();
    assert_eq!(
        ids,
        vec![("ann", EntityController::Player), ("bob", EntityController::AI), ("cid", EntityController::Player)]
    );
    g.remove_player("nobody");
    assert_eq!(g.entities.len(), 3);
    g.remove_player("ann");
    g.remove_player("cid");
    assert_eq!(g.entities.len(), 1);
    assert!(!g.are_all_players_dead());
}

#[test]
fn all_players_dead_needs_a_player() {
    let mut g = game(vec![monster("m1", 1, 1, 20)]);
    assert!(!g.are_all_players_dead());
    g.entities.push(player("ann", 2, 2));
    assert!(!g.are_all_players_dead());
    g.entities[1].current_health = 0;
    assert!(g.are_all_players_dead());
    g.entities.push(player("bob", 3, 3));
    assert!(!g.are_all_players_dead());
    assert!(!game(Vec::new()).are_all_players_dead());
}

#[test]
fn first_player_can_be_read_and_changed() {
    let mut g = game(vec![monster("m1", 1, 1, 20), player("ann", 2, 2), player("bob", 3, 3)]);
    assert_eq!(g.get_player().unwrap().id, "ann");
    g.get_player_mut().unwrap().current_health = 42;
    assert_eq!(g.entities[1].current_health, 42);
    assert_eq!(g.find_player("bob"), Some(2));
    assert_eq!(g.find_player("m1"), None);
    assert_eq!(g.find_player("nobody"), None);
    let mut none = game(vec![monster("m1", 1, 1, 20)]);
    assert!(none.get_player().is_none());
    assert!(none.get_player_mut().is_none());
}

#[test]
fn actions_and_their_steps() {
    assert_eq!(parse_action(&"move_up".to_string()), Some((0, -1)));
    assert_eq!(parse_action(&"move_down".to_string()), Some((0, 1)));
    assert_eq!(parse_action(&"move_left".to_string()), Some((-1, 0)));
    assert_eq!(parse_action(&"move_right".to_string()), Some((1, 0)));
    assert_eq!(parse_action(&"MOVE_UP".to_string()), None);
    assert_eq!(parse_action(&"".to_string()), None);
    assert_eq!(parse_action(&"ping".to_string()), None);
}

#[test]
fn lookups_on_a_cell_take_the_first() {
    let chests = vec![
        Chest { id: "a".to_string(), x: 1, y: 1, object_id: "chest".to_string(), open_object_id: None, is_open: true },
        Chest { id: "b".to_string(), x: 1, y: 1, object_id: "chest".to_string(), open_object_id: None, is_open: false },
        Chest { id: "c".to_string(), x: 1, y: 1, object_id: "chest".to_string(), open_object_id: None, is_open: false },
    ];
    assert_eq!(first_closed_chest(&chests, 1, 1), Some(1));
    assert_eq!(first_closed_chest(&chests, 2, 1), None);
    let items = vec![
        Consumable { id: "a".to_string(), x: 4, y: 1, object_id: "health_potion".to_string() },
        Consumable { id: "b".to_string(), x: 1, y: 4, object_id: "health_potion".to_string() },
        Consumable { id: "c".to_string(), x: 1, y: 4, object_id: "health_potion".to_string() },
    ];
    assert_eq!(first_consumable(&items, 1, 4), Some(1));
    assert_eq!(first_consumable(&items, 4, 4), None);
    let mut entities = vec![player("p", 1, 1), player("q", 2, 1), monster("dead", 2, 1, 5), monster("m", 2, 1, 5), monster("p", 0, 1, 5)];
    entities[2].current_health = 0;
    assert_eq!(enemy_at(&entities, 0, 2, 1), Some(3));
    assert_eq!(enemy_at(&entities, 0, 0, 1), None);
    assert_eq!(enemy_at(&entities, 1, 0, 1), Some(4));
    assert_eq!(enemy_at(&entities, 0, 5, 5), None);
}

#[test]
fn id_set_holds_each_id_once() {
    let mut ids = IdSet::new();
    assert!(!ids.contains("a"));
    assert!(ids.insert("a"));
    assert!(!ids.insert("a"));
    assert!(ids.insert("b"));
    assert!(ids.contains("a") && ids.contains("b") && !ids.contains("c"));
    assert_eq!(ids.to_vec(), vec!["a".to_string(), "b".to_string()]);
    ids.clear();
    assert!(!ids.contains("a"));
    assert!(ids.to_vec().is_empty());
    assert!(ids.insert("a"));
}

#[test]
fn fresh_game_is_in_the_first_turn_with_monsters_only() {
    let config = config();
    let g = GameState::new_with_registry(
        TileRegistry::load_from_config(&config),
        GameObjectRegistry::load_from_config(&config),
    );
    assert_eq!(g.current_turn, 1);
    assert_eq!(g.turn_phase, TurnPhase::PlayerPhase);
    assert_eq!(g.next_consumable_id, 0);
    assert!(g.consumables.is_empty());
    assert!(g.level_config.is_none());
    assert!(g.dungeon.rooms.len() >= 1 && g.dungeon.rooms.len() <= 12);
    assert!(!g.entities.is_empty());
    assert!(g.entities.len() <= g.dungeon.rooms.len());
    for (k, e) in g.entities.iter().enumerate() {
        assert_eq!(e.controller, EntityController::AI);
        assert_eq!(e.id, format!("monster_{}", k));
        assert_eq!(e.object_id, "orc");
        assert_eq!((e.attack, e.max_health, e.current_health), (5, 50, 50));
        assert!(g.dungeon.is_walkable(e.x, e.y));
    }
    let stairs = g.stairs_position.unwrap();
    assert!(g.dungeon.is_walkable(stairs.0, stairs.1));
    assert!(g.chests.len() <= (g.dungeon.rooms.len() + 1) / 2);
    assert!(!g.are_all_players_dead());
}

#[test]
fn game_with_level_parameters_follows_them() {
    let config = config();
    let level = LevelConfig {
        level_number: 3,
        min_rooms: 2,
        max_rooms: 3,
        min_monsters_per_room: 2,
        max_monsters_per_room: 2,
        chest_count: 4,
        allowed_monsters: vec!["orc".to_string()],
    };
    let mut g = GameState::new_with_level(
        TileRegistry::load_from_config(&config),
        GameObjectRegistry::load_from_config(&config),
        Some(level),
    );
    assert!(g.dungeon.rooms.len() >= 1 && g.dungeon.rooms.len() <= 3);
    assert_eq!(g.entities.len(), 2 * g.dungeon.rooms.len());
    assert_eq!(g.chests.len(), 4);
    assert!(g.chests.iter().all(|c| !c.is_open && c.object_id == "chest"));
    g.add_player("ann".to_string());
    g.restart_level();
    assert!(g.dungeon.rooms.len() >= 1 && g.dungeon.rooms.len() <= 3);
    assert_eq!(g.entities.len(), 1 + 2 * g.dungeon.rooms.len());
    assert_eq!(g.entities[0].id, "ann");
    assert_eq!(g.chests.len(), 4);
    assert_eq!(g.level_config.as_ref().unwrap().level_number, 3);
}

#[test]
fn restarted_players_stand_where_the_level_starts_or_beside() {
    let mut g = game(vec![player("a", 1, 1), monster("m", 4, 4, 9), player("b", 2, 2), player("c", 3, 3)]);
    g.next_consumable_id = 17;
    g.restart_level();
    let spawn = g.dungeon.spawn_point();
    assert_eq!((g.entities[0].x, g.entities[0].y), spawn);
    assert_eq!(g.entities[0].id, "a");
    assert_eq!(g.entities[1].id, "b");
    assert_eq!(g.entities[2].id, "c");
    for i in 1..3 {
        let e = &g.entities[i];
        let beside = (e.x as i64 - spawn.0 as i64).abs() + (e.y as i64 - spawn.1 as i64).abs();
        assert!(beside <= 1);
        assert!(g.dungeon.is_walkable(e.x, e.y));
        assert_eq!(e.current_health, 100);
    }
    let second = &g.entities[1];
    assert_eq!((second.x as i64 - spawn.0 as i64).abs() + (second.y as i64 - spawn.1 as i64).abs(), 1);
    assert_ne!((g.entities[1].x, g.entities[1].y), (g.entities[2].x, g.entities[2].y));
    for e in &g.entities[3..] {
        assert_eq!(e.controller, EntityController::AI);
        assert_ne!((e.x, e.y), spawn);
    }
    assert_eq!(g.next_consumable_id, 17);
}

#[test]
fn moving_and_attacking_through_the_game() {
    let mut g = game(vec![player("ann", 1, 1), monster("m1", 2, 1, 20)]);
    g.move_entity(0, 0, 1);
    assert_eq!((g.entities[0].x, g.entities[0].y), (1, 2));
    g.move_entity(5, 0, 1);
    let m = g.attack_entity(0, 1).unwrap();
    assert_eq!(m.damage, Some(5));
    assert_eq!(g.entities[1].current_health, 15);
    assert!(g.attack_entity(0, 9).is_none());
    assert_eq!(g.find_path_step(1, 2, 5, 2, 0), Some((1, 0)));
    let messages = g.process_ai_turns();
    assert!(messages.is_empty());
    assert_eq!((g.entities[1].x, g.entities[1].y), (1, 1));
    let messages = g.process_ai_turns();
    assert_eq!(messages.len(), 1);
    assert_eq!(g.entities[0].current_health, 95);
    let messages = g.player_action(0, 0, -1);
    assert_eq!(messages.len(), 1);
    assert_eq!(g.entities[1].current_health, 10);
    assert_eq!((g.entities[0].x, g.entities[0].y), (1, 2));
    assert!(g.finish_turn().is_empty());
    assert_eq!(g.current_turn, 1);
    g.players_acted_this_turn.insert("ann");
    assert_eq!(g.finish_turn().len(), 1);
    assert_eq!(g.entities[0].current_health, 90);
    assert_eq!(g.current_turn, 2);
    assert!(g.move_player(0, &"move_down".to_string(), "ann").is_empty());
    assert_eq!((g.entities[0].x, g.entities[0].y), (1, 3));
    assert_eq!((g.entities[1].x, g.entities[1].y), (1, 2));
    assert_eq!(g.current_turn, 3);
}

#[test]
fn turn_counter_stays_at_its_largest() {
    let mut g = game(vec![player("ann", 1, 1)]);
    g.current_turn = u32::MAX;
    g.handle_command(&action("move_right"), "ann");
    assert_eq!(g.current_turn, u32::MAX);
    assert_eq!((g.entities[0].x, g.entities[0].y), (2, 1));
    assert!(!g.players_acted_this_turn.contains("ann"));
}

#[test]
fn stairs_through_the_game() {
    let level = open_level(10, 10);
    let registry = GameObjectRegistry::load_from_config(&config());
    assert_eq!(GameState::place_stairs(&level, 0, 0, &registry), Some((5, 5)));
    assert_eq!(GameState::place_stairs(&level, 5, 5, &registry), Some((5, 5)));
}

#[test]
fn every_new_consumable_gets_an_id_of_its_own() {
    let mut h = game(vec![player("ann", 1, 1)]);
    for (x, y) in [(2usize, 1usize), (1, 2), (0, 1), (1, 0)] {
        h.chests.push(Chest {
            id: format!("chest_{}_{}", x, y),
            x,
            y,
            object_id: "chest".to_string(),
            open_object_id: None,
            is_open: false,
        });
    }
    for name in ["move_right", "move_down", "move_left", "move_up"] {
        h.handle_command(&action(name), "ann");
    }
    assert_eq!(h.consumables.len(), 4);
    assert_eq!(h.next_consumable_id, 4);
    for (k, c) in h.consumables.iter().enumerate() {
        assert_eq!(c.id, format!("consumable_{}", k));
        for other in &h.consumables[..k] {
            assert_ne!(c.id, other.id);
        }
    }
}

#[test]
fn fresh_and_restarted_games_have_rooms_as_asked_and_everything_on_floor() {
    let config = config();
    for _ in 0..5 {
        let mut g = GameState::new_with_registry(
            TileRegistry::load_from_config(&config),
            GameObjectRegistry::load_from_config(&config),
        );
        assert!(g.dungeon.rooms.len() >= 1 && g.dungeon.rooms.len() <= 12);
        g.add_player("ann".to_string());
        g.add_player("bob".to_string());
        for round in 0..2 {
            let spawn = g.dungeon.spawn_point();
            assert!(g.dungeon.is_walkable(spawn.0, spawn.1));
            for e in &g.entities {
                assert!(g.dungeon.is_walkable(e.x, e.y), "{} stands in a wall", e.id);
            }
            for c in &g.chests {
                assert!(g.dungeon.is_walkable(c.x, c.y));
                assert!(!c.is_open);
            }
            let stairs = g.stairs_position.unwrap();
            assert!(g.dungeon.is_walkable(stairs.0, stairs.1));
            if round == 0 {
                g.restart_level();
                assert!(g.dungeon.rooms.len() >= 1 && g.dungeon.rooms.len() <= 12);
                assert_eq!(g.entities[0].id, "ann");
                assert_eq!((g.entities[0].x, g.entities[0].y), g.dungeon.spawn_point());
            }
        }
    }
    let asked = LevelConfig {
        level_number: 1,
        min_rooms: 3,
        max_rooms: 5,
        min_monsters_per_room: 1,
        max_monsters_per_room: 2,
        chest_count: 2,
        allowed_monsters: vec!["orc".to_string()],
    };
    let g = GameState::new_with_level(
        TileRegistry::load_from_config(&config),
        GameObjectRegistry::load_from_config(&config),
        Some(asked),
    );
    assert!(g.dungeon.rooms.len() >= 1 && g.dungeon.rooms.len() <= 5);
}
