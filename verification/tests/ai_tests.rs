use dungeon_crawler::ai::{
    chest_allows, find_path_step, is_taken, living_monsters, living_player_at, monster_turn, move_entity,
    nearest_player, process_ai_turns, step_or_attack,
};
use dungeon_crawler::chest::Chest;
use dungeon_crawler::config::create_default_config;
use dungeon_crawler::consumable::Consumable;
use dungeon_crawler::dungeon::{fill_grid, Dungeon, Room};
use dungeon_crawler::entity::{Entity, EntityController};
use dungeon_crawler::game_object::GameObject;
use dungeon_crawler::game_object_registry::GameObjectRegistry;
use dungeon_crawler::tile::Tile;

fn registry() -> GameObjectRegistry {
    let mut config = create_default_config();
    config.game_objects.push(GameObject::new(
        "chest".to_string(),
        "Chest".to_string(),
        "chest".to_string(),
        false,
        0,
        0,
    ));
    GameObjectRegistry::load_from_config(&config)
}

fn open_level(width: usize, height: usize) -> Dungeon {
    Dungeon {
        width,
        height,
        tiles: fill_grid(width, height, &Tile::new(true, 0, 6)),
        rooms: vec![Room { x: 0, y: 0, width, height }],
    }
}

fn level_from(rows: &[&str]) -> Dungeon {
    let height = rows.len();
    let width = rows[0].len();
    let mut tiles = fill_grid(width, height, &Tile::new(false, 0, 0));
    for (y, row) in rows.iter().enumerate() {
        for (x, c) in row.chars().enumerate() {
            if c == '.' {
                tiles[y][x] = Tile::new(true, 0, 6);
            }
        }
    }
    Dungeon { width, height, tiles, rooms: Vec::new() }
}

fn player(id: &str, x: usize, y: usize) -> Entity {
    Entity::new(id.to_string(), x, y, "player".to_string(), 10, 0, 0, 0, 150, 100, EntityController::Player)
}

fn monster(id: &str, x: usize, y: usize) -> Entity {
    Entity::new(id.to_string(), x, y, "orc".to_string(), 5, 0, 0, 0, 150, 50, EntityController::AI)
}

fn chest(x: usize, y: usize, object_id: &str, is_open: bool) -> Chest {
    Chest { id: "chest_0".to_string(), x, y, object_id: object_id.to_string(), open_object_id: None, is_open }
}

#[test]
fn closed_chest_bars_the_way_and_open_chest_does_not() {
    let registry = registry();
    let chests = vec![chest(2, 2, "chest", false), chest(3, 3, "chest", true)];
    assert!(!chest_allows(&chests, &registry, 2, 2));
    assert!(chest_allows(&chests, &registry, 3, 3));
    assert!(chest_allows(&chests, &registry, 4, 4));
    assert!(chest_allows(&Vec::new(), &registry, 2, 2));
}

#[test]
fn chest_without_template_goes_by_its_state_and_other_templates_by_their_own() {
    let registry = registry();
    assert!(!chest_allows(&vec![chest(1, 1, "nothing", false)], &registry, 1, 1));
    assert!(chest_allows(&vec![chest(1, 1, "nothing", true)], &registry, 1, 1));
    assert!(chest_allows(&vec![chest(1, 1, "floor_dark", false)], &registry, 1, 1));
    assert!(!chest_allows(&vec![chest(1, 1, "wall_dirt_top", true)], &registry, 1, 1));
    let two = vec![chest(1, 1, "chest", false), chest(1, 1, "chest", true)];
    assert!(!chest_allows(&two, &registry, 1, 1));
}

#[test]
fn cell_is_taken_by_living_others() {
    let mut entities = vec![monster("m1", 1, 1), player("ann", 2, 1), monster("m2", 3, 1)];
    assert!(is_taken(&entities, 0, 2, 1));
    assert!(!is_taken(&entities, 0, 1, 1));
    assert!(is_taken(&entities, 1, 1, 1));
    assert!(!is_taken(&entities, 0, 5, 5));
    entities[2].current_health = 0;
    assert!(!is_taken(&entities, 0, 3, 1));
    assert!(is_taken(&entities, 7, 1, 1));
    let twins = vec![monster("m", 1, 1), monster("m", 2, 2)];
    assert!(!is_taken(&twins, 0, 2, 2));
}

#[test]
fn entity_moves_onto_a_free_cell_and_turns() {
    let registry = registry();
    let level = open_level(5, 5);
    let mut entities = vec![player("ann", 2, 2)];
    assert!(move_entity(&mut entities, &level, &Vec::new(), &registry, 0, -1, 0));
    assert_eq!((entities[0].x, entities[0].y), (1, 2));
    assert!(!entities[0].facing_right);
    assert!(move_entity(&mut entities, &level, &Vec::new(), &registry, 0, 0, 1));
    assert_eq!((entities[0].x, entities[0].y), (1, 3));
    assert!(!entities[0].facing_right);
    assert!(move_entity(&mut entities, &level, &Vec::new(), &registry, 0, 1, 0));
    assert_eq!((entities[0].x, entities[0].y), (2, 3));
    assert!(entities[0].facing_right);
    assert!(move_entity(&mut entities, &level, &Vec::new(), &registry, 0, 0, -1));
    assert_eq!((entities[0].x, entities[0].y), (2, 2));
}

#[test]
fn entity_stays_where_the_way_is_barred() {
    let registry = registry();
    let level = level_from(&["....", ".#..", "...."]);
    let mut entities = vec![player("ann", 0, 1), monster("m1", 0, 0), monster("dead", 0, 2)];
    entities[2].current_health = 0;
    assert!(!move_entity(&mut entities, &level, &Vec::new(), &registry, 0, 1, 0));
    assert_eq!((entities[0].x, entities[0].y), (0, 1));
    assert!(entities[0].facing_right);
    assert!(!move_entity(&mut entities, &level, &Vec::new(), &registry, 0, -1, 0));
    assert_eq!((entities[0].x, entities[0].y), (0, 1));
    assert!(!entities[0].facing_right);
    assert!(!move_entity(&mut entities, &level, &Vec::new(), &registry, 0, 0, -1));
    assert_eq!((entities[0].x, entities[0].y), (0, 1));
    assert!(move_entity(&mut entities, &level, &Vec::new(), &registry, 0, 0, 1));
    assert_eq!((entities[0].x, entities[0].y), (0, 2));
    assert!(!move_entity(&mut entities, &level, &Vec::new(), &registry, 0, 0, 1));
    assert!(!move_entity(&mut entities, &level, &Vec::new(), &registry, 9, 0, 1));
    let closed = vec![chest(1, 2, "chest", false)];
    assert!(!move_entity(&mut entities, &level, &closed, &registry, 0, 1, 0));
    let open = vec![chest(1, 2, "chest", true)];
    assert!(move_entity(&mut entities, &level, &open, &registry, 0, 1, 0));
    assert_eq!((entities[0].x, entities[0].y), (1, 2));
}

#[test]
fn path_step_goes_straight_on_open_floor() {
    let level = open_level(10, 10);
    let entities = vec![monster("m1", 1, 5), player("ann", 6, 5)];
    assert_eq!(find_path_step(&entities, &level, 1, 5, 6, 5, 0), Some((1, 0)));
    assert_eq!(find_path_step(&entities, &level, 6, 5, 1, 5, 1), Some((-1, 0)));
    assert_eq!(find_path_step(&entities, &level, 3, 8, 3, 2, 0), Some((0, -1)));
    assert_eq!(find_path_step(&entities, &level, 3, 2, 3, 8, 0), Some((0, 1)));
}

#[test]
fn path_step_between_neighbours_is_the_step_itself() {
    let level = open_level(5, 5);
    let entities = vec![monster("m1", 2, 2), player("ann", 3, 2)];
    assert_eq!(find_path_step(&entities, &level, 2, 2, 3, 2, 0), Some((1, 0)));
    assert_eq!(find_path_step(&entities, &level, 2, 2, 2, 1, 0), Some((0, -1)));
}

#[test]
fn path_step_to_a_diagonal_neighbour_goes_along_one_axis() {
    let level = open_level(5, 5);
    let entities = vec![monster("m1", 2, 2), player("ann", 3, 3)];
    let step = find_path_step(&entities, &level, 2, 2, 3, 3, 0).unwrap();
    assert!(step == (1, 0) || step == (0, 1));
    assert_eq!(step, (1, 0));
}

#[test]
fn path_step_leads_around_a_wall() {
    let level = level_from(&[
        ".......",
        ".#####.",
        ".......",
    ]);
    let entities = vec![monster("m1", 3, 2), player("ann", 3, 0)];
    let step = find_path_step(&entities, &level, 3, 2, 3, 0, 0).unwrap();
    assert!(step == (-1, 0) || step == (1, 0));
    let level = level_from(&[
        "...#...",
        ".#.#.#.",
        ".#...#.",
    ]);
    let entities = vec![monster("m1", 0, 2), player("ann", 6, 2)];
    assert_eq!(find_path_step(&entities, &level, 0, 2, 6, 2, 0), Some((0, -1)));
    assert_eq!(find_path_step(&entities, &level, 0, 0, 6, 2, 0), Some((1, 0)));
    assert_eq!(find_path_step(&entities, &level, 2, 0, 6, 2, 0), Some((0, 1)));
}

#[test]
fn path_step_falls_back_to_the_direction_where_there_is_no_way() {
    let level = level_from(&[
        "..#..",
        "..#..",
        "..#..",
    ]);
    let entities = vec![monster("m1", 0, 0), player("ann", 4, 2)];
    assert_eq!(find_path_step(&entities, &level, 0, 0, 4, 2, 0), Some((1, 1)));
    assert_eq!(find_path_step(&entities, &level, 4, 2, 0, 0, 1), Some((-1, -1)));
    assert_eq!(find_path_step(&entities, &level, 0, 1, 4, 1, 0), Some((1, 0)));
    assert_eq!(find_path_step(&entities, &level, 1, 2, 1, 0, 0), Some((0, -1)));
    let walled = level_from(&["...", ".#.", "..."]);
    assert_eq!(find_path_step(&entities, &walled, 0, 0, 1, 1, 0), Some((1, 1)));
}

#[test]
fn path_step_from_a_cell_to_itself_is_none() {
    let level = open_level(5, 5);
    let entities = vec![monster("m1", 2, 2)];
    assert_eq!(find_path_step(&entities, &level, 2, 2, 2, 2, 0), None);
    assert_eq!(find_path_step(&entities, &level, 9, 9, 9, 9, 0), None);
}

#[test]
fn path_step_treats_living_entities_as_walls_but_for_the_target() {
    let level = level_from(&[
        "#####",
        "#...#",
        "#####",
    ]);
    let mut entities = vec![monster("m1", 1, 1), monster("m2", 2, 1), player("ann", 3, 1)];
    assert_eq!(find_path_step(&entities, &level, 1, 1, 3, 1, 0), Some((1, 0)));
    let corridor = level_from(&[
        "......",
        ".####.",
        "......",
    ]);
    let mut blocked = vec![monster("m1", 0, 0), monster("m2", 2, 0), player("ann", 5, 0)];
    assert_eq!(find_path_step(&blocked, &corridor, 0, 0, 5, 0, 0), Some((0, 1)));
    blocked[1].current_health = 0;
    assert_eq!(find_path_step(&blocked, &corridor, 0, 0, 5, 0, 0), Some((1, 0)));
    entities[1].current_health = 0;
    assert_eq!(find_path_step(&entities, &level, 1, 1, 3, 1, 0), Some((1, 0)));
    let mut shut = vec![monster("m1", 1, 1), monster("m2", 2, 1), player("ann", 3, 1)];
    shut[1].x = 2;
    let narrow = level_from(&["#####", "#...#", "#####"]);
    let step = find_path_step(&shut, &narrow, 1, 1, 3, 1, 0);
    assert_eq!(step, Some((1, 0)));
}

#[test]
fn path_step_first_cell_is_free_when_a_way_exists() {
    let level = level_from(&[
        ".....",
        ".....",
        ".....",
    ]);
    let entities = vec![monster("m1", 0, 1), monster("m2", 1, 1), player("ann", 4, 1)];
    let step = find_path_step(&entities, &level, 0, 1, 4, 1, 0).unwrap();
    assert!(step == (0, -1) || step == (0, 1));
}

#[test]
fn path_step_outside_the_level() {
    let level = open_level(3, 3);
    let entities = vec![monster("m1", 7, 1), player("ann", 1, 1)];
    assert_eq!(find_path_step(&entities, &level, 7, 1, 1, 1, 0), Some((-1, 0)));
    assert_eq!(find_path_step(&entities, &level, 3, 1, 1, 1, 0), Some((-1, 0)));
    assert_eq!(find_path_step(&entities, &level, 1, 1, 7, 7, 0), Some((1, 1)));
    let nothing = Dungeon { width: 0, height: 0, tiles: Vec::new(), rooms: Vec::new() };
    assert_eq!(find_path_step(&entities, &nothing, 0, 0, 1, 0, 0), Some((1, 0)));
}

#[test]
fn monster_goes_for_the_nearest_player_in_sight() {
    let entities = vec![
        monster("m1", 10, 10),
        player("far", 16, 10),
        player("near", 12, 13),
        player("nearer", 11, 12),
    ];
    assert_eq!(nearest_player(&entities, 0), Some(3));
    let entities = vec![monster("m1", 10, 10), player("edge", 15, 5), player("out", 10, 16)];
    assert_eq!(nearest_player(&entities, 0), Some(1));
    let entities = vec![monster("m1", 10, 10), player("out", 16, 10), monster("m2", 10, 11)];
    assert_eq!(nearest_player(&entities, 0), None);
    assert_eq!(nearest_player(&vec![monster("m1", 1, 1)], 0), None);
}

#[test]
fn of_players_at_one_distance_the_first_is_taken() {
    let entities = vec![
        player("a", 13, 10),
        monster("m1", 10, 10),
        player("b", 10, 7),
        player("c", 7, 13),
        player("d", 12, 12),
    ];
    assert_eq!(nearest_player(&entities, 1), Some(4));
    let entities = vec![player("a", 13, 10), monster("m1", 10, 10), player("b", 10, 7), player("c", 7, 13)];
    assert_eq!(nearest_player(&entities, 1), Some(0));
}

#[test]
fn dead_players_are_not_noticed() {
    let mut entities = vec![monster("m1", 10, 10), player("a", 11, 10), player("b", 13, 10)];
    entities[1].current_health = 0;
    assert_eq!(nearest_player(&entities, 0), Some(2));
    entities[2].current_health = 0;
    assert_eq!(nearest_player(&entities, 0), None);
    assert_eq!(living_player_at(&entities, 11, 10), None);
    entities[1].current_health = 1;
    assert_eq!(living_player_at(&entities, 11, 10), Some(1));
    assert_eq!(living_player_at(&entities, 10, 10), None);
}

#[test]
fn living_monsters_in_the_order_of_the_list() {
    let mut entities = vec![
        player("p", 0, 0),
        monster("m1", 1, 1),
        monster("m2", 2, 2),
        player("q", 3, 3),
        monster("m3", 4, 4),
    ];
    assert_eq!(living_monsters(&entities), vec![1, 2, 4]);
    entities[2].current_health = 0;
    assert_eq!(living_monsters(&entities), vec![1, 4]);
    assert!(living_monsters(&Vec::new()).is_empty());
}

#[test]
fn step_onto_a_player_is_an_attack() {
    let registry = registry();
    let level = open_level(5, 5);
    let mut entities = vec![monster("m1", 2, 2), player("ann", 3, 2)];
    let mut consumables: Vec<Consumable> = Vec::new();
    let mut next_id: u64 = 0;
    let m = step_or_attack(&mut entities, &level, &Vec::new(), &registry, &mut consumables, &mut next_id, 0, 1, 0)
        .unwrap();
    assert_eq!((entities[0].x, entities[0].y), (2, 2));
    assert_eq!(entities[1].current_health, 95);
    assert_eq!(m.text, "Orc dealt 5 damage to Player Character");
    let m = step_or_attack(&mut entities, &level, &Vec::new(), &registry, &mut consumables, &mut next_id, 0, -1, 0);
    assert!(m.is_none());
    assert_eq!((entities[0].x, entities[0].y), (1, 2));
    assert!(!entities[0].facing_right);
    let m = step_or_attack(&mut entities, &level, &Vec::new(), &registry, &mut consumables, &mut next_id, 0, -1, 0);
    assert!(m.is_none());
    assert_eq!((entities[0].x, entities[0].y), (0, 2));
    let m = step_or_attack(&mut entities, &level, &Vec::new(), &registry, &mut consumables, &mut next_id, 0, -1, 0);
    assert!(m.is_none());
    assert_eq!((entities[0].x, entities[0].y), (0, 2));
    assert!(consumables.is_empty());
}

#[test]
fn monster_beside_a_player_attacks_and_stays() {
    let registry = registry();
    let level = open_level(10, 10);
    for (mx, my) in [(4usize, 5usize), (6, 5), (5, 4), (5, 6)] {
        let mut entities = vec![player("ann", 5, 5), monster("m1", mx, my)];
        let mut consumables: Vec<Consumable> = Vec::new();
        let mut next_id: u64 = 0;
        let m = monster_turn(&mut entities, &level, &Vec::new(), &registry, &mut consumables, &mut next_id, 1);
        let m = m.unwrap();
        assert_eq!(m.damage, Some(5));
        assert_eq!(entities[0].current_health, 95);
        assert_eq!((entities[1].x, entities[1].y), (mx, my));
        assert_eq!((entities[0].x, entities[0].y), (5, 5));
        assert_eq!(entities[1].facing_right, mx < 5 || (mx == 5));
    }
}

#[test]
fn monster_at_a_corner_of_a_player_steps_beside_it() {
    let registry = registry();
    let level = open_level(10, 10);
    let mut entities = vec![player("ann", 5, 5), monster("m1", 4, 4)];
    let mut consumables: Vec<Consumable> = Vec::new();
    let mut next_id: u64 = 0;
    let m = monster_turn(&mut entities, &level, &Vec::new(), &registry, &mut consumables, &mut next_id, 1);
    assert!(m.is_none());
    assert_eq!(entities[0].current_health, 100);
    let at = (entities[1].x, entities[1].y);
    assert!(at == (5, 4) || at == (4, 5));
    let m = monster_turn(&mut entities, &level, &Vec::new(), &registry, &mut consumables, &mut next_id, 1);
    assert!(m.is_some());
    assert_eq!(entities[0].current_health, 95);
    assert_eq!((entities[1].x, entities[1].y), at);
}

#[test]
fn monster_in_sight_walks_towards_the_player() {
    let registry = registry();
    let level = open_level(12, 12);
    let mut entities = vec![player("ann", 8, 5), monster("m1", 3, 5)];
    let mut consumables: Vec<Consumable> = Vec::new();
    let mut next_id: u64 = 0;
    for expected in [4usize, 5, 6, 7] {
        let m = monster_turn(&mut entities, &level, &Vec::new(), &registry, &mut consumables, &mut next_id, 1);
        assert!(m.is_none());
        assert_eq!((entities[1].x, entities[1].y), (expected, 5));
    }
    let m = monster_turn(&mut entities, &level, &Vec::new(), &registry, &mut consumables, &mut next_id, 1);
    assert!(m.is_some());
    assert_eq!((entities[1].x, entities[1].y), (7, 5));
}

#[test]
fn monster_without_player_in_sight_wanders_one_step_at_most() {
    let registry = registry();
    let level = open_level(20, 20);
    let mut places: Vec<(usize, usize)> = Vec::new();
    for _ in 0..100 {
        let mut entities = vec![monster("m1", 10, 10), player("ann", 0, 0)];
        let mut consumables: Vec<Consumable> = Vec::new();
        let mut next_id: u64 = 0;
        let m = monster_turn(&mut entities, &level, &Vec::new(), &registry, &mut consumables, &mut next_id, 0);
        assert!(m.is_none());
        let at = (entities[0].x, entities[0].y);
        assert!(at == (9, 10) || at == (11, 10) || at == (10, 9) || at == (10, 11), "at {:?}", at);
        if !places.contains(&at) {
            places.push(at);
        }
        assert_eq!((entities[1].x, entities[1].y), (0, 0));
    }
    assert!(places.len() > 1);
}

#[test]
fn wandering_monster_stays_where_all_is_barred() {
    let registry = registry();
    let level = level_from(&["###", "#.#", "###"]);
    for _ in 0..20 {
        let mut entities = vec![monster("m1", 1, 1)];
        let mut consumables: Vec<Consumable> = Vec::new();
        let mut next_id: u64 = 0;
        assert!(monster_turn(&mut entities, &level, &Vec::new(), &registry, &mut consumables, &mut next_id, 0).is_none());
        assert_eq!((entities[0].x, entities[0].y), (1, 1));
    }
}

#[test]
fn monsters_turns_leave_players_in_place_and_monsters_unhurt() {
    let registry = registry();
    let level = open_level(15, 15);
    for _ in 0..30 {
        let mut entities = vec![
            player("ann", 7, 7),
            monster("m1", 6, 7),
            monster("m2", 2, 2),
            player("bob", 12, 12),
            monster("m3", 12, 11),
            monster("dead", 7, 8),
        ];
        entities[5].current_health = 0;
        let mut consumables = vec![Consumable { id: "c".to_string(), x: 1, y: 1, object_id: "health_potion".to_string() }];
        let mut next_id: u64 = 4;
        let messages = process_ai_turns(&mut entities, &level, &Vec::new(), &registry, &mut consumables, &mut next_id);
        assert_eq!(entities.len(), 6);
        assert_eq!((entities[0].x, entities[0].y), (7, 7));
        assert_eq!((entities[3].x, entities[3].y), (12, 12));
        assert_eq!(entities[0].current_health, 95);
        assert_eq!(entities[3].current_health, 95);
        assert_eq!((entities[1].x, entities[1].y), (6, 7));
        assert_eq!((entities[4].x, entities[4].y), (12, 11));
        assert_eq!((entities[5].x, entities[5].y), (7, 8));
        for i in [1usize, 2, 4] {
            assert_eq!(entities[i].current_health, 50);
        }
        let moved = (entities[2].x as i64 - 2).abs() + (entities[2].y as i64 - 2).abs();
        assert_eq!(moved, 1);
        assert_eq!(messages.len(), 2);
        assert_eq!(consumables.len(), 1);
        assert_eq!(next_id, 4);
    }
}

#[test]
fn monsters_never_kill_a_player_twice() {
    let registry = registry();
    let level = open_level(9, 9);
    let mut entities = vec![
        player("ann", 4, 4),
        monster("m1", 3, 4),
        monster("m2", 5, 4),
        monster("m3", 4, 3),
    ];
    entities[0].current_health = 7;
    let mut consumables: Vec<Consumable> = Vec::new();
    let mut next_id: u64 = 0;
    let messages = process_ai_turns(&mut entities, &level, &Vec::new(), &registry, &mut consumables, &mut next_id);
    assert_eq!(entities[0].current_health, 0);
    assert_eq!(messages.len(), 2);
    assert_eq!(messages[0].target_died, Some(false));
    assert_eq!(messages[1].target_died, Some(true));
    assert!(consumables.is_empty());
}

#[test]
fn path_step_takes_the_shorter_of_two_ways() {
    let level = level_from(&[
        ".......",
        ".####..",
        ".......",
    ]);
    let entities = vec![monster("m1", 4, 2), player("ann", 4, 0)];
    assert_eq!(find_path_step(&entities, &level, 4, 2, 4, 0, 0), Some((1, 0)));
    let level = level_from(&[
        ".......",
        "..####.",
        ".......",
    ]);
    let entities = vec![monster("m1", 2, 2), player("ann", 2, 0)];
    assert_eq!(find_path_step(&entities, &level, 2, 2, 2, 0, 0), Some((-1, 0)));
    let level = level_from(&[
        "...#.....",
        ".#.#.###.",
        ".#...#...",
        ".#####.#.",
        ".......#.",
    ]);
    let entities = vec![monster("m1", 0, 4), player("ann", 8, 4)];
    assert_eq!(find_path_step(&entities, &level, 0, 4, 8, 4, 0), Some((1, 0)));
    assert_eq!(find_path_step(&entities, &level, 6, 4, 8, 4, 0), Some((0, -1)));
    assert_eq!(find_path_step(&entities, &level, 4, 2, 8, 4, 0), Some((0, -1)));
}

#[test]
fn path_step_goes_around_a_monster_by_the_shorter_side() {
    let level = level_from(&[
        "#####",
        "....#",
        ".#..#",
        "....#",
        "....#",
    ]);
    let entities = vec![monster("m1", 2, 3), monster("m2", 2, 2), player("ann", 2, 1)];
    assert_eq!(find_path_step(&entities, &level, 2, 3, 2, 1, 0), Some((1, 0)));
}

#[test]
fn of_several_shortest_ways_the_step_is_the_first_among_left_right_up_down() {
    let level = open_level(7, 7);
    let entities = vec![monster("m", 3, 3)];
    assert_eq!(find_path_step(&entities, &level, 3, 3, 4, 4, 0), Some((1, 0)));
    assert_eq!(find_path_step(&entities, &level, 3, 3, 2, 2, 0), Some((-1, 0)));
    assert_eq!(find_path_step(&entities, &level, 3, 3, 2, 4, 0), Some((-1, 0)));
    assert_eq!(find_path_step(&entities, &level, 3, 3, 4, 2, 0), Some((1, 0)));
    assert_eq!(find_path_step(&entities, &level, 3, 3, 6, 0, 0), Some((1, 0)));
    let notched = level_from(&[
        ".....",
        ".#...",
        ".....",
    ]);
    let walker = vec![monster("m", 0, 1)];
    assert_eq!(find_path_step(&walker, &notched, 0, 1, 2, 1, 0), Some((0, -1)));
    let barred = level_from(&[
        "..#..",
        ".#...",
        ".....",
    ]);
    assert_eq!(find_path_step(&walker, &barred, 0, 1, 2, 1, 0), Some((0, 1)));
}
