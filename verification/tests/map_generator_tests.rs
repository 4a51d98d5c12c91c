use dungeon_crawler::chest::Chest;
use dungeon_crawler::config::{create_default_config, GameConfig, LevelConfig};
use dungeon_crawler::dungeon::{fill_grid, Dungeon, Room};
use dungeon_crawler::entity::{Entity, EntityController};
use dungeon_crawler::game_object::GameObject;
use dungeon_crawler::game_object_registry::GameObjectRegistry;
use dungeon_crawler::map_generator::{any_chest_at, any_entity_at, MapGenerator};
use dungeon_crawler::tile::Tile;
use dungeon_crawler::tile_registry::TileRegistry;

fn config() -> GameConfig {
    let mut config = create_default_config();
    config.game_objects.push(GameObject::new(
        "chest".to_string(),
        "Chest".to_string(),
        "chest".to_string(),
        false,
        0,
        0,
    ));
    let mut rat = GameObject::new("rat".to_string(), "Rat".to_string(), "character".to_string(), true, 0, 0)
        .with_health(8)
        .with_property("attack".to_string(), "2".to_string());
    rat.monster = Some(true);
    config.game_objects.push(rat);
    config
}

fn level(rooms: u32, monsters: (u32, u32), chests: u32, allowed: Vec<&str>) -> LevelConfig {
    LevelConfig {
        level_number: 1,
        min_rooms: rooms,
        max_rooms: rooms,
        min_monsters_per_room: monsters.0,
        max_monsters_per_room: monsters.1,
        chest_count: chests,
        allowed_monsters: allowed.iter().map(|s| s.to_string()).collect(),
    }
}

fn walls_with(width: usize, height: usize, floor: &[(usize, usize)], rooms: Vec<Room>) -> Dungeon {
    let mut tiles = fill_grid(width, height, &Tile::new(false, 0, 0));
    for (x, y) in floor {
        tiles[*y][*x] = Tile::new(true, 0, 6);
    }
    Dungeon { width, height, tiles, rooms }
}

fn open_level(width: usize, height: usize, rooms: Vec<Room>) -> Dungeon {
    Dungeon { width, height, tiles: fill_grid(width, height, &Tile::new(true, 0, 6)), rooms }
}

fn in_some_room(d: &Dungeon, x: usize, y: usize) -> bool {
    d.rooms.iter().any(|r| x >= r.x && x < r.x + r.width && y >= r.y && y < r.y + r.height)
}

#[test]
fn stairs_lie_in_the_middle_of_the_farthest_room() {
    let registry = GameObjectRegistry::load_from_config(&config());
    let rooms = vec![
        Room { x: 1, y: 1, width: 5, height: 5 },
        Room { x: 30, y: 1, width: 6, height: 6 },
        Room { x: 1, y: 20, width: 5, height: 5 },
        Room { x: 20, y: 11, width: 5, height: 5 },
    ];
    let d = open_level(40, 30, rooms);
    assert_eq!(MapGenerator::place_stairs(&d, 3, 3, &registry), Some((33, 4)));
    assert_eq!(MapGenerator::place_stairs(&d, 33, 4, &registry), Some((3, 22)));
    assert_eq!(MapGenerator::place_stairs(&d, 39, 29, &registry), Some((3, 3)));
}

#[test]
fn of_rooms_equally_far_the_first_gets_the_stairs() {
    let registry = GameObjectRegistry::load_from_config(&config());
    let rooms = vec![
        Room { x: 1, y: 1, width: 5, height: 5 },
        Room { x: 11, y: 1, width: 5, height: 5 },
        Room { x: 1, y: 11, width: 5, height: 5 },
    ];
    let d = open_level(30, 30, rooms);
    assert_eq!(MapGenerator::place_stairs(&d, 3, 3, &registry), Some((13, 3)));
}

#[test]
fn stairs_take_the_nearest_floor_around_the_middle() {
    let registry = GameObjectRegistry::load_from_config(&config());
    let room = vec![Room { x: 5, y: 5, width: 10, height: 10 }];
    let d = walls_with(20, 20, &[(12, 10), (8, 10), (10, 8), (10, 12), (11, 11)], room.clone());
    assert_eq!(MapGenerator::place_stairs(&d, 0, 0, &registry), Some((11, 11)));
    let d = walls_with(20, 20, &[(12, 10), (8, 10), (10, 8), (10, 12)], room.clone());
    assert_eq!(MapGenerator::place_stairs(&d, 0, 0, &registry), Some((10, 8)));
    let d = walls_with(20, 20, &[(12, 10), (8, 10), (10, 12), (8, 12)], room.clone());
    assert_eq!(MapGenerator::place_stairs(&d, 0, 0, &registry), Some((8, 10)));
    let d = walls_with(20, 20, &[(15, 15), (5, 5), (15, 5)], room.clone());
    assert_eq!(MapGenerator::place_stairs(&d, 0, 0, &registry), Some((5, 5)));
    let d = walls_with(20, 20, &[(16, 10), (10, 16), (4, 4)], room.clone());
    assert_eq!(MapGenerator::place_stairs(&d, 0, 0, &registry), None);
    let edge = vec![Room { x: 0, y: 0, width: 2, height: 2 }];
    let d = walls_with(20, 20, &[(0, 0)], edge);
    assert_eq!(MapGenerator::place_stairs(&d, 9, 9, &registry), Some((0, 0)));
}

#[test]
fn no_stairs_without_template_or_room() {
    let with = GameObjectRegistry::load_from_config(&config());
    let without = GameObjectRegistry::new();
    let d = open_level(20, 20, vec![Room { x: 1, y: 1, width: 5, height: 5 }]);
    assert_eq!(MapGenerator::place_stairs(&d, 10, 10, &without), None);
    assert_eq!(MapGenerator::place_stairs(&d, 3, 4, &with), Some((3, 3)));
    let none = open_level(20, 20, Vec::new());
    assert_eq!(MapGenerator::place_stairs(&none, 3, 4, &with), None);
}

#[test]
fn stairs_lie_in_the_farthest_room_even_where_the_players_start_in_its_middle() {
    let with = GameObjectRegistry::load_from_config(&config());
    let d = open_level(20, 20, vec![Room { x: 1, y: 1, width: 5, height: 5 }]);
    assert_eq!(MapGenerator::place_stairs(&d, 3, 3, &with), Some((3, 3)));
    let twins = open_level(
        20,
        20,
        vec![Room { x: 1, y: 1, width: 5, height: 5 }, Room { x: 1, y: 1, width: 4, height: 4 }],
    );
    assert_eq!(MapGenerator::place_stairs(&twins, 3, 3, &with), Some((3, 3)));
    let walled = walls_with(20, 20, &[(9, 3)], vec![Room { x: 1, y: 1, width: 5, height: 5 }]);
    assert_eq!(MapGenerator::place_stairs(&walled, 3, 3, &with), None);
    let near = walls_with(20, 20, &[(8, 3), (3, 6)], vec![Room { x: 1, y: 1, width: 5, height: 5 }]);
    assert_eq!(MapGenerator::place_stairs(&near, 3, 3, &with), Some((3, 6)));
}

#[test]
fn generated_map_without_parameters() {
    let config = create_default_config();
    let tiles = TileRegistry::load_from_config(&config);
    let objects = GameObjectRegistry::load_from_config(&config);
    for _ in 0..10 {
        let (d, entities, consumables, chests, stairs) = MapGenerator::generate_map(&tiles, &objects, None);
        assert_eq!((d.width, d.height), (80, 50));
        assert!(d.rooms.len() >= 1 && d.rooms.len() <= 12);
        assert!(consumables.is_empty());
        assert!(chests.is_empty());
        let spawn = d.spawn_point();
        assert!(entities.len() <= d.rooms.len());
        assert!(!entities.is_empty());
        for (k, e) in entities.iter().enumerate() {
            assert_eq!(e.id, format!("monster_{}", k));
            assert_eq!(e.controller, EntityController::AI);
            assert_eq!(e.object_id, "orc");
            assert!(e.is_alive());
            assert_eq!(e.current_health, e.max_health);
            assert!(d.is_walkable(e.x, e.y));
            assert!(in_some_room(&d, e.x, e.y));
            assert_ne!((e.x, e.y), spawn);
            for other in &entities[..k] {
                assert_ne!((e.x, e.y), (other.x, other.y));
            }
        }
        let (sx, sy) = stairs.unwrap();
        assert!(d.is_walkable(sx, sy));
        assert_eq!(stairs, MapGenerator::place_stairs(&d, spawn.0, spawn.1, &objects));
    }
}

#[test]
fn generated_map_follows_the_level_parameters() {
    let config = config();
    let tiles = TileRegistry::load_from_config(&config);
    let objects = GameObjectRegistry::load_from_config(&config);
    let level = level(4, (1, 3), 5, vec!["rat", "bat"]);
    for _ in 0..10 {
        let (d, entities, _, chests, stairs) = MapGenerator::generate_map(&tiles, &objects, Some(&level));
        assert!(d.rooms.len() >= 1 && d.rooms.len() <= 4);
        assert!(entities.len() >= d.rooms.len());
        assert!(entities.len() <= 3 * d.rooms.len());
        for e in &entities {
            assert_eq!(e.object_id, "rat");
            assert_eq!(e.attack, 2);
            assert_eq!(e.max_health, 8);
            assert_eq!(e.attack_spread_percent, 20);
        }
        assert_eq!(chests.len(), 5);
        let spawn = d.spawn_point();
        for (k, c) in chests.iter().enumerate() {
            assert_eq!(c.id, format!("chest_{}", k));
            assert_eq!(c.object_id, "chest");
            assert!(!c.is_open);
            assert!(c.open_object_id.is_none());
            assert!(d.is_walkable(c.x, c.y));
            assert!(in_some_room(&d, c.x, c.y));
            assert_ne!((c.x, c.y), spawn);
            assert_ne!(Some((c.x, c.y)), stairs);
            assert!(!any_entity_at(&entities, c.x, c.y));
            for other in &chests[..k] {
                assert_ne!((c.x, c.y), (other.x, other.y));
            }
        }
    }
}

#[test]
fn no_monsters_where_none_are_allowed_or_asked() {
    let config = config();
    let tiles = TileRegistry::load_from_config(&config);
    let objects = GameObjectRegistry::load_from_config(&config);
    let (_, entities, _, chests, _) =
        MapGenerator::generate_map(&tiles, &objects, Some(&level(3, (1, 1), 0, vec!["bat"])));
    assert!(entities.is_empty());
    assert!(chests.is_empty());
    let (_, entities, _, _, _) =
        MapGenerator::generate_map(&tiles, &objects, Some(&level(3, (0, 0), 0, vec!["orc"])));
    assert!(entities.is_empty());
    let (d, entities, _, _, _) =
        MapGenerator::generate_map(&tiles, &objects, Some(&level(3, (2, 1), 0, vec!["orc", "rat"])));
    assert_eq!(entities.len(), 2 * d.rooms.len());
    let (d, entities, _, chests, stairs) =
        MapGenerator::generate_map(&tiles, &objects, Some(&level(0, (1, 1), 3, vec!["orc"])));
    assert!(d.rooms.is_empty());
    assert!(entities.is_empty());
    assert!(chests.is_empty());
    assert!(stairs.is_none());
}

#[test]
fn chests_fill_the_free_cells_in_a_drawn_order() {
    let config = config();
    let tiles = TileRegistry::load_from_config(&config);
    let objects = GameObjectRegistry::load_from_config(&config);
    let (d, entities, _, chests, stairs) =
        MapGenerator::generate_map(&tiles, &objects, Some(&level(3, (1, 1), 100000, vec!["orc"])));
    let spawn = d.spawn_point();
    let mut free: Vec<(usize, usize)> = Vec::new();
    for room in &d.rooms {
        for dy in 0..room.height {
            for dx in 0..room.width {
                let c = (room.x + dx, room.y + dy);
                if d.is_walkable(c.0, c.1) && c != spawn && Some(c) != stairs && !any_entity_at(&entities, c.0, c.1) {
                    free.push(c);
                }
            }
        }
    }
    let places: Vec<(usize, usize)> = chests.iter().map(|c| (c.x, c.y)).collect();
    assert_eq!(places.len(), free.len());
    assert!(places.len() > 20);
    let mut sorted_places = places.clone();
    sorted_places.sort();
    let mut sorted_free = free.clone();
    sorted_free.sort();
    assert_eq!(sorted_places, sorted_free);
    assert_ne!(places, free, "the cells come in the order they were found in");
}

#[test]
fn monsters_put_anew_come_behind_the_entities() {
    let objects = GameObjectRegistry::load_from_config(&config());
    let rooms = vec![
        Room { x: 0, y: 0, width: 2, height: 1 },
        Room { x: 5, y: 5, width: 1, height: 1 },
        Room { x: 8, y: 8, width: 2, height: 2 },
    ];
    let d = walls_with(12, 12, &[(0, 0), (1, 0), (5, 5), (8, 8), (9, 8)], rooms);
    for _ in 0..20 {
        let mut entities = vec![
            Entity::new("p".to_string(), 5, 5, "player".to_string(), 1, 0, 0, 0, 100, 10, EntityController::Player),
            Entity::new("old".to_string(), 8, 8, "orc".to_string(), 1, 0, 0, 0, 100, 10, EntityController::AI),
        ];
        entities[1].current_health = 0;
        MapGenerator::spawn_monsters(&d, &mut entities, &objects, 0, 0);
        assert_eq!(entities.len(), 4);
        assert_eq!(entities[0].id, "p");
        assert_eq!(entities[1].id, "old");
        assert_eq!(entities[2].id, "monster_0");
        assert_eq!((entities[2].x, entities[2].y), (1, 0));
        assert_eq!(entities[3].id, "monster_1");
        assert!((entities[3].x, entities[3].y) == (8, 8) || (entities[3].x, entities[3].y) == (9, 8));
        for e in &entities[2..] {
            assert_eq!(e.controller, EntityController::AI);
            assert!(e.object_id == "orc" || e.object_id == "rat");
            assert_eq!(e.current_health, e.max_health);
            if e.object_id == "orc" {
                assert_eq!((e.attack, e.max_health), (5, 50));
            } else {
                assert_eq!((e.attack, e.max_health), (5, 8));
            }
            assert_eq!(e.attack_spread_percent, 20);
            assert_eq!(e.crit_damage_percent, 150);
        }
    }
    let mut entities: Vec<Entity> = Vec::new();
    MapGenerator::spawn_monsters(&d, &mut entities, &GameObjectRegistry::new(), 0, 0);
    assert!(entities.is_empty());
}

#[test]
fn chests_put_anew_take_cells_that_hold_nothing() {
    let objects = GameObjectRegistry::load_from_config(&config());
    let rooms = vec![Room { x: 0, y: 0, width: 3, height: 1 }, Room { x: 5, y: 5, width: 2, height: 2 }];
    let d = walls_with(10, 10, &[(0, 0), (1, 0), (2, 0), (5, 5), (6, 5), (5, 6), (6, 6)], rooms);
    let entities = vec![
        Entity::new("m".to_string(), 1, 0, "orc".to_string(), 1, 0, 0, 0, 100, 10, EntityController::AI),
        Entity::new("dead".to_string(), 6, 6, "orc".to_string(), 1, 0, 0, 0, 100, 0, EntityController::AI),
    ];
    let mut none = 0;
    let mut both = 0;
    for _ in 0..200 {
        let mut chests = vec![Chest {
            id: "old".to_string(),
            x: 5,
            y: 6,
            object_id: "chest".to_string(),
            open_object_id: None,
            is_open: true,
        }];
        MapGenerator::spawn_chests(&d, &entities, &mut chests, &objects, 0, 0, Some((5, 5)));
        assert!(chests.len() >= 1 && chests.len() <= 3);
        assert_eq!(chests[0].id, "old");
        assert!(chests[0].is_open);
        for (k, c) in chests[1..].iter().enumerate() {
            assert_eq!(c.id, format!("chest_{}", k));
            assert_eq!(c.object_id, "chest");
            assert!(!c.is_open);
            assert!((c.x, c.y) == (2, 0) || (c.x, c.y) == (6, 5), "chest at {} {}", c.x, c.y);
        }
        if chests.len() == 3 {
            assert_ne!((chests[1].x, chests[1].y), (chests[2].x, chests[2].y));
            both += 1;
        }
        if chests.len() == 1 {
            none += 1;
        }
        assert!(any_chest_at(&chests, 5, 6));
        assert!(!any_chest_at(&chests, 0, 0));
    }
    assert!(none > 0 && both > 0);
    let mut chests: Vec<Chest> = Vec::new();
    MapGenerator::spawn_chests(&d, &entities, &mut chests, &GameObjectRegistry::new(), 0, 0, None);
    assert!(chests.is_empty());
}

#[test]
fn entity_on_a_cell() {
    let entities = vec![
        Entity::new("m".to_string(), 1, 2, "orc".to_string(), 1, 0, 0, 0, 100, 0, EntityController::AI),
    ];
    assert!(any_entity_at(&entities, 1, 2));
    assert!(!any_entity_at(&entities, 2, 1));
    assert!(!any_entity_at(&Vec::new(), 1, 2));
}

#[test]
fn every_room_with_a_free_cell_holds_a_monster() {
    let config = config();
    let tiles = TileRegistry::load_from_config(&config);
    let objects = GameObjectRegistry::load_from_config(&config);
    for _ in 0..10 {
        let (d, entities, _, chests, _) = MapGenerator::generate_map(&tiles, &objects, None);
        let spawn = d.spawn_point();
        for room in &d.rooms {
            let mut has_cell = false;
            for dy in 0..room.height {
                for dx in 0..room.width {
                    let c = (room.x + dx, room.y + dy);
                    if d.is_walkable(c.0, c.1) && c != spawn {
                        has_cell = true;
                    }
                }
            }
            assert!(has_cell);
            let held = entities
                .iter()
                .filter(|e| e.x >= room.x && e.x < room.x + room.width && e.y >= room.y && e.y < room.y + room.height)
                .count();
            assert_eq!(held, 1);
        }
        assert_eq!(entities.len(), d.rooms.len());
        assert_eq!(chests.len(), (d.rooms.len() + 1) / 2);
    }
}

#[test]
fn monsters_put_anew_serve_every_room_of_a_level() {
    let config = config();
    let tiles = TileRegistry::load_from_config(&config);
    let objects = GameObjectRegistry::load_from_config(&config);
    for _ in 0..10 {
        let d = Dungeon::new_with_registry(60, 40, &tiles);
        let spawn = d.spawn_point();
        let mut entities: Vec<Entity> = Vec::new();
        MapGenerator::spawn_monsters(&d, &mut entities, &objects, spawn.0, spawn.1);
        assert_eq!(entities.len(), d.rooms.len());
        for room in &d.rooms {
            assert!(entities
                .iter()
                .any(|e| e.x >= room.x && e.x < room.x + room.width && e.y >= room.y && e.y < room.y + room.height));
        }
    }
}

#[test]
fn every_room_holds_as_many_monsters_as_are_drawn_for_a_room() {
    let config = config();
    let tiles = TileRegistry::load_from_config(&config);
    let objects = GameObjectRegistry::load_from_config(&config);
    let level = level(5, (2, 4), 0, vec!["orc", "rat"]);
    let mut counts: Vec<usize> = Vec::new();
    for _ in 0..20 {
        let (d, entities, _, _, _) = MapGenerator::generate_map(&tiles, &objects, Some(&level));
        let mut total = 0;
        for room in &d.rooms {
            let held = entities
                .iter()
                .filter(|e| e.x >= room.x && e.x < room.x + room.width && e.y >= room.y && e.y < room.y + room.height)
                .count();
            assert!(held >= 2 && held <= 4, "a room holds {} monsters", held);
            counts.push(held);
            total += held;
        }
        assert_eq!(total, entities.len());
    }
    assert!(counts.contains(&2) && counts.contains(&3) && counts.contains(&4));
}
