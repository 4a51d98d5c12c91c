use dungeon_crawler::config::{create_default_config, GameConfig, LevelConfig};
use dungeon_crawler::game_object::{GameObject, InteractableData, SpriteCoord};
use dungeon_crawler::game_object_registry::{find_index, insert_object, GameObjectRegistry};
use dungeon_crawler::tile::Tile;
use dungeon_crawler::tile_registry::TileRegistry;

fn object(id: &str, object_type: &str, walkable: bool) -> GameObject {
    GameObject::new(id.to_string(), id.to_uppercase(), object_type.to_string(), walkable, 3, 4)
}

fn config_of(objects: Vec<GameObject>) -> GameConfig {
    GameConfig { game_objects: objects, levels: Vec::new() }
}

#[test]
fn new_object_has_one_sprite_and_no_stats() {
    let o = GameObject::new("orc".to_string(), "Orc".to_string(), "character".to_string(), true, 2, 9);
    assert_eq!(o.id, "orc");
    assert_eq!(o.name, "Orc");
    assert_eq!(o.object_type, "character");
    assert!(o.walkable);
    assert_eq!(o.sprites, vec![SpriteCoord { x: 2, y: 9 }]);
    assert_eq!(o.sprite_x, Some(2));
    assert_eq!(o.sprite_y, Some(9));
    assert_eq!(o.health, None);
    assert_eq!(o.attack, None);
    assert_eq!(o.monster, None);
    assert!(o.interactable.is_none());
    assert!(o.sprite_sheet.is_none());
    assert!(o.properties.is_empty());
}

#[test]
fn with_sprites_sets_single_coordinate_from_first_sprite() {
    let o = object("floor", "tile", true)
        .with_sprites(vec![SpriteCoord { x: 7, y: 8 }, SpriteCoord { x: 1, y: 1 }]);
    assert_eq!(o.sprites.len(), 2);
    assert_eq!(o.sprite_x, Some(7));
    assert_eq!(o.sprite_y, Some(8));
}

#[test]
fn with_sprites_of_nothing_keeps_single_coordinate() {
    let o = object("floor", "tile", true).with_sprites(Vec::new());
    assert!(o.sprites.is_empty());
    assert_eq!(o.sprite_x, Some(3));
    assert_eq!(o.sprite_y, Some(4));
    assert_eq!(o.get_sprites_vec(), vec![SpriteCoord { x: 3, y: 4 }]);
}

#[test]
fn sprites_vec_is_empty_without_sprites_and_coordinate() {
    let mut o = object("floor", "tile", true).with_sprites(Vec::new());
    o.sprite_x = None;
    assert!(o.get_sprites_vec().is_empty());
}

#[test]
fn with_health_sets_health_only() {
    let o = object("orc", "character", true).with_health(50);
    assert_eq!(o.health, Some(50));
    assert_eq!(o.attack, None);
    assert_eq!(o.id, "orc");
}

#[test]
fn chest_is_walkable_only_after_opening() {
    let chest = object("chest", "chest", false);
    assert!(chest.is_interactable());
    assert!(!chest.get_interactable_walkable(false));
    assert!(chest.get_interactable_walkable(true));
    let mut door = object("door", "tile", true);
    door.interactable = Some(InteractableData {});
    assert!(!door.get_interactable_walkable(false));
    assert!(door.get_interactable_walkable(true));
    let floor = object("floor", "tile", true);
    assert!(!floor.is_interactable());
    assert!(floor.get_interactable_walkable(false));
    let wall = object("wall", "tile", false);
    assert!(!wall.get_interactable_walkable(true));
}

#[test]
fn interactable_sprites_take_first_before_and_second_after() {
    let chest = object("chest", "chest", false)
        .with_sprites(vec![SpriteCoord { x: 1, y: 1 }, SpriteCoord { x: 2, y: 2 }, SpriteCoord { x: 3, y: 3 }]);
    assert_eq!(chest.get_interactable_sprites(false), vec![SpriteCoord { x: 1, y: 1 }]);
    assert_eq!(chest.get_interactable_sprites(true), vec![SpriteCoord { x: 2, y: 2 }]);
    let single = object("chest", "chest", false);
    assert_eq!(single.get_interactable_sprites(true), vec![SpriteCoord { x: 3, y: 4 }]);
    let plain = object("floor", "tile", true)
        .with_sprites(vec![SpriteCoord { x: 1, y: 1 }, SpriteCoord { x: 2, y: 2 }]);
    assert_eq!(plain.get_interactable_sprites(true).len(), 2);
    let mut none = object("chest", "chest", false).with_sprites(Vec::new());
    none.sprite_x = None;
    assert!(none.get_interactable_sprites(false).is_empty());
    assert!(none.get_interactable_sprites(true).is_empty());
}

#[test]
fn property_stored_last_counts() {
    let o = object("orc", "character", true)
        .with_property("attack".to_string(), "7".to_string())
        .with_property("color".to_string(), "green".to_string())
        .with_property("attack".to_string(), "9".to_string());
    assert_eq!(o.get_property("attack"), Some(&"9".to_string()));
    assert_eq!(o.get_property("color"), Some(&"green".to_string()));
    assert_eq!(o.get_property("size"), None);
}

#[test]
fn stats_fall_back_to_properties() {
    let o = object("orc", "character", true)
        .with_property("attack".to_string(), "12".to_string())
        .with_property("defense".to_string(), "-3".to_string())
        .with_property("attack_spread_percent".to_string(), "35".to_string())
        .with_property("crit_chance_percent".to_string(), "x".to_string());
    assert_eq!(o.attack_stat(), Some(12));
    assert_eq!(o.defense_stat(), Some(-3));
    assert_eq!(o.spread_stat(), Some(35));
    assert_eq!(o.crit_chance_stat(), None);
    assert_eq!(o.crit_damage_stat(), None);
    let mut p = o;
    p.attack = Some(4);
    assert_eq!(p.attack_stat(), Some(4));
}

#[test]
fn monster_is_a_character_marked_so() {
    let mut orc = object("orc", "character", true);
    assert!(!orc.is_monster());
    orc.monster = Some(true);
    assert!(orc.is_monster());
    orc.monster = Some(false);
    assert!(!orc.is_monster());
    let by_property = object("rat", "character", true).with_property("monster".to_string(), "true".to_string());
    assert!(by_property.is_monster());
    let not_true = object("rat", "character", true).with_property("monster".to_string(), "yes".to_string());
    assert!(!not_true.is_monster());
    let mut tile = object("mimic", "tile", true);
    tile.monster = Some(true);
    assert!(!tile.is_monster());
}

#[test]
fn clone_of_object_keeps_everything() {
    let mut o = object("orc", "character", true)
        .with_health(9)
        .with_property("k".to_string(), "v".to_string());
    o.sprite_sheet = Some("rogues.png".to_string());
    let c = o.clone();
    assert_eq!(c.id, o.id);
    assert_eq!(c.name, o.name);
    assert_eq!(c.health, Some(9));
    assert_eq!(c.sprites, o.sprites);
    assert_eq!(c.sprite_sheet, Some("rogues.png".to_string()));
    assert_eq!(c.properties, o.properties);
}

#[test]
fn default_config_holds_the_ten_entries_in_order() {
    let config = create_default_config();
    let ids: Vec<&str> = config.game_objects.iter().map(|o| o.id.as_str()).collect();
    assert_eq!(
        ids,
        vec![
            "wall_dirt_top", "wall_dirt_side", "wall_stone_top", "floor_dark", "floor_stone",
            "stairs", "player", "orc", "stairs", "health_potion",
        ]
    );
    assert!(config.levels.is_empty());
    let player = &config.game_objects[6];
    assert_eq!(player.health, Some(100));
    assert_eq!(player.attack, Some(10));
    assert_eq!(player.sprite_sheet, Some("rogues.png".to_string()));
    let orc = &config.game_objects[7];
    assert_eq!(orc.health, Some(50));
    assert_eq!(orc.attack, Some(5));
    assert_eq!(orc.monster, Some(true));
    let stone = &config.game_objects[4];
    assert_eq!(stone.sprites.len(), 3);
    assert_eq!(stone.sprite_x, Some(1));
    assert_eq!(stone.sprite_y, Some(6));
    assert!(stone.walkable);
    let potion = &config.game_objects[9];
    assert_eq!(potion.healing_power, Some(20));
    assert_eq!(potion.object_type, "consumable");
    assert!(!config.game_objects[0].walkable);
}

#[test]
fn config_finds_first_entry_by_id_and_all_by_type() {
    let config = create_default_config();
    let stairs = config.get_object_by_id("stairs").unwrap();
    assert_eq!(stairs.sprite_x, Some(0));
    assert_eq!(stairs.sprite_y, Some(7));
    assert!(config.get_object_by_id("dragon").is_none());
    let goals = config.get_objects_by_type("goal");
    assert_eq!(goals.len(), 2);
    assert_eq!(goals[1].sprite_x, Some(7));
    let tiles = config.get_objects_by_type("tile");
    assert_eq!(tiles.len(), 5);
    assert_eq!(tiles[0].id, "wall_dirt_top");
    assert_eq!(tiles[4].id, "floor_stone");
    assert!(config.get_objects_by_type("weapon").is_empty());
}

#[test]
fn level_allows_listed_monsters_only() {
    let level = LevelConfig {
        level_number: 1,
        min_rooms: 1,
        max_rooms: 2,
        min_monsters_per_room: 0,
        max_monsters_per_room: 1,
        chest_count: 0,
        allowed_monsters: vec!["orc".to_string(), "rat".to_string()],
    };
    assert!(level.is_allowed(&"orc".to_string()));
    assert!(level.is_allowed(&"rat".to_string()));
    assert!(!level.is_allowed(&"bat".to_string()));
}

#[test]
fn registry_keeps_one_entry_per_id_and_the_later_one() {
    let registry = GameObjectRegistry::load_from_config(&create_default_config());
    assert_eq!(registry.get_all_objects().len(), 9);
    let stairs = registry.get_object("stairs").unwrap();
    assert_eq!(stairs.sprite_x, Some(7));
    assert_eq!(stairs.sprite_y, Some(16));
    assert!(registry.get_object("dragon").is_none());
    let ids: Vec<&str> = registry.get_all_objects().iter().map(|o| o.id.as_str()).collect();
    assert_eq!(ids[5], "stairs");
    assert_eq!(ids[8], "health_potion");
}

#[test]
fn empty_registry_has_nothing() {
    let registry = GameObjectRegistry::new();
    assert!(registry.get_all_objects().is_empty());
    assert!(registry.get_object("player").is_none());
    assert!(registry.get_monster_characters().is_empty());
    assert!(registry.get_objects_by_type("tile").is_empty());
}

#[test]
fn registry_lists_by_type_and_monsters() {
    let registry = GameObjectRegistry::load_from_config(&create_default_config());
    let tiles = registry.get_objects_by_type("tile");
    assert_eq!(tiles.len(), 5);
    let consumables = registry.get_objects_by_type("consumable");
    assert_eq!(consumables.len(), 1);
    assert_eq!(consumables[0].id, "health_potion");
    let monsters = registry.get_monster_characters();
    assert_eq!(monsters.len(), 1);
    assert_eq!(monsters[0].id, "orc");
}

#[test]
fn insert_object_replaces_or_appends() {
    let mut objects: Vec<GameObject> = Vec::new();
    insert_object(&mut objects, &object("a", "tile", true));
    insert_object(&mut objects, &object("b", "tile", true));
    insert_object(&mut objects, &object("a", "tile", false));
    assert_eq!(objects.len(), 2);
    assert_eq!(objects[0].id, "a");
    assert!(!objects[0].walkable);
    assert_eq!(objects[1].id, "b");
    assert_eq!(find_index(&objects, "b"), Some(1));
    assert_eq!(find_index(&objects, "c"), None);
}

#[test]
fn tile_registry_holds_tiles_only() {
    let registry = TileRegistry::load_from_config(&create_default_config());
    assert_eq!(registry.get_all_tiles().len(), 5);
    assert!(registry.get_object("player").is_none());
    assert!(registry.get_object("floor_dark").is_some());
    assert!(registry.get_tile("orc").is_none());
    let walls = registry.get_wall_tiles();
    assert_eq!(walls.len(), 3);
    assert!(walls.iter().all(|t| !t.walkable));
    assert_eq!(walls[0].tile_id, "wall_dirt_top");
    let floors = registry.get_walkable_tiles();
    assert_eq!(floors.len(), 2);
    assert!(floors.iter().all(|t| t.walkable));
    assert_eq!(floors[0].tile_id, "floor_dark");
    assert_eq!(floors[1].tile_id, "floor_stone");
    assert!(TileRegistry::new().get_all_tiles().is_empty());
}

#[test]
fn tile_from_registry_is_drawn_with_one_of_its_sprites() {
    let registry = TileRegistry::load_from_config(&create_default_config());
    for _ in 0..50 {
        let tile = registry.get_tile("floor_stone").unwrap();
        assert!(tile.walkable);
        assert_eq!(tile.tile_id, "floor_stone");
        assert_eq!(tile.sprites.len(), 3);
        assert!(tile.sprites.contains(&SpriteCoord { x: tile.sprite_x, y: tile.sprite_y }));
    }
}

#[test]
fn registry_fallback_tiles() {
    let empty = TileRegistry::new();
    let wall = empty.get_wall_dirt_top();
    assert!(!wall.walkable);
    assert_eq!((wall.sprite_x, wall.sprite_y), (0, 0));
    assert_eq!(wall.tile_id, "");
    let floor = empty.get_floor_dark();
    assert!(floor.walkable);
    assert_eq!((floor.sprite_x, floor.sprite_y), (0, 6));
    for _ in 0..20 {
        let stone = empty.get_floor_stone();
        assert!(stone.walkable);
        assert_eq!(stone.sprites.len(), 3);
        assert_eq!(stone.sprite_y, 6);
        assert!(stone.sprite_x >= 1 && stone.sprite_x <= 3);
        assert!(empty.get_floor_stone1().walkable);
        assert!(empty.get_floor_stone2().walkable);
        assert!(empty.get_floor_stone3().walkable);
    }
    let full = TileRegistry::load_from_config(&create_default_config());
    assert_eq!(full.get_wall_dirt_top().tile_id, "wall_dirt_top");
    assert_eq!(full.get_floor_dark().tile_id, "floor_dark");
    assert_eq!(full.get_floor_stone().tile_id, "floor_stone");
}

#[test]
fn tile_from_object_with_pick() {
    let o = object("floor", "tile", true)
        .with_sprites(vec![SpriteCoord { x: 1, y: 1 }, SpriteCoord { x: 2, y: 5 }]);
    let t = Tile::from_object_with(&o, 1);
    assert!(t.walkable);
    assert_eq!(t.tile_id, "floor");
    assert_eq!((t.sprite_x, t.sprite_y), (2, 5));
    assert_eq!(t.sprites.len(), 2);
    let beyond = Tile::from_object_with(&o, 9);
    assert_eq!((beyond.sprite_x, beyond.sprite_y), (1, 1));
    let mut bare = object("w", "tile", false).with_sprites(Vec::new());
    bare.sprite_x = None;
    bare.sprite_y = None;
    let t = Tile::from_object(&bare);
    assert_eq!((t.sprite_x, t.sprite_y), (0, 0));
    assert!(t.sprites.is_empty());
}

#[test]
fn tile_sprite_selection() {
    let mut t = Tile::with_sprites(true, vec![SpriteCoord { x: 4, y: 4 }, SpriteCoord { x: 5, y: 6 }]);
    assert!(t.sprites.contains(&SpriteCoord { x: t.sprite_x, y: t.sprite_y }));
    t.select_sprite(1);
    assert_eq!((t.sprite_x, t.sprite_y), (5, 6));
    t.select_sprite(0);
    assert_eq!((t.sprite_x, t.sprite_y), (4, 4));
    for _ in 0..20 {
        t.randomize_sprite();
        assert!(t.sprites.contains(&SpriteCoord { x: t.sprite_x, y: t.sprite_y }));
        assert!(t.walkable);
    }
    let mut none = Tile::with_sprites(false, Vec::new());
    assert_eq!((none.sprite_x, none.sprite_y), (0, 0));
    none.sprite_x = 9;
    none.randomize_sprite();
    assert_eq!(none.sprite_x, 9);
}

#[test]
fn plain_tiles() {
    let all = vec![
        (Tile::wall_dirt_top(), false, 0, 0),
        (Tile::wall_dirt_side(), false, 1, 0),
        (Tile::wall_inner(), false, 2, 0),
        (Tile::wall_stone_top(), false, 0, 1),
        (Tile::wall_stone_side(), false, 1, 1),
        (Tile::floor_dark(), true, 0, 6),
        (Tile::floor_stone1(), true, 1, 6),
        (Tile::floor_stone2(), true, 2, 6),
        (Tile::floor_stone3(), true, 3, 6),
        (Tile::door_closed(), false, 0, 16),
        (Tile::door_open(), true, 1, 16),
    ];
    for (tile, walkable, x, y) in all {
        assert_eq!(tile.walkable, walkable);
        assert_eq!((tile.sprite_x, tile.sprite_y), (x, y));
        assert_eq!(tile.sprites, vec![SpriteCoord { x, y }]);
        assert_eq!(tile.tile_id, "");
    }
    let c = Tile::new(true, 8, 9).clone();
    assert_eq!((c.walkable, c.sprite_x, c.sprite_y), (true, 8, 9));
}

#[test]
fn config_with_custom_tiles_orders_the_catalog() {
    let config = config_of(vec![
        object("floor_b", "tile", true),
        object("wall_a", "tile", false),
        object("orc", "character", true),
        object("floor_a", "tile", true),
    ]);
    let registry = TileRegistry::load_from_config(&config);
    let floors = registry.get_walkable_tiles();
    assert_eq!(floors.len(), 2);
    assert_eq!(floors[0].tile_id, "floor_b");
    assert_eq!(floors[1].tile_id, "floor_a");
    assert_eq!(registry.get_wall_tiles().len(), 1);
}

#[test]
fn walls_and_floors_make_up_the_tile_registry() {
    let mut config = create_default_config();
    config.game_objects.push(GameObject::new("lava".to_string(), "Lava".to_string(), "tile".to_string(), false, 2, 2));
    config.game_objects.push(GameObject::new("rug".to_string(), "Rug".to_string(), "goal".to_string(), true, 2, 3));
    let registry = TileRegistry::load_from_config(&config);
    let all = registry.get_all_tiles();
    assert!(all.iter().all(|o| o.object_type == "tile"));
    assert_eq!(all.len(), registry.get_wall_tiles().len() + registry.get_walkable_tiles().len());
    assert_eq!(all.len(), 6);
    assert!(registry.get_object("rug").is_none());
    assert!(registry.get_object("stairs").is_none());
    assert!(registry.get_object("lava").is_some());
}
