use dungeon_crawler::combat::{
    attack_entity, compute_hit, display_name, draw_rolls, percent_part, resolve_attack, AttackRolls,
};
use dungeon_crawler::config::{create_default_config, GameConfig};
use dungeon_crawler::consumable::Consumable;
use dungeon_crawler::entity::{Entity, EntityController};
use dungeon_crawler::game_object::GameObject;
use dungeon_crawler::game_object_registry::GameObjectRegistry;
use dungeon_crawler::message::MessageType;

fn registry() -> GameObjectRegistry {
    GameObjectRegistry::load_from_config(&create_default_config())
}

fn fighter(id: &str, object_id: &str, x: usize, attack: i32, defense: i32, health: u32, controller: EntityController) -> Entity {
    Entity::new(id.to_string(), x, 3, object_id.to_string(), attack, defense, 0, 0, 150, health, controller)
}

fn player(attack: i32) -> Entity {
    fighter("ann", "player", 1, attack, 0, 100, EntityController::Player)
}

fn orc(defense: i32, health: u32) -> Entity {
    fighter("m1", "orc", 2, 5, defense, health, EntityController::AI)
}

fn rolls(spread: i64, crit_roll: u32, drop_roll: u32, drop_pick: usize) -> AttackRolls {
    AttackRolls { spread, crit_roll, drop_roll, drop_pick }
}

#[test]
fn percent_part_rounds_down() {
    assert_eq!(percent_part(10, 20), 2);
    assert_eq!(percent_part(7, 150), 10);
    assert_eq!(percent_part(99, 1), 0);
    assert_eq!(percent_part(100, 1), 1);
    assert_eq!(percent_part(0, 77), 0);
    assert_eq!(percent_part(5, 0), 0);
    assert_eq!(percent_part(-5, 20), -1);
    assert_eq!(percent_part(-1, 1), -1);
    assert_eq!(percent_part(-100, 50), -50);
    assert_eq!(percent_part(-7, 150), -11);
    assert_eq!(percent_part(i64::MAX, u32::MAX), (i64::MAX as i128) * (u32::MAX as i128) / 100);
    assert_eq!(percent_part(i64::MIN, 100), i64::MIN as i128);
}

#[test]
fn plain_hit_deals_attack_less_defense() {
    assert_eq!(compute_hit(&player(5), &orc(0, 20), 0, 50), (5, false));
    assert_eq!(compute_hit(&player(10), &orc(3, 20), 0, 50), (7, false));
    assert_eq!(compute_hit(&player(10), &orc(3, 20), 2, 50), (9, false));
    assert_eq!(compute_hit(&player(10), &orc(3, 20), -2, 50), (5, false));
}

#[test]
fn hit_deals_one_damage_at_least() {
    assert_eq!(compute_hit(&player(5), &orc(5, 20), 0, 50), (1, false));
    assert_eq!(compute_hit(&player(5), &orc(500, 20), 0, 50), (1, false));
    assert_eq!(compute_hit(&player(0), &orc(0, 20), 0, 50), (1, false));
    assert_eq!(compute_hit(&player(-40), &orc(0, 20), 0, 50), (1, false));
    assert_eq!(compute_hit(&player(i32::MIN), &orc(i32::MAX, 20), i64::MIN, 50), (1, false));
}

#[test]
fn hit_is_critical_when_the_roll_is_below_the_chance() {
    let mut attacker = player(10);
    attacker.crit_chance_percent = 30;
    attacker.crit_damage_percent = 150;
    assert_eq!(compute_hit(&attacker, &orc(0, 20), 0, 29), (15, true));
    assert_eq!(compute_hit(&attacker, &orc(0, 20), 0, 30), (10, false));
    assert_eq!(compute_hit(&attacker, &orc(0, 20), 0, 0), (15, true));
    attacker.crit_chance_percent = 0;
    assert_eq!(compute_hit(&attacker, &orc(0, 20), 0, 0), (10, false));
    attacker.crit_chance_percent = 100;
    assert_eq!(compute_hit(&attacker, &orc(0, 20), 0, 99), (15, true));
}

#[test]
fn critical_hit_scales_base_with_spread_and_rounds_down() {
    let mut attacker = player(7);
    attacker.crit_chance_percent = 100;
    attacker.crit_damage_percent = 150;
    assert_eq!(compute_hit(&attacker, &orc(0, 20), 0, 0), (10, true));
    assert_eq!(compute_hit(&attacker, &orc(4, 20), 0, 0), (6, true));
    assert_eq!(compute_hit(&attacker, &orc(0, 20), 2, 0), (13, true));
    attacker.crit_damage_percent = 50;
    assert_eq!(compute_hit(&attacker, &orc(0, 20), 0, 0), (3, true));
    attacker.crit_damage_percent = 0;
    assert_eq!(compute_hit(&attacker, &orc(0, 20), 0, 0), (1, true));
}

#[test]
fn damage_too_large_to_report_counts_as_the_largest() {
    let mut attacker = player(i32::MAX);
    attacker.crit_chance_percent = 100;
    attacker.crit_damage_percent = u32::MAX;
    assert_eq!(compute_hit(&attacker, &orc(0, 20), i64::MAX, 0), (u32::MAX, true));
    assert_eq!(compute_hit(&attacker, &orc(0, 20), i64::MAX, 100), (u32::MAX, false));
}

#[test]
fn attack_takes_damage_off_the_target_and_reports_it() {
    let registry = registry();
    let mut entities = vec![player(5), orc(0, 20)];
    let mut consumables: Vec<Consumable> = Vec::new();
    let mut next_id: u64 = 0;
    let m = resolve_attack(&mut entities, 0, 1, &registry, &mut consumables, &mut next_id, &rolls(0, 50, 0, 0))
        .unwrap();
    assert_eq!(entities[1].current_health, 15);
    assert_eq!(entities[1].max_health, 20);
    assert_eq!(entities[0].current_health, 100);
    assert_eq!(m.message_type, MessageType::Combat);
    assert_eq!(m.text, "Player Character dealt 5 damage to Orc");
    assert_eq!(m.attacker, Some("Player Character".to_string()));
    assert_eq!(m.target, Some("Orc".to_string()));
    assert_eq!(m.damage, Some(5));
    assert_eq!(m.target_health_after, Some(15));
    assert_eq!(m.target_died, Some(false));
    assert_eq!(m.is_crit, Some(false));
    assert!(consumables.is_empty());
    assert_eq!(next_id, 0);
}

#[test]
fn attack_that_kills_leaves_no_health() {
    let registry = registry();
    let mut entities = vec![player(5), orc(0, 3)];
    let mut consumables: Vec<Consumable> = Vec::new();
    let mut next_id: u64 = 0;
    let m = resolve_attack(&mut entities, 0, 1, &registry, &mut consumables, &mut next_id, &rolls(0, 50, 99, 0))
        .unwrap();
    assert_eq!(entities[1].current_health, 0);
    assert!(!entities[1].is_alive());
    assert_eq!(m.text, "Player Character killed Orc!");
    assert_eq!(m.damage, Some(5));
    assert_eq!(m.target_health_after, Some(0));
    assert_eq!(m.target_died, Some(true));
    assert!(consumables.is_empty());
}

#[test]
fn critical_attack_says_so() {
    let registry = registry();
    let mut attacker = player(10);
    attacker.crit_chance_percent = 50;
    let mut entities = vec![attacker, orc(0, 100)];
    let mut consumables: Vec<Consumable> = Vec::new();
    let mut next_id: u64 = 0;
    let m = resolve_attack(&mut entities, 0, 1, &registry, &mut consumables, &mut next_id, &rolls(0, 10, 0, 0))
        .unwrap();
    assert_eq!(m.text, "Player Character CRITICALLY dealt 15 damage to Orc");
    assert_eq!(m.is_crit, Some(true));
    assert_eq!(entities[1].current_health, 85);
    entities[1].current_health = 15;
    let m = resolve_attack(&mut entities, 0, 1, &registry, &mut consumables, &mut next_id, &rolls(0, 10, 99, 0))
        .unwrap();
    assert_eq!(m.text, "Player Character CRITICALLY killed Orc!");
    assert_eq!(entities[1].current_health, 0);
}

#[test]
fn entities_without_catalog_entry_go_by_their_id() {
    let registry = registry();
    let mut entities = vec![
        fighter("hero", "unknown", 1, 4, 0, 10, EntityController::Player),
        fighter("beast", "also_unknown", 2, 4, 0, 10, EntityController::AI),
    ];
    assert_eq!(display_name(&registry, &entities[0]), "hero");
    assert_eq!(display_name(&registry, &player(1)), "Player Character");
    let mut consumables: Vec<Consumable> = Vec::new();
    let mut next_id: u64 = 0;
    let m = resolve_attack(&mut entities, 1, 0, &registry, &mut consumables, &mut next_id, &rolls(0, 50, 0, 0))
        .unwrap();
    assert_eq!(m.text, "beast dealt 4 damage to hero");
}

#[test]
fn dying_monster_drops_a_consumable_on_a_low_roll() {
    let registry = registry();
    let mut entities = vec![player(50), orc(0, 20)];
    entities[1].x = 7;
    entities[1].y = 9;
    let mut consumables: Vec<Consumable> = Vec::new();
    let mut next_id: u64 = 41;
    resolve_attack(&mut entities, 0, 1, &registry, &mut consumables, &mut next_id, &rolls(0, 50, 24, 0))
        .unwrap();
    assert_eq!(consumables.len(), 1);
    assert_eq!(consumables[0].id, "consumable_41");
    assert_eq!((consumables[0].x, consumables[0].y), (7, 9));
    assert_eq!(consumables[0].object_id, "health_potion");
    assert_eq!(next_id, 42);
}

#[test]
fn no_drop_on_a_high_roll_or_from_a_survivor_or_a_player() {
    let registry = registry();
    let mut consumables: Vec<Consumable> = Vec::new();
    let mut next_id: u64 = 0;
    let mut entities = vec![player(50), orc(0, 20)];
    resolve_attack(&mut entities, 0, 1, &registry, &mut consumables, &mut next_id, &rolls(0, 50, 25, 0));
    assert!(consumables.is_empty());
    let mut entities = vec![player(5), orc(0, 20)];
    resolve_attack(&mut entities, 0, 1, &registry, &mut consumables, &mut next_id, &rolls(0, 50, 0, 0));
    assert!(consumables.is_empty());
    let mut entities = vec![player(5), orc(0, 20)];
    entities[1].attack = 500;
    resolve_attack(&mut entities, 1, 0, &registry, &mut consumables, &mut next_id, &rolls(0, 50, 0, 0));
    assert_eq!(entities[0].current_health, 0);
    assert!(consumables.is_empty());
    assert_eq!(next_id, 0);
}

#[test]
fn no_drop_without_consumable_templates() {
    let empty = GameObjectRegistry::new();
    let mut entities = vec![player(50), orc(0, 20)];
    let mut consumables: Vec<Consumable> = Vec::new();
    let mut next_id: u64 = 3;
    let m = resolve_attack(&mut entities, 0, 1, &empty, &mut consumables, &mut next_id, &rolls(0, 50, 0, 0))
        .unwrap();
    assert_eq!(m.text, "ann killed m1!");
    assert!(consumables.is_empty());
    assert_eq!(next_id, 3);
}

#[test]
fn drop_is_made_from_the_picked_template_counted_around() {
    let mut config = create_default_config();
    config.game_objects.push(GameObject::new(
        "elixir".to_string(),
        "Elixir".to_string(),
        "consumable".to_string(),
        true,
        0,
        0,
    ));
    let registry = GameObjectRegistry::load_from_config(&GameConfig { game_objects: config.game_objects, levels: Vec::new() });
    let picks = vec![(0usize, "health_potion"), (1, "elixir"), (2, "health_potion"), (5, "elixir")];
    for (pick, expected) in picks {
        let mut entities = vec![player(50), orc(0, 20)];
        let mut consumables: Vec<Consumable> = Vec::new();
        let mut next_id: u64 = 0;
        resolve_attack(&mut entities, 0, 1, &registry, &mut consumables, &mut next_id, &rolls(0, 50, 0, pick));
        assert_eq!(consumables[0].object_id, expected);
    }
}

#[test]
fn consumable_numbers_start_over_after_the_largest() {
    let registry = registry();
    let mut entities = vec![player(50), orc(0, 20)];
    let mut consumables: Vec<Consumable> = Vec::new();
    let mut next_id: u64 = u64::MAX;
    resolve_attack(&mut entities, 0, 1, &registry, &mut consumables, &mut next_id, &rolls(0, 50, 0, 0));
    assert_eq!(consumables[0].id, "consumable_18446744073709551615");
    assert_eq!(next_id, 0);
}

#[test]
fn attacker_turns_towards_the_target() {
    let registry = registry();
    let mut consumables: Vec<Consumable> = Vec::new();
    let mut next_id: u64 = 0;
    let mut entities = vec![player(1), orc(0, 20)];
    entities[0].facing_right = false;
    resolve_attack(&mut entities, 0, 1, &registry, &mut consumables, &mut next_id, &rolls(0, 50, 0, 0));
    assert!(entities[0].facing_right);
    assert!(entities[1].facing_right);
    resolve_attack(&mut entities, 1, 0, &registry, &mut consumables, &mut next_id, &rolls(0, 50, 0, 0));
    assert!(!entities[1].facing_right);
    entities[1].x = entities[0].x;
    entities[0].facing_right = false;
    resolve_attack(&mut entities, 0, 1, &registry, &mut consumables, &mut next_id, &rolls(0, 50, 0, 0));
    assert!(!entities[0].facing_right);
    entities[0].facing_right = true;
    resolve_attack(&mut entities, 0, 1, &registry, &mut consumables, &mut next_id, &rolls(0, 50, 0, 0));
    assert!(entities[0].facing_right);
}

#[test]
fn attack_between_missing_entities_does_nothing() {
    let registry = registry();
    let mut entities = vec![player(5), orc(0, 20)];
    let mut consumables: Vec<Consumable> = Vec::new();
    let mut next_id: u64 = 9;
    assert!(resolve_attack(&mut entities, 2, 1, &registry, &mut consumables, &mut next_id, &rolls(0, 0, 0, 0)).is_none());
    assert!(resolve_attack(&mut entities, 0, 2, &registry, &mut consumables, &mut next_id, &rolls(0, 0, 0, 0)).is_none());
    assert!(attack_entity(&mut entities, 5, 0, &registry, &mut consumables, &mut next_id).is_none());
    assert!(attack_entity(&mut entities, 0, 5, &registry, &mut consumables, &mut next_id).is_none());
    assert_eq!(entities[0].current_health, 100);
    assert_eq!(entities[1].current_health, 20);
    assert!(consumables.is_empty());
    assert_eq!(next_id, 9);
    let mut none: Vec<Entity> = Vec::new();
    assert!(attack_entity(&mut none, 0, 0, &registry, &mut consumables, &mut next_id).is_none());
}

#[test]
fn other_entities_are_left_alone() {
    let registry = registry();
    let mut entities = vec![player(5), orc(0, 20), orc(0, 30), player(9)];
    let mut consumables: Vec<Consumable> = Vec::new();
    let mut next_id: u64 = 0;
    resolve_attack(&mut entities, 0, 1, &registry, &mut consumables, &mut next_id, &rolls(0, 50, 0, 0));
    assert_eq!(entities.len(), 4);
    assert_eq!(entities[2].current_health, 30);
    assert_eq!(entities[3].current_health, 100);
    assert_eq!(entities[3].attack, 9);
    assert_eq!(entities[1].id, "m1");
    assert_eq!(entities[1].defense, 0);
}

#[test]
fn drawn_attacks_deal_damage_and_keep_health_in_bounds() {
    let registry = registry();
    for round in 0..300 {
        let mut attacker = player(10);
        attacker.attack_spread_percent = 50;
        attacker.crit_chance_percent = 40;
        attacker.crit_damage_percent = 200;
        let mut entities = vec![attacker, orc((round % 30) as i32, 40)];
        let mut consumables: Vec<Consumable> = Vec::new();
        let mut next_id: u64 = 0;
        let mut before = entities[1].current_health;
        while entities[1].is_alive() {
            let m = attack_entity(&mut entities, 0, 1, &registry, &mut consumables, &mut next_id).unwrap();
            let damage = m.damage.unwrap();
            assert!(damage >= 1);
            let expected_least = 1;
            let expected_most = 30;
            assert!(damage >= expected_least && damage <= expected_most, "damage {}", damage);
            assert!(entities[1].current_health <= entities[1].max_health);
            assert_eq!(entities[1].current_health, before.saturating_sub(damage));
            assert_eq!(m.target_health_after, Some(entities[1].current_health));
            assert_eq!(m.target_died, Some(entities[1].current_health == 0));
            before = entities[1].current_health;
            assert_eq!(entities[0].current_health, 100);
        }
        assert!(consumables.len() <= 1);
        assert_eq!(next_id, consumables.len() as u64);
    }
}

#[test]
fn attack_without_spread_and_crit_is_exact() {
    let registry = registry();
    for _ in 0..50 {
        let mut entities = vec![player(5), orc(0, 20)];
        let mut consumables: Vec<Consumable> = Vec::new();
        let mut next_id: u64 = 0;
        let m = attack_entity(&mut entities, 0, 1, &registry, &mut consumables, &mut next_id).unwrap();
        assert_eq!(m.damage, Some(5));
        assert_eq!(m.is_crit, Some(false));
        assert_eq!(entities[1].current_health, 15);
    }
}

#[test]
fn dying_monsters_drop_now_and_then() {
    let registry = registry();
    let mut drops = 0;
    let rounds = 400;
    for _ in 0..rounds {
        let mut entities = vec![player(50), orc(0, 20)];
        let mut consumables: Vec<Consumable> = Vec::new();
        let mut next_id: u64 = 0;
        attack_entity(&mut entities, 0, 1, &registry, &mut consumables, &mut next_id);
        assert_eq!(entities[1].current_health, 0);
        drops += consumables.len();
    }
    assert!(drops > 0, "never a drop in {} kills", rounds);
    assert!(drops < rounds, "a drop at every kill");
}

#[test]
fn drawn_rolls_keep_to_their_ranges_and_vary() {
    let mut attacker = player(100);
    attacker.attack_spread_percent = 20;
    let mut spreads: Vec<i64> = Vec::new();
    let mut crit_rolls: Vec<u32> = Vec::new();
    let mut picks: Vec<usize> = Vec::new();
    for _ in 0..300 {
        let r = draw_rolls(&attacker, 4);
        assert!(r.spread >= -20 && r.spread <= 20);
        assert!(r.crit_roll < 100);
        assert!(r.drop_roll < 100);
        assert!(r.drop_pick < 4);
        if !spreads.contains(&r.spread) {
            spreads.push(r.spread);
        }
        if !crit_rolls.contains(&r.crit_roll) {
            crit_rolls.push(r.crit_roll);
        }
        if !picks.contains(&r.drop_pick) {
            picks.push(r.drop_pick);
        }
    }
    assert!(spreads.len() > 5);
    assert!(spreads.iter().any(|s| *s < 0) && spreads.iter().any(|s| *s > 0));
    assert!(crit_rolls.len() > 5);
    assert!(picks.len() > 1);
}

#[test]
fn no_spread_is_drawn_without_range() {
    for _ in 0..30 {
        assert_eq!(draw_rolls(&player(100), 0).spread, 0);
        assert_eq!(draw_rolls(&player(100), 0).drop_pick, 0);
        let mut small = player(4);
        small.attack_spread_percent = 20;
        assert_eq!(draw_rolls(&small, 1).spread, 0);
        let mut negative = player(-50);
        negative.attack_spread_percent = 50;
        assert_eq!(draw_rolls(&negative, 1).spread, 0);
        let mut five = player(5);
        five.attack_spread_percent = 20;
        let s = draw_rolls(&five, 1).spread;
        assert!(s >= -1 && s <= 1);
    }
}

#[test]
fn health_rules_of_entities() {
    let mut e = orc(0, 20);
    assert!(e.is_alive());
    assert!(e.is_monster());
    assert!(!e.is_player());
    assert!(e.facing_right);
    e.take_damage(7);
    assert_eq!(e.current_health, 13);
    e.heal(3);
    assert_eq!(e.current_health, 16);
    e.heal(100);
    assert_eq!(e.current_health, 20);
    e.heal(u32::MAX);
    assert_eq!(e.current_health, 20);
    e.take_damage(20);
    assert_eq!(e.current_health, 0);
    assert!(!e.is_alive());
    e.take_damage(u32::MAX);
    assert_eq!(e.current_health, 0);
    e.heal(0);
    assert_eq!(e.current_health, 0);
    e.heal(5);
    assert_eq!(e.current_health, 5);
    assert!(e.is_alive());
    let c = e.clone();
    assert_eq!(c.id, "m1");
    assert_eq!(c.current_health, 5);
    assert_eq!(c.controller, EntityController::AI);
}

#[test]
fn entity_from_template_takes_stats_or_defaults() {
    let registry = registry();
    let orc = registry.get_object("orc").unwrap();
    let e = Entity::from_template("monster_0".to_string(), 4, 5, orc, EntityController::AI, &Entity::monster_defaults());
    assert_eq!(e.id, "monster_0");
    assert_eq!(e.object_id, "orc");
    assert_eq!((e.x, e.y), (4, 5));
    assert_eq!(e.attack, 5);
    assert_eq!(e.defense, 0);
    assert_eq!(e.attack_spread_percent, 20);
    assert_eq!(e.crit_chance_percent, 0);
    assert_eq!(e.crit_damage_percent, 150);
    assert_eq!(e.max_health, 50);
    assert_eq!(e.current_health, 50);
    assert!(e.facing_right);
    let potion = registry.get_object("health_potion").unwrap();
    let p = Entity::from_template("p".to_string(), 0, 0, potion, EntityController::Player, &Entity::player_defaults());
    assert_eq!(p.attack, 10);
    assert_eq!(p.max_health, 100);
    assert_eq!(p.attack_spread_percent, 20);
    let custom = GameObject::new("rat".to_string(), "Rat".to_string(), "character".to_string(), true, 0, 0)
        .with_property("attack".to_string(), "3".to_string())
        .with_property("crit_damage_percent".to_string(), "300".to_string())
        .with_property("defense".to_string(), "oops".to_string());
    let r = Entity::from_template("r".to_string(), 0, 0, &custom, EntityController::AI, &Entity::monster_defaults());
    assert_eq!(r.attack, 3);
    assert_eq!(r.crit_damage_percent, 300);
    assert_eq!(r.defense, 0);
    assert_eq!(r.max_health, 50);
}
