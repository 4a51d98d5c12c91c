use dungeon_crawler::message::{GameMessage, MessageType};

#[test]
fn healing_event_has_a_kind_of_its_own() {
    let m = GameMessage::healing("Health Potion".to_string(), "ann".to_string(), 20, 70);
    assert_eq!(m.message_type, MessageType::Healing);
    assert_ne!(m.message_type, MessageType::Combat);
    assert_eq!(m.text, "Health Potion healed ann for 20 HP");
    assert_eq!(m.attacker.as_deref(), Some("Health Potion"));
    assert_eq!(m.target.as_deref(), Some("ann"));
    assert_eq!(m.damage, Some(20));
    assert_eq!(m.target_health_after, Some(70));
    assert_eq!(m.target_died, Some(false));
    assert_eq!(m.is_crit, None);
}

#[test]
fn events_of_fights_are_of_the_kind_of_fights() {
    let hit = GameMessage::combat("Orc".to_string(), "ann".to_string(), 5, 95, false);
    assert_eq!(hit.message_type, MessageType::Combat);
    assert_eq!(hit.is_crit, Some(false));
    let crit = GameMessage::combat_crit("Orc".to_string(), "ann".to_string(), 9, 0, true);
    assert_eq!(crit.message_type, MessageType::Combat);
    assert_eq!(crit.is_crit, Some(true));
    assert_eq!(crit.target_died, Some(true));
}

#[test]
fn plain_events_carry_a_text_only() {
    let level = GameMessage::level_event("Chest opened!".to_string());
    assert_eq!(level.message_type, MessageType::LevelEvent);
    assert_eq!(level.text, "Chest opened!");
    assert_eq!(level.damage, None);
    let system = GameMessage::system("hello".to_string());
    assert_eq!(system.message_type, MessageType::System);
    assert_eq!(system.attacker, None);
}
