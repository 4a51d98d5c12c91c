use dungeon_crawler::schema::{field, GameObjectSchema};

#[test]
fn schema_lists_the_fields_of_an_entry_in_the_order_of_the_form() {
    let schema = GameObjectSchema::generate();
    let names: Vec<&str> = schema.fields.iter().map(|f| f.name.as_str()).collect();
    assert_eq!(
        names,
        vec![
            "id",
            "name",
            "object_type",
            "walkable",
            "health",
            "attack",
            "defense",
            "attack_spread_percent",
            "crit_chance_percent",
            "crit_damage_percent",
            "monster",
            "healing_power",
            "sprites",
            "interactable",
            "sprite_sheet",
            "sprite_x",
            "sprite_y",
        ]
    );
}

#[test]
fn schema_fields_say_for_which_entries_they_are_shown() {
    let schema = GameObjectSchema::generate();
    let walkable = &schema.fields[3];
    assert_eq!(walkable.field_type, "bool");
    assert!(!walkable.optional);
    assert_eq!(walkable.default.as_deref(), Some("false"));
    assert_eq!(walkable.show_for_types, vec!["tile".to_string()]);
    assert_eq!(walkable.label.as_deref(), Some("Walkable"));
    let spread = &schema.fields[7];
    assert_eq!(spread.field_type, "Option<u32>");
    assert!(spread.optional);
    assert_eq!(spread.default.as_deref(), Some("20"));
    assert_eq!(spread.show_for_types, vec!["character".to_string()]);
    assert_eq!(spread.label.as_deref(), Some("Attack Spread %"));
    let crit = &schema.fields[9];
    assert_eq!(crit.default.as_deref(), Some("150"));
    assert_eq!(crit.label.as_deref(), Some("Crit Damage %"));
    let healing = &schema.fields[11];
    assert_eq!(healing.show_for_types, vec!["consumable".to_string()]);
    assert_eq!(healing.default, None);
    let sprites = &schema.fields[12];
    assert_eq!(sprites.field_type, "Vec<SpriteCoord>");
    assert_eq!(sprites.default.as_deref(), Some("[]"));
    assert!(sprites.show_for_types.is_empty());
    assert_eq!(sprites.label.as_deref(), Some("Sprites (Default, or 'before' for interactables)"));
    let chest = &schema.fields[13];
    assert_eq!(chest.show_for_types, vec!["chest".to_string()]);
    assert_eq!(chest.default.as_deref(), Some("None"));
    for plain in &schema.fields[15..] {
        assert_eq!(plain.field_type, "Option<u32>");
        assert!(plain.optional);
        assert_eq!(plain.label, None);
        assert_eq!(plain.default, None);
        assert!(plain.show_for_types.is_empty());
    }
    for f in &schema.fields[..3] {
        assert_eq!(f.field_type, "String");
        assert!(!f.optional);
        assert!(f.show_for_types.is_empty());
    }
    assert_eq!(schema.fields[0].label.as_deref(), Some("ID"));
}

#[test]
fn field_is_built_from_its_parts() {
    let f = field("speed", "u32", true, Some("1"), Some("character"), None);
    assert_eq!(f.name, "speed");
    assert_eq!(f.field_type, "u32");
    assert!(f.optional);
    assert_eq!(f.default.as_deref(), Some("1"));
    assert_eq!(f.show_for_types, vec!["character".to_string()]);
    assert_eq!(f.label, None);
    let copy = f.clone();
    assert_eq!(copy.name, "speed");
    let g = field("note", "String", false, None, None, Some("Note"));
    assert!(g.show_for_types.is_empty());
    assert_eq!(g.label.as_deref(), Some("Note"));
}
