//! The description of the fields of a catalog entry, from which a form to edit the
//! catalog is built.

use crate::text::text_of;
use vstd::prelude::*;
use vstd::string::*;

verus! {

/// One field of a catalog entry as a form shows it.
#[derive(Debug, Clone)]
pub struct FieldSchema {
    pub name: String,
    /// The type of the field, as it is written.
    pub field_type: String,
    pub optional: bool,
    /// The value the field has where none is given, as text.
    pub default: Option<String>,
    /// The kinds of entries that the field is shown for: all kinds where none is named.
    pub show_for_types: Vec<String>,
    pub label: Option<String>,
}

/// The fields of a catalog entry, in the order of the form.
#[derive(Debug)]
pub struct GameObjectSchema {
    pub fields: Vec<FieldSchema>,
}

/// A field as plain values.
pub ghost struct FieldSchemaView {
    pub name: Seq<char>,
    pub field_type: Seq<char>,
    pub optional: bool,
    pub default: Option<Seq<char>>,
    pub show_for_types: Seq<Seq<char>>,
    pub label: Option<Seq<char>>,
}

impl View for FieldSchema {
    type V = FieldSchemaView;

    open spec fn view(&self) -> FieldSchemaView {
        FieldSchemaView {
            name: self.name@,
            field_type: self.field_type@,
            optional: self.optional,
            default: match self.default {
                Some(t) => Some(t@),
                None => None,
            },
            show_for_types: self.show_for_types@.map_values(|t: String| t@),
            label: match self.label {
                Some(t) => Some(t@),
                None => None,
            },
        }
    }
}

impl View for GameObjectSchema {
    type V = Seq<FieldSchemaView>;

    open spec fn view(&self) -> Seq<FieldSchemaView> {
        self.fields@.map_values(|f: FieldSchema| f@)
    }
}

/// A field that is shown for the given kind of entries, or for all kinds.
pub open spec fn field_row(
    name: Seq<char>,
    field_type: Seq<char>,
    optional: bool,
    default: Option<Seq<char>>,
    shown_for: Option<Seq<char>>,
    label: Option<Seq<char>>,
) -> FieldSchemaView {
    FieldSchemaView {
        name,
        field_type,
        optional,
        default,
        show_for_types: match shown_for {
            Some(kind) => seq![kind],
            None => Seq::empty(),
        },
        label,
    }
}

/// The fields of a catalog entry: what identifies it, whether a tile can be walked on,
/// the stats of a character, the healing power of a consumable, then how it is drawn.
pub open spec fn entry_fields() -> Seq<FieldSchemaView> {
    seq![
        field_row("id"@, "String"@, false, None, None, Some("ID"@)),
        field_row("name"@, "String"@, false, None, None, Some("Name"@)),
        field_row("object_type"@, "String"@, false, None, None, Some("Type"@)),
        field_row("walkable"@, "bool"@, false, Some("false"@), Some("tile"@), Some("Walkable"@)),
        field_row("health"@, "Option<u32>"@, true, None, Some("character"@), Some("Health"@)),
        field_row("attack"@, "Option<i32>"@, true, None, Some("character"@), Some("Attack"@)),
        field_row("defense"@, "Option<i32>"@, true, None, Some("character"@), Some("Defense"@)),
        field_row(
            "attack_spread_percent"@,
            "Option<u32>"@,
            true,
            Some("20"@),
            Some("character"@),
            Some("Attack Spread %"@),
        ),
        field_row(
            "crit_chance_percent"@,
            "Option<u32>"@,
            true,
            Some("0"@),
            Some("character"@),
            Some("Crit Chance %"@),
        ),
        field_row(
            "crit_damage_percent"@,
            "Option<u32>"@,
            true,
            Some("150"@),
            Some("character"@),
            Some("Crit Damage %"@),
        ),
        field_row(
            "monster"@,
            "Option<bool>"@,
            true,
            Some("false"@),
            Some("character"@),
            Some("Monster"@),
        ),
        field_row(
            "healing_power"@,
            "Option<u32>"@,
            true,
            None,
            Some("consumable"@),
            Some("Healing Power"@),
        ),
        field_row(
            "sprites"@,
            "Vec<SpriteCoord>"@,
            false,
            Some("[]"@),
            None,
            Some("Sprites (Default, or 'before' for interactables)"@),
        ),
        field_row(
            "interactable"@,
            "Option<InteractableData>"@,
            true,
            Some("None"@),
            Some("chest"@),
            Some("Interactable (before/after states)"@),
        ),
        field_row("sprite_sheet"@, "Option<String>"@, true, None, None, Some("Sprite Sheet"@)),
        field_row("sprite_x"@, "Option<u32>"@, true, None, None, None),
        field_row("sprite_y"@, "Option<u32>"@, true, None, None, None),
    ]
}

fn owned_text(s: Option<&str>) -> (r: Option<String>)
    ensures
        match r {
            Some(t) => text_of(s) == Some(t@),
            None => s is None,
        },
{
    match s {
        Some(t) => Some(String::from_str(t)),
        None => None,
    }
}

/// A field that is shown for the given kind of entries, or for all kinds.
pub fn field(
    name: &str,
    field_type: &str,
    optional: bool,
    default: Option<&str>,
    shown_for: Option<&str>,
    label: Option<&str>,
) -> (r: FieldSchema)
    ensures
        r@ == field_row(
            name@,
            field_type@,
            optional,
            text_of(default),
            text_of(shown_for),
            text_of(label),
        ),
{
    let mut show_for_types: Vec<String> = Vec::new();
    match shown_for {
        Some(kind) => {
            show_for_types.push(String::from_str(kind));
        },
        None => {},
    }
    let r = FieldSchema {
        name: String::from_str(name),
        field_type: String::from_str(field_type),
        optional,
        default: owned_text(default),
        show_for_types,
        label: owned_text(label),
    };
    proof {
        assert(r@.show_for_types =~= field_row(
            name@,
            field_type@,
            optional,
            text_of(default),
            text_of(shown_for),
            text_of(label),
        ).show_for_types);
    }
    r
}

impl GameObjectSchema {
    /// The fields of a catalog entry, in the order of the form.
    pub fn generate() -> (r: Self)
        ensures
            r@ == entry_fields(),
    {
        let mut fields: Vec<FieldSchema> = Vec::new();
        fields.push(field("id", "String", false, None, None, Some("ID")));
        fields.push(field("name", "String", false, None, None, Some("Name")));
        fields.push(field("object_type", "String", false, None, None, Some("Type")));
        fields.push(field("walkable", "bool", false, Some("false"), Some("tile"), Some("Walkable")));
        fields.push(field("health", "Option<u32>", true, None, Some("character"), Some("Health")));
        fields.push(field("attack", "Option<i32>", true, None, Some("character"), Some("Attack")));
        fields.push(field("defense", "Option<i32>", true, None, Some("character"), Some("Defense")));
        fields.push(
            field(
                "attack_spread_percent",
                "Option<u32>",
                true,
                Some("20"),
                Some("character"),
                Some("Attack Spread %"),
            ),
        );
        fields.push(
            field(
                "crit_chance_percent",
                "Option<u32>",
                true,
                Some("0"),
                Some("character"),
                Some("Crit Chance %"),
            ),
        );
        fields.push(
            field(
                "crit_damage_percent",
                "Option<u32>",
                true,
                Some("150"),
                Some("character"),
                Some("Crit Damage %"),
            ),
        );
        fields.push(
            field("monster", "Option<bool>", true, Some("false"), Some("character"), Some("Monster")),
        );
        fields.push(
            field(
                "healing_power",
                "Option<u32>",
                true,
                None,
                Some("consumable"),
                Some("Healing Power"),
            ),
        );
        fields.push(
            field(
                "sprites",
                "Vec<SpriteCoord>",
                false,
                Some("[]"),
                None,
                Some("Sprites (Default, or 'before' for interactables)"),
            ),
        );
        fields.push(
            field(
                "interactable",
                "Option<InteractableData>",
                true,
                Some("None"),
                Some("chest"),
                Some("Interactable (before/after states)"),
            ),
        );
        fields.push(field("sprite_sheet", "Option<String>", true, None, None, Some("Sprite Sheet")));
        fields.push(field("sprite_x", "Option<u32>", true, None, None, None));
        fields.push(field("sprite_y", "Option<u32>", true, None, None, None));
        let r = GameObjectSchema { fields };
        proof {
            assert(r@ =~= entry_fields());
        }
        r
    }
}

} // verus!
