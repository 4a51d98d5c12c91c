//! Catalog entries: the reusable definitions that tiles, characters, consumables, chests
//! and goals are made from.

use crate::text::{parse_i32, parse_u32, read_i32, read_u32, same_text};
use vstd::prelude::*;
use vstd::string::*;

verus! {

/// A cell of a sprite sheet.
#[derive(Clone, Copy, Debug, PartialEq, Eq, Structural)]
pub struct SpriteCoord {
    pub x: u32,
    pub y: u32,
}

/// Marks an object that has a state before and one after it was used (a chest, a door).
#[derive(Clone, Copy, Debug)]
pub struct InteractableData {}

/// One catalog entry.
#[derive(Debug)]
pub struct GameObject {
    pub id: String,
    pub name: String,
    pub object_type: String,
    pub walkable: bool,
    pub health: Option<u32>,
    pub attack: Option<i32>,
    pub defense: Option<i32>,
    pub attack_spread_percent: Option<u32>,
    pub crit_chance_percent: Option<u32>,
    pub crit_damage_percent: Option<u32>,
    pub monster: Option<bool>,
    pub healing_power: Option<u32>,
    pub sprites: Vec<SpriteCoord>,
    pub interactable: Option<InteractableData>,
    pub sprite_x: Option<u32>,
    pub sprite_y: Option<u32>,
    pub sprite_sheet: Option<String>,
    /// Free-form properties; where a key occurs more than once the last entry counts.
    pub properties: Vec<(String, String)>,
}

/// What a catalog entry says, as plain values.
pub ghost struct GameObjectView {
    pub id: Seq<char>,
    pub name: Seq<char>,
    pub object_type: Seq<char>,
    pub walkable: bool,
    pub health: Option<u32>,
    pub attack: Option<i32>,
    pub defense: Option<i32>,
    pub attack_spread_percent: Option<u32>,
    pub crit_chance_percent: Option<u32>,
    pub crit_damage_percent: Option<u32>,
    pub monster: Option<bool>,
    pub healing_power: Option<u32>,
    pub sprites: Seq<SpriteCoord>,
    pub interactable: bool,
    pub sprite_x: Option<u32>,
    pub sprite_y: Option<u32>,
    pub sprite_sheet: Option<Seq<char>>,
    pub properties: Seq<(Seq<char>, Seq<char>)>,
}

/// The text of an optional string.
pub open spec fn opt_text(s: Option<String>) -> Option<Seq<char>> {
    match s {
        Some(t) => Some(t@),
        None => None,
    }
}

/// The texts of a list of key and value pairs.
pub open spec fn pairs_text(p: Seq<(String, String)>) -> Seq<(Seq<char>, Seq<char>)> {
    Seq::new(p.len(), |i: int| (p[i].0@, p[i].1@))
}

/// The value stored under `key`: that of the last entry with this key.
pub open spec fn lookup(props: Seq<(Seq<char>, Seq<char>)>, key: Seq<char>) -> Option<Seq<char>>
    decreases props.len(),
{
    if props.len() == 0 {
        None
    } else if props.last().0 == key {
        Some(props.last().1)
    } else {
        lookup(props.drop_last(), key)
    }
}

impl View for GameObject {
    type V = GameObjectView;

    open spec fn view(&self) -> GameObjectView {
        GameObjectView {
            id: self.id@,
            name: self.name@,
            object_type: self.object_type@,
            walkable: self.walkable,
            health: self.health,
            attack: self.attack,
            defense: self.defense,
            attack_spread_percent: self.attack_spread_percent,
            crit_chance_percent: self.crit_chance_percent,
            crit_damage_percent: self.crit_damage_percent,
            monster: self.monster,
            healing_power: self.healing_power,
            sprites: self.sprites@,
            interactable: self.interactable is Some,
            sprite_x: self.sprite_x,
            sprite_y: self.sprite_y,
            sprite_sheet: opt_text(self.sprite_sheet),
            properties: pairs_text(self.properties@),
        }
    }
}

impl GameObjectView {
    /// The sprites to draw from: the list, or the single coordinate where the list
    /// is empty.
    pub open spec fn sprite_list(self) -> Seq<SpriteCoord> {
        if self.sprites.len() > 0 {
            self.sprites
        } else if self.sprite_x is Some && self.sprite_y is Some {
            seq![SpriteCoord { x: self.sprite_x->0, y: self.sprite_y->0 }]
        } else {
            Seq::empty()
        }
    }

    /// Whether the object has a before and an after state.
    pub open spec fn is_interactable(self) -> bool {
        self.interactable || self.object_type == "chest"@
    }

    /// The sprites of one state of the object.
    pub open spec fn interactable_sprites(self, is_after: bool) -> Seq<SpriteCoord> {
        let sprites = self.sprite_list();
        if !self.is_interactable() {
            sprites
        } else if is_after && sprites.len() > 1 {
            seq![sprites[1]]
        } else if sprites.len() > 0 {
            seq![sprites[0]]
        } else {
            Seq::empty()
        }
    }

    /// Whether the object can be walked on in one state: an interactable object only
    /// after it was used.
    pub open spec fn interactable_walkable(self, is_after: bool) -> bool {
        if self.is_interactable() {
            is_after
        } else {
            self.walkable
        }
    }

    /// Whether the entry is a character that is a monster.
    pub open spec fn is_monster(self) -> bool {
        self.object_type == "character"@ && (self.monster == Some(true) || lookup(
            self.properties,
            "monster"@,
        ) == Some("true"@))
    }

    /// The value of the property `key`.
    pub open spec fn property(self, key: Seq<char>) -> Option<Seq<char>> {
        lookup(self.properties, key)
    }

    /// A signed stat: the value of its field, or else the number that the property of
    /// its name writes.
    pub open spec fn signed_stat(self, field: Option<i32>, key: Seq<char>) -> Option<i32> {
        match field {
            Some(v) => Some(v),
            None => match self.property(key) {
                Some(s) => parse_i32(s),
                None => None,
            },
        }
    }

    /// An unsigned stat: the value of its field, or else the number that the property of
    /// its name writes.
    pub open spec fn unsigned_stat(self, field: Option<u32>, key: Seq<char>) -> Option<u32> {
        match field {
            Some(v) => Some(v),
            None => match self.property(key) {
                Some(s) => parse_u32(s),
                None => None,
            },
        }
    }

    /// The attack value of the entry.
    pub open spec fn attack_stat(self) -> Option<i32> {
        self.signed_stat(self.attack, "attack"@)
    }

    /// The defense of the entry.
    pub open spec fn defense_stat(self) -> Option<i32> {
        self.signed_stat(self.defense, "defense"@)
    }

    /// The attack spread of the entry, in percent.
    pub open spec fn spread_stat(self) -> Option<u32> {
        self.unsigned_stat(self.attack_spread_percent, "attack_spread_percent"@)
    }

    /// The chance of a critical hit of the entry, in percent.
    pub open spec fn crit_chance_stat(self) -> Option<u32> {
        self.unsigned_stat(self.crit_chance_percent, "crit_chance_percent"@)
    }

    /// The damage of a critical hit of the entry, in percent.
    pub open spec fn crit_damage_stat(self) -> Option<u32> {
        self.unsigned_stat(self.crit_damage_percent, "crit_damage_percent"@)
    }
}

fn clone_pairs(p: &Vec<(String, String)>) -> (r: Vec<(String, String)>)
    ensures
        pairs_text(r@) == pairs_text(p@),
{
    let mut out: Vec<(String, String)> = Vec::new();
    let mut i: usize = 0;
    while i < p.len()
        invariant
            i <= p.len(),
            out.len() == i,
            forall|k: int| 0 <= k < i ==> out[k].0@ == p[k].0@ && out[k].1@ == p[k].1@,
        decreases p.len() - i,
    {
        out.push((p[i].0.clone(), p[i].1.clone()));
        i += 1;
    }
    assert(pairs_text(out@) =~= pairs_text(p@));
    out
}

fn clone_opt_string(s: &Option<String>) -> (r: Option<String>)
    ensures
        opt_text(r) == opt_text(*s),
{
    match s {
        Some(t) => Some(t.clone()),
        None => None,
    }
}

/// A copy of a sprite list.
pub fn clone_sprites(s: &Vec<SpriteCoord>) -> (r: Vec<SpriteCoord>)
    ensures
        r@ == s@,
{
    let mut out: Vec<SpriteCoord> = Vec::new();
    let mut i: usize = 0;
    while i < s.len()
        invariant
            i <= s.len(),
            out.len() == i,
            forall|k: int| 0 <= k < i ==> out[k] == s[k],
        decreases s.len() - i,
    {
        out.push(s[i]);
        i += 1;
    }
    assert(out@ =~= s@);
    out
}

impl Clone for GameObject {
    fn clone(&self) -> (r: Self)
        ensures
            r@ == self@,
    {
        GameObject {
            id: self.id.clone(),
            name: self.name.clone(),
            object_type: self.object_type.clone(),
            walkable: self.walkable,
            health: self.health,
            attack: self.attack,
            defense: self.defense,
            attack_spread_percent: self.attack_spread_percent,
            crit_chance_percent: self.crit_chance_percent,
            crit_damage_percent: self.crit_damage_percent,
            monster: self.monster,
            healing_power: self.healing_power,
            sprites: clone_sprites(&self.sprites),
            interactable: self.interactable,
            sprite_x: self.sprite_x,
            sprite_y: self.sprite_y,
            sprite_sheet: clone_opt_string(&self.sprite_sheet),
            properties: clone_pairs(&self.properties),
        }
    }
}

impl GameObject {
    /// A catalog entry with one sprite and no stats.
    pub fn new(
        id: String,
        name: String,
        object_type: String,
        walkable: bool,
        sprite_x: u32,
        sprite_y: u32,
    ) -> (r: Self)
        ensures
            r@ == (GameObjectView {
                id: id@,
                name: name@,
                object_type: object_type@,
                walkable,
                health: None,
                attack: None,
                defense: None,
                attack_spread_percent: None,
                crit_chance_percent: None,
                crit_damage_percent: None,
                monster: None,
                healing_power: None,
                sprites: seq![SpriteCoord { x: sprite_x, y: sprite_y }],
                interactable: false,
                sprite_x: Some(sprite_x),
                sprite_y: Some(sprite_y),
                sprite_sheet: None,
                properties: Seq::empty(),
            }),
    {
        let mut sprites: Vec<SpriteCoord> = Vec::new();
        sprites.push(SpriteCoord { x: sprite_x, y: sprite_y });
        let r = GameObject {
            id,
            name,
            object_type,
            walkable,
            health: None,
            attack: None,
            defense: None,
            attack_spread_percent: None,
            crit_chance_percent: None,
            crit_damage_percent: None,
            monster: None,
            healing_power: None,
            sprites,
            interactable: None,
            sprite_x: Some(sprite_x),
            sprite_y: Some(sprite_y),
            sprite_sheet: None,
            properties: Vec::new(),
        };
        assert(r@.sprites =~= seq![SpriteCoord { x: sprite_x, y: sprite_y }]);
        assert(r@.properties =~= Seq::empty());
        r
    }

    /// Replaces the sprite list; the single coordinate follows the first sprite.
    pub fn with_sprites(self, sprites: Vec<SpriteCoord>) -> (r: Self)
        ensures
            r@ == (GameObjectView {
                sprites: sprites@,
                sprite_x: if sprites.len() > 0 {
                    Some(sprites[0].x)
                } else {
                    self.sprite_x
                },
                sprite_y: if sprites.len() > 0 {
                    Some(sprites[0].y)
                } else {
                    self.sprite_y
                },
                ..self@
            }),
    {
        let mut r = self;
        if sprites.len() > 0 {
            r.sprite_x = Some(sprites[0].x);
            r.sprite_y = Some(sprites[0].y);
        }
        r.sprites = sprites;
        r
    }

    /// The sprites to draw from.
    pub fn get_sprites_vec(&self) -> (r: Vec<SpriteCoord>)
        ensures
            r@ == self@.sprite_list(),
    {
        if self.sprites.len() > 0 {
            clone_sprites(&self.sprites)
        } else {
            let mut out: Vec<SpriteCoord> = Vec::new();
            match (self.sprite_x, self.sprite_y) {
                (Some(x), Some(y)) => {
                    out.push(SpriteCoord { x, y });
                },
                _ => {},
            }
            assert(out@ =~= self@.sprite_list());
            out
        }
    }

    /// Sets the health of the entry.
    pub fn with_health(self, health: u32) -> (r: Self)
        ensures
            r@ == (GameObjectView { health: Some(health), ..self@ }),
    {
        let mut r = self;
        r.health = Some(health);
        r
    }

    /// Whether the entry is of the given type.
    pub fn is_type(&self, object_type: &str) -> (r: bool)
        ensures
            r == (self@.object_type == object_type@),
    {
        same_text(&self.object_type, object_type)
    }

    /// Whether the object has a before and an after state.
    pub fn is_interactable(&self) -> (r: bool)
        ensures
            r == self@.is_interactable(),
    {
        self.interactable.is_some() || self.is_type("chest")
    }

    /// The sprites of the state before (`is_after` false) or after use.
    pub fn get_interactable_sprites(&self, is_after: bool) -> (r: Vec<SpriteCoord>)
        ensures
            r@ == self@.interactable_sprites(is_after),
    {
        let sprites = self.get_sprites_vec();
        if !self.is_interactable() {
            return sprites;
        }
        let mut out: Vec<SpriteCoord> = Vec::new();
        if is_after && sprites.len() > 1 {
            out.push(sprites[1]);
        } else if sprites.len() > 0 {
            out.push(sprites[0]);
        }
        assert(out@ =~= self@.interactable_sprites(is_after));
        out
    }

    /// Whether the object can be walked on before (`is_after` false) or after use.
    pub fn get_interactable_walkable(&self, is_after: bool) -> (r: bool)
        ensures
            r == self@.interactable_walkable(is_after),
    {
        if self.is_interactable() {
            is_after
        } else {
            self.walkable
        }
    }

    /// Stores `value` under `key`, in place of what was stored there.
    pub fn with_property(self, key: String, value: String) -> (r: Self)
        ensures
            r@ == (GameObjectView { properties: self@.properties.push((key@, value@)), ..self@ }),
            forall|k: Seq<char>|
                r@.property(k) == if k == key@ {
                    Some(value@)
                } else {
                    self@.property(k)
                },
    {
        let mut r = self;
        let ghost before = r.properties@;
        r.properties.push((key, value));
        proof {
            assert(pairs_text(r.properties@) =~= pairs_text(before).push((key@, value@)));
            assert(pairs_text(before).push((key@, value@)).drop_last() =~= pairs_text(before));
        }
        r
    }

    /// The value of the property `key`.
    pub fn get_property(&self, key: &str) -> (r: Option<&String>)
        ensures
            match r {
                Some(v) => self@.property(key@) == Some(v@),
                None => self@.property(key@) is None,
            },
    {
        let needle = String::from_str(key);
        let mut i: usize = self.properties.len();
        assert(pairs_text(self.properties@).take(i as int) =~= pairs_text(self.properties@));
        while i > 0
            invariant
                i <= self.properties.len(),
                needle@ == key@,
                lookup(pairs_text(self.properties@), key@) == lookup(
                    pairs_text(self.properties@).take(i as int),
                    key@,
                ),
            decreases i,
        {
            let ghost all = pairs_text(self.properties@);
            if self.properties[i - 1].0 == needle {
                return Some(&self.properties[i - 1].1);
            }
            proof {
                assert(all.take(i as int).drop_last() =~= all.take(i - 1));
            }
            i -= 1;
        }
        None
    }

    fn signed_stat(&self, field: Option<i32>, key: &str) -> (r: Option<i32>)
        ensures
            r == self@.signed_stat(field, key@),
    {
        match field {
            Some(v) => Some(v),
            None => match self.get_property(key) {
                Some(s) => read_i32(s.as_str()),
                None => None,
            },
        }
    }

    fn unsigned_stat(&self, field: Option<u32>, key: &str) -> (r: Option<u32>)
        ensures
            r == self@.unsigned_stat(field, key@),
    {
        match field {
            Some(v) => Some(v),
            None => match self.get_property(key) {
                Some(s) => read_u32(s.as_str()),
                None => None,
            },
        }
    }

    /// The attack value of the entry.
    pub fn attack_stat(&self) -> (r: Option<i32>)
        ensures
            r == self@.attack_stat(),
    {
        self.signed_stat(self.attack, "attack")
    }

    /// The defense of the entry.
    pub fn defense_stat(&self) -> (r: Option<i32>)
        ensures
            r == self@.defense_stat(),
    {
        self.signed_stat(self.defense, "defense")
    }

    /// The attack spread of the entry, in percent.
    pub fn spread_stat(&self) -> (r: Option<u32>)
        ensures
            r == self@.spread_stat(),
    {
        self.unsigned_stat(self.attack_spread_percent, "attack_spread_percent")
    }

    /// The chance of a critical hit of the entry, in percent.
    pub fn crit_chance_stat(&self) -> (r: Option<u32>)
        ensures
            r == self@.crit_chance_stat(),
    {
        self.unsigned_stat(self.crit_chance_percent, "crit_chance_percent")
    }

    /// The damage of a critical hit of the entry, in percent.
    pub fn crit_damage_stat(&self) -> (r: Option<u32>)
        ensures
            r == self@.crit_damage_stat(),
    {
        self.unsigned_stat(self.crit_damage_percent, "crit_damage_percent")
    }

    /// Whether the entry is a character that is a monster.
    pub fn is_monster(&self) -> (r: bool)
        ensures
            r == self@.is_monster(),
    {
        if !self.is_type("character") {
            return false;
        }
        if let Some(true) = self.monster {
            return true;
        }
        match self.get_property("monster") {
            Some(v) => same_text(v, "true"),
            None => false,
        }
    }
}

} // verus!
