//! The actors of the game: players and monsters.

use crate::game_object::{GameObject, GameObjectView};
use vstd::prelude::*;
use vstd::string::*;

verus! {

/// Who decides what an entity does.
#[derive(Clone, Copy, Debug, PartialEq, Eq, Structural)]
pub enum EntityController {
    Player,
    AI,
}

/// A player or a monster on the grid.
#[derive(Debug)]
pub struct Entity {
    pub id: String,
    pub x: usize,
    pub y: usize,
    /// The id of the catalog entry the entity was made from.
    pub object_id: String,
    pub attack: i32,
    pub defense: i32,
    /// How far a hit may lie above or below the attack value, in percent of it.
    pub attack_spread_percent: u32,
    pub crit_chance_percent: u32,
    /// What a critical hit deals, in percent of the plain hit.
    pub crit_damage_percent: u32,
    pub max_health: u32,
    pub current_health: u32,
    pub controller: EntityController,
    pub facing_right: bool,
}

/// An entity as plain values.
pub ghost struct EntityView {
    pub id: Seq<char>,
    pub x: usize,
    pub y: usize,
    pub object_id: Seq<char>,
    pub attack: i32,
    pub defense: i32,
    pub attack_spread_percent: u32,
    pub crit_chance_percent: u32,
    pub crit_damage_percent: u32,
    pub max_health: u32,
    pub current_health: u32,
    pub controller: EntityController,
    pub facing_right: bool,
}

impl View for Entity {
    type V = EntityView;

    open spec fn view(&self) -> EntityView {
        EntityView {
            id: self.id@,
            x: self.x,
            y: self.y,
            object_id: self.object_id@,
            attack: self.attack,
            defense: self.defense,
            attack_spread_percent: self.attack_spread_percent,
            crit_chance_percent: self.crit_chance_percent,
            crit_damage_percent: self.crit_damage_percent,
            max_health: self.max_health,
            current_health: self.current_health,
            controller: self.controller,
            facing_right: self.facing_right,
        }
    }
}

impl EntityView {
    /// Whether the health lies between nothing and the full health.
    pub open spec fn wf(self) -> bool {
        self.current_health <= self.max_health
    }

    /// Whether the entity has health left.
    pub open spec fn alive(self) -> bool {
        self.current_health > 0
    }

    /// Whether the entity is a player.
    pub open spec fn is_player(self) -> bool {
        self.controller == EntityController::Player
    }

    /// Whether the entity is a monster.
    pub open spec fn is_monster(self) -> bool {
        self.controller == EntityController::AI
    }

    /// Whether the entity stands on the cell (`x`, `y`).
    pub open spec fn at(self, x: int, y: int) -> bool {
        self.x == x && self.y == y
    }
}

/// The stats an entity gets where its template states none.
#[derive(Clone, Copy, Debug)]
pub struct StatDefaults {
    pub attack: i32,
    pub defense: i32,
    pub attack_spread_percent: u32,
    pub crit_chance_percent: u32,
    pub crit_damage_percent: u32,
    pub health: u32,
}

/// The value of an optional stat, or the default.
pub open spec fn or_default<T>(stat: Option<T>, default: T) -> T {
    match stat {
        Some(v) => v,
        None => default,
    }
}

/// The stats of a player whose template states none.
pub open spec fn player_defaults() -> StatDefaults {
    StatDefaults {
        attack: 10,
        defense: 0,
        attack_spread_percent: 20,
        crit_chance_percent: 0,
        crit_damage_percent: 150,
        health: 100,
    }
}

/// The stats of a monster whose template states none.
pub open spec fn monster_defaults() -> StatDefaults {
    StatDefaults {
        attack: 5,
        defense: 0,
        attack_spread_percent: 20,
        crit_chance_percent: 0,
        crit_damage_percent: 150,
        health: 50,
    }
}

/// The entity made from a template: it has the stats of the template, full health and
/// faces right.
pub open spec fn entity_from(
    template: GameObjectView,
    id: Seq<char>,
    x: usize,
    y: usize,
    controller: EntityController,
    defaults: StatDefaults,
) -> EntityView {
    EntityView {
        id,
        x,
        y,
        object_id: template.id,
        attack: or_default(template.attack_stat(), defaults.attack),
        defense: or_default(template.defense_stat(), defaults.defense),
        attack_spread_percent: or_default(template.spread_stat(), defaults.attack_spread_percent),
        crit_chance_percent: or_default(template.crit_chance_stat(), defaults.crit_chance_percent),
        crit_damage_percent: or_default(template.crit_damage_stat(), defaults.crit_damage_percent),
        max_health: or_default(template.health, defaults.health),
        current_health: or_default(template.health, defaults.health),
        controller,
        facing_right: true,
    }
}

/// The entities of a list as plain values.
pub open spec fn entity_views(s: Seq<Entity>) -> Seq<EntityView> {
    s.map_values(|e: Entity| e@)
}

/// Whether the health of every entity lies between nothing and its full health.
pub open spec fn all_wf(s: Seq<EntityView>) -> bool {
    forall|i: int| 0 <= i < s.len() ==> (#[trigger] s[i]).wf()
}

/// The health left after taking `damage`.
pub open spec fn health_after(current: int, damage: int) -> int {
    if damage >= current {
        0
    } else {
        current - damage
    }
}

/// The health after healing by `amount`, which never exceeds the full health.
pub open spec fn healed(current: int, amount: int, max_health: int) -> int {
    if current + amount <= max_health {
        current + amount
    } else {
        max_health
    }
}

impl Clone for Entity {
    fn clone(&self) -> (r: Self)
        ensures
            r@ == self@,
    {
        Entity {
            id: self.id.clone(),
            x: self.x,
            y: self.y,
            object_id: self.object_id.clone(),
            attack: self.attack,
            defense: self.defense,
            attack_spread_percent: self.attack_spread_percent,
            crit_chance_percent: self.crit_chance_percent,
            crit_damage_percent: self.crit_damage_percent,
            max_health: self.max_health,
            current_health: self.current_health,
            controller: self.controller,
            facing_right: self.facing_right,
        }
    }
}

impl Entity {
    /// An entity at full health that faces right.
    pub fn new(
        id: String,
        x: usize,
        y: usize,
        object_id: String,
        attack: i32,
        defense: i32,
        attack_spread_percent: u32,
        crit_chance_percent: u32,
        crit_damage_percent: u32,
        max_health: u32,
        controller: EntityController,
    ) -> (r: Self)
        ensures
            r@ == (EntityView {
                id: id@,
                x,
                y,
                object_id: object_id@,
                attack,
                defense,
                attack_spread_percent,
                crit_chance_percent,
                crit_damage_percent,
                max_health,
                current_health: max_health,
                controller,
                facing_right: true,
            }),
            r@.wf(),
    {
        Entity {
            id,
            x,
            y,
            object_id,
            attack,
            defense,
            attack_spread_percent,
            crit_chance_percent,
            crit_damage_percent,
            max_health,
            current_health: max_health,
            controller,
            facing_right: true,
        }
    }

    /// The stats of a player whose template states none.
    pub fn player_defaults() -> (d: StatDefaults)
        ensures
            d == player_defaults(),
    {
        StatDefaults {
            attack: 10,
            defense: 0,
            attack_spread_percent: 20,
            crit_chance_percent: 0,
            crit_damage_percent: 150,
            health: 100,
        }
    }

    /// The stats of a monster whose template states none.
    pub fn monster_defaults() -> (d: StatDefaults)
        ensures
            d == monster_defaults(),
    {
        StatDefaults {
            attack: 5,
            defense: 0,
            attack_spread_percent: 20,
            crit_chance_percent: 0,
            crit_damage_percent: 150,
            health: 50,
        }
    }

    /// The entity made from a template.
    pub fn from_template(
        id: String,
        x: usize,
        y: usize,
        template: &GameObject,
        controller: EntityController,
        defaults: &StatDefaults,
    ) -> (r: Self)
        ensures
            r@ == entity_from(template@, id@, x, y, controller, *defaults),
            r@.wf(),
    {
        let attack = match template.attack_stat() {
            Some(v) => v,
            None => defaults.attack,
        };
        let defense = match template.defense_stat() {
            Some(v) => v,
            None => defaults.defense,
        };
        let spread = match template.spread_stat() {
            Some(v) => v,
            None => defaults.attack_spread_percent,
        };
        let crit_chance = match template.crit_chance_stat() {
            Some(v) => v,
            None => defaults.crit_chance_percent,
        };
        let crit_damage = match template.crit_damage_stat() {
            Some(v) => v,
            None => defaults.crit_damage_percent,
        };
        let health = match template.health {
            Some(v) => v,
            None => defaults.health,
        };
        Entity::new(
            id,
            x,
            y,
            template.id.clone(),
            attack,
            defense,
            spread,
            crit_chance,
            crit_damage,
            health,
            controller,
        )
    }

    /// Whether the entity has health left.
    pub fn is_alive(&self) -> (r: bool)
        ensures
            r == self@.alive(),
    {
        self.current_health > 0
    }

    /// Whether the entity is a player.
    pub fn is_player(&self) -> (r: bool)
        ensures
            r == self@.is_player(),
    {
        match self.controller {
            EntityController::Player => true,
            EntityController::AI => false,
        }
    }

    /// Whether the entity is a monster.
    pub fn is_monster(&self) -> (r: bool)
        ensures
            r == self@.is_monster(),
    {
        match self.controller {
            EntityController::Player => false,
            EntityController::AI => true,
        }
    }

    /// Takes `damage` off the health, which never falls below nothing.
    pub fn take_damage(&mut self, damage: u32)
        ensures
            final(self)@ == (EntityView {
                current_health: health_after(old(self).current_health as int, damage as int) as u32,
                ..old(self)@
            }),
            old(self)@.wf() ==> final(self)@.wf(),
    {
        if damage >= self.current_health {
            self.current_health = 0;
        } else {
            self.current_health -= damage;
        }
    }

    /// Adds `amount` to the health, which never exceeds the full health.
    pub fn heal(&mut self, amount: u32)
        ensures
            final(self)@ == (EntityView {
                current_health: healed(
                    old(self).current_health as int,
                    amount as int,
                    old(self).max_health as int,
                ) as u32,
                ..old(self)@
            }),
            final(self)@.wf(),
    {
        let sum: u64 = self.current_health as u64 + amount as u64;
        if sum <= self.max_health as u64 {
            self.current_health = sum as u32;
        } else {
            self.current_health = self.max_health;
        }
    }
}

} // verus!
