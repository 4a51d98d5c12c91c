//! Resolving one attack: the damage dealt, critical hits, what is left of the target and
//! what it drops when it dies.

use crate::config::ref_views;
use crate::consumable::{consumable_views, Consumable, ConsumableView};
use crate::entity::{all_wf, entity_views, health_after, Entity, EntityView};
use crate::game_object::GameObjectView;
use crate::game_object_registry::{find, of_type, GameObjectRegistry};
use crate::message::{hit_message, CombatMessage, GameMessage, GameMessageView};
use crate::rng::{percent_roll, random_between, random_index};
use crate::text::{decimal, numbered_id};
use vstd::prelude::*;
use vstd::string::*;

verus! {

/// The chance, in percent, that a dying monster leaves a consumable.
pub const DROP_CHANCE_PERCENT: u32 = 25;

/// The part of `value` that `percent` stands for, rounded down.
pub open spec fn percent_of(value: int, percent: int) -> int {
    value * percent / 100
}

/// The largest amount by which a hit may lie above or below the attack value.
pub open spec fn spread_range(attack: int, spread_percent: int) -> int {
    percent_of(attack, spread_percent)
}

/// Whether a hit may differ from the attack value by `amount`: by no more than the
/// spread range, and not at all where that range is not positive.
pub open spec fn spread_allowed(attack: int, spread_percent: int, amount: int) -> bool {
    let range = spread_range(attack, spread_percent);
    if range > 0 {
        -range <= amount <= range
    } else {
        amount == 0
    }
}

/// Whether a roll out of a hundred makes the hit critical.
pub open spec fn is_critical(crit_chance_percent: int, roll: int) -> bool {
    roll < crit_chance_percent
}

/// The damage a hit deals: the attack value with its spread, scaled where the hit is
/// critical, less the defense of the target, and never less than one.
pub open spec fn damage_dealt(
    attack: int,
    spread: int,
    critical: bool,
    crit_damage_percent: int,
    defense: int,
) -> int {
    let base = attack + spread;
    let scaled = if critical {
        percent_of(base, crit_damage_percent)
    } else {
        base
    };
    if scaled - defense >= 1 {
        scaled - defense
    } else {
        1
    }
}

/// The damage as the event reports it: a value too large for the report counts as the
/// largest it can hold.
pub open spec fn reported(damage: int) -> u32 {
    if damage > u32::MAX {
        u32::MAX
    } else {
        damage as u32
    }
}

/// What an attack does to its target.
pub ghost struct Hit {
    pub damage: u32,
    pub is_crit: bool,
    pub health: u32,
    pub died: bool,
}

/// What the attack of `attacker` on `target` does, given the spread and the roll for a
/// critical hit.
pub open spec fn hit_of(attacker: EntityView, target: EntityView, spread: int, crit_roll: int) -> Hit {
    let is_crit = is_critical(attacker.crit_chance_percent as int, crit_roll);
    let damage = reported(
        damage_dealt(
            attacker.attack as int,
            spread,
            is_crit,
            attacker.crit_damage_percent as int,
            target.defense as int,
        ),
    );
    let health = health_after(target.current_health as int, damage as int) as u32;
    Hit { damage, is_crit, health, died: health == 0 }
}

/// The side an attacker faces after attacking a target in column `target_x`: towards the
/// target, or as before where both stand in one column.
pub open spec fn facing_after(attacker_x: int, target_x: int, before: bool) -> bool {
    if attacker_x < target_x {
        true
    } else if attacker_x > target_x {
        false
    } else {
        before
    }
}

/// The entities after entity `ai` attacked entity `ti` and left it with `health`.
pub open spec fn after_attack(before: Seq<EntityView>, ai: int, ti: int, health: u32) -> Seq<
    EntityView,
> {
    let hit = before.update(ti, EntityView { current_health: health, ..before[ti] });
    hit.update(
        ai,
        EntityView {
            facing_right: facing_after(
                before[ai].x as int,
                before[ti].x as int,
                before[ai].facing_right,
            ),
            ..hit[ai]
        },
    )
}

/// The name an entity goes by in events: that of its catalog entry, or its own id where
/// the catalog has no such entry.
pub open spec fn name_of(catalog: Seq<GameObjectView>, e: EntityView) -> Seq<char> {
    match find(catalog, e.object_id) {
        Some(o) => o.name,
        None => e.id,
    }
}

/// Whether the target leaves a consumable: it is a monster that died, the roll out of a
/// hundred is below the drop chance and the catalog has `count` > 0 consumables.
pub open spec fn drops(target: EntityView, health: u32, drop_roll: int, count: int) -> bool {
    health == 0 && target.is_monster() && drop_roll < DROP_CHANCE_PERCENT && count > 0
}

/// The consumable with number `number` made from the template `template` at (`x`, `y`).
pub open spec fn new_consumable(number: u64, x: usize, y: usize, template: GameObjectView) -> ConsumableView {
    ConsumableView {
        id: "consumable_"@ + decimal(number as nat),
        x,
        y,
        object_id: template.id,
    }
}

/// The number after `n`, starting over after the largest.
pub open spec fn next_number(n: u64) -> u64 {
    if n == u64::MAX {
        0
    } else {
        (n + 1) as u64
    }
}

/// What an attack leads to.
pub ghost struct AttackResult {
    pub entities: Seq<EntityView>,
    pub consumables: Seq<ConsumableView>,
    pub next_id: u64,
    pub message: Option<GameMessageView>,
}

/// The four numbers an attack draws.
pub struct AttackRolls {
    /// What is added to the attack value.
    pub spread: i64,
    /// The roll out of a hundred for a critical hit.
    pub crit_roll: u32,
    /// The roll out of a hundred for a drop.
    pub drop_roll: u32,
    /// Which consumable template a drop is made from, counted around the templates.
    pub drop_pick: usize,
}

/// What the attack of entity `ai` on entity `ti` leads to, given what was drawn. An
/// attack between entities that are not there changes nothing and reports nothing.
pub open spec fn attack_result(
    entities: Seq<EntityView>,
    consumables: Seq<ConsumableView>,
    next_id: u64,
    catalog: Seq<GameObjectView>,
    ai: int,
    ti: int,
    rolls: AttackRolls,
) -> AttackResult {
    if !(0 <= ai < entities.len() && 0 <= ti < entities.len()) {
        AttackResult { entities, consumables, next_id, message: None }
    } else {
        let hit = hit_of(entities[ai], entities[ti], rolls.spread as int, rolls.crit_roll as int);
        let templates = of_type(catalog, "consumable"@);
        let drop = drops(entities[ti], hit.health, rolls.drop_roll as int, templates.len() as int);
        AttackResult {
            entities: after_attack(entities, ai, ti, hit.health),
            consumables: if drop {
                consumables.push(
                    new_consumable(
                        next_id,
                        entities[ti].x,
                        entities[ti].y,
                        templates[(rolls.drop_pick as int) % (templates.len() as int)],
                    ),
                )
            } else {
                consumables
            },
            next_id: if drop {
                next_number(next_id)
            } else {
                next_id
            },
            message: Some(
                hit_message(
                    name_of(catalog, entities[ai]),
                    name_of(catalog, entities[ti]),
                    hit.damage,
                    hit.health,
                    hit.died,
                    hit.is_crit,
                ),
            ),
        }
    }
}

/// Whether the rolls are such as an attack of `attacker` may draw.
pub open spec fn rolls_allowed(attacker: EntityView, rolls: AttackRolls) -> bool {
    &&& spread_allowed(
        attacker.attack as int,
        attacker.attack_spread_percent as int,
        rolls.spread as int,
    )
    &&& rolls.crit_roll < 100
    &&& rolls.drop_roll < 100
}

/// The event of an optional message as plain values.
pub open spec fn opt_message(m: Option<GameMessage>) -> Option<GameMessageView> {
    match m {
        Some(msg) => Some(msg@),
        None => None,
    }
}

/// Every hit deals one damage at least.
pub proof fn lemma_damage_at_least_one(
    attack: int,
    spread: int,
    critical: bool,
    crit_damage_percent: int,
    defense: int,
)
    ensures
        damage_dealt(attack, spread, critical, crit_damage_percent, defense) >= 1,
        reported(damage_dealt(attack, spread, critical, crit_damage_percent, defense)) >= 1,
{
}

/// An attack deals one damage at least and leaves the health of every entity between
/// nothing and its full health, where it was so before.
pub proof fn lemma_attack_keeps_health_in_bounds(
    entities: Seq<EntityView>,
    consumables: Seq<ConsumableView>,
    next_id: u64,
    catalog: Seq<GameObjectView>,
    ai: int,
    ti: int,
    rolls: AttackRolls,
)
    requires
        all_wf(entities),
    ensures
        all_wf(attack_result(entities, consumables, next_id, catalog, ai, ti, rolls).entities),
        attack_result(entities, consumables, next_id, catalog, ai, ti, rolls).message matches Some(m)
            ==> m.damage matches Some(d) && d >= 1,
        0 <= ai < entities.len() && 0 <= ti < entities.len() ==> hit_of(
            entities[ai],
            entities[ti],
            rolls.spread as int,
            rolls.crit_roll as int,
        ).health <= entities[ti].current_health,
{
    let after = attack_result(entities, consumables, next_id, catalog, ai, ti, rolls).entities;
    assert forall|i: int| 0 <= i < after.len() implies (#[trigger] after[i]).wf() by {
        assert(entities[i].wf());
    }
}

/// The part of `value` that `percent` stands for, rounded down.
pub fn percent_part(value: i64, percent: u32) -> (r: i128)
    ensures
        r == percent_of(value as int, percent as int),
        -0x8000_0000_0000_0000_0000_0000 <= r <= 0x8000_0000_0000_0000_0000_0000,
{
    assert(-0x8000_0000_0000_0000 * 0x1_0000_0000 <= value * percent <= 0x8000_0000_0000_0000
        * 0x1_0000_0000) by (nonlinear_arith)
        requires
            -0x8000_0000_0000_0000 <= value <= 0x8000_0000_0000_0000,
            0 <= percent <= 0x1_0000_0000,
    ;
    let product: i128 = (value as i128) * (percent as i128);
    if product >= 0 {
        product / 100
    } else {
        -((99 - product) / 100)
    }
}

/// The damage of a hit and whether it is critical.
pub fn compute_hit(attacker: &Entity, target: &Entity, spread: i64, crit_roll: u32) -> (r: (
    u32,
    bool,
))
    ensures
        r.0 == hit_of(attacker@, target@, spread as int, crit_roll as int).damage,
        r.1 == hit_of(attacker@, target@, spread as int, crit_roll as int).is_crit,
        r.0 >= 1,
{
    let is_crit = crit_roll < attacker.crit_chance_percent;
    let base: i128 = attacker.attack as i128 + spread as i128;
    let scaled: i128 = if is_crit {
        if base >= -0x8000_0000_0000_0000 && base <= 0x7fff_ffff_ffff_ffff {
            percent_part(base as i64, attacker.crit_damage_percent)
        } else {
            wide_percent_part(base, attacker.crit_damage_percent)
        }
    } else {
        base
    };
    let raw: i128 = scaled - target.defense as i128;
    let damage: u32 = if raw < 1 {
        1
    } else if raw > u32::MAX as i128 {
        u32::MAX
    } else {
        raw as u32
    };
    (damage, is_crit)
}

/// The part of `value` that `percent` stands for, rounded down, for values somewhat
/// beyond 64 bits.
fn wide_percent_part(value: i128, percent: u32) -> (r: i128)
    requires
        -0x1_0000_0000_0000_0000 <= value <= 0x1_0000_0000_0000_0000,
    ensures
        r == percent_of(value as int, percent as int),
        -0x1_0000_0000_0000_0000_0000_0000 <= r <= 0x1_0000_0000_0000_0000_0000_0000,
{
    assert(-0x1_0000_0000_0000_0000 * 0x1_0000_0000 <= value * percent <= 0x1_0000_0000_0000_0000
        * 0x1_0000_0000) by (nonlinear_arith)
        requires
            -0x1_0000_0000_0000_0000 <= value <= 0x1_0000_0000_0000_0000,
            0 <= percent <= 0x1_0000_0000,
    ;
    let product: i128 = value * (percent as i128);
    if product >= 0 {
        product / 100
    } else {
        -((99 - product) / 100)
    }
}

/// The name an entity goes by in events.
pub fn display_name(registry: &GameObjectRegistry, entity: &Entity) -> (name: String)
    ensures
        name@ == name_of(registry@, entity@),
{
    match registry.get_object(entity.object_id.as_str()) {
        Some(o) => o.name.clone(),
        None => entity.id.clone(),
    }
}

/// Resolves the attack of entity `attacker_idx` on entity `target_idx` with the given
/// rolls: takes the damage off the target, turns the attacker towards it, lets a dying
/// monster drop a consumable and reports the hit.
pub fn resolve_attack(
    entities: &mut Vec<Entity>,
    attacker_idx: usize,
    target_idx: usize,
    registry: &GameObjectRegistry,
    consumables: &mut Vec<Consumable>,
    next_id: &mut u64,
    rolls: &AttackRolls,
) -> (r: Option<CombatMessage>)
    ensures
        (AttackResult {
            entities: entity_views(final(entities)@),
            consumables: consumable_views(final(consumables)@),
            next_id: *final(next_id),
            message: opt_message(r),
        }) == attack_result(
            entity_views(old(entities)@),
            consumable_views(old(consumables)@),
            *old(next_id),
            registry@,
            attacker_idx as int,
            target_idx as int,
            *rolls,
        ),
        final(entities).len() == old(entities).len(),
        r matches Some(m) ==> m.damage matches Some(d) && d >= 1,
        all_wf(entity_views(old(entities)@)) ==> all_wf(entity_views(final(entities)@)),
        numbered_below(consumable_views(old(consumables)@), *old(next_id)) && *old(next_id) < u64::MAX
            ==> numbered_below(consumable_views(final(consumables)@), *final(next_id)),
{
    proof {
        if numbered_below(consumable_views(consumables@), *next_id) && *next_id < u64::MAX {
            lemma_attack_keeps_numbers(
                entity_views(entities@),
                consumable_views(consumables@),
                *next_id,
                registry@,
                attacker_idx as int,
                target_idx as int,
                *rolls,
            );
        }
    }
    if attacker_idx >= entities.len() || target_idx >= entities.len() {
        return None;
    }
    let ghost before = entity_views(entities@);
    let ghost items_before = consumable_views(consumables@);
    let (damage, is_crit) = compute_hit(
        &entities[attacker_idx],
        &entities[target_idx],
        rolls.spread,
        rolls.crit_roll,
    );
    let attacker_x = entities[attacker_idx].x;
    let target_x = entities[target_idx].x;
    let target_y = entities[target_idx].y;
    let was_monster = entities[target_idx].is_monster();
    entities[target_idx].take_damage(damage);
    let health = entities[target_idx].current_health;
    let died = health == 0;
    if died && was_monster && rolls.drop_roll < DROP_CHANCE_PERCENT {
        let templates = registry.get_objects_by_type("consumable");
        if templates.len() > 0 {
            let template = templates[rolls.drop_pick % templates.len()];
            let item = Consumable {
                id: numbered_id("consumable_", *next_id),
                x: target_x,
                y: target_y,
                object_id: template.id.clone(),
            };
            consumables.push(item);
            *next_id = if *next_id == u64::MAX {
                0
            } else {
                *next_id + 1
            };
            proof {
                let all = of_type(registry@, "consumable"@);
                assert(ref_views(templates@)[(rolls.drop_pick % templates.len()) as int]
                    == template@);
                assert(consumable_views(consumables@) =~= items_before.push(
                    new_consumable(*old(next_id), target_x, target_y, template@),
                ));
            }
        } else {
            proof {
                assert(ref_views(templates@).len() == 0);
            }
        }
    }
    if attacker_x < target_x {
        entities[attacker_idx].facing_right = true;
    } else if attacker_x > target_x {
        entities[attacker_idx].facing_right = false;
    }
    let attacker_name = display_name(registry, &entities[attacker_idx]);
    let target_name = display_name(registry, &entities[target_idx]);
    proof {
        assert(entity_views(entities@) =~= after_attack(
            before,
            attacker_idx as int,
            target_idx as int,
            health,
        ));
        assert(name_of(registry@, entities[attacker_idx as int]@) == name_of(
            registry@,
            before[attacker_idx as int],
        ));
        assert(name_of(registry@, entities[target_idx as int]@) == name_of(
            registry@,
            before[target_idx as int],
        ));
        assert forall|i: int| 0 <= i < entities.len() && before[i].wf() implies (
        #[trigger] entity_views(entities@)[i]).wf() by {}
    }
    let message = if is_crit {
        GameMessage::combat_crit(attacker_name, target_name, damage, health, died)
    } else {
        GameMessage::combat(attacker_name, target_name, damage, health, died)
    };
    Some(message)
}

/// Draws the rolls of an attack of `attacker` where the catalog has `templates`
/// consumables to drop: the spread within the range of the attacker, the two rolls out
/// of a hundred, and the number of one of the consumables, or 0 where there is none.
pub fn draw_rolls(attacker: &Entity, templates: usize) -> (rolls: AttackRolls)
    ensures
        rolls_allowed(attacker@, rolls),
        if templates > 0 {
            rolls.drop_pick < templates
        } else {
            rolls.drop_pick == 0
        },
{
    let mut rng = rand::thread_rng();
    let range = percent_part(attacker.attack as i64, attacker.attack_spread_percent);
    let spread: i64 = if range > 0 {
        assert(range <= 0x8000_0000 * 0x1_0000_0000 / 100) by (nonlinear_arith)
            requires
                range == attacker.attack * attacker.attack_spread_percent / 100,
                attacker.attack <= 0x8000_0000,
                0 <= attacker.attack_spread_percent <= 0x1_0000_0000,
        ;
        random_between(&mut rng, -range, range) as i64
    } else {
        0
    };
    let crit_roll = percent_roll(&mut rng);
    let drop_roll = percent_roll(&mut rng);
    let drop_pick = if templates > 0 {
        random_index(&mut rng, templates)
    } else {
        0
    };
    AttackRolls { spread, crit_roll, drop_roll, drop_pick }
}

/// The attack of entity `attacker_idx` on entity `target_idx`: draws the spread, the
/// critical hit and the drop, and resolves the attack with them. Reports nothing and
/// changes nothing where one of the two entities is not there.
pub fn attack_entity(
    entities: &mut Vec<Entity>,
    attacker_idx: usize,
    target_idx: usize,
    registry: &GameObjectRegistry,
    consumables: &mut Vec<Consumable>,
    next_id: &mut u64,
) -> (r: Option<CombatMessage>)
    ensures
        exists|rolls: AttackRolls|
            (attacker_idx < old(entities).len() ==> rolls_allowed(
                old(entities)[attacker_idx as int]@,
                rolls,
            )) && (AttackResult {
                entities: entity_views(final(entities)@),
                consumables: consumable_views(final(consumables)@),
                next_id: *final(next_id),
                message: opt_message(r),
            }) == #[trigger] attack_result(
                entity_views(old(entities)@),
                consumable_views(old(consumables)@),
                *old(next_id),
                registry@,
                attacker_idx as int,
                target_idx as int,
                rolls,
            ),
        final(entities).len() == old(entities).len(),
        r is Some <==> attacker_idx < old(entities).len() && target_idx < old(entities).len(),
        r matches Some(m) ==> m.damage matches Some(d) && d >= 1,
        all_wf(entity_views(old(entities)@)) ==> all_wf(entity_views(final(entities)@)),
        numbered_below(consumable_views(old(consumables)@), *old(next_id)) && *old(next_id) < u64::MAX
            ==> numbered_below(consumable_views(final(consumables)@), *final(next_id)),
{
    let rolls = if attacker_idx < entities.len() {
        let templates = registry.get_objects_by_type("consumable");
        draw_rolls(&entities[attacker_idx], templates.len())
    } else {
        AttackRolls { spread: 0, crit_roll: 0, drop_roll: 0, drop_pick: 0 }
    };
    resolve_attack(entities, attacker_idx, target_idx, registry, consumables, next_id, &rolls)
}

/// Whether the id is that of a consumable with a number below `next`.
pub open spec fn is_numbered(id: Seq<char>, next: u64) -> bool {
    exists|n: nat| n < next && id == "consumable_"@ + #[trigger] decimal(n)
}

/// Whether every consumable bears a number below `next`, the number that the next one
/// gets: no consumable to come shares its id with one that is there.
pub open spec fn numbered_below(items: Seq<ConsumableView>, next: u64) -> bool {
    forall|k: int| 0 <= k < items.len() ==> #[trigger] is_numbered(items[k].id, next)
}

/// A consumable made with the next number has an id that no consumable has yet.
pub proof fn lemma_next_id_is_new(
    items: Seq<ConsumableView>,
    next: u64,
    x: usize,
    y: usize,
    template: GameObjectView,
)
    requires
        numbered_below(items, next),
    ensures
        forall|k: int|
            0 <= k < items.len() ==> (#[trigger] items[k]).id != new_consumable(next, x, y, template).id,
{
    assert forall|k: int| 0 <= k < items.len() implies (#[trigger] items[k]).id != new_consumable(
        next,
        x,
        y,
        template,
    ).id by {
        assert(is_numbered(items[k].id, next));
        let n = choose|n: nat| n < next && items[k].id == "consumable_"@ + #[trigger] decimal(n);
        if items[k].id == "consumable_"@ + decimal(next as nat) {
            crate::text::lemma_numbered_differs("consumable_"@, n, next as nat);
        }
    }
}

/// With one more consumable that bears the next number, all bear numbers below the
/// number after it.
pub proof fn lemma_numbered_push(
    items: Seq<ConsumableView>,
    next: u64,
    x: usize,
    y: usize,
    template: GameObjectView,
)
    requires
        numbered_below(items, next),
        next < u64::MAX,
    ensures
        numbered_below(items.push(new_consumable(next, x, y, template)), next_number(next)),
{
    let after = items.push(new_consumable(next, x, y, template));
    assert forall|k: int| 0 <= k < after.len() implies #[trigger] is_numbered(
        after[k].id,
        next_number(next),
    ) by {
        if k < items.len() {
            assert(is_numbered(items[k].id, next));
            let n = choose|n: nat| n < next && items[k].id == "consumable_"@ + #[trigger] decimal(n);
            assert(n < next_number(next) && after[k].id == "consumable_"@ + decimal(n));
        } else {
            let n = next as nat;
            assert(n < next_number(next) && after[k].id == "consumable_"@ + decimal(n));
        }
    }
}

/// Without one of the consumables the others bear the numbers they bore.
pub proof fn lemma_numbered_remove(items: Seq<ConsumableView>, next: u64, i: int)
    requires
        numbered_below(items, next),
        0 <= i < items.len(),
    ensures
        numbered_below(items.remove(i), next),
{
    let after = items.remove(i);
    assert forall|k: int| 0 <= k < after.len() implies #[trigger] is_numbered(after[k].id, next) by {
        let from = if k < i {
            k
        } else {
            k + 1
        };
        assert(after[k] == items[from]);
        assert(is_numbered(items[from].id, next));
    }
}

/// An attack leaves every consumable with a number below the next, as long as numbers
/// are left.
pub proof fn lemma_attack_keeps_numbers(
    entities: Seq<EntityView>,
    consumables: Seq<ConsumableView>,
    next_id: u64,
    catalog: Seq<GameObjectView>,
    ai: int,
    ti: int,
    rolls: AttackRolls,
)
    requires
        numbered_below(consumables, next_id),
        next_id < u64::MAX,
    ensures
        numbered_below(
            attack_result(entities, consumables, next_id, catalog, ai, ti, rolls).consumables,
            attack_result(entities, consumables, next_id, catalog, ai, ti, rolls).next_id,
        ),
{
    if 0 <= ai < entities.len() && 0 <= ti < entities.len() {
        let templates = of_type(catalog, "consumable"@);
        lemma_numbered_push(
            consumables,
            next_id,
            entities[ti].x,
            entities[ti].y,
            templates[(rolls.drop_pick as int) % (templates.len() as int)],
        );
    }
}

} // verus!
