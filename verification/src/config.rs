//! The game configuration: the catalog entries and the parameters of each level.

use crate::game_object::{GameObject, GameObjectView, SpriteCoord};
use crate::text::same_text;
use vstd::prelude::*;
use vstd::string::*;

verus! {

/// The parameters a level is generated from.
#[derive(Debug)]
pub struct LevelConfig {
    pub level_number: u32,
    pub min_rooms: u32,
    pub max_rooms: u32,
    pub min_monsters_per_room: u32,
    pub max_monsters_per_room: u32,
    pub chest_count: u32,
    /// The ids of the monster entries that may appear in the level.
    pub allowed_monsters: Vec<String>,
}

/// The catalog entries and the levels the game is set up with.
#[derive(Debug)]
pub struct GameConfig {
    pub game_objects: Vec<GameObject>,
    pub levels: Vec<LevelConfig>,
}

/// What each of the given entries says.
pub open spec fn views(s: Seq<GameObject>) -> Seq<GameObjectView> {
    s.map_values(|o: GameObject| o@)
}

/// What each of the referenced entries says.
pub open spec fn ref_views(s: Seq<&GameObject>) -> Seq<GameObjectView> {
    s.map_values(|o: &GameObject| o@)
}

/// Filtering the first `i + 1` items is filtering the first `i` and then deciding on item `i`.
pub proof fn lemma_filter_step<A>(s: Seq<A>, i: int, p: spec_fn(A) -> bool)
    requires
        0 <= i < s.len(),
    ensures
        s.take(i + 1).filter(p) == if p(s[i]) {
            s.take(i).filter(p).push(s[i])
        } else {
            s.take(i).filter(p)
        },
{
    reveal(Seq::filter);
    assert(s.take(i + 1).drop_last() =~= s.take(i));
}

impl LevelConfig {
    /// Whether monsters made from the entry `id` may appear in the level.
    pub open spec fn allows(&self, id: Seq<char>) -> bool {
        exists|i: int| 0 <= i < self.allowed_monsters.len() && self.allowed_monsters[i]@ == id
    }

    /// Whether monsters made from the entry `id` may appear in the level.
    pub fn is_allowed(&self, id: &String) -> (r: bool)
        ensures
            r == self.allows(id@),
    {
        let mut i: usize = 0;
        while i < self.allowed_monsters.len()
            invariant
                i <= self.allowed_monsters.len(),
                forall|k: int| 0 <= k < i ==> self.allowed_monsters[k]@ != id@,
            decreases self.allowed_monsters.len() - i,
        {
            if self.allowed_monsters[i] == *id {
                return true;
            }
            i += 1;
        }
        false
    }
}

impl GameConfig {
    /// The first entry with the given id.
    pub fn get_object_by_id(&self, id: &str) -> (r: Option<&GameObject>)
        ensures
            match r {
                Some(o) => exists|i: int|
                    0 <= i < self.game_objects.len() && *o == self.game_objects[i] && o@.id == id@
                        && forall|j: int| 0 <= j < i ==> self.game_objects[j]@.id != id@,
                None => forall|j: int|
                    0 <= j < self.game_objects.len() ==> self.game_objects[j]@.id != id@,
            },
    {
        let mut i: usize = 0;
        while i < self.game_objects.len()
            invariant
                i <= self.game_objects.len(),
                forall|j: int| 0 <= j < i ==> self.game_objects[j]@.id != id@,
            decreases self.game_objects.len() - i,
        {
            if same_text(&self.game_objects[i].id, id) {
                return Some(&self.game_objects[i]);
            }
            i += 1;
        }
        None
    }

    /// The entries of the given type, in the order of the configuration.
    pub fn get_objects_by_type(&self, object_type: &str) -> (r: Vec<&GameObject>)
        ensures
            ref_views(r@) == crate::game_object_registry::of_type(
                views(self.game_objects@),
                object_type@,
            ),
    {
        let ghost p = |o: GameObjectView| o.object_type == object_type@;
        let ghost all = views(self.game_objects@);
        let mut out: Vec<&GameObject> = Vec::new();
        let mut i: usize = 0;
        proof {
            reveal(Seq::filter);
            assert(all.take(0) =~= Seq::empty());
            assert(ref_views(out@) =~= all.take(0).filter(p));
        }
        while i < self.game_objects.len()
            invariant
                i <= self.game_objects.len(),
                all == views(self.game_objects@),
                p == (|o: GameObjectView| o.object_type == object_type@),
                ref_views(out@) == all.take(i as int).filter(p),
            decreases self.game_objects.len() - i,
        {
            let ghost before = out@;
            proof {
                lemma_filter_step(all, i as int, p);
            }
            if self.game_objects[i].is_type(object_type) {
                out.push(&self.game_objects[i]);
                assert(ref_views(out@) =~= ref_views(before).push(all[i as int]));
            }
            i += 1;
        }
        assert(all.take(i as int) =~= all);
        out
    }
}


/// A catalog entry without stats that has one sprite on the given sheet.
pub open spec fn plain_entry(
    id: Seq<char>,
    name: Seq<char>,
    object_type: Seq<char>,
    walkable: bool,
    sprite_x: u32,
    sprite_y: u32,
    sheet: Seq<char>,
) -> GameObjectView {
    GameObjectView {
        id,
        name,
        object_type,
        walkable,
        health: None,
        attack: None,
        defense: None,
        attack_spread_percent: None,
        crit_chance_percent: None,
        crit_damage_percent: None,
        monster: None,
        healing_power: None,
        sprites: seq![SpriteCoord { x: sprite_x, y: sprite_y }],
        interactable: false,
        sprite_x: Some(sprite_x),
        sprite_y: Some(sprite_y),
        sprite_sheet: Some(sheet),
        properties: Seq::empty(),
    }
}

/// The entries of the configuration the game starts with where it finds none: three
/// walls, two floors, the stairs, the player, an orc, the stairs once more and a health
/// potion.
pub open spec fn default_catalog() -> Seq<GameObjectView> {
    seq![
        plain_entry("wall_dirt_top"@, "Dirt Wall (Top)"@, "tile"@, false, 0, 0, "tiles.png"@),
        plain_entry("wall_dirt_side"@, "Dirt Wall (Side)"@, "tile"@, false, 1, 0, "tiles.png"@),
        plain_entry("wall_stone_top"@, "Stone Wall (Top)"@, "tile"@, false, 0, 1, "tiles.png"@),
        plain_entry("floor_dark"@, "Dark Floor"@, "tile"@, true, 0, 6, "tiles.png"@),
        GameObjectView {
            sprites: seq![
                SpriteCoord { x: 1, y: 6 },
                SpriteCoord { x: 2, y: 6 },
                SpriteCoord { x: 3, y: 6 },
            ],
            ..plain_entry("floor_stone"@, "Stone Floor"@, "tile"@, true, 1, 6, "tiles.png"@)
        },
        plain_entry("stairs"@, "Stairs Down"@, "goal"@, true, 0, 7, "tiles.png"@),
        GameObjectView {
            health: Some(100u32),
            attack: Some(10i32),
            ..plain_entry("player"@, "Player Character"@, "character"@, true, 0, 0, "rogues.png"@)
        },
        GameObjectView {
            health: Some(50u32),
            attack: Some(5i32),
            monster: Some(true),
            ..plain_entry("orc"@, "Orc"@, "character"@, true, 0, 0, "rogues.png"@)
        },
        plain_entry("stairs"@, "Stairs Down"@, "goal"@, true, 7, 16, "tiles.png"@),
        GameObjectView {
            healing_power: Some(20u32),
            ..plain_entry("health_potion"@, "Health Potion"@, "consumable"@, true, 0, 0, "tiles.png"@)
        },
    ]
}

fn plain_object(
    id: &str,
    name: &str,
    object_type: &str,
    walkable: bool,
    sprite_x: u32,
    sprite_y: u32,
    sheet: &str,
) -> (r: GameObject)
    ensures
        r@ == plain_entry(id@, name@, object_type@, walkable, sprite_x, sprite_y, sheet@),
{
    let mut r = GameObject::new(
        String::from_str(id),
        String::from_str(name),
        String::from_str(object_type),
        walkable,
        sprite_x,
        sprite_y,
    );
    r.sprite_sheet = Some(String::from_str(sheet));
    r
}

/// The configuration the game starts with where it finds none.
pub fn create_default_config() -> (config: GameConfig)
    ensures
        views(config.game_objects@) == default_catalog(),
        config.levels.len() == 0,
{
    let mut objects: Vec<GameObject> = Vec::new();
    objects.push(plain_object("wall_dirt_top", "Dirt Wall (Top)", "tile", false, 0, 0, "tiles.png"));
    objects.push(
        plain_object("wall_dirt_side", "Dirt Wall (Side)", "tile", false, 1, 0, "tiles.png"),
    );
    objects.push(
        plain_object("wall_stone_top", "Stone Wall (Top)", "tile", false, 0, 1, "tiles.png"),
    );
    let mut dark: Vec<SpriteCoord> = Vec::new();
    dark.push(SpriteCoord { x: 0, y: 6 });
    let floor_dark = plain_object("floor_dark", "Dark Floor", "tile", true, 0, 6, "tiles.png").with_sprites(
        dark,
    );
    assert(floor_dark@.sprites =~= seq![SpriteCoord { x: 0, y: 6 }]);
    objects.push(floor_dark);
    let mut stone: Vec<SpriteCoord> = Vec::new();
    stone.push(SpriteCoord { x: 1, y: 6 });
    stone.push(SpriteCoord { x: 2, y: 6 });
    stone.push(SpriteCoord { x: 3, y: 6 });
    let floor_stone = plain_object("floor_stone", "Stone Floor", "tile", true, 1, 6, "tiles.png").with_sprites(
        stone,
    );
    assert(floor_stone@.sprites =~= seq![
        SpriteCoord { x: 1, y: 6 },
        SpriteCoord { x: 2, y: 6 },
        SpriteCoord { x: 3, y: 6 },
    ]);
    objects.push(floor_stone);
    objects.push(plain_object("stairs", "Stairs Down", "goal", true, 0, 7, "tiles.png"));
    let mut player = plain_object(
        "player",
        "Player Character",
        "character",
        true,
        0,
        0,
        "rogues.png",
    ).with_health(100);
    player.attack = Some(10);
    objects.push(player);
    let mut orc = plain_object("orc", "Orc", "character", true, 0, 0, "rogues.png").with_health(50);
    orc.attack = Some(5);
    orc.monster = Some(true);
    objects.push(orc);
    objects.push(plain_object("stairs", "Stairs Down", "goal", true, 7, 16, "tiles.png"));
    let mut potion = plain_object(
        "health_potion",
        "Health Potion",
        "consumable",
        true,
        0,
        0,
        "tiles.png",
    );
    potion.healing_power = Some(20);
    objects.push(potion);
    assert(views(objects@) =~= default_catalog());
    GameConfig { game_objects: objects, levels: Vec::new() }
}

} // verus!
