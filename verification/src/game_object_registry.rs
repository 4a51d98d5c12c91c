//! The catalog the simulation reads its templates from.

use crate::config::{lemma_filter_step, ref_views, views, GameConfig};
use crate::game_object::{GameObject, GameObjectView};
use crate::text::same_text;
use vstd::prelude::*;
use vstd::string::*;

verus! {

/// No two entries have the same id.
pub open spec fn distinct_ids(c: Seq<GameObjectView>) -> bool {
    forall|i: int, j: int| 0 <= i < j < c.len() ==> c[i].id != c[j].id
}

/// Whether the catalog has an entry with the given id.
pub open spec fn has_id(c: Seq<GameObjectView>, id: Seq<char>) -> bool {
    exists|i: int| 0 <= i < c.len() && c[i].id == id
}

/// The position of an entry with the given id.
pub open spec fn index_of(c: Seq<GameObjectView>, id: Seq<char>) -> int {
    choose|i: int| 0 <= i < c.len() && c[i].id == id
}

/// The catalog after `o` was registered: it takes the place of the entry with its id,
/// or comes last where there is none.
pub open spec fn catalog_insert(c: Seq<GameObjectView>, o: GameObjectView) -> Seq<GameObjectView> {
    if has_id(c, o.id) {
        c.update(index_of(c, o.id), o)
    } else {
        c.push(o)
    }
}

/// The catalog that registering the given entries one after the other leads to.
pub open spec fn catalog_of(objs: Seq<GameObjectView>) -> Seq<GameObjectView>
    decreases objs.len(),
{
    if objs.len() == 0 {
        Seq::empty()
    } else {
        catalog_insert(catalog_of(objs.drop_last()), objs.last())
    }
}

/// Registering an entry keeps the ids distinct.
pub proof fn lemma_insert_distinct(c: Seq<GameObjectView>, o: GameObjectView)
    requires
        distinct_ids(c),
    ensures
        distinct_ids(catalog_insert(c, o)),
{
}

/// The entry with the given id, if the catalog has one.
pub open spec fn find(c: Seq<GameObjectView>, id: Seq<char>) -> Option<GameObjectView> {
    if has_id(c, id) {
        Some(c[index_of(c, id)])
    } else {
        None
    }
}

/// The entries of the given type, in the order of the catalog.
pub open spec fn of_type(c: Seq<GameObjectView>, object_type: Seq<char>) -> Seq<GameObjectView> {
    c.filter(|o: GameObjectView| o.object_type == object_type)
}

/// The monsters among the entries, in the order of the catalog.
pub open spec fn monsters_of(c: Seq<GameObjectView>) -> Seq<GameObjectView> {
    c.filter(|o: GameObjectView| o.is_monster())
}

/// The position of the first entry with the given id.
pub fn find_index(objects: &Vec<GameObject>, id: &str) -> (r: Option<usize>)
    ensures
        match r {
            Some(i) => i < objects.len() && objects[i as int]@.id == id@ && forall|j: int|
                0 <= j < i ==> objects[j]@.id != id@,
            None => forall|j: int| 0 <= j < objects.len() ==> objects[j]@.id != id@,
        },
{
    let mut i: usize = 0;
    while i < objects.len()
        invariant
            i <= objects.len(),
            forall|j: int| 0 <= j < i ==> objects[j]@.id != id@,
        decreases objects.len() - i,
    {
        if same_text(&objects[i].id, id) {
            return Some(i);
        }
        i += 1;
    }
    None
}

/// Registers a copy of `obj` in `objects`.
pub fn insert_object(objects: &mut Vec<GameObject>, obj: &GameObject)
    requires
        distinct_ids(views(old(objects)@)),
    ensures
        views(final(objects)@) == catalog_insert(views(old(objects)@), obj@),
        distinct_ids(views(final(objects)@)),
{
    let ghost before = views(objects@);
    match find_index(objects, obj.id.as_str()) {
        Some(i) => {
            assert(before[i as int].id == obj@.id);
            objects[i] = obj.clone();
            assert(views(objects@) =~= before.update(i as int, obj@));
        },
        None => {
            assert forall|j: int| 0 <= j < before.len() implies before[j].id != obj@.id by {
                assert(before[j] == old(objects)[j]@);
            }
            objects.push(obj.clone());
            assert(views(objects@) =~= before.push(obj@));
        },
    }
    proof {
        lemma_insert_distinct(before, obj@);
    }
}

/// The catalog of all templates, each under its id.
pub struct GameObjectRegistry {
    objects: Vec<GameObject>,
}

impl View for GameObjectRegistry {
    type V = Seq<GameObjectView>;

    closed spec fn view(&self) -> Seq<GameObjectView> {
        views(self.objects@)
    }
}

impl GameObjectRegistry {
    #[verifier::type_invariant]
    spec fn ids_are_distinct(&self) -> bool {
        distinct_ids(views(self.objects@))
    }

    /// An empty catalog.
    pub fn new() -> (r: Self)
        ensures
            r@ == Seq::<GameObjectView>::empty(),
    {
        let r = GameObjectRegistry { objects: Vec::new() };
        assert(r@ =~= Seq::<GameObjectView>::empty());
        r
    }

    /// The catalog of the entries of a configuration; of two entries with one id the later
    /// one counts.
    pub fn load_from_config(config: &GameConfig) -> (r: Self)
        ensures
            r@ == catalog_of(views(config.game_objects@)),
            distinct_ids(r@),
    {
        let ghost all = views(config.game_objects@);
        let mut objects: Vec<GameObject> = Vec::new();
        let mut i: usize = 0;
        assert(all.take(0) =~= Seq::empty());
        assert(views(objects@) =~= Seq::empty());
        while i < config.game_objects.len()
            invariant
                i <= config.game_objects.len(),
                all == views(config.game_objects@),
                views(objects@) == catalog_of(all.take(i as int)),
                distinct_ids(views(objects@)),
            decreases config.game_objects.len() - i,
        {
            assert(all.take(i + 1).drop_last() =~= all.take(i as int));
            insert_object(&mut objects, &config.game_objects[i]);
            i += 1;
        }
        assert(all.take(i as int) =~= all);
        GameObjectRegistry { objects }
    }

    /// The entry with the given id.
    pub fn get_object(&self, id: &str) -> (r: Option<&GameObject>)
        ensures
            distinct_ids(self@),
            match r {
                Some(o) => find(self@, id@) == Some(o@),
                None => find(self@, id@) is None,
            },
    {
        proof {
            use_type_invariant(self);
        }
        match find_index(&self.objects, id) {
            Some(i) => {
                assert(self@[i as int].id == id@);
                Some(&self.objects[i])
            },
            None => {
                assert forall|j: int| 0 <= j < self@.len() implies self@[j].id != id@ by {
                    assert(self@[j] == self.objects[j]@);
                }
                None
            },
        }
    }

    /// All entries.
    pub fn get_all_objects(&self) -> (r: Vec<&GameObject>)
        ensures
            distinct_ids(self@),
            ref_views(r@) == self@,
    {
        proof {
            use_type_invariant(self);
        }
        let mut out: Vec<&GameObject> = Vec::new();
        let mut i: usize = 0;
        while i < self.objects.len()
            invariant
                i <= self.objects.len(),
                out.len() == i,
                forall|k: int| 0 <= k < i ==> out[k]@ == self.objects[k]@,
            decreases self.objects.len() - i,
        {
            out.push(&self.objects[i]);
            i += 1;
        }
        assert(ref_views(out@) =~= self@);
        out
    }

    /// The entries of the given type.
    pub fn get_objects_by_type(&self, object_type: &str) -> (r: Vec<&GameObject>)
        ensures
            ref_views(r@) == of_type(self@, object_type@),
            forall|k: int|
                0 <= k < r.len() ==> (#[trigger] r[k])@.object_type == object_type@
                    && self@.contains(r[k]@),
    {
        let ghost p = |o: GameObjectView| o.object_type == object_type@;
        let ghost all = self@;
        let mut out: Vec<&GameObject> = Vec::new();
        let mut i: usize = 0;
        proof {
            reveal(Seq::filter);
            assert(all.take(0) =~= Seq::empty());
            assert(ref_views(out@) =~= all.take(0).filter(p));
        }
        while i < self.objects.len()
            invariant
                i <= self.objects.len(),
                all == views(self.objects@),
                p == (|o: GameObjectView| o.object_type == object_type@),
                ref_views(out@) == all.take(i as int).filter(p),
                forall|k: int|
                    0 <= k < out.len() ==> (#[trigger] out[k])@.object_type == object_type@
                        && all.contains(out[k]@),
            decreases self.objects.len() - i,
        {
            let ghost before = out@;
            proof {
                lemma_filter_step(all, i as int, p);
            }
            if self.objects[i].is_type(object_type) {
                out.push(&self.objects[i]);
                assert(ref_views(out@) =~= ref_views(before).push(all[i as int]));
                assert forall|k: int| 0 <= k < out.len() implies (#[trigger] out[k])@.object_type
                    == object_type@ && all.contains(out[k]@) by {
                    if k < before.len() {
                        assert(out[k] == before[k]);
                    } else {
                        assert(out[k]@ == all[i as int]);
                    }
                }
            }
            i += 1;
        }
        assert(all.take(i as int) =~= all);
        out
    }

    /// The characters that are monsters.
    pub fn get_monster_characters(&self) -> (r: Vec<&GameObject>)
        ensures
            ref_views(r@) == monsters_of(self@),
            forall|k: int| 0 <= k < r.len() ==> (#[trigger] r[k])@.is_monster() && self@.contains(r[k]@),
    {
        let ghost p = |o: GameObjectView| o.is_monster();
        let ghost all = self@;
        let mut out: Vec<&GameObject> = Vec::new();
        let mut i: usize = 0;
        proof {
            reveal(Seq::filter);
            assert(all.take(0) =~= Seq::empty());
            assert(ref_views(out@) =~= all.take(0).filter(p));
        }
        while i < self.objects.len()
            invariant
                i <= self.objects.len(),
                all == views(self.objects@),
                p == (|o: GameObjectView| o.is_monster()),
                ref_views(out@) == all.take(i as int).filter(p),
                forall|k: int|
                    0 <= k < out.len() ==> (#[trigger] out[k])@.is_monster() && all.contains(out[k]@),
            decreases self.objects.len() - i,
        {
            let ghost before = out@;
            proof {
                lemma_filter_step(all, i as int, p);
            }
            if self.objects[i].is_monster() {
                out.push(&self.objects[i]);
                assert(ref_views(out@) =~= ref_views(before).push(all[i as int]));
                assert forall|k: int| 0 <= k < out.len() implies (#[trigger] out[k])@.is_monster()
                    && all.contains(out[k]@) by {
                    if k < before.len() {
                        assert(out[k] == before[k]);
                    } else {
                        assert(out[k]@ == all[i as int]);
                    }
                }
            }
            i += 1;
        }
        assert(all.take(i as int) =~= all);
        out
    }
}

} // verus!
