//! The corridors of a level as a shortest way to join all its rooms.

use crate::dungeon::{
    by_distance, corridor_edges, groups_after, insert_link, lemma_linked_stay_joined, link_of,
    links_from, links_of_first, pair_links, sorted_links, spanning_edges, Link, Room,
};
use vstd::prelude::*;
use vstd::relations::injective_on;
use vstd::set_lib::*;

verus! {

/// Whether both rooms of every link have a number below `count`.
pub open spec fn in_range(links: Seq<Link>, count: nat) -> bool {
    forall|k: int| 0 <= k < links.len() ==> (#[trigger] links[k]).a < count && links[k].b < count
}

/// The groups once the rooms of one more link are joined: the rooms of both groups get
/// the smaller of the two numbers.
pub open spec fn joined_with(groups: Seq<int>, link: Link) -> Seq<int> {
    let a = groups[link.a as int];
    let b = groups[link.b as int];
    let first = if a <= b {
        a
    } else {
        b
    };
    Seq::new(
        groups.len(),
        |i: int|
            if groups[i] == a || groups[i] == b {
                first
            } else {
                groups[i]
            },
    )
}

/// Whether every room has the number of a room before it, or its own, and that room has
/// its own number.
pub open spec fn tidy(groups: Seq<int>) -> bool {
    forall|i: int|
        0 <= i < groups.len() ==> 0 <= #[trigger] groups[i] <= i && groups[groups[i]] == groups[i]
}

/// The rooms that give their groups the number.
pub open spec fn roots(groups: Seq<int>) -> Set<int> {
    Set::new(|i: int| 0 <= i < groups.len() && groups[i] == i)
}

/// The links that join two groups when the links are taken one after the other.
pub open spec fn kept(links: Seq<Link>, count: nat) -> Seq<Link>
    decreases links.len(),
{
    if links.len() == 0 {
        Seq::empty()
    } else {
        let groups = groups_after(links.drop_last(), count);
        let rest = kept(links.drop_last(), count);
        let last = links.last();
        if groups[last.a as int] != groups[last.b as int] {
            rest.push(last)
        } else {
            rest
        }
    }
}

/// Taking one more link joins the groups of its rooms.
pub proof fn lemma_groups_step(links: Seq<Link>, count: nat)
    requires
        links.len() > 0,
    ensures
        groups_after(links.drop_last(), count).len() == count,
        groups_after(links, count) == joined_with(
            groups_after(links.drop_last(), count),
            links.last(),
        ),
{
    lemma_groups_len(links.drop_last(), count);
    assert(groups_after(links, count) =~= joined_with(
        groups_after(links.drop_last(), count),
        links.last(),
    ));
}

/// Every room has a group.
pub proof fn lemma_groups_len(links: Seq<Link>, count: nat)
    ensures
        groups_after(links, count).len() == count,
    decreases links.len(),
{
    if links.len() > 0 {
        lemma_groups_len(links.drop_last(), count);
    }
}

/// Joining two groups keeps the numbers tidy. Where the groups differed, the room that
/// gave the later one its number gives none any more; else nothing changes.
pub proof fn lemma_join_roots(groups: Seq<int>, link: Link)
    requires
        tidy(groups),
        link.a < groups.len(),
        link.b < groups.len(),
    ensures
        tidy(joined_with(groups, link)),
        joined_with(groups, link).len() == groups.len(),
        groups[link.a as int] == groups[link.b as int] ==> joined_with(groups, link) == groups,
        groups[link.a as int] != groups[link.b as int] ==> exists|gone: int|
            #[trigger] roots(groups).contains(gone) && roots(joined_with(groups, link)) == roots(
                groups,
            ).remove(gone),
{
    let after = joined_with(groups, link);
    let a = groups[link.a as int];
    let b = groups[link.b as int];
    let first = if a <= b {
        a
    } else {
        b
    };
    let gone = if a <= b {
        b
    } else {
        a
    };
    assert(groups[a] == a && groups[b] == b);
    assert forall|i: int| 0 <= i < after.len() implies 0 <= #[trigger] after[i] <= i && after[after[i]]
        == after[i] by {
        let g = groups[i];
        assert(0 <= g <= i && groups[g] == g);
    }
    if a == b {
        assert(after =~= groups);
    } else {
        assert(roots(groups).contains(gone));
        assert forall|i: int| roots(after).contains(i) <==> roots(groups).remove(gone).contains(
            i,
        ) by {
            if 0 <= i < groups.len() {
                let g = groups[i];
                assert(0 <= g <= i && groups[g] == g);
            }
        }
        assert(roots(after) =~= roots(groups).remove(gone));
    }
}

/// The rooms that give a group its number are finitely many.
pub proof fn lemma_roots_finite(groups: Seq<int>)
    ensures
        roots(groups).finite(),
        roots(groups).len() <= groups.len(),
{
    lemma_int_range(0, groups.len() as int);
    assert(roots(groups).subset_of(set_int_range(0, groups.len() as int)));
    lemma_len_subset(roots(groups), set_int_range(0, groups.len() as int));
}

/// The groups are tidy, and every link that was kept made them one fewer.
pub proof fn lemma_kept_count(links: Seq<Link>, count: nat)
    requires
        in_range(links, count),
    ensures
        tidy(groups_after(links, count)),
        groups_after(links, count).len() == count,
        roots(groups_after(links, count)).len() + kept(links, count).len() == count,
    decreases links.len(),
{
    let groups = groups_after(links, count);
    lemma_roots_finite(groups);
    if links.len() == 0 {
        lemma_int_range(0, count as int);
        assert(roots(groups) =~= set_int_range(0, count as int));
    } else {
        let before = groups_after(links.drop_last(), count);
        assert(in_range(links.drop_last(), count)) by {
            assert forall|k: int| 0 <= k < links.drop_last().len() implies (
            #[trigger] links.drop_last()[k]).a < count && links.drop_last()[k].b < count by {
                assert(links.drop_last()[k] == links[k]);
            }
        }
        lemma_kept_count(links.drop_last(), count);
        lemma_groups_step(links, count);
        lemma_roots_finite(before);
        assert(links.last() == links[links.len() - 1]);
        lemma_join_roots(before, links.last());
    }
}

/// Whether the two rooms of every link are in one group.
pub open spec fn respects(groups: Seq<int>, links: Seq<Link>) -> bool {
    forall|k: int|
        0 <= k < links.len() ==> groups[(#[trigger] links[k]).a as int] == groups[links[k].b as int]
}

/// Whether rooms that are in one group of `fine` are in one group of `coarse` too.
pub open spec fn refines(fine: Seq<int>, coarse: Seq<int>) -> bool {
    forall|i: int, j: int|
        #![trigger fine[i], fine[j]]
        0 <= i < fine.len() && 0 <= j < fine.len() && fine[i] == fine[j] ==> coarse[i] == coarse[j]
}

/// Whether all rooms are in one group.
pub open spec fn one_group(groups: Seq<int>) -> bool {
    forall|i: int, j: int|
        #![trigger groups[i], groups[j]]
        0 <= i < groups.len() && 0 <= j < groups.len() ==> groups[i] == groups[j]
}

/// The first links of a list that is in range are in range.
pub proof fn lemma_in_range_front(links: Seq<Link>, count: nat)
    requires
        in_range(links, count),
        links.len() > 0,
    ensures
        in_range(links.drop_last(), count),
        links.last().a < count,
        links.last().b < count,
{
    assert forall|k: int| 0 <= k < links.drop_last().len() implies (#[trigger] links.drop_last()[k]).a
        < count && links.drop_last()[k].b < count by {
        assert(links.drop_last()[k] == links[k]);
    }
    assert(links.last() == links[links.len() - 1]);
}

/// The groups that joining along the links gives are the finest in which the rooms of
/// every link are together.
pub proof fn lemma_groups_refine(links: Seq<Link>, count: nat, coarse: Seq<int>)
    requires
        in_range(links, count),
        coarse.len() == count,
        respects(coarse, links),
    ensures
        refines(groups_after(links, count), coarse),
    decreases links.len(),
{
    lemma_groups_len(links, count);
    if links.len() > 0 {
        let before = groups_after(links.drop_last(), count);
        let after = groups_after(links, count);
        let last = links.last();
        lemma_in_range_front(links, count);
        assert(respects(coarse, links.drop_last())) by {
            assert forall|k: int| 0 <= k < links.drop_last().len() implies coarse[(
            #[trigger] links.drop_last()[k]).a as int] == coarse[links.drop_last()[k].b as int] by {
                assert(links.drop_last()[k] == links[k]);
            }
        }
        lemma_groups_refine(links.drop_last(), count, coarse);
        lemma_groups_step(links, count);
        assert(last == links[links.len() - 1]);
        assert(coarse[last.a as int] == coarse[last.b as int]);
        let a = before[last.a as int];
        let b = before[last.b as int];
        assert forall|i: int, j: int|
            #![trigger after[i], after[j]]
            0 <= i < count && 0 <= j < count && after[i] == after[j] implies coarse[i] == coarse[j] by {
            let near_i = before[i] == a || before[i] == b;
            let near_j = before[j] == a || before[j] == b;
            if near_i {
                assert(coarse[i] == coarse[last.a as int]) by {
                    if before[i] == a {
                        assert(before[i] == before[last.a as int]);
                    } else {
                        assert(before[i] == before[last.b as int]);
                    }
                }
            }
            if near_j {
                assert(coarse[j] == coarse[last.a as int]) by {
                    if before[j] == a {
                        assert(before[j] == before[last.a as int]);
                    } else {
                        assert(before[j] == before[last.b as int]);
                    }
                }
            }
            if !near_i && !near_j {
                assert(before[i] == before[j]);
            }
        }
    }
}

/// Groups that are coarser are not more.
pub proof fn lemma_coarser_fewer(fine: Seq<int>, coarse: Seq<int>)
    requires
        tidy(fine),
        tidy(coarse),
        fine.len() == coarse.len(),
        refines(fine, coarse),
    ensures
        roots(coarse).len() <= roots(fine).len(),
{
    let f = |r: int| fine[r];
    let image = roots(coarse).map(f);
    lemma_roots_finite(coarse);
    lemma_roots_finite(fine);
    assert(injective_on(f, roots(coarse))) by {
        assert forall|x: int, y: int|
            roots(coarse).contains(x) && roots(coarse).contains(y) && #[trigger] f(x) == #[trigger] f(
                y,
            ) implies x == y by {
            assert(fine[x] == fine[y]);
            assert(coarse[x] == coarse[y]);
        }
    }
    lemma_map_size(roots(coarse), image, f);
    assert(image.subset_of(roots(fine))) by {
        assert forall|r: int| image.contains(r) implies roots(fine).contains(r) by {
            let x = choose|x: int| roots(coarse).contains(x) && r == f(x);
            assert(0 <= fine[x] <= x && fine[fine[x]] == fine[x]);
        }
    }
    lemma_len_subset(image, roots(fine));
}

/// Rooms that are all in one group have one room that gives the group its number.
pub proof fn lemma_one_root(groups: Seq<int>)
    requires
        tidy(groups),
        groups.len() > 0,
        one_group(groups),
    ensures
        roots(groups).len() == 1,
{
    assert(groups[0] == 0);
    assert forall|i: int| roots(groups).contains(i) <==> i == 0 by {
        if 0 <= i < groups.len() {
            assert(groups[i] == groups[0]);
        }
    }
    assert(roots(groups) =~= Set::<int>::empty().insert(0));
}

/// The links that are not longer than `t`, in their order.
pub open spec fn within(links: Seq<Link>, t: int) -> Seq<Link>
    decreases links.len(),
{
    if links.len() == 0 {
        Seq::empty()
    } else if links.last().distance <= t {
        within(links.drop_last(), t).push(links.last())
    } else {
        within(links.drop_last(), t)
    }
}

/// The links that are longer than `t`, in their order.
pub open spec fn beyond(links: Seq<Link>, t: int) -> Seq<Link>
    decreases links.len(),
{
    if links.len() == 0 {
        Seq::empty()
    } else if links.last().distance > t {
        beyond(links.drop_last(), t).push(links.last())
    } else {
        beyond(links.drop_last(), t)
    }
}

/// The lengths of the links, taken together.
pub open spec fn total(links: Seq<Link>) -> int
    decreases links.len(),
{
    if links.len() == 0 {
        0
    } else {
        total(links.drop_last()) + links.last().distance
    }
}

/// For every length below `m`, the number of links that are longer, all taken together.
pub open spec fn layers(links: Seq<Link>, m: nat) -> int
    decreases m,
{
    if m == 0 {
        0
    } else {
        layers(links, (m - 1) as nat) + beyond(links, m - 1).len()
    }
}

/// The smaller of two numbers.
pub open spec fn least(a: int, b: int) -> int {
    if a <= b {
        a
    } else {
        b
    }
}

/// One more link adds its length to the layers, as far as they go.
pub proof fn lemma_layers_push(links: Seq<Link>, link: Link, m: nat)
    ensures
        layers(links.push(link), m) == layers(links, m) + least(link.distance as int, m as int),
    decreases m,
{
    if m > 0 {
        lemma_layers_push(links, link, (m - 1) as nat);
        assert(links.push(link).drop_last() =~= links);
        assert(links.push(link).last() == link);
    }
}

/// No links, no layers.
pub proof fn lemma_layers_none(m: nat)
    ensures
        layers(Seq::<Link>::empty(), m) == 0,
    decreases m,
{
    if m > 0 {
        lemma_layers_none((m - 1) as nat);
    }
}

/// The layers of the links make up their lengths as far as the layers go: all of them,
/// where no link is longer than `m`.
pub proof fn lemma_total_layers(links: Seq<Link>, m: nat)
    ensures
        0 <= layers(links, m) <= total(links),
        (forall|k: int| 0 <= k < links.len() ==> (#[trigger] links[k]).distance <= m) ==> layers(
            links,
            m,
        ) == total(links),
    decreases links.len(),
{
    if links.len() == 0 {
        lemma_layers_none(m);
        assert(links =~= Seq::<Link>::empty());
    } else {
        lemma_total_layers(links.drop_last(), m);
        lemma_layers_push(links.drop_last(), links.last(), m);
        assert(links.drop_last().push(links.last()) =~= links);
        if forall|k: int| 0 <= k < links.len() ==> (#[trigger] links[k]).distance <= m {
            assert forall|k: int| 0 <= k < links.drop_last().len() implies (
            #[trigger] links.drop_last()[k]).distance <= m by {
                assert(links.drop_last()[k] == links[k]);
            }
            assert(links.last() == links[links.len() - 1]);
        }
    }
}

/// Links of which fewer are longer than any length below `m` have the smaller layers.
pub proof fn lemma_layers_le(fewer: Seq<Link>, more: Seq<Link>, m: nat)
    requires
        forall|t: int| 0 <= t < m ==> (#[trigger] beyond(fewer, t)).len() <= beyond(more, t).len(),
    ensures
        layers(fewer, m) <= layers(more, m),
    decreases m,
{
    if m > 0 {
        lemma_layers_le(fewer, more, (m - 1) as nat);
        assert(beyond(fewer, m - 1).len() <= beyond(more, m - 1).len());
    }
}

/// No link is longer than all of them together.
pub proof fn lemma_total_bounds(links: Seq<Link>)
    ensures
        0 <= total(links),
        forall|k: int| 0 <= k < links.len() ==> (#[trigger] links[k]).distance <= total(links),
    decreases links.len(),
{
    if links.len() > 0 {
        lemma_total_bounds(links.drop_last());
        assert forall|k: int| 0 <= k < links.len() implies (#[trigger] links[k]).distance <= total(
            links,
        ) by {
            if k < links.len() - 1 {
                assert(links.drop_last()[k] == links[k]);
            }
        }
    }
}

/// What the two parts of a list of links hold: each a link of the list that is on its
/// side of `t`, and each link of the list is in its part.
pub proof fn lemma_parts(links: Seq<Link>, t: int)
    ensures
        forall|k: int|
            0 <= k < within(links, t).len() ==> (#[trigger] within(links, t)[k]).distance <= t
                && links.contains(within(links, t)[k]),
        forall|k: int|
            0 <= k < beyond(links, t).len() ==> (#[trigger] beyond(links, t)[k]).distance > t
                && links.contains(beyond(links, t)[k]),
        forall|k: int|
            0 <= k < links.len() ==> if (#[trigger] links[k]).distance <= t {
                within(links, t).contains(links[k])
            } else {
                beyond(links, t).contains(links[k])
            },
        within(links, t).len() + beyond(links, t).len() == links.len(),
    decreases links.len(),
{
    if links.len() > 0 {
        let front = links.drop_last();
        let last = links.last();
        let near = within(links, t);
        let far = beyond(links, t);
        lemma_parts(front, t);
        assert(links[links.len() - 1] == last);
        assert forall|k: int| 0 <= k < near.len() implies (#[trigger] near[k]).distance <= t
            && links.contains(near[k]) by {
            if k < within(front, t).len() {
                assert(near[k] == within(front, t)[k]);
                let q = choose|q: int| 0 <= q < front.len() && front[q] == near[k];
                assert(links[q] == near[k]);
            }
        }
        assert forall|k: int| 0 <= k < far.len() implies (#[trigger] far[k]).distance > t
            && links.contains(far[k]) by {
            if k < beyond(front, t).len() {
                assert(far[k] == beyond(front, t)[k]);
                let q = choose|q: int| 0 <= q < front.len() && front[q] == far[k];
                assert(links[q] == far[k]);
            }
        }
        assert forall|k: int| 0 <= k < links.len() implies if (#[trigger] links[k]).distance <= t {
            near.contains(links[k])
        } else {
            far.contains(links[k])
        } by {
            if k < front.len() {
                assert(front[k] == links[k]);
                if links[k].distance <= t {
                    let q = choose|q: int|
                        0 <= q < within(front, t).len() && within(front, t)[q] == links[k];
                    assert(near[q] == links[k]);
                } else {
                    let q = choose|q: int|
                        0 <= q < beyond(front, t).len() && beyond(front, t)[q] == links[k];
                    assert(far[q] == links[k]);
                }
            } else {
                if last.distance <= t {
                    assert(near[near.len() - 1] == last);
                } else {
                    assert(far[far.len() - 1] == last);
                }
            }
        }
    }
}

/// Links in the order of their lengths are those not longer than `t`, then the others.
pub proof fn lemma_sorted_parts(links: Seq<Link>, t: int)
    requires
        by_distance(links),
    ensures
        links == within(links, t) + beyond(links, t),
    decreases links.len(),
{
    if links.len() == 0 {
        assert(links =~= within(links, t) + beyond(links, t));
    } else {
        let front = links.drop_last();
        let last = links.last();
        assert(by_distance(front)) by {
            assert forall|a: int, b: int| 0 <= a <= b < front.len() implies front[a].distance
                <= front[b].distance by {
                assert(links[a].distance <= links[b].distance);
            }
        }
        lemma_sorted_parts(front, t);
        lemma_parts(front, t);
        if last.distance <= t {
            if beyond(front, t).len() > 0 {
                let far = beyond(front, t)[0];
                let q = choose|q: int| 0 <= q < front.len() && front[q] == far;
                assert(links[q].distance <= links[links.len() - 1].distance);
            }
            assert(beyond(front, t) =~= Seq::<Link>::empty());
            assert(within(front, t) =~= front);
            assert(within(links, t) == front.push(last));
            assert(beyond(links, t) == Seq::<Link>::empty());
        } else {
            assert(within(links, t) == within(front, t));
            assert(beyond(links, t) == beyond(front, t).push(last));
        }
        assert(links =~= front.push(last));
        assert(links =~= within(links, t) + beyond(links, t));
    }
}

/// Of links that are not longer than `t`, none that is kept is longer.
pub proof fn lemma_kept_near(links: Seq<Link>, count: nat, t: int)
    requires
        forall|k: int| 0 <= k < links.len() ==> (#[trigger] links[k]).distance <= t,
    ensures
        beyond(kept(links, count), t).len() == 0,
    decreases links.len(),
{
    if links.len() > 0 {
        let front = links.drop_last();
        assert forall|k: int| 0 <= k < front.len() implies (#[trigger] front[k]).distance <= t by {
            assert(front[k] == links[k]);
        }
        lemma_kept_near(front, count, t);
        assert(links.last() == links[links.len() - 1]);
        assert(kept(front, count).push(links.last()).drop_last() =~= kept(front, count));
    }
}

/// Of the links that follow, at most each is kept; where all of them are longer than
/// `t`, those of them that are kept are longer too.
pub proof fn lemma_kept_more(first: Seq<Link>, then: Seq<Link>, count: nat, t: int)
    ensures
        kept(first, count).len() <= kept(first + then, count).len() <= kept(first, count).len()
            + then.len(),
        (forall|k: int| 0 <= k < then.len() ==> (#[trigger] then[k]).distance > t) ==> beyond(
            kept(first + then, count),
            t,
        ).len() == beyond(kept(first, count), t).len() + kept(first + then, count).len() - kept(
            first,
            count,
        ).len(),
    decreases then.len(),
{
    if then.len() == 0 {
        assert(first + then =~= first);
    } else {
        let front = then.drop_last();
        lemma_kept_more(first, front, count, t);
        assert((first + then).drop_last() =~= first + front);
        assert((first + then).last() == then.last());
        if forall|k: int| 0 <= k < then.len() ==> (#[trigger] then[k]).distance > t {
            assert forall|k: int| 0 <= k < front.len() implies (#[trigger] front[k]).distance > t by {
                assert(front[k] == then[k]);
            }
            assert(then.last() == then[then.len() - 1]);
            assert(kept(first + front, count).push(then.last()).drop_last() =~= kept(
                first + front,
                count,
            ));
        }
    }
}

/// Whether the two links join the same two rooms over the same length.
pub open spec fn same_pair(link: Link, other: Link) -> bool {
    &&& link.distance == other.distance
    &&& (link.a == other.a && link.b == other.b) || (link.a == other.b && link.b == other.a)
}

/// Whether each of the links joins a room with itself or is found among `all`.
pub open spec fn found_among(links: Seq<Link>, all: Seq<Link>) -> bool {
    forall|k: int|
        0 <= k < links.len() ==> (#[trigger] links[k]).a == links[k].b || exists|q: int|
            0 <= q < all.len() && same_pair(links[k], #[trigger] all[q])
}

/// Whether the links bring all rooms together: in whatever groups the rooms are, if the
/// two rooms of every link are in one group, all rooms are.
pub open spec fn joins_all(links: Seq<Link>, count: nat) -> bool {
    forall|groups: Seq<int>|
        groups.len() == count && #[trigger] respects(groups, links) ==> one_group(groups)
}

/// Links that are found among others have their rooms in one group once the rooms were
/// joined along the others.
pub proof fn lemma_respects_found(links: Seq<Link>, all: Seq<Link>, count: nat)
    requires
        in_range(all, count),
        found_among(links, all),
    ensures
        respects(groups_after(all, count), links),
{
    let groups = groups_after(all, count);
    assert(all.take(all.len() as int) =~= all);
    assert forall|k: int| 0 <= k < links.len() implies groups[(#[trigger] links[k]).a as int]
        == groups[links[k].b as int] by {
        if links[k].a != links[k].b {
            let q = choose|q: int| 0 <= q < all.len() && same_pair(links[k], #[trigger] all[q]);
            lemma_linked_stay_joined(all, count, q, all.len() as int);
        }
    }
}

/// The parts of links that are in range are in range, and so are the two one after the
/// other, among which every link is found.
pub proof fn lemma_parts_in_range(links: Seq<Link>, count: nat, t: int)
    requires
        in_range(links, count),
    ensures
        in_range(within(links, t), count),
        in_range(beyond(links, t), count),
        in_range(within(links, t) + beyond(links, t), count),
        found_among(links, within(links, t) + beyond(links, t)),
{
    let near = within(links, t);
    let far = beyond(links, t);
    let both = near + far;
    lemma_parts(links, t);
    assert forall|k: int| 0 <= k < near.len() implies (#[trigger] near[k]).a < count && near[k].b
        < count by {
        let q = choose|q: int| 0 <= q < links.len() && links[q] == near[k];
        assert(links[q].a < count);
    }
    assert forall|k: int| 0 <= k < far.len() implies (#[trigger] far[k]).a < count && far[k].b
        < count by {
        let q = choose|q: int| 0 <= q < links.len() && links[q] == far[k];
        assert(links[q].a < count);
    }
    assert forall|k: int| 0 <= k < both.len() implies (#[trigger] both[k]).a < count && both[k].b
        < count by {
        if k < near.len() {
            assert(both[k] == near[k]);
        } else {
            assert(both[k] == far[k - near.len()]);
        }
    }
    assert forall|k: int| 0 <= k < links.len() implies (#[trigger] links[k]).a == links[k].b
        || exists|q: int| 0 <= q < both.len() && same_pair(links[k], #[trigger] both[q]) by {
        if links[k].distance <= t {
            let q = choose|q: int| 0 <= q < near.len() && near[q] == links[k];
            assert(same_pair(links[k], both[q]));
        } else {
            let q = choose|q: int| 0 <= q < far.len() && far[q] == links[k];
            assert(same_pair(links[k], both[near.len() + q]));
        }
    }
}

/// Of the links that are kept, taken in the order of their lengths, no more are longer
/// than `t` than of any links that bring all rooms together.
pub proof fn lemma_fewer_beyond(sorted: Seq<Link>, other: Seq<Link>, count: nat, t: int)
    requires
        count > 0,
        in_range(sorted, count),
        in_range(other, count),
        by_distance(sorted),
        found_among(other, sorted),
        joins_all(other, count),
    ensures
        beyond(kept(sorted, count), t).len() <= beyond(other, t).len(),
{
    let near = within(sorted, t);
    let far = beyond(sorted, t);
    lemma_sorted_parts(sorted, t);
    lemma_parts(sorted, t);
    lemma_parts_in_range(sorted, count, t);
    // All rooms are together once the sorted links are taken.
    let all = groups_after(sorted, count);
    lemma_respects_found(other, sorted, count);
    lemma_kept_count(sorted, count);
    assert(one_group(all));
    lemma_one_root(all);
    // The links that are kept beyond `t` are one fewer than the groups at `t`.
    let at = groups_after(near, count);
    lemma_kept_count(near, count);
    lemma_kept_near(near, count, t);
    lemma_kept_more(near, far, count, t);
    assert(beyond(kept(sorted, count), t).len() == roots(at).len() - 1);
    // The other links, those within `t` first.
    let o_near = within(other, t);
    let o_far = beyond(other, t);
    let o_both = o_near + o_far;
    lemma_parts(other, t);
    lemma_parts_in_range(other, count, t);
    let o_all = groups_after(o_both, count);
    lemma_respects_found(other, o_both, count);
    lemma_kept_count(o_both, count);
    assert(one_group(o_all));
    lemma_one_root(o_all);
    let o_at = groups_after(o_near, count);
    lemma_kept_count(o_near, count);
    lemma_kept_more(o_near, o_far, count, t);
    assert(roots(o_at).len() - 1 <= o_far.len());
    // Their groups at `t` are finer.
    assert(found_among(o_near, near)) by {
        assert forall|k: int| 0 <= k < o_near.len() implies (#[trigger] o_near[k]).a == o_near[k].b
            || exists|q: int| 0 <= q < near.len() && same_pair(o_near[k], #[trigger] near[q]) by {
            let j = choose|j: int| 0 <= j < other.len() && other[j] == o_near[k];
            if other[j].a != other[j].b {
                let q = choose|q: int| 0 <= q < sorted.len() && same_pair(other[j], #[trigger] sorted[q]);
                assert(sorted[q].distance <= t);
                let p = choose|p: int| 0 <= p < near.len() && near[p] == sorted[q];
                assert(same_pair(o_near[k], near[p]));
            }
        }
    }
    lemma_respects_found(o_near, near, count);
    lemma_groups_refine(o_near, count, at);
    lemma_coarser_fewer(o_at, at);
}

/// The links that are kept, taken in the order of their lengths, are together no longer
/// than any links that bring all rooms together.
pub proof fn lemma_kept_shortest(sorted: Seq<Link>, other: Seq<Link>, count: nat)
    requires
        in_range(sorted, count),
        in_range(other, count),
        by_distance(sorted),
        found_among(other, sorted),
        joins_all(other, count),
    ensures
        total(kept(sorted, count)) <= total(other),
{
    let mine = kept(sorted, count);
    lemma_total_bounds(mine);
    lemma_total_bounds(other);
    if count == 0 {
        if sorted.len() > 0 {
            assert(sorted[0].a < count);
        }
        assert(sorted =~= Seq::<Link>::empty());
    } else {
        let m = total(mine) as nat;
        lemma_total_layers(mine, m);
        lemma_total_layers(other, m);
        assert forall|t: int| 0 <= t < m implies (#[trigger] beyond(mine, t)).len() <= beyond(
            other,
            t,
        ).len() by {
            lemma_fewer_beyond(sorted, other, count, t);
        }
        lemma_layers_le(mine, other, m);
    }
}

/// Whether every link is the link between its two rooms, the one with the smaller
/// number first.
pub open spec fn links_of_rooms(links: Seq<Link>, rooms: Seq<Room>) -> bool {
    forall|k: int|
        0 <= k < links.len() ==> (#[trigger] links[k]).a < links[k].b < rooms.len() && links[k]
            == link_of(rooms, links[k].a as int, links[k].b as int)
}

/// Whether the links hold the link between every two rooms.
pub open spec fn links_all_pairs(links: Seq<Link>, rooms: Seq<Room>, upto: int) -> bool {
    forall|i: int, j: int|
        0 <= i < j < rooms.len() && i < upto ==> links.contains(#[trigger] link_of(rooms, i, j))
}

/// The links from one room to those after it.
pub proof fn lemma_links_from(rooms: Seq<Room>, i: int, end: int)
    requires
        0 <= i,
    ensures
        links_from(rooms, i, end).len() == if end > i {
            end - i - 1
        } else {
            0
        },
        forall|k: int|
            0 <= k < links_from(rooms, i, end).len() ==> #[trigger] links_from(rooms, i, end)[k]
                == link_of(rooms, i, i + 1 + k),
    decreases end - i,
{
    if end > i + 1 {
        lemma_links_from(rooms, i, end - 1);
    }
}

/// The links between all pairs of rooms are the links of the rooms, and hold every pair.
pub proof fn lemma_links_of_first(rooms: Seq<Room>, count: int)
    requires
        0 <= count <= rooms.len() <= usize::MAX,
    ensures
        links_of_rooms(links_of_first(rooms, count), rooms),
        links_all_pairs(links_of_first(rooms, count), rooms, count),
    decreases count,
{
    if count > 0 {
        let n = rooms.len() as int;
        let before = links_of_first(rooms, count - 1);
        let row = links_from(rooms, count - 1, n);
        let all = links_of_first(rooms, count);
        lemma_links_of_first(rooms, count - 1);
        lemma_links_from(rooms, count - 1, n);
        assert(all == before + row);
        assert forall|k: int| 0 <= k < all.len() implies (#[trigger] all[k]).a < all[k].b < rooms.len()
            && all[k] == link_of(rooms, all[k].a as int, all[k].b as int) by {
            if k < before.len() {
                assert(all[k] == before[k]);
            } else {
                assert(all[k] == row[k - before.len()]);
            }
        }
        assert forall|i: int, j: int| 0 <= i < j < n && i < count implies all.contains(
            #[trigger] link_of(rooms, i, j),
        ) by {
            if i < count - 1 {
                let q = choose|q: int| 0 <= q < before.len() && before[q] == link_of(rooms, i, j);
                assert(all[q] == link_of(rooms, i, j));
            } else {
                assert(row[j - i - 1] == link_of(rooms, i, j));
                assert(all[before.len() + j - i - 1] == link_of(rooms, i, j));
            }
        }
    }
}

/// A link put into links that are in the order of their lengths leaves them in order,
/// with the link among them and nothing else new.
pub proof fn lemma_insert_sorted(sorted: Seq<Link>, link: Link)
    requires
        by_distance(sorted),
    ensures
        by_distance(insert_link(sorted, link)),
        insert_link(sorted, link).len() == sorted.len() + 1,
        forall|x: Link|
            #![trigger insert_link(sorted, link).contains(x)]
            #![trigger sorted.contains(x)]
            insert_link(sorted, link).contains(x) <==> sorted.contains(x) || x == link,
    decreases sorted.len(),
{
    let r = insert_link(sorted, link);
    if sorted.len() > 0 && sorted.last().distance > link.distance {
        let front = sorted.drop_last();
        let last = sorted.last();
        let inner = insert_link(front, link);
        assert(by_distance(front)) by {
            assert forall|a: int, b: int| 0 <= a <= b < front.len() implies front[a].distance
                <= front[b].distance by {
                assert(sorted[a].distance <= sorted[b].distance);
            }
        }
        lemma_insert_sorted(front, link);
        assert(r == inner.push(last));
        assert forall|a: int, b: int| 0 <= a <= b < r.len() implies r[a].distance <= r[b].distance by {
            if b < inner.len() {
                assert(inner[a].distance <= inner[b].distance);
            } else if a < inner.len() {
                assert(inner.contains(inner[a]));
                if inner[a] != link {
                    let q = choose|q: int| 0 <= q < front.len() && front[q] == inner[a];
                    assert(sorted[q].distance <= sorted[sorted.len() - 1].distance);
                }
            }
        }
        assert forall|x: Link| r.contains(x) <==> sorted.contains(x) || x == link by {
            if r.contains(x) {
                let q = choose|q: int| 0 <= q < r.len() && r[q] == x;
                if q < inner.len() {
                    assert(inner.contains(inner[q]));
                    if x != link {
                        let p = choose|p: int| 0 <= p < front.len() && front[p] == x;
                        assert(sorted[p] == x);
                    }
                } else {
                    assert(sorted[sorted.len() - 1] == x);
                }
            }
            if sorted.contains(x) {
                let p = choose|p: int| 0 <= p < sorted.len() && sorted[p] == x;
                if p < front.len() {
                    assert(front[p] == x);
                    assert(inner.contains(x));
                    let q = choose|q: int| 0 <= q < inner.len() && inner[q] == x;
                    assert(r[q] == x);
                } else {
                    assert(r[inner.len() as int] == x);
                }
            }
            if x == link {
                assert(inner.contains(x));
                let q = choose|q: int| 0 <= q < inner.len() && inner[q] == x;
                assert(r[q] == x);
            }
        }
    } else {
        assert(r == sorted.push(link));
        assert forall|a: int, b: int| 0 <= a <= b < r.len() implies r[a].distance <= r[b].distance by {
            if b < sorted.len() {
                assert(sorted[a].distance <= sorted[b].distance);
            } else if a < sorted.len() {
                assert(sorted[a].distance <= sorted[sorted.len() - 1].distance);
            }
        }
        assert forall|x: Link| r.contains(x) <==> sorted.contains(x) || x == link by {
            if r.contains(x) {
                let q = choose|q: int| 0 <= q < r.len() && r[q] == x;
                if q < sorted.len() {
                    assert(sorted[q] == x);
                }
            }
            if sorted.contains(x) {
                let p = choose|p: int| 0 <= p < sorted.len() && sorted[p] == x;
                assert(r[p] == x);
            }
            if x == link {
                assert(r[sorted.len() as int] == x);
            }
        }
    }
}

/// The sorted links are in the order of their lengths and are the same links.
pub proof fn lemma_sorted_links(links: Seq<Link>)
    ensures
        by_distance(sorted_links(links)),
        sorted_links(links).len() == links.len(),
        forall|x: Link|
            #![trigger sorted_links(links).contains(x)]
            #![trigger links.contains(x)]
            sorted_links(links).contains(x) <==> links.contains(x),
    decreases links.len(),
{
    if links.len() > 0 {
        let front = links.drop_last();
        lemma_sorted_links(front);
        lemma_insert_sorted(sorted_links(front), links.last());
        assert forall|x: Link| sorted_links(links).contains(x) <==> links.contains(x) by {
            if links.contains(x) {
                let p = choose|p: int| 0 <= p < links.len() && links[p] == x;
                if p < front.len() {
                    assert(front[p] == x);
                }
            }
            if front.contains(x) {
                let p = choose|p: int| 0 <= p < front.len() && front[p] == x;
                assert(links[p] == x);
            }
            if x == links.last() {
                assert(links[links.len() - 1] == x);
            }
        }
    }
}

/// The links along the pairs of rooms.
pub open spec fn links_along(rooms: Seq<Room>, edges: Seq<(usize, usize)>) -> Seq<Link> {
    Seq::new(edges.len(), |k: int| link_of(rooms, edges[k].0 as int, edges[k].1 as int))
}

/// Whether both rooms of every pair are rooms of the list.
pub open spec fn pairs_of_rooms(rooms: Seq<Room>, edges: Seq<(usize, usize)>) -> bool {
    forall|k: int|
        0 <= k < edges.len() ==> (#[trigger] edges[k]).0 < rooms.len() && edges[k].1 < rooms.len()
}

/// The length of corridors between the pairs of rooms, from middle to middle, taken
/// together.
pub open spec fn corridor_length(rooms: Seq<Room>, edges: Seq<(usize, usize)>) -> int {
    total(links_along(rooms, edges))
}

/// Whether corridors between the pairs of rooms bring all rooms together.
pub open spec fn corridors_join_all(rooms: Seq<Room>, edges: Seq<(usize, usize)>) -> bool {
    joins_all(links_along(rooms, edges), rooms.len())
}

/// The links that are kept are the links along the pairs that get a corridor.
pub proof fn lemma_kept_along(rooms: Seq<Room>, links: Seq<Link>, count: nat)
    requires
        links_of_rooms(links, rooms),
    ensures
        links_along(rooms, spanning_edges(links, count)) == kept(links, count),
    decreases links.len(),
{
    if links.len() == 0 {
        assert(links_along(rooms, spanning_edges(links, count)) =~= kept(links, count));
    } else {
        let front = links.drop_last();
        let last = links.last();
        assert(links_of_rooms(front, rooms)) by {
            assert forall|k: int| 0 <= k < front.len() implies (#[trigger] front[k]).a < front[k].b
                < rooms.len() && front[k] == link_of(rooms, front[k].a as int, front[k].b as int) by {
                assert(front[k] == links[k]);
            }
        }
        lemma_kept_along(rooms, front, count);
        assert(last == links[links.len() - 1]);
        assert(last == link_of(rooms, last.a as int, last.b as int));
        let rest = spanning_edges(front, count);
        assert(links_along(rooms, rest.push((last.a, last.b))) =~= links_along(rooms, rest).push(last));
    }
}

/// The links that are not kept do not change the groups.
pub proof fn lemma_kept_groups(links: Seq<Link>, count: nat)
    requires
        in_range(links, count),
    ensures
        in_range(kept(links, count), count),
        groups_after(kept(links, count), count) == groups_after(links, count),
    decreases links.len(),
{
    if links.len() > 0 {
        let front = links.drop_last();
        let last = links.last();
        lemma_in_range_front(links, count);
        lemma_kept_groups(front, count);
        lemma_kept_count(front, count);
        lemma_groups_step(links, count);
        lemma_join_roots(groups_after(front, count), last);
        let before = groups_after(front, count);
        if before[last.a as int] != before[last.b as int] {
            let mine = kept(front, count).push(last);
            assert(mine.drop_last() =~= kept(front, count));
            assert(mine.last() == last);
            lemma_groups_step(mine, count);
            assert forall|k: int| 0 <= k < mine.len() implies (#[trigger] mine[k]).a < count
                && mine[k].b < count by {
                if k < mine.len() - 1 {
                    assert(mine[k] == kept(front, count)[k]);
                }
            }
        }
    }
}

/// The links between all pairs of rooms, in the order of their lengths, are the links of
/// the rooms and hold every pair; taking them brings all rooms together.
pub proof fn lemma_sorted_pairs(rooms: Seq<Room>)
    requires
        rooms.len() <= usize::MAX,
    ensures
        by_distance(sorted_links(pair_links(rooms))),
        links_of_rooms(sorted_links(pair_links(rooms)), rooms),
        links_all_pairs(sorted_links(pair_links(rooms)), rooms, rooms.len() as int),
        in_range(sorted_links(pair_links(rooms)), rooms.len()),
        one_group(groups_after(sorted_links(pair_links(rooms)), rooms.len())),
{
    let pairs = pair_links(rooms);
    let sorted = sorted_links(pairs);
    let n = rooms.len();
    lemma_links_of_first(rooms, n as int);
    lemma_sorted_links(pairs);
    assert forall|k: int| 0 <= k < sorted.len() implies (#[trigger] sorted[k]).a < sorted[k].b < n
        && sorted[k] == link_of(rooms, sorted[k].a as int, sorted[k].b as int) by {
        assert(sorted.contains(sorted[k]));
        let q = choose|q: int| 0 <= q < pairs.len() && pairs[q] == sorted[k];
        assert(pairs[q].a < pairs[q].b);
    }
    assert forall|i: int, j: int| 0 <= i < j < n implies sorted.contains(
        #[trigger] link_of(rooms, i, j),
    ) by {
        assert(pairs.contains(link_of(rooms, i, j)));
    }
    let groups = groups_after(sorted, n);
    lemma_groups_len(sorted, n);
    assert(sorted.take(sorted.len() as int) =~= sorted);
    assert forall|i: int, j: int|
        #![trigger groups[i], groups[j]]
        0 <= i < n && 0 <= j < n implies groups[i] == groups[j] by {
        if i != j {
            let lo = least(i, j);
            let hi = i + j - lo;
            assert(sorted.contains(link_of(rooms, lo, hi)));
            let q = choose|q: int| 0 <= q < sorted.len() && sorted[q] == link_of(rooms, lo, hi);
            lemma_linked_stay_joined(sorted, n, q, sorted.len() as int);
        }
    }
}

/// The corridors of a level bring all its rooms together, and they are one fewer than
/// the rooms: none of them could be left out.
pub proof fn lemma_corridors_join_all(rooms: Seq<Room>)
    requires
        rooms.len() <= usize::MAX,
    ensures
        pairs_of_rooms(rooms, corridor_edges(rooms)),
        corridors_join_all(rooms, corridor_edges(rooms)),
        rooms.len() > 0 ==> corridor_edges(rooms).len() == rooms.len() - 1,
{
    let n = rooms.len();
    let sorted = sorted_links(pair_links(rooms));
    let mine = kept(sorted, n);
    let edges = corridor_edges(rooms);
    lemma_sorted_pairs(rooms);
    lemma_kept_along(rooms, sorted, n);
    lemma_kept_groups(sorted, n);
    assert(links_along(rooms, edges) == mine);
    if n > 0 {
        lemma_kept_count(sorted, n);
        lemma_one_root(groups_after(sorted, n));
    }
    assert forall|k: int| 0 <= k < edges.len() implies (#[trigger] edges[k]).0 < n && edges[k].1
        < n by {
        assert(mine[k] == link_of(rooms, edges[k].0 as int, edges[k].1 as int));
        assert(mine[k].a < n && mine[k].b < n);
    }
    assert forall|groups: Seq<int>| groups.len() == n && #[trigger] respects(groups, mine) implies one_group(
        groups,
    ) by {
        lemma_groups_refine(mine, n, groups);
        let all = groups_after(sorted, n);
        assert forall|i: int, j: int|
            #![trigger groups[i], groups[j]]
            0 <= i < n && 0 <= j < n implies groups[i] == groups[j] by {
            assert(all[i] == all[j]);
        }
    }
}

/// The corridors of a level are, taken together, as short as any corridors between pairs
/// of its rooms that bring all rooms together.
pub proof fn lemma_corridors_shortest(rooms: Seq<Room>, other: Seq<(usize, usize)>)
    requires
        rooms.len() <= usize::MAX,
        pairs_of_rooms(rooms, other),
        corridors_join_all(rooms, other),
    ensures
        corridor_length(rooms, corridor_edges(rooms)) <= corridor_length(rooms, other),
{
    let n = rooms.len();
    let sorted = sorted_links(pair_links(rooms));
    let theirs = links_along(rooms, other);
    lemma_sorted_pairs(rooms);
    lemma_kept_along(rooms, sorted, n);
    assert(in_range(theirs, n));
    assert forall|k: int| 0 <= k < theirs.len() implies (#[trigger] theirs[k]).a == theirs[k].b
        || exists|q: int| 0 <= q < sorted.len() && same_pair(theirs[k], #[trigger] sorted[q]) by {
        let a = other[k].0 as int;
        let b = other[k].1 as int;
        assert(theirs[k] == link_of(rooms, a, b));
        if a != b {
            let lo = least(a, b);
            let hi = a + b - lo;
            assert(sorted.contains(link_of(rooms, lo, hi)));
            let q = choose|q: int| 0 <= q < sorted.len() && sorted[q] == link_of(rooms, lo, hi);
            assert(same_pair(theirs[k], sorted[q]));
        }
    }
    lemma_kept_shortest(sorted, theirs, n);
}

} // verus!
