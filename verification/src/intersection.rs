//! Intersections of a ray with the scene, and the choice of the visible one.
//!
//! An intersection is known here by its *time*: the ray parameter `t` at
//! which the ray meets a surface, a double-precision number given by its bit
//! pattern. Times are compared through their order keys. Times at or after
//! zero lie in front of the ray's origin, negative times behind it; a time
//! that is not a number lies nowhere, and such an intersection is never the
//! hit. Everything else that belongs to an intersection (the point, the
//! normal, the material) travels along as an opaque `detail`.
use crate::numerics::{key_of, order_key};
use vstd::prelude::*;
use vstd::seq_lib::{
    to_multiset_contains, to_multiset_insert, to_multiset_len, to_multiset_remove,
};

verus! {

/// One meeting of a ray with a surface.
#[derive(Debug, PartialEq)]
pub struct Intersection<D> {
    /// The ray parameter, as the bit pattern of a double.
    pub time: u64,
    /// What the renderer knows about the place: carried, never read.
    pub detail: D,
}

impl<D> Intersection<D> {
    /// The order key of the time.
    pub open spec fn key(self) -> int {
        key_of(self.time)
    }

    /// The intersection at `time` with the given detail.
    pub fn new(time: u64, detail: D) -> (intersection: Self)
        ensures
            intersection.time == time,
            intersection.detail == detail,
    {
        Intersection { time, detail }
    }
}

/// Whether any intersection lies in front of the ray's origin.
pub open spec fn has_hit<D>(intersections: Seq<Intersection<D>>) -> bool {
    exists|i: int| 0 <= i < intersections.len() && (#[trigger] intersections[i]).key() >= 0
}

/// Whether `intersections[index]` is the hit among the first `count`
/// intersections: in front of the origin, no later than any other of them in
/// front of the origin, and the first among those with that time.
pub open spec fn is_hit_among<D>(
    intersections: Seq<Intersection<D>>,
    count: int,
    index: int,
) -> bool {
    &&& 0 <= index < count <= intersections.len()
    &&& intersections[index].key() >= 0
    &&& forall|j: int|
        0 <= j < count && (#[trigger] intersections[j]).key() >= 0 ==> intersections[index].key()
            <= intersections[j].key()
    &&& forall|j: int|
        0 <= j < index && (#[trigger] intersections[j]).key() >= 0 ==> intersections[index].key()
            < intersections[j].key()
}

/// Whether `intersections[index]` is the hit.
pub open spec fn is_hit<D>(intersections: Seq<Intersection<D>>, index: int) -> bool {
    is_hit_among(intersections, intersections.len() as int, index)
}

/// At most one index is the hit.
pub proof fn lemma_hit_is_unique<D>(intersections: Seq<Intersection<D>>, a: int, b: int)
    requires
        is_hit(intersections, a),
        is_hit(intersections, b),
    ensures
        a == b,
{
    if a < b {
        assert(intersections[a].key() >= 0);
    } else if b < a {
        assert(intersections[b].key() >= 0);
    }
}

/// The order of the intersections does not matter for the time of the hit:
/// two lists that hold the same intersections, in whatever order, have their
/// hits at the same time.
pub proof fn lemma_hit_time_ignores_order<D>(
    first: Seq<Intersection<D>>,
    second: Seq<Intersection<D>>,
    first_hit: int,
    second_hit: int,
)
    requires
        first.to_multiset() == second.to_multiset(),
        is_hit(first, first_hit),
        is_hit(second, second_hit),
    ensures
        first[first_hit].key() == second[second_hit].key(),
{
    let hit = first[first_hit];
    let other = second[second_hit];
    to_multiset_contains(first, hit);
    to_multiset_contains(second, hit);
    to_multiset_contains(first, other);
    to_multiset_contains(second, other);
    assert(first.contains(hit));
    assert(second.contains(other));
    let in_second = choose|k: int| 0 <= k < second.len() && second[k] == hit;
    assert(second[in_second].key() >= 0);
    let in_first = choose|k: int| 0 <= k < first.len() && first[k] == other;
    assert(first[in_first].key() >= 0);
}

/// The visible intersection: the one with the smallest time that is not
/// negative, or none when every intersection lies behind the origin. The
/// list need not be sorted. Of several intersections with the same smallest
/// time, the first in the list is the hit.
pub fn find_hit<'a, D>(intersections: &'a [Intersection<D>]) -> (hit: Option<&'a Intersection<D>>)
    ensures
        hit is Some <==> has_hit(intersections@),
        hit matches Some(found) ==> exists|index: int|
            is_hit(intersections@, index) && *found == intersections@[index],
{
    let mut best: Option<usize> = None;
    let mut next: usize = 0;
    while next < intersections.len()
        invariant
            next <= intersections@.len(),
            best is None ==> forall|j: int| 0 <= j < next ==> (#[trigger] intersections@[j]).key() < 0,
            best matches Some(index) ==> is_hit_among(intersections@, next as int, index as int),
        decreases intersections@.len() - next,
    {
        let time: i64 = order_key(intersections[next].time);
        let better = match best {
            None => time >= 0,
            Some(index) => time >= 0 && time < order_key(intersections[index].time),
        };
        if better {
            best = Some(next);
        }
        next += 1;
    }
    match best {
        None => None,
        Some(index) => {
            assert(is_hit(intersections@, index as int));
            Some(&intersections[index])
        },
    }
}

/// Whether some intersection lies between the origin of the ray and the
/// distance with the given order key, both included.
pub open spec fn blocked_within<D>(intersections: Seq<Intersection<D>>, distance: int) -> bool {
    exists|i: int|
        0 <= i < intersections.len() && 0 <= (#[trigger] intersections[i]).key() <= distance
}

/// Whether something blocks the light: whether the hit among the
/// intersections of a ray towards a light lies no farther than the light,
/// whose distance along the ray is given by its bit pattern.
///
/// That is the case exactly when some intersection has a time from zero to
/// `distance`. In particular nothing is shadowed by intersections that all
/// lie behind the origin or beyond the light, and nothing at all if the
/// distance is not a number.
pub fn is_shadowed<D>(intersections: &[Intersection<D>], distance: u64) -> (shadowed: bool)
    ensures
        shadowed == blocked_within(intersections@, key_of(distance)),
        !has_hit(intersections@) ==> !shadowed,
{
    match find_hit(intersections) {
        None => {
            assert forall|i: int| 0 <= i < intersections@.len() implies (
            #[trigger] intersections@[i]).key() < 0 by {}
            false
        },
        Some(hit) => {
            proof {
                let index = choose|index: int|
                    is_hit(intersections@, index) && *hit == intersections@[index];
                assert(intersections@[index].key() == hit.key());
            }
            order_key(hit.time) <= order_key(distance)
        },
    }
}

/// The colour that a ray sees: `background` when the ray hits nothing in
/// front of its origin, else what `shade` makes of the hit.
///
/// A ray that misses everything, or whose intersections all lie behind it,
/// is no error. `shade` is not called for it.
pub fn color_at<D, C, F: FnOnce(&Intersection<D>) -> C>(
    intersections: &[Intersection<D>],
    background: C,
    shade: F,
) -> (color: C)
    requires
        forall|i: int|
            0 <= i < intersections@.len() && (#[trigger] intersections@[i]).key() >= 0
                ==> call_requires(shade, (&intersections@[i],)),
    ensures
        !has_hit(intersections@) ==> color == background,
        has_hit(intersections@) ==> exists|index: int|
            is_hit(intersections@, index) && call_ensures(
                shade,
                (&intersections@[index],),
                color,
            ),
{
    match find_hit(intersections) {
        None => background,
        Some(hit) => {
            proof {
                let index = choose|index: int|
                    is_hit(intersections@, index) && *hit == intersections@[index];
                assert(intersections@[index].key() >= 0);
            }
            shade(hit)
        },
    }
}

/// Whether the times never decrease along the list.
pub open spec fn sorted_by_time<D>(intersections: Seq<Intersection<D>>) -> bool {
    forall|i: int, j: int|
        0 <= i <= j < intersections.len() ==> intersections[i].key() <= intersections[j].key()
}

/// In a sorted list the hit is the first intersection in front of the
/// origin: everything before it lies behind the origin.
pub proof fn lemma_hit_of_sorted_comes_first<D>(intersections: Seq<Intersection<D>>, hit: int)
    requires
        sorted_by_time(intersections),
        is_hit(intersections, hit),
    ensures
        forall|j: int| 0 <= j < hit ==> (#[trigger] intersections[j]).key() < 0,
{
    assert forall|j: int| 0 <= j < hit implies (#[trigger] intersections[j]).key() < 0 by {
        assert(intersections[j].key() <= intersections[hit].key());
    }
}

/// The test "has a time with this order key".
pub open spec fn has_time<D>(key: int) -> spec_fn(Intersection<D>) -> bool {
    |intersection: Intersection<D>| intersection.key() == key
}

/// The intersections whose time has the given order key, in the order of
/// the list.
pub open spec fn at_time<D>(intersections: Seq<Intersection<D>>, time: int) -> Seq<
    Intersection<D>,
> {
    intersections.filter(has_time(time))
}

/// The lists joined end to end, first list first.
pub open spec fn concatenated<D>(lists: Seq<Vec<Intersection<D>>>) -> Seq<Intersection<D>>
    decreases lists.len(),
{
    if lists.len() == 0 {
        Seq::empty()
    } else {
        concatenated(lists.drop_last()) + lists.last()@
    }
}

proof fn lemma_at_time_of_one<D>(intersection: Intersection<D>, time: int)
    ensures
        at_time(seq![intersection], time) == if intersection.key() == time {
            seq![intersection]
        } else {
            Seq::empty()
        },
{
    reveal_with_fuel(Seq::filter, 2);
    let one = seq![intersection];
    assert(one.drop_last() =~= Seq::<Intersection<D>>::empty());
    assert(one.last() == intersection);
    if intersection.key() == time {
        assert(at_time(one, time) =~= seq![intersection]);
    } else {
        assert(at_time(one, time) =~= Seq::<Intersection<D>>::empty());
    }
}

proof fn lemma_at_time_of_none<D>(intersections: Seq<Intersection<D>>, time: int)
    requires
        forall|i: int| 0 <= i < intersections.len() ==> (#[trigger] intersections[i]).key() != time,
    ensures
        at_time(intersections, time) == Seq::<Intersection<D>>::empty(),
    decreases intersections.len(),
{
    reveal_with_fuel(Seq::filter, 1);
    if intersections.len() > 0 {
        let rest = intersections.drop_last();
        assert forall|i: int| 0 <= i < rest.len() implies (#[trigger] rest[i]).key() != time by {
            assert(rest[i] == intersections[i]);
        }
        lemma_at_time_of_none(rest, time);
        assert(intersections.last() == intersections[intersections.len() - 1]);
    } else {
        assert(at_time(intersections, time) =~= Seq::<Intersection<D>>::empty());
    }
}

/// Moving an intersection towards the front, past intersections that all
/// have other times than it, changes for no time which intersections have
/// that time, nor their order.
proof fn lemma_move_keeps_times<D>(
    intersections: Seq<Intersection<D>>,
    to: int,
    from: int,
    time: int,
)
    requires
        0 <= to <= from < intersections.len(),
        forall|j: int|
            to <= j < from ==> (#[trigger] intersections[j]).key() != intersections[from].key(),
    ensures
        at_time(intersections.remove(from).insert(to, intersections[from]), time) == at_time(
            intersections,
            time,
        ),
{
    let moving = intersections[from];
    let front = intersections.subrange(0, to);
    let passed = intersections.subrange(to, from);
    let one = seq![moving];
    let back = intersections.subrange(from + 1, intersections.len() as int);
    let moved = intersections.remove(from).insert(to, moving);
    assert(intersections =~= ((front + passed) + one) + back);
    assert(moved =~= ((front + one) + passed) + back);
    let test = has_time::<D>(time);
    Seq::filter_distributes_over_add((front + passed) + one, back, test);
    Seq::filter_distributes_over_add(front + passed, one, test);
    Seq::filter_distributes_over_add(front, passed, test);
    Seq::filter_distributes_over_add((front + one) + passed, back, test);
    Seq::filter_distributes_over_add(front + one, passed, test);
    Seq::filter_distributes_over_add(front, one, test);
    lemma_at_time_of_one(moving, time);
    if moving.key() == time {
        assert forall|j: int| 0 <= j < passed.len() implies (#[trigger] passed[j]).key() != time by {
            assert(passed[j] == intersections[to + j]);
        }
        lemma_at_time_of_none(passed, time);
    }
    assert(at_time(front, time) + at_time(passed, time) + at_time(one, time) =~= at_time(
        front,
        time,
    ) + at_time(one, time) + at_time(passed, time));
}

proof fn lemma_at_time_unfold<D>(intersections: Seq<Intersection<D>>, time: int)
    requires
        intersections.len() > 0,
    ensures
        at_time(intersections, time) == if intersections.last().key() == time {
            at_time(intersections.drop_last(), time).push(intersections.last())
        } else {
            at_time(intersections.drop_last(), time)
        },
{
    reveal_with_fuel(Seq::filter, 1);
}

/// The order is pinned: two lists that are both sorted by time and that hold,
/// for every time, the same intersections in the same order are the same
/// list.
pub proof fn lemma_sorted_order_is_unique<D>(
    first: Seq<Intersection<D>>,
    second: Seq<Intersection<D>>,
)
    requires
        sorted_by_time(first),
        sorted_by_time(second),
        forall|time: int| at_time(first, time) == at_time(second, time),
    ensures
        first == second,
    decreases first.len(),
{
    if first.len() == 0 {
        if second.len() > 0 {
            let time = second.last().key();
            lemma_at_time_unfold(second, time);
            assert(at_time(second, time).len() > 0);
            assert(at_time(first, time) == at_time(second, time));
            lemma_at_time_of_none(first, time);
        }
        assert(first =~= second);
    } else {
        let last = first.last();
        let time = last.key();
        lemma_at_time_unfold(first, time);
        assert(at_time(first, time).last() == last);
        assert(at_time(second, time) == at_time(first, time));
        if second.len() == 0 {
            lemma_at_time_of_none(second, time);
        }
        let other = second.last();
        lemma_at_time_unfold(second, other.key());
        if other.key() != time {
            assert(at_time(first, other.key()) == at_time(second, other.key()));
            assert(at_time(first, other.key()).len() > 0);
            if other.key() > time {
                assert forall|i: int| 0 <= i < first.len() implies (#[trigger] first[i]).key()
                    != other.key() by {
                    assert(first[i].key() <= first[first.len() - 1].key());
                }
                lemma_at_time_of_none(first, other.key());
            } else {
                assert forall|i: int| 0 <= i < second.len() implies (#[trigger] second[i]).key()
                    != time by {
                    assert(second[i].key() <= second[second.len() - 1].key());
                }
                lemma_at_time_of_none(second, time);
            }
        }
        assert(other.key() == time);
        lemma_at_time_unfold(second, time);
        assert(at_time(second, time).last() == other);
        assert(other == last);
        let first_rest = first.drop_last();
        let second_rest = second.drop_last();
        assert forall|t: int| at_time(first_rest, t) == at_time(second_rest, t) by {
            lemma_at_time_unfold(first, t);
            lemma_at_time_unfold(second, t);
            assert(at_time(first, t) == at_time(second, t));
            if t == time {
                assert(at_time(first_rest, t) =~= at_time(first, t).drop_last());
                assert(at_time(second_rest, t) =~= at_time(second, t).drop_last());
            }
        }
        assert(sorted_by_time(first_rest)) by {
            assert forall|i: int, j: int| 0 <= i <= j < first_rest.len() implies first_rest[i].key()
                <= first_rest[j].key() by {
                assert(first[i].key() <= first[j].key());
            }
        }
        assert(sorted_by_time(second_rest)) by {
            assert forall|i: int, j: int|
                0 <= i <= j < second_rest.len() implies second_rest[i].key()
                <= second_rest[j].key() by {
                assert(second[i].key() <= second[j].key());
            }
        }
        lemma_sorted_order_is_unique(first_rest, second_rest);
        assert(first =~= first_rest.push(last));
        assert(second =~= second_rest.push(other));
    }
}

/// Sorts by time, keeping intersections of equal time in their order.
fn sort_by_time<D>(intersections: &mut Vec<Intersection<D>>)
    ensures
        sorted_by_time(final(intersections)@),
        final(intersections)@.to_multiset() == old(intersections)@.to_multiset(),
        forall|time: int|
            at_time(final(intersections)@, time) == at_time(old(intersections)@, time),
{
    let ghost unsorted = intersections@;
    let mut sorted: usize = 0;
    while sorted < intersections.len()
        invariant
            sorted <= intersections@.len(),
            sorted_by_time(intersections@.take(sorted as int)),
            intersections@.to_multiset() == unsorted.to_multiset(),
            forall|time: int| at_time(intersections@, time) == at_time(unsorted, time),
        decreases intersections@.len() - sorted,
    {
        let time: i64 = order_key(intersections[sorted].time);
        let mut place: usize = sorted;
        while place > 0 && order_key(intersections[place - 1].time) > time
            invariant
                place <= sorted < intersections@.len(),
                time == intersections@[sorted as int].key(),
                forall|j: int| place <= j < sorted ==> (#[trigger] intersections@[j]).key() > time,
            decreases place,
        {
            place -= 1;
        }
        let ghost before = intersections@;
        let moving = intersections.remove(sorted);
        intersections.insert(place, moving);
        proof {
            let after = intersections@;
            assert(after == before.remove(sorted as int).insert(place as int, before[sorted as int]));
            to_multiset_remove(before, sorted as int);
            to_multiset_insert(before.remove(sorted as int), place as int, before[sorted as int]);
            assert(after.to_multiset() =~= before.to_multiset()) by {
                broadcast use vstd::multiset::group_multiset_axioms;

                before.to_multiset_ensures();
                assert(before.to_multiset().count(before[sorted as int]) > 0);
            }
            assert forall|t: int| at_time(after, t) == at_time(unsorted, t) by {
                lemma_move_keeps_times(before, place as int, sorted as int, t);
            }
            let old_prefix = before.take(sorted as int);
            let new_prefix = after.take(sorted as int + 1);
            assert forall|i: int, j: int| 0 <= i <= j < new_prefix.len() implies new_prefix[i].key()
                <= new_prefix[j].key() by {
                let a = if i < place {
                    i
                } else if i == place {
                    sorted as int
                } else {
                    i - 1
                };
                let b = if j < place {
                    j
                } else if j == place {
                    sorted as int
                } else {
                    j - 1
                };
                assert(new_prefix[i] == before[a]);
                assert(new_prefix[j] == before[b]);
                if i < place && j < place {
                    assert(old_prefix[i].key() <= old_prefix[j].key());
                } else if i < place && j == place {
                    if place > 0 {
                        assert(old_prefix[i].key() <= old_prefix[place as int - 1].key());
                    }
                } else if i < place {
                    assert(old_prefix[i].key() <= old_prefix[j - 1].key());
                } else if i == place && j == place {
                } else if i == place {
                    assert(before[j - 1].key() > time);
                } else {
                    assert(old_prefix[i - 1].key() <= old_prefix[j - 1].key());
                }
            }
        }
        sorted += 1;
    }
    assert(intersections@.take(sorted as int) =~= intersections@);
}

/// All intersections of a ray with the scene in the order of their times.
///
/// `per_shape` holds the intersections that each shape reported. The result
/// holds every one of them, sorted by ascending time; intersections with the
/// same time keep the order in which the shapes, and each shape itself,
/// reported them. Intersections at a time that is not a number come first.
pub fn intersect<D>(per_shape: Vec<Vec<Intersection<D>>>) -> (all: Vec<Intersection<D>>)
    ensures
        sorted_by_time(all@),
        all@.len() == concatenated(per_shape@).len(),
        all@.to_multiset() == concatenated(per_shape@).to_multiset(),
        forall|time: int| at_time(all@, time) == at_time(concatenated(per_shape@), time),
{
    let mut lists = per_shape;
    let mut all: Vec<Intersection<D>> = Vec::new();
    let mut joined: usize = 0;
    while joined < lists.len()
        invariant
            joined <= lists@.len(),
            lists@.len() == per_shape@.len(),
            forall|k: int| joined <= k < lists@.len() ==> lists@[k]@ == per_shape@[k]@,
            all@ == concatenated(per_shape@.take(joined as int)),
        decreases lists@.len() - joined,
    {
        proof {
            let done = per_shape@.take(joined as int + 1);
            assert(done.drop_last() =~= per_shape@.take(joined as int));
            assert(done.last() == per_shape@[joined as int]);
        }
        all.append(&mut lists[joined]);
        joined += 1;
    }
    assert(per_shape@.take(joined as int) =~= per_shape@);
    let ghost joined_up = all@;
    sort_by_time(&mut all);
    proof {
        to_multiset_len(joined_up);
        to_multiset_len(all@);
    }
    all
}

} // verus!
