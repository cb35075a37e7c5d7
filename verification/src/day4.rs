//! Rolls of paper on a floor, and which of them a forklift can reach.

use vstd::prelude::*;
use vstd::string::StringSliceAdditionalSpecFns;
use ahash::{AHashMap, AHashSet, RandomState};
use std::collections::VecDeque;
use crate::text::{contents, lines, lines_of, Malformed};

verus! {

/// A place on the floor: a column and a row.
pub type Place = (i32, i32);

/// `RandomState` from ahash, the hasher state of its sets and maps; nothing is said of it.
#[verifier::external_type_specification]
#[verifier::external_body]
pub struct ExRandomState(RandomState);

/// `AHashSet` from ahash, a hash set; what a set of places holds is `places_of`.
#[verifier::external_type_specification]
#[verifier::external_body]
#[verifier::reject_recursive_types(T)]
#[verifier::reject_recursive_types(S)]
pub struct ExAHashSet<T, S>(AHashSet<T, S>);

/// `AHashMap` from ahash, a hash map; what a map from places to counts holds is `counts_of`.
#[verifier::external_type_specification]
#[verifier::external_body]
#[verifier::reject_recursive_types(K)]
#[verifier::reject_recursive_types(V)]
#[verifier::reject_recursive_types(S)]
pub struct ExAHashMap<K, V, S>(AHashMap<K, V, S>);

/// The places that a set of places holds.
pub uninterp spec fn places_of(set: AHashSet<Place>) -> Set<Place>;

/// The count that a map from places to counts holds for each place it holds.
pub uninterp spec fn counts_of(map: AHashMap<Place, u8>) -> Map<Place, u8>;

/// `AHashSet::new` from ahash: a set that holds nothing.
#[verifier::external_body]
fn set_new() -> (set: AHashSet<Place>)
    ensures
        places_of(set) == Set::<Place>::empty(),
{
    AHashSet::new()
}

/// `HashSet::insert` from std, reached through `AHashSet`: afterwards the set holds `place`
/// besides what it held, and the answer says whether `place` was new to it.
#[verifier::external_body]
fn set_insert(set: &mut AHashSet<Place>, place: Place) -> (fresh: bool)
    ensures
        places_of(*final(set)) == places_of(*old(set)).insert(place),
        fresh == !places_of(*old(set)).contains(place),
{
    set.insert(place)
}

/// `HashSet::contains` from std, reached through `AHashSet`: whether the set holds `place`.
#[verifier::external_body]
fn set_contains(set: &AHashSet<Place>, place: Place) -> (held: bool)
    ensures
        held == places_of(*set).contains(place),
{
    set.contains(&place)
}

/// `HashSet::remove` from std, reached through `AHashSet`: afterwards the set holds what it
/// held besides `place`, and the answer says whether it held `place`.
#[verifier::external_body]
fn set_remove(set: &mut AHashSet<Place>, place: Place) -> (held: bool)
    ensures
        places_of(*final(set)) == places_of(*old(set)).remove(place),
        held == places_of(*old(set)).contains(place),
    no_unwind
{
    set.remove(&place)
}

/// `HashSet::len` from std, reached through `AHashSet`: the number of places that the set
/// holds.
#[verifier::external_body]
fn set_len(set: &AHashSet<Place>) -> (n: usize)
    ensures
        n == places_of(*set).len(),
{
    set.len()
}

/// `HashSet::iter` from std, reached through `AHashSet`: the places that the set holds, each
/// once, in an order that is the set's own.
#[verifier::external_body]
fn set_members(set: &AHashSet<Place>) -> (members: Vec<Place>)
    ensures
        members@.no_duplicates(),
        members@.to_set() == places_of(*set),
{
    set.iter().copied().collect()
}

/// `AHashMap::new` from ahash: a map that holds nothing.
#[verifier::external_body]
fn map_new() -> (counts: AHashMap<Place, u8>)
    ensures
        counts_of(counts) =~= Map::empty(),
{
    AHashMap::new()
}

/// `HashMap::reserve` from std, reached through `AHashMap`: makes room for more entries and
/// leaves what the map holds as it is.
#[verifier::external_body]
fn map_reserve(map: &mut AHashMap<Place, u8>, additional: usize)
    ensures
        counts_of(*final(map)) == counts_of(*old(map)),
{
    map.reserve(additional);
}

/// `AHashMap::insert` from ahash: afterwards the map holds `count` for `place`, and for every
/// other place what it held.
#[verifier::external_body]
fn map_insert(map: &mut AHashMap<Place, u8>, place: Place, count: u8)
    ensures
        counts_of(*final(map)) == counts_of(*old(map)).insert(place, count),
{
    map.insert(place, count);
}

/// `AHashMap::get` from ahash: the count that the map holds for `place`, if it holds one.
#[verifier::external_body]
fn map_get(map: &AHashMap<Place, u8>, place: Place) -> (count: Option<u8>)
    ensures
        count == if counts_of(*map).contains_key(place) {
            Some(counts_of(*map)[place])
        } else {
            None
        },
{
    map.get(&place).copied()
}

/// `HashMap::iter` from std, reached through `AHashMap`: the places that the map holds, each
/// once and with its count, in an order that is the map's own.
#[verifier::external_body]
fn map_entries(map: &AHashMap<Place, u8>) -> (entries: Vec<(Place, u8)>)
    ensures
        entries@.no_duplicates(),
        forall|i: int|
            0 <= i < entries@.len() ==> counts_of(*map).contains_key((#[trigger] entries@[i]).0)
                && counts_of(*map)[entries@[i].0] == entries@[i].1,
        forall|place: Place| #[trigger]
            counts_of(*map).contains_key(place) ==> entries@.contains(
                (place, counts_of(*map)[place]),
            ),
{
    map.iter().map(|(place, count)| (*place, *count)).collect()
}

/// Whether `p` has a place on every side: none of its coordinates is the first or the last
/// that there is.
pub open spec fn inside(p: Place) -> bool {
    i32::MIN < p.0 < i32::MAX && i32::MIN < p.1 < i32::MAX
}

/// The place `dx` columns and `dy` rows from `p`.
pub open spec fn shifted(p: Place, dx: int, dy: int) -> Place {
    ((p.0 + dx) as i32, (p.1 + dy) as i32)
}

/// The eight places next to `p`, row by row.
pub open spec fn around(p: Place) -> Seq<Place> {
    seq![
        shifted(p, -1, -1),
        shifted(p, 0, -1),
        shifted(p, 1, -1),
        shifted(p, -1, 0),
        shifted(p, 1, 0),
        shifted(p, -1, 1),
        shifted(p, 0, 1),
        shifted(p, 1, 1),
    ]
}

/// Whether `p` and `q` are different places that touch, sideways or cornerwise.
pub open spec fn next_to(p: Place, q: Place) -> bool {
    p != q && -1 <= p.0 - q.0 <= 1 && -1 <= p.1 - q.1 <= 1
}

/// One if a roll of `rolls` lies at `p`, zero if none does.
pub open spec fn one(rolls: Set<Place>, p: Place) -> nat {
    if rolls.contains(p) {
        1
    } else {
        0
    }
}

/// How many of the first `upto` places next to `p` hold a roll of `rolls`.
pub open spec fn crowd_upto(rolls: Set<Place>, p: Place, upto: int) -> nat {
    (if upto > 0 {
        one(rolls, shifted(p, -1, -1))
    } else {
        0
    }) + (if upto > 1 {
        one(rolls, shifted(p, 0, -1))
    } else {
        0
    }) + (if upto > 2 {
        one(rolls, shifted(p, 1, -1))
    } else {
        0
    }) + (if upto > 3 {
        one(rolls, shifted(p, -1, 0))
    } else {
        0
    }) + (if upto > 4 {
        one(rolls, shifted(p, 1, 0))
    } else {
        0
    }) + (if upto > 5 {
        one(rolls, shifted(p, -1, 1))
    } else {
        0
    }) + (if upto > 6 {
        one(rolls, shifted(p, 0, 1))
    } else {
        0
    }) + (if upto > 7 {
        one(rolls, shifted(p, 1, 1))
    } else {
        0
    })
}

/// How many rolls of `rolls` lie next to `p`.
#[verifier::opaque]
pub open spec fn crowd(rolls: Set<Place>, p: Place) -> nat {
    crowd_upto(rolls, p, 8)
}

/// Whether a roll lies at `p` that a forklift can reach: fewer than four rolls lie next to it.
pub open spec fn is_accessible(rolls: Set<Place>, p: Place) -> bool {
    rolls.contains(p) && crowd(rolls, p) < 4
}

/// The rolls of `rolls` that a forklift can reach.
pub open spec fn accessible(rolls: Set<Place>) -> Set<Place> {
    Set::new(|p: Place| is_accessible(rolls, p))
}

/// Whether no roll of `rolls` can be reached: each has four rolls or more next to it.
pub open spec fn is_settled(rolls: Set<Place>) -> bool {
    forall|p: Place| #[trigger] rolls.contains(p) ==> crowd(rolls, p) >= 4
}

/// Whether `left` is what stays of `rolls` when rolls are taken away for as long as one can be
/// reached: the largest part of `rolls` in which none can be.
pub open spec fn is_remainder(left: Set<Place>, rolls: Set<Place>) -> bool {
    &&& left.subset_of(rolls)
    &&& is_settled(left)
    &&& forall|part: Set<Place>|
        part.subset_of(rolls) && #[trigger] is_settled(part) ==> part.subset_of(left)
}

/// A roll of paper at a place on the floor.
#[derive(Debug, Hash, PartialEq, Eq, Clone, Copy)]
pub struct Roll {
    pub pos: (i32, i32),
}

impl Roll {
    /// The eight places next to the roll, as rolls, row by row.
    pub open spec fn beside(&self) -> Seq<Roll> {
        Seq::new(8, |i: int| Roll { pos: around(self.pos)[i] })
    }

    /// The eight places next to the roll, row by row.
    pub fn neighbors(&self) -> (found: Vec<Roll>)
        requires
            inside(self.pos),
        ensures
            found@ == self.beside(),
    {
        let (x, y) = self.pos;
        let mut found: Vec<Roll> = Vec::new();
        found.push(Roll { pos: (x - 1, y - 1) });
        found.push(Roll { pos: (x, y - 1) });
        found.push(Roll { pos: (x + 1, y - 1) });
        found.push(Roll { pos: (x - 1, y) });
        found.push(Roll { pos: (x + 1, y) });
        found.push(Roll { pos: (x - 1, y + 1) });
        found.push(Roll { pos: (x, y + 1) });
        found.push(Roll { pos: (x + 1, y + 1) });
        found
    }
}

/// Taking a roll away leaves one roll fewer next to the places that touch it, and as many next
/// to every other place.
proof fn lemma_crowd_without(rolls: Set<Place>, gone: Place, p: Place)
    requires
        inside(p),
        rolls.contains(gone),
    ensures
        crowd(rolls, p) == crowd(rolls.remove(gone), p) + if next_to(p, gone) {
            1nat
        } else {
            0nat
        },
{
    reveal(crowd);
}

/// A part of the rolls brings no more rolls next to a place than all of them.
proof fn lemma_crowd_of_part(part: Set<Place>, rolls: Set<Place>, p: Place)
    requires
        part.subset_of(rolls),
    ensures
        crowd(part, p) <= crowd(rolls, p),
{
    reveal(crowd);
}

/// Whether `p` is one of the places next to `r` from the `from`-th on.
spec fn awaits(r: Place, p: Place, from: int) -> bool {
    exists|k: int| from <= k < 8 && #[trigger] around(r)[k] == p
}

/// The places next to an inner place are exactly those that touch it, and each comes once.
proof fn lemma_around(r: Place, p: Place)
    requires
        inside(r),
    ensures
        awaits(r, p, 0) <==> next_to(p, r),
        forall|j: int, k: int| 0 <= j < k < 8 ==> around(r)[j] != around(r)[k],
{
    let s = around(r);
    assert(s[0] == shifted(r, -1, -1) && s[1] == shifted(r, 0, -1) && s[2] == shifted(r, 1, -1)
        && s[3] == shifted(r, -1, 0) && s[4] == shifted(r, 1, 0) && s[5] == shifted(r, -1, 1)
        && s[6] == shifted(r, 0, 1) && s[7] == shifted(r, 1, 1));
}

/// The rolls among `seen` that a forklift can reach among `rolls`.
spec fn reached(seen: Seq<Place>, rolls: Set<Place>) -> Set<Place>
    decreases seen.len(),
{
    if seen.len() == 0 {
        Set::empty()
    } else if is_accessible(rolls, seen.last()) {
        reached(seen.drop_last(), rolls).insert(seen.last())
    } else {
        reached(seen.drop_last(), rolls)
    }
}

/// The rolls reached among `seen` are finitely many and are those of `seen` that can be
/// reached.
proof fn lemma_reached(seen: Seq<Place>, rolls: Set<Place>)
    ensures
        reached(seen, rolls).finite(),
        forall|p: Place|
            #[trigger] reached(seen, rolls).contains(p) <==> seen.contains(p) && is_accessible(
                rolls,
                p,
            ),
    decreases seen.len(),
{
    if seen.len() > 0 {
        let init = seen.drop_last();
        lemma_reached(init, rolls);
        assert forall|p: Place|
            #[trigger] reached(seen, rolls).contains(p) <==> seen.contains(p) && is_accessible(
                rolls,
                p,
            ) by {
            if seen.contains(p) && p != seen.last() {
                let i = choose|i: int| 0 <= i < seen.len() && seen[i] == p;
                assert(init[i] == p);
            }
        }
    }
}

/// The rolls of paper on the floor.
pub struct RollGrid {
    rolls: AHashSet<Place>,
}

impl View for RollGrid {
    type V = Set<Place>;

    /// The places where a roll lies.
    closed spec fn view(&self) -> Set<Place> {
        places_of(self.rolls)
    }
}

impl RollGrid {
    /// Every grid that exists at run time holds finitely many rolls, none of them at the edge
    /// of what coordinates can say.
    #[verifier::type_invariant]
    pub open spec fn wf(&self) -> bool {
        &&& self@.finite()
        &&& forall|p: Place| #[trigger] self@.contains(p) ==> inside(p)
    }

    /// How many rolls a forklift can reach.
    pub fn accessible_rolls(&self) -> (n: usize)
        ensures
            n == accessible(self@).len(),
    {
        proof {
            use_type_invariant(self);
        }
        let members = set_members(&self.rolls);
        let ghost rolls = self@;
        let mut n: usize = 0;
        let mut i: usize = 0;
        while i < members.len()
            invariant
                i <= members@.len(),
                rolls == self@,
                rolls == places_of(self.rolls),
                members@.no_duplicates(),
                members@.to_set() == rolls,
                forall|p: Place| #[trigger] rolls.contains(p) ==> inside(p),
                n == reached(members@.take(i as int), rolls).len(),
                n <= i,
            decreases members@.len() - i,
        {
            let place = members[i];
            proof {
                let seen = members@.take(i as int);
                let more = members@.take(i + 1);
                assert(more.drop_last() == seen);
                lemma_reached(seen, rolls);
                assert(rolls.contains(place));
            }
            if self.count_neighbors(&Roll { pos: place }) < 4 {
                n += 1;
            }
            i += 1;
        }
        proof {
            assert(members@.take(i as int) == members@);
            lemma_reached(members@, rolls);
            assert(reached(members@, rolls) =~= accessible(rolls));
        }
        n
    }

    /// How many rolls lie next to `roll`.
    pub fn count_neighbors(&self, roll: &Roll) -> (n: usize)
        requires
            inside(roll.pos),
        ensures
            n == crowd(self@, roll.pos),
            n <= 8,
    {
        proof {
            reveal(crowd);
        }
        let beside = roll.neighbors();
        let ghost s = around(roll.pos);
        assert(s[0] == shifted(roll.pos, -1, -1) && s[1] == shifted(roll.pos, 0, -1) && s[2]
            == shifted(roll.pos, 1, -1) && s[3] == shifted(roll.pos, -1, 0) && s[4] == shifted(
            roll.pos,
            1,
            0,
        ) && s[5] == shifted(roll.pos, -1, 1) && s[6] == shifted(roll.pos, 0, 1) && s[7]
            == shifted(roll.pos, 1, 1));
        let mut n: usize = 0;
        let mut i: usize = 0;
        while i < beside.len()
            invariant
                i <= 8,
                beside@ == roll.beside(),
                s == around(roll.pos),
                s[0] == shifted(roll.pos, -1, -1) && s[1] == shifted(roll.pos, 0, -1) && s[2]
                    == shifted(roll.pos, 1, -1) && s[3] == shifted(roll.pos, -1, 0) && s[4]
                    == shifted(roll.pos, 1, 0) && s[5] == shifted(roll.pos, -1, 1) && s[6]
                    == shifted(roll.pos, 0, 1) && s[7] == shifted(roll.pos, 1, 1),
                n == crowd_upto(self@, roll.pos, i as int),
            decreases 8 - i,
        {
            if set_contains(&self.rolls, beside[i].pos) {
                n += 1;
            }
            i += 1;
        }
        n
    }

    /// Takes rolls away for as long as a forklift can reach one, and says how many it took.
    pub fn remove_accesibles(&mut self) -> (removed: usize)
        ensures
            is_remainder(final(self)@, old(self)@),
            removed == old(self)@.len() - final(self)@.len(),
    {
        proof {
            use_type_invariant(&*self);
        }
        let ghost first = self@;
        // neighbor count cache
        let mut neigh = map_new();
        let size = set_len(&self.rolls);
        map_reserve(&mut neigh, size);

        // compute neighbor counts once
        let members = set_members(&self.rolls);
        let mut i: usize = 0;
        while i < members.len()
            invariant
                i <= members@.len(),
                first == self@,
                first == places_of(self.rolls),
                members@.to_set() == first,
                forall|p: Place| #[trigger] first.contains(p) ==> inside(p),
                forall|p: Place|
                    #[trigger] counts_of(neigh).contains_key(p) <==> members@.take(i as int).contains(p),
                forall|p: Place|
                    #[trigger] counts_of(neigh).contains_key(p) ==> counts_of(neigh)[p] == crowd(
                        first,
                        p,
                    ),
            decreases members@.len() - i,
        {
            let place = members[i];
            proof {
                assert(first.contains(place));
            }
            let count = self.count_neighbors(&Roll { pos: place });
            map_insert(&mut neigh, place, count as u8);
            proof {
                let more = members@.take(i + 1);
                assert forall|p: Place| #[trigger]
                    counts_of(neigh).contains_key(p) <==> more.contains(p) by {
                    assert(more[i as int] == place);
                }
            }
            i += 1;
        }
        proof {
            assert(members@.take(i as int) == members@);
        }

        // queue of rolls currently <4 neighbors
        let mut q: VecDeque<Place> = VecDeque::new();
        let entries = map_entries(&neigh);
        let mut i: usize = 0;
        while i < entries.len()
            invariant
                i <= entries@.len(),
                first == self@,
                first == places_of(self.rolls),
                forall|p: Place|
                    #![trigger counts_of(neigh).contains_key(p)]
                    #![trigger first.contains(p)]
                    counts_of(neigh).contains_key(p) <==> first.contains(p),
                forall|p: Place|
                    #[trigger] counts_of(neigh).contains_key(p) ==> counts_of(neigh)[p] == crowd(
                        first,
                        p,
                    ),
                forall|k: int|
                    0 <= k < entries@.len() ==> counts_of(neigh).contains_key(
                        (#[trigger] entries@[k]).0,
                    ) && counts_of(neigh)[entries@[k].0] == entries@[k].1,
                forall|k: int| 0 <= k < i && (#[trigger] entries@[k]).1 < 4 ==> q@.contains(entries@[k].0),
                forall|k: int|
                    0 <= k < q@.len() ==> counts_of(neigh).contains_key(#[trigger] q@[k])
                        && counts_of(neigh)[q@[k]] < 4,
            decreases entries@.len() - i,
        {
            let (r, c) = entries[i];
            if c < 4 {
                let ghost before = q@;
                q.push_back(r);
                proof {
                    assert(q@[before.len() as int] == r);
                    assert forall|k: int| 0 <= k < i + 1 && (#[trigger] entries@[k]).1
                        < 4 implies q@.contains(entries@[k].0) by {
                        if k < i {
                            let at = choose|at: int| 0 <= at < before.len() && before[at] == entries@[k].0;
                            assert(q@[at] == entries@[k].0);
                        }
                    }
                }
            }
            i += 1;
        }

        let mut removed: usize = 0;

        // cascading removals: every roll still on the floor has the number of its neighbours
        // in `neigh` and waits in `q` if that is below four, and no roll has been taken from a
        // part of the floor in which every roll has four neighbours
        loop
            invariant
                first == old(self)@,
                first.finite(),
                first.len() <= usize::MAX,
                forall|p: Place| #[trigger] first.contains(p) ==> inside(p),
                self@ == places_of(self.rolls),
                self@.subset_of(first),
                self@.finite(),
                forall|p: Place|
                    #![trigger counts_of(neigh).contains_key(p)]
                    #![trigger first.contains(p)]
                    counts_of(neigh).contains_key(p) <==> first.contains(p),
                forall|p: Place| #[trigger] self@.contains(p) ==> counts_of(neigh)[p] == crowd(self@, p),
                forall|p: Place|
                    #[trigger] self@.contains(p) && counts_of(neigh)[p] < 4 ==> q@.contains(p),
                forall|k: int|
                    0 <= k < q@.len() ==> first.contains(#[trigger] q@[k]) && counts_of(neigh)[q@[k]]
                        < 4,
                forall|part: Set<Place>|
                    part.subset_of(first) && #[trigger] is_settled(part) ==> part.subset_of(self@),
                removed == first.len() - self@.len(),
            ensures
                is_remainder(self@, first),
                removed == first.len() - self@.len(),
            decreases 8 * self@.len() + q@.len(),
        {
            let ghost waiting = q@;
            let ghost rolls = self@;
            let r = match q.pop_front() {
                Some(r) => r,
                None => {
                    break ;
                },
            };
            proof {
                assert forall|p: Place| p != r && waiting.contains(p) implies q@.contains(p) by {
                    let at = choose|at: int| 0 <= at < waiting.len() && waiting[at] == p;
                    assert(q@[at - 1] == p);
                }
            }
            if set_remove(&mut self.rolls, r) {
                removed += 1;
                let ghost left = self@;
                proof {
                    assert forall|part: Set<Place>|
                        part.subset_of(first) && #[trigger] is_settled(part) implies part.subset_of(
                        left,
                    ) by {
                        if part.contains(r) {
                            lemma_crowd_of_part(part, rolls, r);
                        }
                    }
                    assert forall|p: Place| #[trigger] left.contains(p) implies counts_of(neigh)[p]
                        == crowd(left, p) + if awaits(r, p, 0) {
                        1nat
                    } else {
                        0nat
                    } by {
                        lemma_crowd_without(rolls, r, p);
                        lemma_around(r, p);
                    }
                }

                // update neighbors: those from the `j`-th on still count `r`
                let beside = Roll { pos: r }.neighbors();
                let mut j: usize = 0;
                while j < beside.len()
                    invariant
                        j <= 8,
                        beside@ == (Roll { pos: r }).beside(),
                        inside(r),
                        first == old(self)@,
                        first.finite(),
                        forall|p: Place| #[trigger] first.contains(p) ==> inside(p),
                        left == self@,
                        left == places_of(self.rolls),
                        left.subset_of(first),
                        left.finite(),
                        forall|p: Place|
                            #![trigger counts_of(neigh).contains_key(p)]
                            #![trigger first.contains(p)]
                            counts_of(neigh).contains_key(p) <==> first.contains(p),
                        forall|p: Place|
                            #[trigger] left.contains(p) ==> counts_of(neigh)[p] == crowd(left, p)
                                + if awaits(r, p, j as int) {
                                1nat
                            } else {
                                0nat
                            },
                        forall|p: Place|
                            #[trigger] left.contains(p) && counts_of(neigh)[p] < 4 ==> q@.contains(
                                p,
                            ),
                        forall|k: int|
                            0 <= k < q@.len() ==> first.contains(#[trigger] q@[k]) && counts_of(
                                neigh,
                            )[q@[k]] < 4,
                        q@.len() <= waiting.len() - 1 + j,
                    decreases 8 - j,
                {
                    let adj = beside[j].pos;
                    let ghost queued = q@;
                    proof {
                        lemma_around(r, adj);
                    }
                    match map_get(&neigh, adj) {
                        Some(count) => {
                            if count > 0 {
                                let fewer = count - 1;
                                map_insert(&mut neigh, adj, fewer);
                                if fewer < 4 {
                                    q.push_back(adj);
                                }
                                proof {
                                    assert forall|p: Place| queued.contains(p) implies q@.contains(
                                        p,
                                    ) by {
                                        let at = choose|at: int|
                                            0 <= at < queued.len() && queued[at] == p;
                                        assert(q@[at] == p);
                                    }
                                    if fewer < 4 {
                                        assert(q@[queued.len() as int] == adj);
                                    }
                                }
                            }
                        },
                        None => {},
                    }
                    j += 1;
                }
            } else {
                assert(self@ =~= rolls);
            }
        }
        removed
    }
}

/// The byte `@`, which marks a roll.
pub const ROLL_MARK: u8 = 0x40;

/// The byte `.`, which marks an empty place.
pub const EMPTY_MARK: u8 = 0x2e;

/// The largest number of rows, and of places in a row, that a floor can have.
pub const MAX_SPAN: usize = 0x7fff_ffff;

/// Whether `line` is a row of a floor: made of the two marks, and no longer than `MAX_SPAN`.
pub open spec fn is_floor_line(line: Seq<u8>) -> bool {
    &&& line.len() <= MAX_SPAN
    &&& forall|i: int| 0 <= i < line.len() ==> #[trigger] line[i] == ROLL_MARK || line[i] == EMPTY_MARK
}

/// Whether line `k` of `all` is a row of a floor, and not one row too many.
pub open spec fn row_ok(all: Seq<Seq<u8>>, k: int) -> bool {
    k < MAX_SPAN && is_floor_line(all[k])
}

/// The places where the lines `all` show a roll: the column is the place in the line, the row
/// is the number of the line, both counted from zero.
pub open spec fn rolls_of(all: Seq<Seq<u8>>) -> Set<Place> {
    Set::new(
        |p: Place|
            0 <= p.1 < all.len() && 0 <= p.0 < all[p.1 as int].len() && all[p.1 as int][p.0 as int]
                == ROLL_MARK,
    )
}

/// The places where the lines `all` show a roll before row `row`, or in it before column `col`.
spec fn rolls_before(all: Seq<Seq<u8>>, row: int, col: int) -> Set<Place> {
    Set::new(|p: Place| rolls_of(all).contains(p) && (p.1 < row || (p.1 == row && p.0 < col)))
}

/// Reads the floor that `content` draws.
pub fn read_input(content: &str) -> (parsed: Result<RollGrid, Malformed>)
    ensures
        match parsed {
            Ok(grid) => {
                let all = lines_of(content.spec_bytes());
                &&& forall|k: int| 0 <= k < all.len() ==> #[trigger] row_ok(all, k)
                &&& grid@ == rolls_of(all)
            },
            Err(Malformed { at }) => {
                let all = lines_of(content.spec_bytes());
                &&& at < all.len()
                &&& !row_ok(all, at as int)
                &&& forall|k: int| 0 <= k < at ==> #[trigger] row_ok(all, k)
            },
        },
{
    let found = lines(content.as_bytes());
    let ghost all = lines_of(content.spec_bytes());
    let mut rolls = set_new();
    let mut y: usize = 0;
    while y < found.len()
        invariant
            y <= found@.len(),
            contents(found@) == all,
            all == lines_of(content.spec_bytes()),
            forall|k: int| 0 <= k < y ==> #[trigger] row_ok(all, k),
            places_of(rolls) == rolls_before(all, y as int, 0),
            places_of(rolls).finite(),
            forall|p: Place| #[trigger] places_of(rolls).contains(p) ==> inside(p),
        decreases found@.len() - y,
    {
        let line = found[y];
        if y >= MAX_SPAN || line.len() > MAX_SPAN {
            return Err(Malformed { at: y });
        }
        let mut x: usize = 0;
        while x < line.len()
            invariant
                x <= line@.len() <= MAX_SPAN,
                y < MAX_SPAN,
                y < all.len(),
                all == lines_of(content.spec_bytes()),
                all[y as int] == line@,
                forall|k: int| 0 <= k < y ==> #[trigger] row_ok(all, k),
                forall|i: int| 0 <= i < x ==> #[trigger] line@[i] == ROLL_MARK || line@[i] == EMPTY_MARK,
                places_of(rolls) == rolls_before(all, y as int, x as int),
                places_of(rolls).finite(),
                forall|p: Place| #[trigger] places_of(rolls).contains(p) ==> inside(p),
            decreases line@.len() - x,
        {
            let c = line[x];
            if c == ROLL_MARK {
                set_insert(&mut rolls, (x as i32, y as i32));
            } else if c != EMPTY_MARK {
                return Err(Malformed { at: y });
            }
            x += 1;
        }
        y += 1;
    }
    Ok(RollGrid { rolls })
}

/// The two answers for a floor: how many rolls a forklift can reach, and how many rolls are
/// taken away when rolls are taken for as long as one can be reached.
pub fn solve(input: RollGrid) -> (answers: (usize, usize))
    ensures
        answers.0 == accessible(input@).len(),
        exists|left: Set<Place>| #[trigger]
            is_remainder(left, input@) && answers.1 == input@.len() - left.len(),
{
    let mut input = input;
    let ghost first = input@;
    proof {
        use_type_invariant(&input);
    }
    let reachable = input.accessible_rolls();
    let size = set_len(&input.rolls);
    let mut total_removed: usize = 0;
    loop
        invariant
            first.finite(),
            first.len() == size,
            input@.finite(),
            input@.subset_of(first),
            forall|part: Set<Place>|
                part.subset_of(first) && #[trigger] is_settled(part) ==> part.subset_of(input@),
            total_removed == first.len() - input@.len(),
        ensures
            is_remainder(input@, first),
            total_removed == first.len() - input@.len(),
        decreases input@.len(),
    {
        let ghost before = input@;
        let c = input.remove_accesibles();
        proof {
            use_type_invariant(&input);
            vstd::set_lib::lemma_len_subset(input@, before);
        }
        if c == 0 {
            break ;
        }
        total_removed += c;
    }
    (reachable, total_removed)
}

} // verus!
