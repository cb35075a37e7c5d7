//! A manifold of splitters: the beams that pass it, and the timelines of one particle.

use vstd::prelude::*;
use vstd::std_specs::iter::IteratorSpec;
use vstd::string::StringSliceAdditionalSpecFns;
use std::collections::{HashMap, HashSet};
use crate::text::{contents, lines, lines_of, Malformed};

verus! {

broadcast use vstd::std_specs::hash::group_hash_axioms;

/// Whether every splitter of `level` leaves room for a beam on both of its sides.
pub open spec fn has_room(level: Set<i32>) -> bool {
    forall|s: i32| #[trigger] level.contains(s) ==> i32::MIN < s < i32::MAX
}

/// What becomes of `beams` when they meet the splitter `s`: a beam at `s` is replaced by one on
/// each side of it.
pub open spec fn hit(beams: Set<i32>, s: i32) -> Set<i32> {
    if beams.contains(s) {
        beams.remove(s).insert((s + 1) as i32).insert((s - 1) as i32)
    } else {
        beams
    }
}

/// What becomes of `beams` when they meet the splitters of `order` one after the other.
pub open spec fn beams_after(beams: Set<i32>, order: Seq<i32>) -> Set<i32>
    decreases order.len(),
{
    if order.len() == 0 {
        beams
    } else {
        hit(beams_after(beams, order.drop_last()), order.last())
    }
}

/// How many splitters of `order` find a beam when `beams` meet them one after the other.
pub open spec fn splits_in(beams: Set<i32>, order: Seq<i32>) -> nat
    decreases order.len(),
{
    if order.len() == 0 {
        0
    } else {
        splits_in(beams, order.drop_last()) + if beams_after(beams, order.drop_last()).contains(
            order.last(),
        ) {
            1nat
        } else {
            0nat
        }
    }
}

/// Whether `order` lists the splitters of `level`, each once.
pub open spec fn is_walk_of(order: Seq<i32>, level: Set<i32>) -> bool {
    order.no_duplicates() && order.to_set() == level
}

/// What becomes of `beams` when they pass level after level, meeting the splitters of each in
/// the order that `walks` gives for it.
pub open spec fn beams_down(beams: Set<i32>, walks: Seq<Seq<i32>>) -> Set<i32>
    decreases walks.len(),
{
    if walks.len() == 0 {
        beams
    } else {
        beams_down(beams_after(beams, walks.first()), walks.drop_first())
    }
}

/// How many splitters find a beam when `beams` pass level after level as `walks` says.
pub open spec fn splits_down(beams: Set<i32>, walks: Seq<Seq<i32>>) -> nat
    decreases walks.len(),
{
    if walks.len() == 0 {
        0
    } else {
        splits_in(beams, walks.first()) + splits_down(
            beams_after(beams, walks.first()),
            walks.drop_first(),
        )
    }
}

/// Whether `walks` gives an order to the splitters of each level of `levels` from level `from`
/// on.
pub open spec fn are_walks_of(walks: Seq<Seq<i32>>, levels: Seq<Set<i32>>, from: int) -> bool {
    &&& walks.len() == if from <= levels.len() {
        levels.len() - from
    } else {
        0
    }
    &&& forall|k: int| 0 <= k < walks.len() ==> is_walk_of(#[trigger] walks[k], levels[from + k])
}

/// The number of splitters on the levels of `levels` from level `from` on.
pub open spec fn splitters_from(levels: Seq<Set<i32>>, from: int) -> nat
    decreases levels.len() - from,
{
    if 0 <= from < levels.len() {
        levels[from].len() + splitters_from(levels, from + 1)
    } else {
        0
    }
}

/// Whether no two splitters of `level` stand next to each other.
pub open spec fn is_sparse(level: Set<i32>) -> bool {
    forall|s: i32, t: i32| level.contains(s) && level.contains(t) ==> s - t != 1
}

/// What becomes of `beams` at a level: the beams that meet no splitter go on, and each beam
/// that meets one is replaced by a beam on each side of it.
pub open spec fn split_at(beams: Set<i32>, level: Set<i32>) -> Set<i32> {
    Set::new(
        |c: i32|
            (beams.contains(c) && !level.contains(c)) || exists|s: i32|
                #[trigger] level.contains(s) && beams.contains(s) && (c == s + 1 || c == s - 1),
    )
}

/// What becomes of `beams` below level `from`, level after level.
pub open spec fn beams_below(beams: Set<i32>, levels: Seq<Set<i32>>, from: int) -> Set<i32>
    decreases levels.len() - from,
{
    if 0 <= from < levels.len() {
        beams_below(split_at(beams, levels[from]), levels, from + 1)
    } else {
        beams
    }
}

/// How many splitters from level `from` on find one of `beams` or of what becomes of them.
pub open spec fn splits_below(beams: Set<i32>, levels: Seq<Set<i32>>, from: int) -> nat
    decreases levels.len() - from,
{
    if 0 <= from < levels.len() {
        levels[from].intersect(beams).len() + splits_below(
            split_at(beams, levels[from]),
            levels,
            from + 1,
        )
    } else {
        0
    }
}

/// Splitters that do not stand next to each other give the same beams and the same count in
/// whatever order they are met.
pub proof fn lemma_sparse_level_order_free(beams: Set<i32>, level: Set<i32>, order: Seq<i32>)
    requires
        order.no_duplicates(),
        forall|i: int| 0 <= i < order.len() ==> level.contains(#[trigger] order[i]),
        is_sparse(level),
        has_room(level),
    ensures
        beams_after(beams, order) == split_at(beams, order.to_set()),
        splits_in(beams, order) == order.to_set().intersect(beams).len(),
    decreases order.len(),
{
    broadcast use vstd::seq_lib::seq_to_set_is_finite;

    let met = order.to_set();
    if order.len() == 0 {
        assert(met.intersect(beams) =~= Set::empty());
    } else {
        let init = order.drop_last();
        let s = order.last();
        let earlier = init.to_set();
        lemma_sparse_level_order_free(beams, level, init);
        assert forall|x: i32| met.contains(x) <==> (earlier.contains(x) || x == s) by {
            if met.contains(x) && x != s {
                let i = choose|i: int| 0 <= i < order.len() && order[i] == x;
                assert(init[i] == x);
            }
        }
        if beams.contains(s) {
            assert(met.intersect(beams) =~= earlier.intersect(beams).insert(s));
        } else {
            assert(met.intersect(beams) =~= earlier.intersect(beams));
        }
    }
}

/// In a manifold whose splitters never stand next to each other, beams end up in the same
/// columns and are split equally often in whatever order the splitters of a level are met.
pub proof fn lemma_sparse_manifold_order_free(
    beams: Set<i32>,
    levels: Seq<Set<i32>>,
    from: int,
    walks: Seq<Seq<i32>>,
)
    requires
        0 <= from,
        are_walks_of(walks, levels, from),
        forall|l: int| from <= l < levels.len() ==> is_sparse(#[trigger] levels[l]) && has_room(levels[l]),
    ensures
        beams_down(beams, walks) == beams_below(beams, levels, from),
        splits_down(beams, walks) == splits_below(beams, levels, from),
    decreases levels.len() - from,
{
    if from < levels.len() {
        let order = walks.first();
        lemma_sparse_level_order_free(beams, levels[from], order);
        let rest = walks.drop_first();
        lemma_sparse_manifold_order_free(split_at(beams, levels[from]), levels, from + 1, rest);
    }
}

/// Whether no two splitters of a level of `levels` from level `from` on stand next to each
/// other.
pub open spec fn sparse_from(levels: Seq<Set<i32>>, from: int) -> bool {
    forall|l: int| from <= l < levels.len() ==> is_sparse(#[trigger] levels[l])
}

/// Whether no two splitters of a level of `levels` stand next to each other.
pub open spec fn all_sparse(levels: Seq<Set<i32>>) -> bool {
    sparse_from(levels, 0)
}

/// A tachyon manifold: the column where the beam enters, and the columns of the splitters on
/// each level below.
#[derive(Debug)]
pub struct Manifold {
    /// location of S
    start_loc: i32,
    /// splitters\[i\] gives splitter locations of level i
    splitters: Vec<HashSet<i32>>,
}

impl Manifold {
    /// The column where the beam enters.
    pub closed spec fn start(&self) -> i32 {
        self.start_loc
    }

    /// The columns of the splitters, level by level.
    pub closed spec fn levels(&self) -> Seq<Set<i32>> {
        Seq::new(self.splitters@.len(), |l: int| self.splitters@[l]@)
    }

    /// Every manifold that exists at run time leaves room on both sides of each splitter.
    #[verifier::type_invariant]
    pub open spec fn wf(&self) -> bool {
        forall|l: int| 0 <= l < self.levels().len() ==> has_room(#[trigger] self.levels()[l])
    }

    /// The manifold with the beam entering at `start_loc` and the given splitters, or nothing
    /// when a splitter stands at the first or the last column there is.
    pub fn new(start_loc: i32, splitters: Vec<HashSet<i32>>) -> (made: Option<Manifold>)
        ensures
            match made {
                Some(manifold) => {
                    &&& manifold.start() == start_loc
                    &&& manifold.levels() == Seq::new(splitters@.len(), |l: int| splitters@[l]@)
                    &&& forall|l: int| 0 <= l < splitters@.len() ==> has_room(#[trigger] splitters@[l]@)
                },
                None => exists|l: int| 0 <= l < splitters@.len() && !has_room(#[trigger] splitters@[l]@),
            },
    {
        let mut l: usize = 0;
        while l < splitters.len()
            invariant
                l <= splitters@.len(),
                forall|k: int| 0 <= k < l ==> has_room(#[trigger] splitters@[k]@),
            decreases splitters@.len() - l,
        {
            let level = &splitters[l];
            if level.contains(&i32::MIN) || level.contains(&i32::MAX) {
                return None;
            }
            l += 1;
        }
        Some(Manifold { start_loc, splitters })
    }
}

/// Sends `current_beams` down the manifold from level `current_level` on, and adds to
/// `split_count` the number of splitters that find a beam. The splitters of a level are met in
/// the order in which the level hands them out.
pub fn split_beams(
    current_beams: &mut HashSet<i32>,
    manifold: &Manifold,
    current_level: usize,
    split_count: &mut usize,
)
    requires
        *old(split_count) + splitters_from(manifold.levels(), current_level as int) <= usize::MAX,
    ensures
        exists|walks: Seq<Seq<i32>>|
            {
                &&& #[trigger] are_walks_of(walks, manifold.levels(), current_level as int)
                &&& final(current_beams)@ == beams_down(old(current_beams)@, walks)
                &&& *final(split_count) == *old(split_count) + splits_down(
                    old(current_beams)@,
                    walks,
                )
            },
        sparse_from(manifold.levels(), current_level as int) ==> {
            &&& final(current_beams)@ == beams_below(
                old(current_beams)@,
                manifold.levels(),
                current_level as int,
            )
            &&& *final(split_count) == *old(split_count) + splits_below(
                old(current_beams)@,
                manifold.levels(),
                current_level as int,
            )
        },
    decreases manifold.levels().len() - current_level,
{
    proof {
        use_type_invariant(manifold);
    }
    if current_level >= manifold.splitters.len() {
        proof {
            let walks = Seq::<Seq<i32>>::empty();
            assert(are_walks_of(walks, manifold.levels(), current_level as int));
        }
        return ;
    }
    let splitters = &manifold.splitters[current_level];
    let ghost level = splitters@;
    let ghost before = current_beams@;
    let ghost all = splitters.iter().remaining().unref();
    for splitter in it: splitters.iter()
        invariant
            all == it.seq().unref(),
            is_walk_of(all, level),
            has_room(level),
            level.finite(),
            current_beams@ == beams_after(before, all.take(it.index() as int)),
            *split_count == *old(split_count) + splits_in(before, all.take(it.index() as int)),
            splits_in(before, all.take(it.index() as int)) <= it.index(),
            all.len() == level.len(),
            *old(split_count) + level.len() <= usize::MAX,
    {
        proof {
            let seen = all.take(it.index() as int);
            let next = all.take(it.index() + 1);
            assert(next.drop_last() == seen);
            assert(level.contains(*splitter));
        }
        if current_beams.contains(splitter) {
            current_beams.remove(splitter);
            current_beams.insert(*splitter + 1);
            current_beams.insert(*splitter - 1);
            *split_count += 1;
        }
    }
    assert(all.take(all.len() as int) == all);
    let ghost after = current_beams@;
    let ghost counted = *split_count;
    split_beams(current_beams, manifold, current_level + 1, split_count);
    proof {
        let rest = choose|walks: Seq<Seq<i32>>|
            {
                &&& #[trigger] are_walks_of(walks, manifold.levels(), current_level + 1)
                &&& current_beams@ == beams_down(after, walks)
                &&& *split_count == counted + splits_down(after, walks)
            };
        let walks = seq![all] + rest;
        assert(walks.drop_first() == rest);
        assert(are_walks_of(walks, manifold.levels(), current_level as int));
        if sparse_from(manifold.levels(), current_level as int) {
            lemma_sparse_manifold_order_free(before, manifold.levels(), current_level as int, walks);
        }
    }
}

/// Whether a splitter of `level` stands at column `c`.
pub open spec fn on(level: Set<i32>, c: int) -> bool {
    i32::MIN <= c <= i32::MAX && level.contains(c as i32)
}

/// In how many timelines the particle that entered at `start` is at column `c` once it has
/// passed the first `l` levels: a particle that meets no splitter stays where it is, and one
/// that meets a splitter goes to its left in one timeline and to its right in another.
pub open spec fn ways(start: int, levels: Seq<Set<i32>>, l: nat, c: int) -> nat
    decreases l,
{
    if l == 0 {
        if c == start {
            1
        } else {
            0
        }
    } else {
        let level = levels[l - 1];
        let before = (l - 1) as nat;
        (if on(level, c) {
            0
        } else {
            ways(start, levels, before, c)
        }) + (if on(level, c + 1) {
            ways(start, levels, before, c + 1)
        } else {
            0
        }) + (if on(level, c - 1) {
            ways(start, levels, before, c - 1)
        } else {
            0
        })
    }
}

/// In how many timelines the particle is at one of the columns from `lo` to `hi` once it has
/// passed the first `l` levels.
pub open spec fn ways_between(start: int, levels: Seq<Set<i32>>, l: nat, lo: int, hi: int) -> nat
    decreases hi - lo + 1,
{
    if hi < lo {
        0
    } else {
        ways_between(start, levels, l, lo, hi - 1) + ways(start, levels, l, hi)
    }
}

/// The number of timelines of a particle that enters at `start` and passes all of `levels`.
pub open spec fn timelines(start: int, levels: Seq<Set<i32>>) -> nat {
    ways_between(start, levels, levels.len(), i32::MIN as int, i32::MAX as int)
}

/// Whether 64 bits can hold the number of timelines, and the number of those that share a
/// column after any number of levels.
pub open spec fn timelines_fit(start: int, levels: Seq<Set<i32>>) -> bool {
    &&& timelines(start, levels) <= u64::MAX
    &&& forall|l: nat, c: int| l <= levels.len() ==> #[trigger] ways(start, levels, l, c) <= u64::MAX
}

/// The count that `m` holds for column `c`; none where it holds nothing.
pub open spec fn count_at(m: Map<i32, u64>, c: int) -> nat {
    if i32::MIN <= c <= i32::MAX && m.contains_key(c as i32) {
        m[c as i32] as nat
    } else {
        0
    }
}

/// The counts that `m` holds for the columns from `lo` to `hi`, added up.
pub open spec fn total_between(m: Map<i32, u64>, lo: int, hi: int) -> nat
    decreases hi - lo + 1,
{
    if hi < lo {
        0
    } else {
        total_between(m, lo, hi - 1) + count_at(m, hi)
    }
}

/// The counts of `pairs` added up.
pub open spec fn sum_pairs(pairs: Seq<(i32, u64)>) -> nat
    decreases pairs.len(),
{
    if pairs.len() == 0 {
        0
    } else {
        sum_pairs(pairs.drop_last()) + pairs.last().1 as nat
    }
}

/// What the particles of `pairs`, each a column with a count, bring to column `c` when they
/// pass `level`.
pub open spec fn moved(pairs: Seq<(i32, u64)>, level: Set<i32>, c: int) -> nat
    decreases pairs.len(),
{
    if pairs.len() == 0 {
        0
    } else {
        let (k, n) = pairs.last();
        moved(pairs.drop_last(), level, c) + if level.contains(k) {
            if c == k + 1 || c == k - 1 {
                n as nat
            } else {
                0nat
            }
        } else {
            if c == k {
                n as nat
            } else {
                0nat
            }
        }
    }
}

/// Whether `pairs` lists what `m` holds, each column once.
pub open spec fn lists(pairs: Seq<(i32, u64)>, m: Map<i32, u64>) -> bool {
    &&& pairs.no_duplicates()
    &&& forall|i: int|
        0 <= i < pairs.len() ==> m.contains_key((#[trigger] pairs[i]).0) && m[pairs[i].0]
            == pairs[i].1
    &&& forall|k: i32| #[trigger] m.contains_key(k) ==> pairs.contains((k, m[k]))
}

/// Without its last pair, a list of what `m` holds lists what `m` holds besides that column.
proof fn lemma_lists_drop_last(pairs: Seq<(i32, u64)>, m: Map<i32, u64>)
    requires
        lists(pairs, m),
        pairs.len() > 0,
    ensures
        lists(pairs.drop_last(), m.remove(pairs.last().0)),
        forall|i: int| 0 <= i < pairs.len() - 1 ==> (#[trigger] pairs[i]).0 != pairs.last().0,
{
    let init = pairs.drop_last();
    let rest = m.remove(pairs.last().0);
    assert forall|key: i32| #[trigger] rest.contains_key(key) implies init.contains(
        (key, rest[key]),
    ) by {
        let i = choose|i: int| 0 <= i < pairs.len() && pairs[i] == (key, m[key]);
        assert(init[i] == pairs[i]);
    }
}

/// Taking one column out of `m` takes its count out of the total of a range that holds it.
proof fn lemma_total_without(m: Map<i32, u64>, k: i32, lo: int, hi: int)
    ensures
        total_between(m, lo, hi) == total_between(m.remove(k), lo, hi) + if lo <= k <= hi {
            count_at(m, k as int)
        } else {
            0
        },
    decreases hi - lo + 1,
{
    if hi >= lo {
        lemma_total_without(m, k, lo, hi - 1);
    }
}

/// A map that holds nothing has no total.
proof fn lemma_total_of_nothing(m: Map<i32, u64>, lo: int, hi: int)
    requires
        forall|k: i32| !m.contains_key(k),
    ensures
        total_between(m, lo, hi) == 0,
    decreases hi - lo + 1,
{
    if hi >= lo {
        lemma_total_of_nothing(m, lo, hi - 1);
    }
}

/// The counts of a list of what `m` holds add up to the total of `m` over all columns.
proof fn lemma_sum_pairs_is_total(pairs: Seq<(i32, u64)>, m: Map<i32, u64>)
    requires
        lists(pairs, m),
    ensures
        sum_pairs(pairs) == total_between(m, i32::MIN as int, i32::MAX as int),
    decreases pairs.len(),
{
    if pairs.len() == 0 {
        lemma_total_of_nothing(m, i32::MIN as int, i32::MAX as int);
    } else {
        let k = pairs.last().0;
        lemma_lists_drop_last(pairs, m);
        lemma_sum_pairs_is_total(pairs.drop_last(), m.remove(k));
        lemma_total_without(m, k, i32::MIN as int, i32::MAX as int);
    }
}

/// What a list of what `m` holds brings to a column is what `m` holds for that column, unless
/// a splitter stands there, and for the columns next to it where splitters stand.
proof fn lemma_moved_from_map(pairs: Seq<(i32, u64)>, m: Map<i32, u64>, level: Set<i32>, c: int)
    requires
        lists(pairs, m),
        has_room(level),
    ensures
        moved(pairs, level, c) == (if on(level, c) {
            0
        } else {
            count_at(m, c)
        }) + (if on(level, c + 1) {
            count_at(m, c + 1)
        } else {
            0
        }) + (if on(level, c - 1) {
            count_at(m, c - 1)
        } else {
            0
        }),
    decreases pairs.len(),
{
    if pairs.len() > 0 {
        let k = pairs.last().0;
        lemma_lists_drop_last(pairs, m);
        lemma_moved_from_map(pairs.drop_last(), m.remove(k), level, c);
    }
}

/// The first pairs of a list bring no more to a column than all of them.
proof fn lemma_moved_grows(pairs: Seq<(i32, u64)>, level: Set<i32>, c: int, upto: int)
    requires
        0 <= upto <= pairs.len(),
    ensures
        moved(pairs.take(upto), level, c) <= moved(pairs, level, c),
    decreases pairs.len() - upto,
{
    if upto < pairs.len() {
        assert(pairs.drop_last().take(upto) == pairs.take(upto));
        lemma_moved_grows(pairs.drop_last(), level, c, upto);
    } else {
        assert(pairs.take(upto) == pairs);
    }
}

/// The counts of the first pairs of a list add up to no more than those of all of them.
proof fn lemma_sum_pairs_grows(pairs: Seq<(i32, u64)>, upto: int)
    requires
        0 <= upto <= pairs.len(),
    ensures
        sum_pairs(pairs.take(upto)) <= sum_pairs(pairs),
    decreases pairs.len() - upto,
{
    if upto < pairs.len() {
        assert(pairs.drop_last().take(upto) == pairs.take(upto));
        lemma_sum_pairs_grows(pairs.drop_last(), upto);
    } else {
        assert(pairs.take(upto) == pairs);
    }
}

/// A map that holds for every column the number of timelines there has their number as its
/// total.
proof fn lemma_total_is_ways(
    m: Map<i32, u64>,
    start: int,
    levels: Seq<Set<i32>>,
    l: nat,
    lo: int,
    hi: int,
)
    requires
        forall|c: int| lo <= c <= hi ==> count_at(m, c) == #[trigger] ways(start, levels, l, c),
    ensures
        total_between(m, lo, hi) == ways_between(start, levels, l, lo, hi),
    decreases hi - lo + 1,
{
    if hi >= lo {
        lemma_total_is_ways(m, start, levels, l, lo, hi - 1);
    }
}

/// Adds `amount` to the count that `map` holds for `key`, unless the sum does not fit in 64
/// bits.
fn add_to(map: &mut HashMap<i32, u64>, key: i32, amount: u64) -> (fits: bool)
    ensures
        fits <==> count_at(old(map)@, key as int) + amount <= u64::MAX,
        fits ==> final(map)@ == old(map)@.insert(
            key,
            (count_at(old(map)@, key as int) + amount) as u64,
        ),
        !fits ==> final(map)@ == old(map)@,
{
    let have = match map.get(&key) {
        Some(have) => *have,
        None => 0,
    };
    match have.checked_add(amount) {
        Some(sum) => {
            map.insert(key, sum);
            true
        },
        None => false,
    }
}

/// The list that walking `map` gives lists what `map` holds.
proof fn lemma_walk_lists(pairs: Seq<(&i32, &u64)>, m: Map<i32, u64>)
    requires
        pairs.no_duplicates(),
        pairs.len() == m.dom().len(),
        forall|i: int|
            #![trigger m.contains_key(*pairs[i].0)]
            0 <= i < pairs.len() ==> m.contains_key(*pairs[i].0) && m[*pairs[i].0] == *pairs[i].1,
        forall|k: i32| #[trigger] m.contains_key(k) ==> pairs.contains((&k, &m[k])),
    ensures
        lists(pairs.unref(), m),
{
    let plain = pairs.unref();
    assert forall|k: i32| #[trigger] m.contains_key(k) implies plain.contains((k, m[k])) by {
        let i = choose|i: int| 0 <= i < pairs.len() && pairs[i] == (&k, &m[k]);
        assert(plain[i] == (k, m[k]));
    }
}

/// What a list of the timelines after `l` levels brings to a column when they pass the next
/// level is the number of timelines at that column after `l + 1` levels.
proof fn lemma_moved_is_ways(
    pairs: Seq<(i32, u64)>,
    m: Map<i32, u64>,
    start: int,
    levels: Seq<Set<i32>>,
    l: nat,
    c: int,
)
    requires
        lists(pairs, m),
        l < levels.len(),
        has_room(levels[l as int]),
        forall|at: int| count_at(m, at) == #[trigger] ways(start, levels, l, at),
    ensures
        moved(pairs, levels[l as int], c) == ways(start, levels, l + 1, c),
{
    lemma_moved_from_map(pairs, m, levels[l as int], c);
    assert(count_at(m, c) == ways(start, levels, l, c));
    assert(count_at(m, c + 1) == ways(start, levels, l, c + 1));
    assert(count_at(m, c - 1) == ways(start, levels, l, c - 1));
}

/// The number of timelines of a particle that passes the manifold, or nothing when a count
/// does not fit in 64 bits.
pub fn timeline_count(manifold: &Manifold) -> (count: Option<u64>)
    ensures
        count == if timelines_fit(manifold.start() as int, manifold.levels()) {
            Some(timelines(manifold.start() as int, manifold.levels()) as u64)
        } else {
            None
        },
{
    proof {
        use_type_invariant(manifold);
    }
    let ghost start = manifold.start() as int;
    let ghost levels = manifold.levels();
    let mut current_beams: HashMap<i32, u64> = HashMap::new();
    current_beams.insert(manifold.start_loc, 1);
    let mut l: usize = 0;
    while l < manifold.splitters.len()
        invariant
            l <= levels.len(),
            start == manifold.start(),
            levels == manifold.levels(),
            levels.len() == manifold.splitters@.len(),
            forall|k: int| 0 <= k < levels.len() ==> has_room(#[trigger] levels[k]),
            forall|c: int| count_at(current_beams@, c) == #[trigger] ways(start, levels, l as nat, c),
            forall|k: nat, c: int| k <= l ==> #[trigger] ways(start, levels, k, c) <= u64::MAX,
        decreases levels.len() - l,
    {
        let splitters = &manifold.splitters[l];
        let ghost level = splitters@;
        assert(levels[l as int] == level);
        let mut next_beams: HashMap<i32, u64> = HashMap::new();
        let ghost refs = current_beams.iter().remaining();
        let ghost all = refs.unref();
        for pair in it: current_beams.iter()
            invariant
                refs == it.seq(),
                refs.no_duplicates(),
                refs == current_beams.iter().remaining(),
                all == refs.unref(),
                has_room(level),
                level == splitters@,
                l < levels.len(),
                start == manifold.start(),
                levels == manifold.levels(),
                levels.len() == manifold.splitters@.len(),
                forall|k: int| 0 <= k < levels.len() ==> has_room(#[trigger] levels[k]),
                forall|k: nat, c: int| k <= l ==> #[trigger] ways(start, levels, k, c) <= u64::MAX,
                levels[l as int] == level,
                forall|c: int| count_at(current_beams@, c) == #[trigger] ways(start, levels, l as nat, c),
                forall|c: int|
                    #[trigger] count_at(next_beams@, c) == moved(
                        all.take(it.index() as int),
                        level,
                        c,
                    ),
        {
            let (col, count) = pair;
            let ghost seen = all.take(it.index() as int);
            let ghost more = all.take(it.index() + 1);
            proof {
                lemma_walk_lists(refs, current_beams@);
                assert(more.drop_last() == seen);
            }
            let ghost was = next_beams@;
            let ghost k = *col as int;
            proof {
                assert forall|c: int| #[trigger] moved(more, level, c) <= ways(
                    start,
                    levels,
                    (l + 1) as nat,
                    c,
                ) by {
                    lemma_moved_grows(all, level, c, it.index() + 1);
                    lemma_moved_is_ways(all, current_beams@, start, levels, l as nat, c);
                }
                assert(count_at(was, k + 1) == moved(seen, level, k + 1));
            }
            if splitters.contains(col) {
                if !add_to(&mut next_beams, *col - 1, *count) {
                    proof {
                        assert(moved(more, level, k - 1) > u64::MAX);
                    }
                    return None;
                }
                if !add_to(&mut next_beams, *col + 1, *count) {
                    proof {
                        assert(moved(more, level, k + 1) > u64::MAX);
                    }
                    return None;
                }
            } else {
                if !add_to(&mut next_beams, *col, *count) {
                    proof {
                        assert(moved(more, level, k) > u64::MAX);
                    }
                    return None;
                }
            }
            proof {
                assert forall|c: int| #[trigger] count_at(next_beams@, c) == moved(
                    more,
                    level,
                    c,
                ) by {
                    assert(count_at(was, c) == moved(seen, level, c));
                }
            }
        }
        proof {
            lemma_walk_lists(refs, current_beams@);
            assert(all.take(all.len() as int) == all);
            assert forall|c: int| count_at(next_beams@, c) == #[trigger] ways(
                start,
                levels,
                (l + 1) as nat,
                c,
            ) by {
                lemma_moved_is_ways(all, current_beams@, start, levels, l as nat, c);
            }
            assert forall|k: nat, c: int| k <= l + 1 implies #[trigger] ways(start, levels, k, c)
                <= u64::MAX by {
                if k == l + 1 {
                    assert(count_at(next_beams@, c) == ways(start, levels, (l + 1) as nat, c));
                }
            }
        }
        current_beams = next_beams;
        l += 1;
    }
    let ghost refs = current_beams.iter().remaining();
    let ghost all = refs.unref();
    proof {
        lemma_total_is_ways(
            current_beams@,
            start,
            levels,
            levels.len(),
            i32::MIN as int,
            i32::MAX as int,
        );
    }
    let mut total: u64 = 0;
    for pair in it: current_beams.iter()
        invariant
            refs == it.seq(),
            refs.no_duplicates(),
            refs == current_beams.iter().remaining(),
            all == refs.unref(),
            total == sum_pairs(all.take(it.index() as int)),
            total_between(current_beams@, i32::MIN as int, i32::MAX as int) == timelines(
                start,
                levels,
            ),
            start == manifold.start(),
            levels == manifold.levels(),
            forall|k: nat, c: int|
                k <= levels.len() ==> #[trigger] ways(start, levels, k, c) <= u64::MAX,
    {
        let (_, count) = pair;
        proof {
            lemma_walk_lists(refs, current_beams@);
            lemma_sum_pairs_is_total(all, current_beams@);
            let more = all.take(it.index() + 1);
            assert(more.drop_last() == all.take(it.index() as int));
            lemma_sum_pairs_grows(all, it.index() + 1);
        }
        total = match total.checked_add(*count) {
            Some(sum) => sum,
            None => {
                return None;
            },
        };
    }
    proof {
        lemma_walk_lists(refs, current_beams@);
        lemma_sum_pairs_is_total(all, current_beams@);
        assert(all.take(all.len() as int) == all);
    }
    Some(total)
}

/// The byte `.`, which marks an empty place.
pub const EMPTY_MARK: u8 = 0x2e;

/// The byte `S`, which marks where the beam enters.
pub const START_MARK: u8 = 0x53;

/// The byte `^`, which marks a splitter.
pub const SPLITTER_MARK: u8 = 0x5e;

/// The longest line that a manifold can have.
pub const MAX_WIDTH: usize = 0x7fff_ffff;

/// Whether `line` is a line of a manifold: made of the three marks, and no longer than
/// `MAX_WIDTH`.
pub open spec fn is_manifold_line(line: Seq<u8>) -> bool {
    &&& line.len() <= MAX_WIDTH
    &&& forall|i: int|
        0 <= i < line.len() ==> #[trigger] line[i] == EMPTY_MARK || line[i] == START_MARK || line[i]
            == SPLITTER_MARK
}

/// The columns of `line` where a splitter stands.
pub open spec fn splitters_of(line: Seq<u8>) -> Set<i32> {
    Set::new(|c: i32| 0 <= c < line.len() && line[c as int] == SPLITTER_MARK)
}

/// Whether `line` holds a splitter.
pub open spec fn has_splitter(line: Seq<u8>) -> bool {
    exists|i: int| 0 <= i < line.len() && #[trigger] line[i] == SPLITTER_MARK
}

/// The column of the last start mark of `line`, if it has one.
pub open spec fn start_in(line: Seq<u8>) -> Option<int>
    decreases line.len(),
{
    if line.len() == 0 {
        None
    } else if line.last() == START_MARK {
        Some(line.len() - 1)
    } else {
        start_in(line.drop_last())
    }
}

/// The column of the last start mark of the last line of `all` that has one; zero when none
/// has.
pub open spec fn start_of(all: Seq<Seq<u8>>) -> int
    decreases all.len(),
{
    if all.len() == 0 {
        0
    } else {
        match start_in(all.last()) {
            Some(c) => c,
            None => start_of(all.drop_last()),
        }
    }
}

/// The splitters of the lines of `all` that hold any, line by line.
pub open spec fn levels_of(all: Seq<Seq<u8>>) -> Seq<Set<i32>>
    decreases all.len(),
{
    if all.len() == 0 {
        Seq::empty()
    } else if has_splitter(all.last()) {
        levels_of(all.drop_last()).push(splitters_of(all.last()))
    } else {
        levels_of(all.drop_last())
    }
}

/// Reads the manifold that `content` draws: every line that holds a splitter is a level, and
/// the beam enters where the last start mark stands.
pub fn read_input(content: &str) -> (parsed: Result<Manifold, Malformed>)
    ensures
        match parsed {
            Ok(manifold) => {
                let all = lines_of(content.spec_bytes());
                &&& forall|k: int| 0 <= k < all.len() ==> is_manifold_line(#[trigger] all[k])
                &&& manifold.start() == start_of(all)
                &&& manifold.levels() == levels_of(all)
            },
            Err(Malformed { at }) => {
                let all = lines_of(content.spec_bytes());
                &&& at < all.len()
                &&& !is_manifold_line(all[at as int])
                &&& forall|k: int| 0 <= k < at ==> is_manifold_line(#[trigger] all[k])
            },
        },
{
    let found = lines(content.as_bytes());
    let ghost all = lines_of(content.spec_bytes());
    let mut start_loc: i32 = 0;
    let mut splitters: Vec<HashSet<i32>> = Vec::new();
    let mut n: usize = 0;
    while n < found.len()
        invariant
            n <= found@.len(),
            contents(found@) == all,
            all == lines_of(content.spec_bytes()),
            forall|k: int| 0 <= k < n ==> is_manifold_line(#[trigger] all[k]),
            start_loc == start_of(all.take(n as int)),
            Seq::new(splitters@.len(), |l: int| splitters@[l]@) == levels_of(all.take(n as int)),
            forall|l: int| 0 <= l < splitters@.len() ==> has_room(#[trigger] splitters@[l]@),
        decreases found@.len() - n,
    {
        let line = found[n];
        if line.len() > MAX_WIDTH {
            return Err(Malformed { at: n });
        }
        let ghost earlier = start_loc as int;
        let mut level: HashSet<i32> = HashSet::new();
        let mut any = false;
        let mut i: usize = 0;
        while i < line.len()
            invariant
                i <= line@.len() <= MAX_WIDTH,
                all == lines_of(content.spec_bytes()),
                all[n as int] == line@,
                n < all.len(),
                forall|k: int| 0 <= k < n ==> is_manifold_line(#[trigger] all[k]),
                is_manifold_line(line@.take(i as int)),
                level@ == splitters_of(line@.take(i as int)),
                any == has_splitter(line@.take(i as int)),
                start_loc == match start_in(line@.take(i as int)) {
                    Some(c) => c,
                    None => earlier,
                },
            decreases line@.len() - i,
        {
            let b = line[i];
            let ghost seen = line@.take(i as int);
            let ghost more = line@.take(i + 1);
            proof {
                assert(more.drop_last() == seen);
            }
            if b == SPLITTER_MARK {
                level.insert(i as i32);
                any = true;
            } else if b == START_MARK {
                start_loc = i as i32;
            } else if b != EMPTY_MARK {
                return Err(Malformed { at: n });
            }
            i += 1;
        }
        proof {
            assert(line@.take(i as int) == line@);
            assert(all.take(n + 1).drop_last() == all.take(n as int));
        }
        if any {
            proof {
                let grown = splitters@.push(level);
                assert(Seq::new(grown.len(), |l: int| grown[l]@) =~= Seq::new(
                    splitters@.len(),
                    |l: int| splitters@[l]@,
                ).push(level@));
            }
            splitters.push(level);
        }
        n += 1;
    }
    assert(all.take(n as int) == all);
    Ok(Manifold { start_loc, splitters })
}

/// Later levels hold no more splitters than they and the levels before them.
proof fn lemma_splitters_from_grows(levels: Seq<Set<i32>>, a: int, b: int)
    requires
        0 <= a <= b,
    ensures
        splitters_from(levels, b) <= splitters_from(levels, a),
    decreases b - a,
{
    if a < b {
        lemma_splitters_from_grows(levels, a + 1, b);
    }
}

/// The number of splitters of the manifold, or nothing when it does not fit the machine word.
fn count_splitters(manifold: &Manifold) -> (count: Option<usize>)
    ensures
        count == if splitters_from(manifold.levels(), 0) <= usize::MAX {
            Some(splitters_from(manifold.levels(), 0) as usize)
        } else {
            None
        },
{
    let ghost levels = manifold.levels();
    let mut count: usize = 0;
    let mut l: usize = manifold.splitters.len();
    while l > 0
        invariant
            l <= levels.len(),
            levels == manifold.levels(),
            levels.len() == manifold.splitters@.len(),
            count == splitters_from(levels, l as int),
        decreases l,
    {
        l -= 1;
        proof {
            lemma_splitters_from_grows(levels, 0, l as int);
        }
        count = match count.checked_add(manifold.splitters[l].len()) {
            Some(sum) => sum,
            None => {
                return None;
            },
        };
    }
    Some(count)
}

/// The two answers for `manifold`: how many splitters find a beam when one beam enters, and
/// the number of timelines of one particle. Nothing when a count does not fit. Where splitters
/// stand next to each other, the first answer depends on the order in which a level hands out
/// its splitters.
pub fn solve(manifold: &Manifold) -> (answers: Option<(usize, u64)>)
    ensures
        match answers {
            Some((splits, count)) => {
                let levels = manifold.levels();
                let beam = Set::<i32>::empty().insert(manifold.start());
                &&& splitters_from(levels, 0) <= usize::MAX
                &&& timelines_fit(manifold.start() as int, levels)
                &&& count == timelines(manifold.start() as int, levels)
                &&& exists|walks: Seq<Seq<i32>>| #[trigger]
                    are_walks_of(walks, levels, 0) && splits == splits_down(beam, walks)
                &&& all_sparse(levels) ==> splits == splits_below(beam, levels, 0)
            },
            None => splitters_from(manifold.levels(), 0) > usize::MAX || !timelines_fit(
                manifold.start() as int,
                manifold.levels(),
            ),
        },
{
    proof {
        use_type_invariant(manifold);
    }
    if count_splitters(manifold).is_none() {
        return None;
    }
    let mut split_count: usize = 0;
    let mut current_beams: HashSet<i32> = HashSet::new();
    current_beams.insert(manifold.start_loc);
    let ghost beam = current_beams@;
    split_beams(&mut current_beams, manifold, 0, &mut split_count);
    proof {
        let levels = manifold.levels();
        let walks = choose|walks: Seq<Seq<i32>>|
            {
                &&& #[trigger] are_walks_of(walks, levels, 0)
                &&& current_beams@ == beams_down(beam, walks)
                &&& split_count == 0 + splits_down(beam, walks)
            };
        if all_sparse(levels) {
            lemma_sparse_manifold_order_free(beam, levels, 0, walks);
        }
    }
    match timeline_count(manifold) {
        Some(count) => Some((split_count, count)),
        None => None,
    }
}

} // verus!
