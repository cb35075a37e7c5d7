//! Closed integer intervals: an index that answers whether any interval covers a point, and
//! the merging of intervals into a canonical disjoint cover.

use vstd::prelude::*;
use vstd::multiset::Multiset;
use vstd::string::StringSliceAdditionalSpecFns;
use crate::text::{
    contents,
    is_unsigned,
    lines,
    lines_of,
    parse_unsigned,
    split,
    split_on,
    unsigned_value,
    Malformed,
};

verus! {

/// The byte `-`, which stands between the two bounds of an interval.
pub const DASH: u8 = 0x2d;

/// Why a text is not an interval.
#[derive(Debug, Clone, Copy, PartialEq, Eq, Structural)]
pub enum IntervalError {
    /// A bound is not an unsigned number in base ten that fits in 64 bits.
    Number,
    /// There is no dash, and so no second bound.
    Format,
    /// The first bound is larger than the second.
    Reversed,
}

/// Whether `text` is an unsigned number in base ten that fits in 64 bits.
pub open spec fn is_bound(text: Seq<u8>) -> bool {
    is_unsigned(text) && unsigned_value(text) <= u64::MAX
}

/// What reading `text` as an interval gives: the two bounds, or why there are none. The bounds
/// are what stands before the first dash and what stands between it and the next one, if any;
/// the first is read first.
pub open spec fn interval_of(text: Seq<u8>) -> Result<(u64, u64), IntervalError> {
    let parts = split_on(text, DASH);
    if !is_bound(parts[0]) {
        Err(IntervalError::Number)
    } else if parts.len() < 2 {
        Err(IntervalError::Format)
    } else if !is_bound(parts[1]) {
        Err(IntervalError::Number)
    } else if unsigned_value(parts[0]) > unsigned_value(parts[1]) {
        Err(IntervalError::Reversed)
    } else {
        Ok((unsigned_value(parts[0]) as u64, unsigned_value(parts[1]) as u64))
    }
}

/// A closed range of integers `[start, end]` with `start <= end`.
#[derive(Debug, Clone, Copy, PartialEq, Eq, Structural)]
pub struct Interval {
    start: u64,
    end: u64,
}

impl Interval {
    /// The lower bound, as it appears in contracts.
    pub closed spec fn lo(&self) -> u64 {
        self.start
    }

    /// The upper bound, as it appears in contracts.
    pub closed spec fn hi(&self) -> u64 {
        self.end
    }

    /// Every interval that exists at run time has its bounds in order.
    #[verifier::type_invariant]
    pub open spec fn wf(self) -> bool {
        self.lo() <= self.hi()
    }

    /// Whether the interval covers the point `p`.
    pub open spec fn covers(self, p: int) -> bool {
        self.lo() <= p <= self.hi()
    }

    /// Builds `[start, end]`, or nothing when the bounds are reversed.
    pub fn new(start: u64, end: u64) -> (made: Option<Interval>)
        ensures
            start > end ==> made.is_none(),
            start <= end ==> made.is_some() && made.unwrap().lo() == start && made.unwrap().hi()
                == end,
    {
        if start <= end {
            Some(Interval { start, end })
        } else {
            None
        }
    }

    /// The lower bound.
    #[verifier::when_used_as_spec(lo)]
    pub fn start(&self) -> (s: u64)
        ensures
            s == self.lo(),
    {
        self.start
    }

    /// The upper bound.
    #[verifier::when_used_as_spec(hi)]
    pub fn end(&self) -> (e: u64)
        ensures
            e == self.hi(),
    {
        self.end
    }

    /// Reads an interval written as its two bounds with a dash between them, such as `3-17`.
    pub fn from_str(s: &str) -> (parsed: Result<Interval, IntervalError>)
        ensures
            match parsed {
                Ok(iv) => interval_of(s.spec_bytes()) == Ok::<(u64, u64), IntervalError>(
                    (iv.lo(), iv.hi()),
                ),
                Err(why) => interval_of(s.spec_bytes()) == Err::<(u64, u64), IntervalError>(why),
            },
    {
        Interval::parse(s.as_bytes())
    }

    /// Reads an interval from the bytes of its text.
    pub fn parse(text: &[u8]) -> (parsed: Result<Interval, IntervalError>)
        ensures
            match parsed {
                Ok(iv) => interval_of(text@) == Ok::<(u64, u64), IntervalError>(
                    (iv.lo(), iv.hi()),
                ),
                Err(why) => interval_of(text@) == Err::<(u64, u64), IntervalError>(why),
            },
    {
        let parts = split(text, DASH);
        let start = match parse_unsigned(parts[0], u64::MAX) {
            Some(start) => start,
            None => {
                return Err(IntervalError::Number);
            },
        };
        if parts.len() < 2 {
            return Err(IntervalError::Format);
        }
        let end = match parse_unsigned(parts[1], u64::MAX) {
            Some(end) => end,
            None => {
                return Err(IntervalError::Number);
            },
        };
        if start > end {
            return Err(IntervalError::Reversed);
        }
        Ok(Interval { start, end })
    }

    /// The bound of the interval that `by` names.
    pub fn bound(&self, by: Bound) -> (b: u64)
        ensures
            b == match by {
                Bound::Start => self.lo(),
                Bound::End => self.hi(),
            },
    {
        match by {
            Bound::Start => self.start,
            Bound::End => self.end,
        }
    }

    /// Whether the interval covers `point`.
    pub fn intersects(&self, point: u64) -> (hit: bool)
        ensures
            hit == self.covers(point as int),
    {
        self.start <= point && point <= self.end
    }

    /// The number of integers that the interval covers. The one interval that covers all
    /// 64-bit integers has more of them than 64 bits can count.
    pub fn size(&self) -> (n: u64)
        requires
            self.hi() - self.lo() < u64::MAX,
        ensures
            n == self.hi() - self.lo() + 1,
    {
        proof {
            use_type_invariant(self);
        }
        self.end - self.start + 1
    }
}

/// The bounds of every interval of `s`, in the order start, end, start, end, ...
pub open spec fn endpoints(s: Seq<Interval>) -> Seq<u64>
    decreases s.len(),
{
    if s.len() == 0 {
        Seq::empty()
    } else {
        endpoints(s.drop_last()).push(s.last().lo()).push(s.last().hi())
    }
}

/// No value of `s` is followed by a smaller one.
pub open spec fn ascending(s: Seq<u64>) -> bool {
    forall|i: int, j: int| 0 <= i <= j < s.len() ==> s[i] <= s[j]
}

/// `c` is the upper median of the bounds of `s`: the value at index `len / 2` once all the
/// bounds are put in ascending order.
pub open spec fn is_median_endpoint(c: u64, s: Seq<Interval>) -> bool {
    exists|sorted: Seq<u64>|
        {
            &&& #[trigger] ascending(sorted)
            &&& sorted.to_multiset() == endpoints(s).to_multiset()
            &&& sorted.len() > 0
            &&& c == sorted[sorted.len() as int / 2]
        }
}

/// Each interval contributes two bounds.
proof fn lemma_endpoints_len(s: Seq<Interval>)
    ensures
        endpoints(s).len() == 2 * s.len(),
    decreases s.len(),
{
    if s.len() > 0 {
        lemma_endpoints_len(s.drop_last());
    }
}

/// Every value of `endpoints(s)` is a bound of some interval of `s`.
proof fn lemma_endpoint_has_owner(s: Seq<Interval>, c: u64)
    requires
        endpoints(s).contains(c),
    ensures
        exists|j: int| 0 <= j < s.len() && (#[trigger] s[j].lo() == c || s[j].hi() == c),
    decreases s.len(),
{
    if s.len() > 0 {
        let last = s.len() - 1;
        if s[last].lo() != c && s[last].hi() != c {
            lemma_endpoint_has_owner(s.drop_last(), c);
        }
    }
}

/// The median of the bounds is a bound of one of the intervals.
pub proof fn lemma_median_is_endpoint(c: u64, s: Seq<Interval>)
    requires
        is_median_endpoint(c, s),
    ensures
        exists|j: int| 0 <= j < s.len() && (#[trigger] s[j].lo() == c || s[j].hi() == c),
{
    broadcast use vstd::seq_lib::group_to_multiset_ensures;

    assert(endpoints(s).to_multiset().count(c) > 0);
    lemma_endpoint_has_owner(s, c);
}

/// `<[u64]>::sort` from std: afterwards the vector holds the same values, each as often as
/// before, and none is followed by a smaller one.
#[verifier::external_body]
fn sort_ascending(values: &mut Vec<u64>)
    ensures
        ascending(final(values)@),
        final(values)@.to_multiset() == old(values)@.to_multiset(),
{
    values.sort();
}

/// The pivot around which a non-empty set of intervals is split.
pub fn find_pivot(intervals: &[Interval]) -> (pivot: u64)
    requires
        intervals@.len() > 0,
    ensures
        is_median_endpoint(pivot, intervals@),
{
    let mut points: Vec<u64> = Vec::new();
    let mut i: usize = 0;
    while i < intervals.len()
        invariant
            i <= intervals@.len(),
            points@ == endpoints(intervals@.take(i as int)),
        decreases intervals@.len() - i,
    {
        let iv = intervals[i];
        points.push(iv.start);
        points.push(iv.end);
        proof {
            assert(intervals@.take(i + 1).drop_last() == intervals@.take(i as int));
        }
        i += 1;
    }
    assert(intervals@.take(i as int) == intervals@);
    sort_ascending(&mut points);
    proof {
        broadcast use vstd::seq_lib::group_to_multiset_ensures;

        lemma_endpoints_len(intervals@);
        assert(points@.len() == points@.to_multiset().len());
    }
    points[points.len() / 2]
}

/// The intervals of `s` that lie wholly below `c`, in their order in `s`.
pub open spec fn below(s: Seq<Interval>, c: u64) -> Seq<Interval> {
    s.filter(|iv: Interval| iv.hi() < c)
}

/// The intervals of `s` that lie wholly above `c`, in their order in `s`.
pub open spec fn above(s: Seq<Interval>, c: u64) -> Seq<Interval> {
    s.filter(|iv: Interval| iv.lo() > c)
}

/// The intervals of `s` that cover `c`, in their order in `s`.
pub open spec fn straddling(s: Seq<Interval>, c: u64) -> Seq<Interval> {
    s.filter(|iv: Interval| iv.lo() <= c <= iv.hi())
}

/// The intervals of `s` that start at `k`, in their order in `s`.
pub open spec fn starting_at(s: Seq<Interval>, k: u64) -> Seq<Interval> {
    s.filter(|iv: Interval| iv.lo() == k)
}

/// The intervals of `s` that end at `k`, in their order in `s`.
pub open spec fn ending_at(s: Seq<Interval>, k: u64) -> Seq<Interval> {
    s.filter(|iv: Interval| iv.hi() == k)
}

/// No interval of `s` is followed by one that starts earlier.
pub open spec fn ordered_by_start(s: Seq<Interval>) -> bool {
    forall|i: int, j: int| 0 <= i <= j < s.len() ==> s[i].lo() <= s[j].lo()
}

/// No interval of `s` is followed by one that ends earlier.
pub open spec fn ordered_by_end(s: Seq<Interval>) -> bool {
    forall|i: int, j: int| 0 <= i <= j < s.len() ==> s[i].hi() <= s[j].hi()
}

/// `out` is `inp` put in ascending order of start, intervals with equal starts keeping the
/// order they had in `inp`.
pub open spec fn stably_sorted_by_start(out: Seq<Interval>, inp: Seq<Interval>) -> bool {
    &&& out.to_multiset() == inp.to_multiset()
    &&& ordered_by_start(out)
    &&& forall|k: u64| #[trigger] starting_at(out, k) == starting_at(inp, k)
}

/// `out` is `inp` put in ascending order of end, intervals with equal ends keeping the order
/// they had in `inp`.
pub open spec fn stably_sorted_by_end(out: Seq<Interval>, inp: Seq<Interval>) -> bool {
    &&& out.to_multiset() == inp.to_multiset()
    &&& ordered_by_end(out)
    &&& forall|k: u64| #[trigger] ending_at(out, k) == ending_at(inp, k)
}

/// One of the two bounds of an interval, to sort by.
#[derive(Debug, Clone, Copy, PartialEq, Eq, Structural)]
pub enum Bound {
    Start,
    End,
}

/// `out` is `inp` put in ascending order of the bound `by`, intervals with equal bounds keeping
/// the order they had in `inp`.
pub open spec fn stably_sorted(out: Seq<Interval>, inp: Seq<Interval>, by: Bound) -> bool {
    match by {
        Bound::Start => stably_sorted_by_start(out, inp),
        Bound::End => stably_sorted_by_end(out, inp),
    }
}

/// `<[T]>::sort_by_key` from std, keyed by one bound of each interval. The sort is stable:
/// afterwards the vector holds the same intervals in ascending order of that bound, and those
/// with the same bound are in the order they had before.
#[verifier::external_body]
fn sort_by_bound(ivs: &mut Vec<Interval>, by: Bound)
    ensures
        stably_sorted(final(ivs)@, old(ivs)@, by),
{
    ivs.sort_by_key(|iv| iv.bound(by));
}

/// One node of the stabbing-query index: the intervals that cover `center`, kept in two
/// orders, and a subtree for each side of it.
pub struct IntervalTreeNode {
    center: u64,
    left_set: Option<Box<IntervalTreeNode>>,
    right_set: Option<Box<IntervalTreeNode>>,
    intervals_start: Vec<Interval>,
    intervals_end: Vec<Interval>,
}

/// The intervals held anywhere in `tree`, each as often as it is held.
pub open spec fn stored(tree: Option<Box<IntervalTreeNode>>) -> Multiset<Interval> {
    match tree {
        Some(node) => node@,
        None => Multiset::empty(),
    }
}

impl View for IntervalTreeNode {
    type V = Multiset<Interval>;

    /// The intervals held in this node and below it, each as often as it is held.
    closed spec fn view(&self) -> Multiset<Interval> {
        self.held()
    }
}

impl IntervalTreeNode {
    /// The intervals held in this node and below it, each as often as it is held.
    spec fn held(&self) -> Multiset<Interval>
        decreases self,
    {
        let on_left = match self.left_set {
            Some(node) => node.held(),
            None => Multiset::empty(),
        };
        let on_right = match self.right_set {
            Some(node) => node.held(),
            None => Multiset::empty(),
        };
        on_left.add(self.intervals_start@.to_multiset()).add(on_right)
    }

    /// The value this node splits around.
    pub closed spec fn center(&self) -> u64 {
        self.center
    }

    /// The subtree of the intervals that lie below the center.
    pub closed spec fn left(&self) -> Option<Box<IntervalTreeNode>> {
        self.left_set
    }

    /// The subtree of the intervals that lie above the center.
    pub closed spec fn right(&self) -> Option<Box<IntervalTreeNode>> {
        self.right_set
    }

    /// The intervals that cover the center, in ascending order of start.
    pub closed spec fn by_start(&self) -> Seq<Interval> {
        self.intervals_start@
    }

    /// The intervals that cover the center, in ascending order of end.
    pub closed spec fn by_end(&self) -> Seq<Interval> {
        self.intervals_end@
    }

    /// What every node that exists at run time satisfies: its own intervals cover the center
    /// and are the same in both orders, and the subtrees hold what lies to the sides.
    #[verifier::type_invariant]
    pub open spec fn wf(&self) -> bool {
        &&& forall|i: int|
            0 <= i < self.by_start().len() ==> (#[trigger] self.by_start()[i]).covers(
                self.center() as int,
            )
        &&& ordered_by_start(self.by_start())
        &&& ordered_by_end(self.by_end())
        &&& self.by_end().to_multiset() == self.by_start().to_multiset()
        &&& forall|iv: Interval| #[trigger] stored(self.left()).contains(iv) ==> iv.hi() < self.center()
        &&& forall|iv: Interval| #[trigger] stored(self.right()).contains(iv) ==> iv.lo() > self.center()
    }

    /// Whether some interval held in this node or below it covers `p`.
    pub open spec fn stabbed_at(&self, p: int) -> bool {
        exists|iv: Interval| #[trigger] self@.contains(iv) && iv.covers(p)
    }
}

/// `tree` is the index of `s`: empty for no intervals; otherwise a node around the median
/// bound of `s` that holds the intervals of `s` covering it, sorted stably by start and by end,
/// over the index of those below it and the index of those above it.
pub open spec fn is_tree_of(tree: Option<Box<IntervalTreeNode>>, s: Seq<Interval>) -> bool
    decreases tree,
{
    match tree {
        None => s.len() == 0,
        Some(node) => {
            &&& s.len() > 0
            &&& is_median_endpoint(node.center(), s)
            &&& stably_sorted_by_start(node.by_start(), straddling(s, node.center()))
            &&& stably_sorted_by_end(node.by_end(), straddling(s, node.center()))
            &&& is_tree_of(node.left(), below(s, node.center()))
            &&& is_tree_of(node.right(), above(s, node.center()))
        },
    }
}

/// An interval is held in a node exactly when it is one of those covering the center or is
/// held in one of the two subtrees.
proof fn lemma_held_here_or_below(node: IntervalTreeNode, iv: Interval)
    ensures
        node@.contains(iv) <==> (stored(node.left_set).contains(iv)
            || node.intervals_start@.contains(iv) || stored(node.right_set).contains(iv)),
{
    broadcast use vstd::seq_lib::group_to_multiset_ensures;
    broadcast use vstd::multiset::group_multiset_axioms;
}

/// Whether some interval of the tree covers `point`.
#[verifier::loop_isolation(false)]
pub fn overlap_any_point(node: Option<&IntervalTreeNode>, point: u64) -> (hit: bool)
    ensures
        hit <==> (node matches Some(n) && n.stabbed_at(point as int)),
    decreases node,
{
    let node = match node {
        Some(node) => node,
        None => {
            return false;
        },
    };
    proof {
        use_type_invariant(node);
        assert forall|iv: Interval| #[trigger] node@.contains(iv) implies (stored(
            node.left_set,
        ).contains(iv) || node.intervals_start@.contains(iv) || stored(node.right_set).contains(
            iv,
        )) by {
            lemma_held_here_or_below(*node, iv);
        }
    }
    if point < node.center {
        let mut i: usize = 0;
        while i < node.intervals_start.len() && node.intervals_start[i].start <= point
            invariant
                i <= node.intervals_start@.len(),
                forall|k: int| 0 <= k < i ==> !(#[trigger] node.intervals_start@[k]).covers(point as int),
            decreases node.intervals_start@.len() - i,
        {
            if node.intervals_start[i].intersects(point) {
                proof {
                    let found = node.intervals_start@[i as int];
                    lemma_held_here_or_below(*node, found);
                }
                return true;
            }
            i += 1;
        }
        let below = match &node.left_set {
            Some(child) => overlap_any_point(Some(&**child), point),
            None => false,
        };
        proof {
            if below {
                let child = node.left_set.unwrap();
                let found = choose|iv: Interval| #[trigger] child@.contains(iv) && iv.covers(point as int);
                lemma_held_here_or_below(*node, found);
            }
        }
        below
    } else if point > node.center {
        let mut i: usize = node.intervals_end.len();
        while i > 0 && node.intervals_end[i - 1].end >= point
            invariant
                i <= node.intervals_end@.len(),
                forall|k: int|
                    i <= k < node.intervals_end@.len() ==> !(#[trigger] node.intervals_end@[k]).covers(
                        point as int,
                    ),
            decreases i,
        {
            if node.intervals_end[i - 1].intersects(point) {
                proof {
                    broadcast use vstd::seq_lib::group_to_multiset_ensures;

                    let found = node.intervals_end@[i - 1];
                    lemma_held_here_or_below(*node, found);
                }
                return true;
            }
            i -= 1;
        }
        let above = match &node.right_set {
            Some(child) => overlap_any_point(Some(&**child), point),
            None => false,
        };
        proof {
            broadcast use vstd::seq_lib::group_to_multiset_ensures;

            assert forall|iv: Interval| node.intervals_start@.contains(iv) implies !iv.covers(
                point as int,
            ) by {
                assert(node.intervals_start@.to_multiset().count(iv) > 0);
            }
            if above {
                let child = node.right_set.unwrap();
                let found = choose|iv: Interval| #[trigger] child@.contains(iv) && iv.covers(point as int);
                lemma_held_here_or_below(*node, found);
            }
        }
        above
    } else {
        let any = !node.intervals_start.is_empty();
        proof {
            if any {
                let found = node.intervals_start@[0];
                lemma_held_here_or_below(*node, found);
            }
        }
        any
    }
}

/// Every interval of `s` satisfies the interval invariant.
pub open spec fn all_wf(s: Seq<Interval>) -> bool {
    forall|i: int| 0 <= i < s.len() ==> (#[trigger] s[i]).wf()
}

/// Splitting around `c` puts every interval in exactly one of the three parts.
proof fn lemma_split_keeps_all(s: Seq<Interval>, c: u64)
    requires
        all_wf(s),
    ensures
        s.to_multiset() == below(s, c).to_multiset().add(straddling(s, c).to_multiset()).add(
            above(s, c).to_multiset(),
        ),
        s.len() == below(s, c).len() + straddling(s, c).len() + above(s, c).len(),
    decreases s.len(),
{
    broadcast use vstd::seq_lib::group_to_multiset_ensures;
    broadcast use vstd::multiset::group_multiset_axioms;

    if s.len() == 0 {
        reveal(Seq::filter);
    } else {
        let init = s.drop_last();
        let iv = s.last();
        assert(init.push(iv) == s);
        lemma_split_keeps_all(init, c);
        init.lemma_filter_push(iv, |iv: Interval| iv.hi() < c);
        init.lemma_filter_push(iv, |iv: Interval| iv.lo() > c);
        init.lemma_filter_push(iv, |iv: Interval| iv.lo() <= c <= iv.hi());
        assert(s.to_multiset() =~= below(s, c).to_multiset().add(
            straddling(s, c).to_multiset(),
        ).add(above(s, c).to_multiset()));
    }
}

/// Every interval of a part of `s` is an interval of `s`, so the parts of valid intervals are
/// valid.
proof fn lemma_parts_wf(s: Seq<Interval>, c: u64)
    requires
        all_wf(s),
    ensures
        all_wf(below(s, c)),
        all_wf(above(s, c)),
        all_wf(straddling(s, c)),
    decreases s.len(),
{
    if s.len() == 0 {
        reveal(Seq::filter);
    } else {
        let init = s.drop_last();
        let iv = s.last();
        assert(init.push(iv) == s);
        lemma_parts_wf(init, c);
        init.lemma_filter_push(iv, |iv: Interval| iv.hi() < c);
        init.lemma_filter_push(iv, |iv: Interval| iv.lo() > c);
        init.lemma_filter_push(iv, |iv: Interval| iv.lo() <= c <= iv.hi());
    }
}

/// The index of `s` holds the intervals of `s`, each as often as `s` does.
pub proof fn lemma_tree_holds_its_intervals(tree: Option<Box<IntervalTreeNode>>, s: Seq<Interval>)
    requires
        is_tree_of(tree, s),
        all_wf(s),
    ensures
        stored(tree) == s.to_multiset(),
    decreases tree,
{
    broadcast use vstd::seq_lib::group_to_multiset_ensures;

    match tree {
        None => {
        },
        Some(node) => {
            let c = node.center();
            lemma_split_keeps_all(s, c);
            lemma_parts_wf(s, c);
            lemma_tree_holds_its_intervals(node.left(), below(s, c));
            lemma_tree_holds_its_intervals(node.right(), above(s, c));
        },
    }
}

/// Builds the stabbing-query index of `intervals`.
pub fn construct_interval_node(intervals: Vec<Interval>) -> (root: Option<Box<IntervalTreeNode>>)
    ensures
        is_tree_of(root, intervals@),
        stored(root) == intervals@.to_multiset(),
    decreases intervals@.len(),
{
    if intervals.is_empty() {
        assert(intervals@.to_multiset() =~= Multiset::empty()) by {
            broadcast use vstd::seq_lib::group_to_multiset_ensures;
        }
        return None;
    }
    let pivot = find_pivot(intervals.as_slice());

    let mut left_ivs: Vec<Interval> = Vec::new();
    let mut right_ivs: Vec<Interval> = Vec::new();
    let mut ivs_start: Vec<Interval> = Vec::new();
    let mut ivs_end: Vec<Interval> = Vec::new();
    let mut i: usize = 0;
    proof {
        reveal(Seq::filter);
    }
    while i < intervals.len()
        invariant
            i <= intervals@.len(),
            left_ivs@ == below(intervals@.take(i as int), pivot),
            right_ivs@ == above(intervals@.take(i as int), pivot),
            ivs_start@ == straddling(intervals@.take(i as int), pivot),
            ivs_end@ == ivs_start@,
            all_wf(intervals@.take(i as int)),
        decreases intervals@.len() - i,
    {
        let iv = intervals[i];
        proof {
            use_type_invariant(&iv);
            let seen = intervals@.take(i as int);
            assert(intervals@.take(i + 1) == seen.push(iv));
            seen.lemma_filter_push(iv, |iv: Interval| iv.hi() < pivot);
            seen.lemma_filter_push(iv, |iv: Interval| iv.lo() > pivot);
            seen.lemma_filter_push(iv, |iv: Interval| iv.lo() <= pivot <= iv.hi());
        }
        if iv.end < pivot {
            left_ivs.push(iv);
        } else if iv.start > pivot {
            right_ivs.push(iv);
        } else {
            ivs_start.push(iv);
            ivs_end.push(iv);
        }
        i += 1;
    }
    let ghost middle = straddling(intervals@, pivot);
    proof {
        broadcast use vstd::seq_lib::group_to_multiset_ensures;
        broadcast use vstd::seq_lib::group_filter_ensures;

        assert(intervals@.take(i as int) == intervals@);
        lemma_split_keeps_all(intervals@, pivot);
        lemma_parts_wf(intervals@, pivot);
        lemma_median_is_endpoint(pivot, intervals@);
        let j = choose|j: int|
            0 <= j < intervals@.len() && (#[trigger] intervals@[j].lo() == pivot
                || intervals@[j].hi() == pivot);
        assert(middle.contains(intervals@[j]));
    }
    sort_by_bound(&mut ivs_start, Bound::Start);
    sort_by_bound(&mut ivs_end, Bound::End);

    let left_set = construct_interval_node(left_ivs);
    let right_set = construct_interval_node(right_ivs);
    proof {
        broadcast use vstd::seq_lib::group_to_multiset_ensures;
        broadcast use vstd::seq_lib::group_filter_ensures;

        assert forall|k: int| 0 <= k < ivs_start@.len() implies (#[trigger] ivs_start@[k]).covers(
            pivot as int,
        ) by {
            let iv = ivs_start@[k];
            assert(middle.to_multiset().count(iv) > 0);
        }
    }
    let root = Some(
        Box::new(
            IntervalTreeNode {
                center: pivot,
                left_set,
                right_set,
                intervals_start: ivs_start,
                intervals_end: ivs_end,
            },
        ),
    );
    proof {
        lemma_tree_holds_its_intervals(root, intervals@);
    }
    root
}

/// Whether some interval of `s` covers `p`.
pub open spec fn covers_point(s: Seq<Interval>, p: int) -> bool {
    exists|i: int| 0 <= i < s.len() && (#[trigger] s[i]).covers(p)
}

/// The integers covered by at least one interval of `s`.
pub open spec fn covered_points(s: Seq<Interval>) -> Set<int> {
    Set::new(|p: int| covers_point(s, p))
}

/// Whether some interval of `s` covers both `c` and `c + 1`.
pub open spec fn bridges(s: Seq<Interval>, c: int) -> bool {
    exists|j: int| 0 <= j < s.len() && (#[trigger] s[j]).lo() <= c < s[j].hi()
}

/// Whether `iv` lies inside a single interval of `out`.
pub open spec fn lies_within(iv: Interval, out: Seq<Interval>) -> bool {
    exists|i: int| 0 <= i < out.len() && (#[trigger] out[i]).lo() <= iv.lo() && iv.hi() <= out[i].hi()
}

/// The intervals of `s` are valid, ascend, and each ends before the next one starts.
pub open spec fn is_disjoint_cover(s: Seq<Interval>) -> bool {
    &&& all_wf(s)
    &&& forall|i: int, j: int| 0 <= i < j < s.len() ==> s[i].hi() < s[j].lo()
}

/// `out` is the canonical disjoint cover of `s`: a disjoint ascending sequence that covers the
/// same integers as `s`, keeps every interval of `s` in one piece, and has no interval that
/// could be cut in two without cutting an interval of `s`.
pub open spec fn is_merge_of(out: Seq<Interval>, s: Seq<Interval>) -> bool {
    &&& is_disjoint_cover(out)
    &&& forall|p: int|
        #![trigger covers_point(out, p)]
        #![trigger covers_point(s, p)]
        covers_point(out, p) <==> covers_point(s, p)
    &&& forall|j: int| 0 <= j < s.len() ==> lies_within(#[trigger] s[j], out)
    &&& forall|i: int, c: int|
        0 <= i < out.len() && (#[trigger] out[i]).lo() <= c < out[i].hi() ==> #[trigger] bridges(
            s,
            c,
        )
}

/// The number of integers in all the intervals of `s`, counted interval by interval.
pub open spec fn total_size(s: Seq<Interval>) -> int
    decreases s.len(),
{
    if s.len() == 0 {
        0
    } else {
        total_size(s.drop_last()) + (s.last().hi() - s.last().lo() + 1)
    }
}

/// An interval that starts after everything merged so far opens a new piece.
proof fn lemma_merge_opens(cur: Seq<Interval>, seen: Seq<Interval>, iv: Interval)
    requires
        is_merge_of(cur, seen),
        cur.len() > 0,
        iv.wf(),
        cur.last().hi() < iv.lo(),
        forall|j: int| 0 <= j < cur.len() ==> (#[trigger] cur[j]).lo() <= iv.lo(),
    ensures
        is_merge_of(cur.push(iv), seen.push(iv)),
{
    let out = cur.push(iv);
    let all = seen.push(iv);
    let last = cur.len() as int;
    assert(out[last] == iv);
    assert(all[seen.len() as int] == iv);
    assert forall|p: int|
        #![trigger covers_point(out, p)]
        #![trigger covers_point(all, p)]
        covers_point(out, p) <==> covers_point(all, p) by {
        if covers_point(out, p) {
            let i = choose|i: int| 0 <= i < out.len() && (#[trigger] out[i]).covers(p);
            if i < last {
                assert(covers_point(seen, p));
                let j = choose|j: int| 0 <= j < seen.len() && (#[trigger] seen[j]).covers(p);
                assert(all[j].covers(p));
            }
        }
        if covers_point(all, p) {
            let j = choose|j: int| 0 <= j < all.len() && (#[trigger] all[j]).covers(p);
            if j < seen.len() {
                let i = choose|i: int| 0 <= i < cur.len() && (#[trigger] cur[i]).covers(p);
                assert(out[i].covers(p));
            }
        }
    }
    assert forall|j: int| 0 <= j < all.len() implies lies_within(#[trigger] all[j], out) by {
        if j < seen.len() {
            let i = choose|i: int|
                0 <= i < cur.len() && (#[trigger] cur[i]).lo() <= seen[j].lo() && seen[j].hi()
                    <= cur[i].hi();
            assert(out[i] == cur[i]);
        }
    }
    assert forall|i: int, c: int|
        0 <= i < out.len() && (#[trigger] out[i]).lo() <= c < out[i].hi() implies #[trigger] bridges(
        all,
        c,
    ) by {
        if i < last {
            assert(bridges(seen, c));
            let j = choose|j: int| 0 <= j < seen.len() && (#[trigger] seen[j]).lo() <= c < seen[j].hi();
            assert(all[j] == seen[j]);
        }
    }
}

/// An interval that starts inside the last piece and ends after it stretches that piece.
proof fn lemma_merge_stretches(cur: Seq<Interval>, seen: Seq<Interval>, iv: Interval)
    requires
        is_merge_of(cur, seen),
        cur.len() > 0,
        iv.wf(),
        cur.last().lo() <= iv.lo() <= cur.last().hi() < iv.hi(),
    ensures
        is_merge_of(
            cur.drop_last().push(Interval { start: cur.last().lo(), end: iv.hi() }),
            seen.push(iv),
        ),
{
    let wide = Interval { start: cur.last().lo(), end: iv.hi() };
    let out = cur.drop_last().push(wide);
    let all = seen.push(iv);
    let last = cur.len() - 1;
    assert(out[last] == wide);
    assert(all[seen.len() as int] == iv);
    assert forall|p: int|
        #![trigger covers_point(out, p)]
        #![trigger covers_point(all, p)]
        covers_point(out, p) <==> covers_point(all, p) by {
        if covers_point(out, p) {
            let i = choose|i: int| 0 <= i < out.len() && (#[trigger] out[i]).covers(p);
            if i < last || p <= cur[last].hi() {
                assert(covers_point(seen, p));
                let j = choose|j: int| 0 <= j < seen.len() && (#[trigger] seen[j]).covers(p);
                assert(all[j].covers(p));
            }
        }
        if covers_point(all, p) {
            let j = choose|j: int| 0 <= j < all.len() && (#[trigger] all[j]).covers(p);
            if j < seen.len() {
                let i = choose|i: int| 0 <= i < cur.len() && (#[trigger] cur[i]).covers(p);
                assert(out[i].covers(p));
            }
        }
    }
    assert forall|j: int| 0 <= j < all.len() implies lies_within(#[trigger] all[j], out) by {
        if j < seen.len() {
            let i = choose|i: int|
                0 <= i < cur.len() && (#[trigger] cur[i]).lo() <= seen[j].lo() && seen[j].hi()
                    <= cur[i].hi();
            assert(out[i].lo() <= seen[j].lo() && seen[j].hi() <= out[i].hi());
        }
    }
    assert forall|i: int, c: int|
        0 <= i < out.len() && (#[trigger] out[i]).lo() <= c < out[i].hi() implies #[trigger] bridges(
        all,
        c,
    ) by {
        if i < last || c < cur[last].hi() {
            assert(bridges(seen, c));
            let j = choose|j: int| 0 <= j < seen.len() && (#[trigger] seen[j]).lo() <= c < seen[j].hi();
            assert(all[j] == seen[j]);
        }
    }
}

/// An interval that lies inside the last piece changes nothing.
proof fn lemma_merge_absorbs(cur: Seq<Interval>, seen: Seq<Interval>, iv: Interval)
    requires
        is_merge_of(cur, seen),
        cur.len() > 0,
        iv.wf(),
        cur.last().lo() <= iv.lo(),
        iv.hi() <= cur.last().hi(),
    ensures
        is_merge_of(cur, seen.push(iv)),
{
    let all = seen.push(iv);
    assert forall|p: int|
        #![trigger covers_point(cur, p)]
        #![trigger covers_point(all, p)]
        covers_point(cur, p) <==> covers_point(all, p) by {
        if covers_point(cur, p) {
            let j = choose|j: int| 0 <= j < seen.len() && (#[trigger] seen[j]).covers(p);
            assert(all[j].covers(p));
        }
    }
    assert forall|i: int, c: int|
        0 <= i < cur.len() && (#[trigger] cur[i]).lo() <= c < cur[i].hi() implies #[trigger] bridges(
        all,
        c,
    ) by {
        assert(bridges(seen, c));
        let j = choose|j: int| 0 <= j < seen.len() && (#[trigger] seen[j]).lo() <= c < seen[j].hi();
        assert(all[j] == seen[j]);
    }
}

/// What a sequence merges to depends only on which intervals it holds, not on their order.
proof fn lemma_merge_ignores_order(out: Seq<Interval>, a: Seq<Interval>, b: Seq<Interval>)
    requires
        is_merge_of(out, a),
        a.to_multiset() == b.to_multiset(),
    ensures
        is_merge_of(out, b),
{
    broadcast use vstd::seq_lib::group_to_multiset_ensures;

    assert forall|j: int| 0 <= j < b.len() implies a.contains(#[trigger] b[j]) by {
        assert(b.to_multiset().count(b[j]) > 0);
    }
    assert forall|j: int| 0 <= j < a.len() implies b.contains(#[trigger] a[j]) by {
        assert(a.to_multiset().count(a[j]) > 0);
    }
    assert forall|i: int, c: int|
        0 <= i < out.len() && (#[trigger] out[i]).lo() <= c < out[i].hi() implies #[trigger] bridges(
        b,
        c,
    ) by {
        assert(bridges(a, c));
    }
}

/// Merges overlapping intervals into the canonical disjoint cover of what they cover.
pub fn union(intervals: Vec<Interval>) -> (set: Vec<Interval>)
    ensures
        is_merge_of(set@, intervals@),
        is_disjoint_cover(set@),
        ordered_by_start(set@),
        covered_points(set@) == covered_points(intervals@),
        set@.len() == 0 <==> intervals@.len() == 0,
{
    let mut sorted = intervals;
    let mut set: Vec<Interval> = Vec::new();
    if sorted.is_empty() {
        return set;
    }
    sort_by_bound(&mut sorted, Bound::Start);
    proof {
        broadcast use vstd::seq_lib::group_to_multiset_ensures;

        assert(sorted@.len() == sorted@.to_multiset().len());
    }
    let first = sorted[0];
    let mut low = first.start;
    let mut high = first.end;
    let mut k: usize = 1;
    proof {
        use_type_invariant(&first);
        let cur = set@.push(Interval { start: low, end: high });
        let seen = sorted@.take(1);
        assert(cur[0] == first);
        assert(seen[0] == first);
    }
    while k < sorted.len()
        invariant
            1 <= k <= sorted@.len(),
            low <= high,
            ordered_by_start(sorted@),
            is_merge_of(set@.push(Interval { start: low, end: high }), sorted@.take(k as int)),
            forall|j: int| 0 <= j < set@.len() ==> (#[trigger] set@[j]).lo() <= low,
            forall|j: int| k <= j < sorted@.len() ==> low <= (#[trigger] sorted@[j]).lo(),
        decreases sorted@.len() - k,
    {
        let iv = sorted[k];
        let ghost cur = set@.push(Interval { start: low, end: high });
        let ghost seen = sorted@.take(k as int);
        proof {
            use_type_invariant(&iv);
            assert(sorted@.take(k + 1) == seen.push(iv));
        }
        if iv.start > high {
            proof {
                lemma_merge_opens(cur, seen, iv);
            }
            set.push(Interval { start: low, end: high });
            low = iv.start;
            high = iv.end;
        } else if iv.end > high {
            proof {
                lemma_merge_stretches(cur, seen, iv);
                assert(cur.drop_last() == set@);
            }
            high = iv.end;
        } else {
            proof {
                lemma_merge_absorbs(cur, seen, iv);
            }
        }
        k += 1;
    }
    set.push(Interval { start: low, end: high });
    proof {
        assert(sorted@.take(k as int) == sorted@);
        lemma_merge_ignores_order(set@, sorted@, intervals@);
    }
    set
}

/// The index of `s` is stabbed at a point exactly when some interval of `s` covers that point:
/// a query on the index answers as a scan of `s` would.
pub proof fn lemma_index_agrees_with_scan(
    tree: Option<Box<IntervalTreeNode>>,
    s: Seq<Interval>,
    p: int,
)
    requires
        is_tree_of(tree, s),
        all_wf(s),
    ensures
        (tree matches Some(node) && node.stabbed_at(p)) <==> covers_point(s, p),
{
    lemma_tree_holds_its_intervals(tree, s);
    lemma_stored_agrees_with_scan(tree, s, p);
}

/// Disjoint intervals cover as many integers as their sizes add up to.
pub proof fn lemma_disjoint_sizes_add_up(out: Seq<Interval>)
    requires
        is_disjoint_cover(out),
    ensures
        covered_points(out).finite(),
        covered_points(out).len() == total_size(out),
    decreases out.len(),
{
    if out.len() == 0 {
        assert(covered_points(out) =~= Set::empty());
    } else {
        let init = out.drop_last();
        let iv = out.last();
        let last = out.len() - 1;
        lemma_disjoint_sizes_add_up(init);
        let range = vstd::set_lib::set_int_range(iv.lo() as int, iv.hi() + 1);
        vstd::set_lib::lemma_int_range(iv.lo() as int, iv.hi() + 1);
        assert forall|p: int| covered_points(out).contains(p) <==> covered_points(init).union(
            range,
        ).contains(p) by {
            if covers_point(out, p) {
                let i = choose|i: int| 0 <= i < out.len() && (#[trigger] out[i]).covers(p);
                if i < last {
                    assert(init[i].covers(p));
                }
            }
        }
        assert(covered_points(out) =~= covered_points(init).union(range));
        vstd::set_lib::lemma_set_disjoint_lens(covered_points(init), range);
    }
}

/// The sizes of the canonical disjoint cover of `s` add up to the number of distinct integers
/// that `s` covers.
pub proof fn lemma_merged_sizes_count_coverage(out: Seq<Interval>, s: Seq<Interval>)
    requires
        is_merge_of(out, s),
    ensures
        covered_points(s).finite(),
        total_size(out) == covered_points(s).len(),
{
    lemma_disjoint_sizes_add_up(out);
    assert(covered_points(out) =~= covered_points(s));
}

/// In two canonical disjoint covers of the same sequence, every piece of the one lies inside a
/// piece of the other.
proof fn lemma_piece_inside_piece(a: Seq<Interval>, b: Seq<Interval>, s: Seq<Interval>, i: int)
    requires
        is_merge_of(a, s),
        is_merge_of(b, s),
        0 <= i < a.len(),
    ensures
        lies_within(a[i], b),
{
    let edge = a[i].lo() as int;
    assert(covers_point(a, edge));
    let j = choose|j: int| 0 <= j < s.len() && (#[trigger] s[j]).covers(edge);
    let k = choose|k: int|
        0 <= k < b.len() && (#[trigger] b[k]).lo() <= s[j].lo() && s[j].hi() <= b[k].hi();
    if a[i].hi() > b[k].hi() {
        let c = b[k].hi() as int;
        assert(bridges(s, c));
    }
}

/// In two canonical disjoint covers of the same sequence, every piece of the one is a piece of
/// the other.
proof fn lemma_piece_shared(a: Seq<Interval>, b: Seq<Interval>, s: Seq<Interval>, i: int)
    requires
        is_merge_of(a, s),
        is_merge_of(b, s),
        0 <= i < a.len(),
    ensures
        b.contains(a[i]),
{
    lemma_piece_inside_piece(a, b, s, i);
    let k = choose|k: int|
        0 <= k < b.len() && (#[trigger] b[k]).lo() <= a[i].lo() && a[i].hi() <= b[k].hi();
    lemma_piece_inside_piece(b, a, s, k);
}

/// Two disjoint ascending sequences made of the same intervals are the same sequence.
proof fn lemma_same_pieces_same_cover(a: Seq<Interval>, b: Seq<Interval>)
    requires
        is_disjoint_cover(a),
        is_disjoint_cover(b),
        forall|i: int| 0 <= i < a.len() ==> b.contains(#[trigger] a[i]),
        forall|k: int| 0 <= k < b.len() ==> a.contains(#[trigger] b[k]),
    ensures
        a == b,
    decreases a.len(),
{
    if a.len() == 0 {
        if b.len() > 0 {
            assert(a.contains(b[0]));
        }
    } else {
        // The last piece of each cover is its rightmost piece, so the two are the same.
        let la = a.len() - 1;
        let lb = b.len() - 1;
        let ka = choose|k: int| 0 <= k < b.len() && b[k] == a[la];
        let kb = choose|k: int| 0 <= k < a.len() && a[k] == b[lb];
        assert(a[la].wf() && b[lb].wf());
        if ka < lb && kb < la {
            assert(b[ka].hi() < b[lb].lo());
            assert(a[kb].hi() < a[la].lo());
        }
        assert(a[la] == b[lb]);
        // What comes before the last piece is made of the same pieces in both.
        let ia = a.drop_last();
        let ib = b.drop_last();
        assert forall|i: int| 0 <= i < ia.len() implies ib.contains(#[trigger] ia[i]) by {
            let k = choose|k: int| 0 <= k < b.len() && b[k] == a[i];
            assert(a[i].hi() < a[la].lo());
            assert(ib[k] == ia[i]);
        }
        assert forall|k: int| 0 <= k < ib.len() implies ia.contains(#[trigger] ib[k]) by {
            let i = choose|i: int| 0 <= i < a.len() && a[i] == b[k];
            assert(b[k].hi() < b[lb].lo());
            assert(ia[i] == ib[k]);
        }
        lemma_same_pieces_same_cover(ia, ib);
        assert(a =~= ia.push(a[la]));
    }
}

/// A sequence has only one canonical disjoint cover.
pub proof fn lemma_merge_is_unique(a: Seq<Interval>, b: Seq<Interval>, s: Seq<Interval>)
    requires
        is_merge_of(a, s),
        is_merge_of(b, s),
    ensures
        a == b,
{
    assert forall|i: int| 0 <= i < a.len() implies b.contains(#[trigger] a[i]) by {
        lemma_piece_shared(a, b, s, i);
    }
    assert forall|k: int| 0 <= k < b.len() implies a.contains(#[trigger] b[k]) by {
        lemma_piece_shared(b, a, s, k);
    }
    lemma_same_pieces_same_cover(a, b);
}

/// A disjoint ascending sequence is its own canonical disjoint cover.
pub proof fn lemma_cover_is_own_merge(m: Seq<Interval>)
    requires
        is_disjoint_cover(m),
    ensures
        is_merge_of(m, m),
{
}

/// Merging is idempotent: the canonical disjoint cover of a canonical disjoint cover is that
/// cover again.
pub proof fn lemma_merge_is_idempotent(s: Seq<Interval>, once: Seq<Interval>, twice: Seq<Interval>)
    requires
        is_merge_of(once, s),
        is_merge_of(twice, once),
    ensures
        twice == once,
{
    lemma_cover_is_own_merge(once);
    lemma_merge_is_unique(twice, once, once);
}

/// Whether none of the lines up to and including line `k` is blank.
pub open spec fn no_blank_through(lines: Seq<Seq<u8>>, k: int) -> bool {
    forall|j: int| 0 <= j <= k ==> (#[trigger] lines[j]).len() > 0
}

/// Whether line `k` is of the form that its place asks for: an interval before the first blank
/// line, and after it a blank line or an unsigned number that fits in 64 bits.
pub open spec fn line_ok(lines: Seq<Seq<u8>>, k: int) -> bool {
    if no_blank_through(lines, k) {
        interval_of(lines[k]).is_ok()
    } else {
        lines[k].len() == 0 || is_bound(lines[k])
    }
}

/// The numbers on the lines of `rest` that are not blank, in order.
pub open spec fn id_values(rest: Seq<Seq<u8>>) -> Seq<u64>
    decreases rest.len(),
{
    if rest.len() == 0 {
        Seq::empty()
    } else if rest.last().len() == 0 {
        id_values(rest.drop_last())
    } else {
        id_values(rest.drop_last()).push(unsigned_value(rest.last()) as u64)
    }
}

/// Reads the intervals and the points that `content` lists: one interval on each line up to
/// the first blank line, then one point on each line that is not blank.
pub fn read_input(content: &str) -> (parsed: Result<(Vec<Interval>, Vec<u64>), Malformed>)
    ensures
        match parsed {
            Ok((intervals, ids)) => {
                let all = lines_of(content.spec_bytes());
                let cut = intervals@.len() as int;
                &&& cut <= all.len()
                &&& cut > 0 ==> no_blank_through(all, cut - 1)
                &&& cut < all.len() ==> all[cut].len() == 0
                &&& forall|k: int|
                    0 <= k < cut ==> interval_of(#[trigger] all[k]) == Ok::<
                        (u64, u64),
                        IntervalError,
                    >((intervals@[k].lo(), intervals@[k].hi()))
                &&& forall|k: int| cut <= k < all.len() ==> line_ok(all, k)
                &&& ids@ == id_values(all.skip(cut))
            },
            Err(Malformed { at }) => {
                let all = lines_of(content.spec_bytes());
                &&& at < all.len()
                &&& !line_ok(all, at as int)
                &&& forall|k: int| 0 <= k < at ==> line_ok(all, k)
            },
        },
{
    let found = lines(content.as_bytes());
    let ghost all = lines_of(content.spec_bytes());
    let mut intervals: Vec<Interval> = Vec::new();
    let mut ids: Vec<u64> = Vec::new();
    let mut intervals_end = false;
    let ghost mut cut: int = 0;
    let mut i: usize = 0;
    while i < found.len()
        invariant
            i <= found@.len(),
            contents(found@) == all,
            all == lines_of(content.spec_bytes()),
            !intervals_end ==> cut == i && intervals@.len() == i && (i > 0 ==> no_blank_through(
                all,
                i - 1,
            )) && ids@.len() == 0,
            intervals_end ==> cut < i && cut == intervals@.len() && all[cut].len() == 0 && (cut > 0
                ==> no_blank_through(all, cut - 1)),
            forall|k: int|
                0 <= k < intervals@.len() ==> interval_of(#[trigger] all[k]) == Ok::<
                    (u64, u64),
                    IntervalError,
                >((intervals@[k].lo(), intervals@[k].hi())),
            forall|k: int| 0 <= k < i ==> line_ok(all, k),
            intervals_end ==> ids@ == id_values(all.skip(cut).take(i - cut)),
        decreases found@.len() - i,
    {
        let line = found[i];
        proof {
            if intervals_end {
                let rest = all.skip(cut);
                assert(rest.take(i + 1 - cut).drop_last() == rest.take(i - cut));
            }
        }
        if line.len() == 0 {
            if !intervals_end {
                proof {
                    cut = i as int;
                    reveal_with_fuel(id_values, 2);
                }
            }
            intervals_end = true;
        } else if intervals_end {
            match parse_unsigned(line, u64::MAX) {
                Some(id) => {
                    ids.push(id);
                },
                None => {
                    return Err(Malformed { at: i });
                },
            }
        } else {
            match Interval::parse(line) {
                Ok(iv) => {
                    intervals.push(iv);
                    proof {
                        cut = i + 1;
                    }
                },
                Err(_) => {
                    return Err(Malformed { at: i });
                },
            }
        }
        i += 1;
    }
    proof {
        if intervals_end {
            assert(all.skip(cut).take(i - cut) == all.skip(cut));
        }
    }
    Ok((intervals, ids))
}

/// Why a list of intervals and points has no answers.
#[derive(Debug, Clone, Copy, PartialEq, Eq, Structural)]
pub enum SolveError {
    /// There are no intervals, and so there is no index to query.
    NoIntervals,
    /// The intervals cover more integers than 64 bits can count.
    TooLarge,
}

/// How many of `points` are covered by some interval of `s`.
pub open spec fn count_covered(points: Seq<u64>, s: Seq<Interval>) -> nat
    decreases points.len(),
{
    if points.len() == 0 {
        0
    } else {
        count_covered(points.drop_last(), s) + if covers_point(s, points.last() as int) {
            1nat
        } else {
            0nat
        }
    }
}

/// The sizes of more intervals add up to no less.
proof fn lemma_total_size_grows(s: Seq<Interval>, k: int)
    requires
        all_wf(s),
        0 <= k <= s.len(),
    ensures
        total_size(s.take(k)) <= total_size(s),
    decreases s.len() - k,
{
    if k < s.len() {
        lemma_total_size_grows(s.drop_last(), k);
        assert(s.drop_last().take(k) == s.take(k));
    } else {
        assert(s.take(k) == s);
    }
}

/// A tree that holds the intervals of `s` is stabbed exactly where `s` covers.
proof fn lemma_stored_agrees_with_scan(
    tree: Option<Box<IntervalTreeNode>>,
    s: Seq<Interval>,
    p: int,
)
    requires
        stored(tree) == s.to_multiset(),
    ensures
        (tree matches Some(node) && node.stabbed_at(p)) <==> covers_point(s, p),
{
    broadcast use vstd::seq_lib::group_to_multiset_ensures;

    if covers_point(s, p) {
        let i = choose|i: int| 0 <= i < s.len() && (#[trigger] s[i]).covers(p);
        let node = tree.unwrap();
        assert(node@.contains(s[i]) && s[i].covers(p));
    }
}

/// A copy of `intervals`.
fn duplicate(intervals: &Vec<Interval>) -> (copy: Vec<Interval>)
    ensures
        copy@ == intervals@,
{
    let mut copy: Vec<Interval> = Vec::new();
    let mut i: usize = 0;
    while i < intervals.len()
        invariant
            i <= intervals@.len(),
            copy@ == intervals@.take(i as int),
        decreases intervals@.len() - i,
    {
        copy.push(intervals[i]);
        i += 1;
    }
    copy
}

/// The two answers for `intervals` and `input_points`: how many of the points some interval
/// covers, and how many integers the intervals cover in all.
pub fn solve(intervals: Vec<Interval>, input_points: Vec<u64>) -> (answers: Result<
    (u64, u64),
    SolveError,
>)
    ensures
        intervals@.len() == 0 ==> answers == Err::<(u64, u64), SolveError>(
            SolveError::NoIntervals,
        ),
        intervals@.len() > 0 ==> covered_points(intervals@).finite() && answers == if covered_points(
            intervals@,
        ).len() <= u64::MAX {
            Ok::<(u64, u64), SolveError>(
                (
                    count_covered(input_points@, intervals@) as u64,
                    covered_points(intervals@).len() as u64,
                ),
            )
        } else {
            Err::<(u64, u64), SolveError>(SolveError::TooLarge)
        },
{
    let ghost s = intervals@;
    let root = match construct_interval_node(duplicate(&intervals)) {
        Some(root) => root,
        None => {
            return Err(SolveError::NoIntervals);
        },
    };
    let mut total_fresh_ingredients: u64 = 0;
    let mut i: usize = 0;
    while i < input_points.len()
        invariant
            i <= input_points@.len(),
            stored(Some(root)) == s.to_multiset(),
            total_fresh_ingredients == count_covered(input_points@.take(i as int), s),
            total_fresh_ingredients <= i,
        decreases input_points@.len() - i,
    {
        let point = input_points[i];
        proof {
            assert(input_points@.take(i + 1).drop_last() == input_points@.take(i as int));
            lemma_stored_agrees_with_scan(Some(root), s, point as int);
        }
        if overlap_any_point(Some(&root), point) {
            total_fresh_ingredients += 1;
        }
        i += 1;
    }
    assert(input_points@.take(i as int) == input_points@);

    let set = union(intervals);
    proof {
        lemma_merged_sizes_count_coverage(set@, s);
    }
    let mut total_range: u64 = 0;
    let mut i: usize = 0;
    while i < set.len()
        invariant
            i <= set@.len(),
            all_wf(set@),
            total_range == total_size(set@.take(i as int)),
            s == intervals@,
            s.len() > 0,
            covered_points(s).finite(),
            total_size(set@) == covered_points(s).len(),
        decreases set@.len() - i,
    {
        let iv = set[i];
        proof {
            assert(set@.take(i + 1).drop_last() == set@.take(i as int));
            lemma_total_size_grows(set@, i + 1);
        }
        if iv.end() - iv.start() == u64::MAX {
            return Err(SolveError::TooLarge);
        }
        total_range = match total_range.checked_add(iv.size()) {
            Some(sum) => sum,
            None => {
                return Err(SolveError::TooLarge);
            },
        };
        i += 1;
    }
    assert(set@.take(i as int) == set@);
    Ok((total_fresh_ingredients, total_range))
}

} // verus!
