//! Version sets made of intervals.

use vstd::prelude::*;

use crate::version::Version;
use crate::version_set::VersionSet;

verus! {

/// One end of an interval of versions.
#[derive(Debug, Clone, PartialEq, Eq)]
pub enum Edge<V> {
    /// No bound at this end.
    Unbounded,
    /// Bounded by a version which is itself in the interval.
    Inclusive(V),
    /// Bounded by a version which is itself outside the interval.
    Exclusive(V),
}

impl<V: Version> Edge<V> {
    /// The version satisfies this edge as a lower end.
    pub open spec fn admits_above(self, v: V) -> bool {
        match self {
            Edge::Unbounded => true,
            Edge::Inclusive(a) => a.at_most_spec(v),
            Edge::Exclusive(a) => !v.at_most_spec(a),
        }
    }

    /// The version satisfies this edge as an upper end.
    pub open spec fn admits_below(self, v: V) -> bool {
        match self {
            Edge::Unbounded => true,
            Edge::Inclusive(b) => v.at_most_spec(b),
            Edge::Exclusive(b) => !b.at_most_spec(v),
        }
    }

    fn above(&self, v: &V) -> (r: bool)
        ensures
            r == self.admits_above(*v),
    {
        match self {
            Edge::Unbounded => true,
            Edge::Inclusive(a) => a.at_most(v),
            Edge::Exclusive(a) => !v.at_most(a),
        }
    }

    fn below(&self, v: &V) -> (r: bool)
        ensures
            r == self.admits_below(*v),
    {
        match self {
            Edge::Unbounded => true,
            Edge::Inclusive(b) => v.at_most(b),
            Edge::Exclusive(b) => !b.at_most(v),
        }
    }

    fn duplicate(&self) -> (r: Self)
        ensures
            r == *self,
    {
        match self {
            Edge::Unbounded => Edge::Unbounded,
            Edge::Inclusive(a) => Edge::Inclusive(a.duplicate()),
            Edge::Exclusive(a) => Edge::Exclusive(a.duplicate()),
        }
    }

    /// The tighter of two lower ends.
    fn higher(&self, other: &Self) -> (r: Self)
        ensures
            forall|v: V| #[trigger]
                r.admits_above(v) == (self.admits_above(v) && other.admits_above(v)),
    {
        proof {
            order_facts::<V>();
        }
        match self {
            Edge::Unbounded => other.duplicate(),
            Edge::Inclusive(a) => match other {
                Edge::Unbounded => self.duplicate(),
                Edge::Inclusive(b) => if a.at_most(b) { other.duplicate() } else { self.duplicate() },
                Edge::Exclusive(b) => if a.at_most(b) { other.duplicate() } else { self.duplicate() },
            },
            Edge::Exclusive(a) => match other {
                Edge::Unbounded => self.duplicate(),
                Edge::Inclusive(b) => if b.at_most(a) { self.duplicate() } else { other.duplicate() },
                Edge::Exclusive(b) => if a.at_most(b) { other.duplicate() } else { self.duplicate() },
            },
        }
    }

    /// The tighter of two upper ends.
    fn lower(&self, other: &Self) -> (r: Self)
        ensures
            forall|v: V| #[trigger]
                r.admits_below(v) == (self.admits_below(v) && other.admits_below(v)),
    {
        proof {
            order_facts::<V>();
        }
        match self {
            Edge::Unbounded => other.duplicate(),
            Edge::Inclusive(a) => match other {
                Edge::Unbounded => self.duplicate(),
                Edge::Inclusive(b) => if a.at_most(b) { self.duplicate() } else { other.duplicate() },
                Edge::Exclusive(b) => if b.at_most(a) { other.duplicate() } else { self.duplicate() },
            },
            Edge::Exclusive(a) => match other {
                Edge::Unbounded => self.duplicate(),
                Edge::Inclusive(b) => if a.at_most(b) { self.duplicate() } else { other.duplicate() },
                Edge::Exclusive(b) => if a.at_most(b) { self.duplicate() } else { other.duplicate() },
            },
        }
    }
}

/// The laws of the version order, for all versions at once.
proof fn order_facts<V: Version>()
    ensures
        forall|a: V, b: V| #[trigger] a.at_most_spec(b) || b.at_most_spec(a),
        forall|a: V, b: V| #[trigger] a.at_most_spec(b) && #[trigger] b.at_most_spec(a) ==> a == b,
        forall|a: V, b: V, c: V| #[trigger]
            a.at_most_spec(b) && #[trigger] b.at_most_spec(c) ==> a.at_most_spec(c),
{
    assert forall|a: V, b: V| #[trigger] a.at_most_spec(b) || b.at_most_spec(a) by {
        V::order_is_total(a, b);
    }
    assert forall|a: V, b: V| #[trigger] a.at_most_spec(b) && #[trigger] b.at_most_spec(
        a,
    ) implies a == b by {
        V::order_is_antisymmetric(a, b);
    }
    assert forall|a: V, b: V, c: V| #[trigger] a.at_most_spec(b) && #[trigger] b.at_most_spec(
        c,
    ) implies a.at_most_spec(c) by {
        V::order_is_transitive(a, b, c);
    }
}

/// The versions between two edges.
#[derive(Debug, Clone, PartialEq, Eq)]
pub struct Interval<V> {
    lower: Edge<V>,
    upper: Edge<V>,
}

impl<V: Version> Interval<V> {
    /// The version lies in the interval.
    pub closed spec fn has(self, v: V) -> bool {
        self.lower.admits_above(v) && self.upper.admits_below(v)
    }

    fn contains(&self, v: &V) -> (r: bool)
        ensures
            r == self.has(*v),
    {
        self.lower.above(v) && self.upper.below(v)
    }

    fn duplicate(&self) -> (r: Self)
        ensures
            r == *self,
    {
        Interval { lower: self.lower.duplicate(), upper: self.upper.duplicate() }
    }

    /// The versions in both intervals.
    fn meet(&self, other: &Self) -> (r: Self)
        ensures
            forall|v: V| #[trigger] r.has(v) == (self.has(v) && other.has(v)),
    {
        let r = Interval {
            lower: self.lower.higher(&other.lower),
            upper: self.upper.lower(&other.upper),
        };
        assert forall|v: V| #[trigger] r.has(v) == (self.has(v) && other.has(v)) by {
            assert(r.lower.admits_above(v) == (self.lower.admits_above(v)
                && other.lower.admits_above(v)));
            assert(r.upper.admits_below(v) == (self.upper.admits_below(v)
                && other.upper.admits_below(v)));
        }
        r
    }

    /// Whether no version lies in the interval.
    fn is_empty(&self) -> (r: bool)
        ensures
            r == !exists|v: V| #[trigger] self.has(v),
    {
        proof {
            order_facts::<V>();
        }
        match &self.lower {
            Edge::Inclusive(a) => {
                let r = !self.upper.below(a);
                proof {
                    assert(self.lower.admits_above(*a));
                    if !r {
                        assert(self.has(*a));
                    }
                }
                r
            },
            Edge::Exclusive(a) => match &self.upper {
                Edge::Inclusive(b) => {
                    let r = b.at_most(a);
                    proof {
                        if !r {
                            assert(self.has(*b));
                        }
                    }
                    r
                },
                Edge::Exclusive(b) => {
                    let r = V::none_between(Some(a), Some(b));
                    proof {
                        assert forall|v: V| v.at_most_spec(v) by {}
                        assert forall|v: V| #[trigger] self.has(v) implies !r by {
                            assert(v.at_most_spec(v));
                        }
                        if !r {
                            let v = choose|v: V|
                                #![trigger v.at_most_spec(v)]
                                v.at_most_spec(v) && !v.at_most_spec(*a) && !b.at_most_spec(v);
                            assert(self.has(v));
                        }
                    }
                    r
                },
                Edge::Unbounded => {
                    let r = V::none_between(Some(a), None);
                    proof {
                        assert forall|v: V| #[trigger] self.has(v) implies !r by {
                            assert(v.at_most_spec(v));
                        }
                        if !r {
                            let v = choose|v: V|
                                #![trigger v.at_most_spec(v)]
                                v.at_most_spec(v) && !v.at_most_spec(*a);
                            assert(self.has(v));
                        }
                    }
                    r
                },
            },
            Edge::Unbounded => match &self.upper {
                Edge::Inclusive(b) => {
                    assert(self.has(*b));
                    false
                },
                Edge::Exclusive(b) => {
                    let r = V::none_between(None, Some(b));
                    proof {
                        assert forall|v: V| #[trigger] self.has(v) implies !r by {
                            assert(v.at_most_spec(v));
                        }
                        if !r {
                            let v = choose|v: V|
                                #![trigger v.at_most_spec(v)]
                                v.at_most_spec(v) && !b.at_most_spec(v);
                            assert(self.has(v));
                        }
                    }
                    r
                },
                Edge::Unbounded => {
                    let r = V::none_between(None, None);
                    proof {
                        assert forall|v: V| #[trigger] self.has(v) implies !r by {
                            assert(v.at_most_spec(v));
                        }
                        if !r {
                            let v = choose|v: V| #![trigger v.at_most_spec(v)] true;
                            assert(self.has(v));
                        }
                    }
                    r
                },
            },
        }
    }
}

/// A set of versions, given as a list of intervals.
#[derive(Debug, Clone, PartialEq, Eq)]
pub struct Ranges<V> {
    intervals: Vec<Interval<V>>,
}

/// Some interval of the list has the version.
spec fn listed<V: Version>(intervals: Seq<Interval<V>>, v: V) -> bool {
    exists|i: int| 0 <= i < intervals.len() && #[trigger] intervals[i].has(v)
}

proof fn lemma_listed_push<V: Version>(intervals: Seq<Interval<V>>, last: Interval<V>)
    ensures
        forall|v: V| #[trigger]
            listed(intervals.push(last), v) == (listed(intervals, v) || last.has(v)),
{
    assert forall|v: V| #[trigger] listed(intervals.push(last), v) == (listed(intervals, v)
        || last.has(v)) by {
        let pushed = intervals.push(last);
        if listed(intervals, v) {
            let i = choose|i: int| 0 <= i < intervals.len() && #[trigger] intervals[i].has(v);
            assert(pushed[i].has(v));
        }
        if last.has(v) {
            assert(pushed[intervals.len() as int].has(v));
        }
    }
}

impl<V: Version> Ranges<V> {
    /// The versions in the set.
    pub closed spec fn versions(self) -> Set<V> {
        Set::new(|v: V| listed(self.intervals@, v))
    }

    fn of(lower: Edge<V>, upper: Edge<V>) -> (r: Self)
        ensures
            forall|v: V| #[trigger]
                r.versions().contains(v) == (lower.admits_above(v) && upper.admits_below(v)),
    {
        let mut intervals: Vec<Interval<V>> = Vec::new();
        let interval = Interval { lower, upper };
        if !interval.is_empty() {
            intervals.push(interval);
        }
        let r = Ranges { intervals };
        assert forall|v: V| #[trigger] r.versions().contains(v) == interval.has(v) by {
            if interval.has(v) {
                assert(r.intervals@[0].has(v));
            }
        }
        r
    }

    /// The versions above the given one.
    pub fn strictly_higher_than(v: V) -> (r: Self)
        ensures
            forall|w: V| #[trigger] r@.contains(w) == !w.at_most_spec(v),
    {
        Self::of(Edge::Exclusive(v), Edge::Unbounded)
    }

    /// The given version and those above it.
    pub fn higher_than(v: V) -> (r: Self)
        ensures
            forall|w: V| #[trigger] r@.contains(w) == v.at_most_spec(w),
    {
        Self::of(Edge::Inclusive(v), Edge::Unbounded)
    }

    /// The versions below the given one.
    pub fn strictly_lower_than(v: V) -> (r: Self)
        ensures
            forall|w: V| #[trigger] r@.contains(w) == !v.at_most_spec(w),
    {
        Self::of(Edge::Unbounded, Edge::Exclusive(v))
    }

    /// The given version and those below it.
    pub fn lower_than(v: V) -> (r: Self)
        ensures
            forall|w: V| #[trigger] r@.contains(w) == w.at_most_spec(v),
    {
        Self::of(Edge::Unbounded, Edge::Inclusive(v))
    }

    /// The versions from the first one up to, but without, the second one.
    pub fn between(lower: V, upper: V) -> (r: Self)
        ensures
            forall|w: V| #[trigger]
                r@.contains(w) == (lower.at_most_spec(w) && !upper.at_most_spec(w)),
    {
        Self::of(Edge::Inclusive(lower), Edge::Exclusive(upper))
    }

    /// The versions outside one interval.
    fn outside(interval: &Interval<V>) -> (r: Self)
        ensures
            forall|v: V| #[trigger] r.versions().contains(v) == !interval.has(v),
    {
        proof {
            order_facts::<V>();
        }
        let mut intervals: Vec<Interval<V>> = Vec::new();
        let ghost below_lower = |v: V| !interval.lower.admits_above(v);
        let left = match &interval.lower {
            Edge::Unbounded => None,
            Edge::Inclusive(a) => Some(Edge::Exclusive(a.duplicate())),
            Edge::Exclusive(a) => Some(Edge::Inclusive(a.duplicate())),
        };
        let right = match &interval.upper {
            Edge::Unbounded => None,
            Edge::Inclusive(b) => Some(Edge::Exclusive(b.duplicate())),
            Edge::Exclusive(b) => Some(Edge::Inclusive(b.duplicate())),
        };
        if let Some(upper) = left {
            let piece = Interval { lower: Edge::Unbounded, upper };
            proof {
                lemma_listed_push(intervals@, piece);
            }
            intervals.push(piece);
        }
        assert(forall|v: V| #[trigger]
            listed(intervals@, v) == !interval.lower.admits_above(v));
        if let Some(lower) = right {
            let piece = Interval { lower, upper: Edge::Unbounded };
            proof {
                lemma_listed_push(intervals@, piece);
            }
            intervals.push(piece);
        }
        Ranges { intervals }
    }
}

impl<V: Version> VersionSet for Ranges<V> {
    type V = V;

    open spec fn view(&self) -> Set<V> {
        self.versions()
    }

    fn empty() -> (r: Self) {
        let r = Ranges { intervals: Vec::new() };
        assert(r@ =~= Set::empty());
        r
    }

    fn full() -> (r: Self) {
        let r = Self::of(Edge::Unbounded, Edge::Unbounded);
        assert(r@ =~= Set::full());
        r
    }

    fn singleton(v: V) -> (r: Self) {
        let copy = v.duplicate();
        let r = Self::of(Edge::Inclusive(copy), Edge::Inclusive(v));
        proof {
            order_facts::<V>();
            assert(r@ =~= Set::empty().insert(v));
        }
        r
    }

    fn complement(&self) -> (r: Self) {
        let mut rest = Self::full();
        let mut i: usize = 0;
        while i < self.intervals.len()
            invariant
                i <= self.intervals.len(),
                forall|v: V| #[trigger]
                    rest@.contains(v) == !listed(self.intervals@.take(i as int), v),
            decreases self.intervals.len() - i,
        {
            let outside = Self::outside(&self.intervals[i]);
            let ghost before = rest@;
            rest = rest.intersection(&outside);
            proof {
                lemma_listed_push(self.intervals@.take(i as int), self.intervals@[i as int]);
                assert(self.intervals@.take(i + 1) =~= self.intervals@.take(i as int).push(
                    self.intervals@[i as int],
                ));
                assert forall|v: V| #[trigger] rest@.contains(v) == !listed(
                    self.intervals@.take(i + 1),
                    v,
                ) by {
                    assert(rest@.contains(v) == (before.contains(v) && outside@.contains(v)));
                }
            }
            i += 1;
        }
        proof {
            assert(self.intervals@.take(i as int) =~= self.intervals@);
            assert(rest@ =~= self@.complement());
        }
        rest
    }

    fn intersection(&self, other: &Self) -> (r: Self) {
        let mut intervals: Vec<Interval<V>> = Vec::new();
        let mut i: usize = 0;
        while i < self.intervals.len()
            invariant
                i <= self.intervals.len(),
                forall|v: V| #[trigger]
                    listed(intervals@, v) == (listed(self.intervals@.take(i as int), v) && listed(
                        other.intervals@,
                        v,
                    )),
            decreases self.intervals.len() - i,
        {
            let ghost mine = self.intervals@[i as int];
            let ghost done = intervals@;
            let mut j: usize = 0;
            while j < other.intervals.len()
                invariant
                    i < self.intervals.len(),
                    mine == self.intervals@[i as int],
                    j <= other.intervals.len(),
                    forall|v: V| #[trigger]
                        listed(intervals@, v) == (listed(done, v) || (mine.has(v) && listed(
                            other.intervals@.take(j as int),
                            v,
                        ))),
                decreases other.intervals.len() - j,
            {
                let meet = self.intervals[i].meet(&other.intervals[j]);
                proof {
                    lemma_listed_push(other.intervals@.take(j as int), other.intervals@[j as int]);
                    assert(other.intervals@.take(j + 1) =~= other.intervals@.take(j as int).push(
                        other.intervals@[j as int],
                    ));
                    lemma_listed_push(intervals@, meet);
                }
                let ghost kept = intervals@;
                if !meet.is_empty() {
                    intervals.push(meet);
                }
                proof {
                    assert forall|v: V| #[trigger] listed(intervals@, v) == (listed(done, v) || (
                    mine.has(v) && listed(other.intervals@.take(j + 1), v))) by {
                        assert(listed(intervals@, v) == (listed(kept, v) || meet.has(v)));
                    }
                }
                j += 1;
            }
            proof {
                assert(other.intervals@.take(j as int) =~= other.intervals@);
                lemma_listed_push(self.intervals@.take(i as int), mine);
                assert(self.intervals@.take(i + 1) =~= self.intervals@.take(i as int).push(mine));
            }
            i += 1;
        }
        let r = Ranges { intervals };
        proof {
            assert(self.intervals@.take(i as int) =~= self.intervals@);
            assert(r@ =~= self@.intersect(other@));
        }
        r
    }

    fn union(&self, other: &Self) -> (r: Self) {
        let r = self.complement().intersection(&other.complement()).complement();
        assert(r@ =~= self@.union(other@));
        r
    }

    fn contains(&self, v: &V) -> (r: bool) {
        let mut i: usize = 0;
        while i < self.intervals.len()
            invariant
                i <= self.intervals.len(),
                forall|k: int| 0 <= k < i ==> !(#[trigger] self.intervals@[k].has(*v)),
            decreases self.intervals.len() - i,
        {
            if self.intervals[i].contains(v) {
                return true;
            }
            i += 1;
        }
        false
    }

    fn is_disjoint(&self, other: &Self) -> (r: bool) {
        let common = self.intersection(other);
        let mut i: usize = 0;
        while i < common.intervals.len()
            invariant
                i <= common.intervals.len(),
                forall|k: int, v: V| 0 <= k < i ==> !(#[trigger] common.intervals@[k].has(v)),
                common@ == self@.intersect(other@),
            decreases common.intervals.len() - i,
        {
            if !common.intervals[i].is_empty() {
                proof {
                    let v = choose|v: V| #[trigger] common.intervals@[i as int].has(v);
                    assert(common@.contains(v));
                    assert(self@.contains(v) && other@.contains(v));
                }
                return false;
            }
            i += 1;
        }
        proof {
            assert forall|v: V| #[trigger] self@.contains(v) implies !other@.contains(v) by {
                if other@.contains(v) {
                    assert(common@.contains(v));
                }
            }
        }
        true
    }

    fn subset_of(&self, other: &Self) -> (r: bool) {
        let outside = other.complement();
        proof {
            assert(self@.disjoint(outside@) ==> self@.subset_of(other@));
            if self@.subset_of(other@) {
                assert forall|v: V| #[trigger] self@.contains(v) implies !outside@.contains(v) by {}
            }
        }
        self.is_disjoint(&outside)
    }

    fn duplicate(&self) -> (r: Self) {
        let mut intervals: Vec<Interval<V>> = Vec::new();
        let mut i: usize = 0;
        while i < self.intervals.len()
            invariant
                i <= self.intervals.len(),
                intervals@ =~= self.intervals@.take(i as int),
            decreases self.intervals.len() - i,
        {
            intervals.push(self.intervals[i].duplicate());
            i += 1;
        }
        assert(intervals@ =~= self.intervals@);
        Ranges { intervals }
    }
}

} // verus!
