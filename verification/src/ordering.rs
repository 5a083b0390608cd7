//! Orderings of versions that the caller defines, and what they say about solutions.
//!
//! A solution is compared with others by the versions of certain packages, the projection. Packages
//! outside the projection may change freely, and so may those that a solution leaves out: it is
//! judged by the projected packages that it selects.

use vstd::prelude::*;

use crate::version_set::VersionSet;

verus! {

/// Caller-defined identity and precedence classes used by Pareto enumeration.
pub struct VersionOrdering<E, R, F> {
    same_version: E,
    same_precedence: R,
    strictly_higher: F,
}

impl<E, R, F> VersionOrdering<E, R, F> {
    /// Maps a version to those that are the same selectable realization.
    pub closed spec fn identity(self) -> E {
        self.same_version
    }

    /// Maps a version to those of the same rank.
    pub closed spec fn rank(self) -> R {
        self.same_precedence
    }

    /// Maps a version to those that count as an upgrade.
    pub closed spec fn upgrade(self) -> F {
        self.strictly_higher
    }

    /// Construct identity, equal-precedence, and strictly-higher version-set mappings.
    pub fn new(same_version: E, same_precedence: R, strictly_higher: F) -> (r: Self)
        ensures
            r.identity() == same_version,
            r.rank() == same_precedence,
            r.upgrade() == strictly_higher,
    {
        VersionOrdering { same_version, same_precedence, strictly_higher }
    }
}

/// The mapping can be applied to every version, and the versions in what it returns depend on the
/// given version alone.
pub open spec fn is_mapping<VS: VersionSet, F: Fn(&VS::V) -> VS>(f: F) -> bool {
    &&& forall|v: &VS::V| #[trigger] f.requires((v,))
    &&& forall|v: &VS::V, a: VS, b: VS| #[trigger]
        f.ensures((v,), a) && #[trigger] f.ensures((v,), b) ==> a@ == b@
}

/// The versions that the mapping returns.
pub open spec fn mapped<VS: VersionSet, F: Fn(&VS::V) -> VS>(f: F, v: VS::V) -> Set<VS::V> {
    Set::new(|w: VS::V| exists|r: VS| #[trigger] f.ensures((&v,), r) && r@.contains(w))
}

/// Whatever a mapping returns holds the same versions.
pub proof fn lemma_mapped<VS: VersionSet, F: Fn(&VS::V) -> VS>(f: F, v: VS::V, r: VS)
    requires
        is_mapping::<VS, F>(f),
        f.ensures((&v,), r),
    ensures
        mapped::<VS, F>(f, v) == r@,
{
    assert forall|w: VS::V| #[trigger] mapped::<VS, F>(f, v).contains(w) <==> r@.contains(w) by {
        if mapped::<VS, F>(f, v).contains(w) {
            let other = choose|other: VS| #[trigger]
                f.ensures((&v,), other) && other@.contains(w);
            assert(f.ensures((&v,), other) && f.ensures((&v,), r));
        }
    }
    assert(mapped::<VS, F>(f, v) =~= r@);
}

/// What the mapping returns, as a relation between versions.
pub open spec fn relation<VS: VersionSet, F: Fn(&VS::V) -> VS>(f: F) -> spec_fn(VS::V) -> Set<
    VS::V,
> {
    |v: VS::V| mapped::<VS, F>(f, v)
}

/// Three relations between versions: to be the same realization, to have the same rank, and to be
/// upgraded by.
#[verifier::reject_recursive_types(V)]
pub struct Precedence<V> {
    pub same: spec_fn(V) -> Set<V>,
    pub equal: spec_fn(V) -> Set<V>,
    pub higher: spec_fn(V) -> Set<V>,
}

/// The relations that the caller's mappings define.
pub open spec fn precedence<
    VS: VersionSet,
    E: Fn(&VS::V) -> VS,
    R: Fn(&VS::V) -> VS,
    F: Fn(&VS::V) -> VS,
>(o: VersionOrdering<E, R, F>) -> Precedence<VS::V> {
    Precedence {
        same: relation::<VS, E>(o.identity()),
        equal: relation::<VS, R>(o.rank()),
        higher: relation::<VS, F>(o.upgrade()),
    }
}

/// The caller's mappings are mappings.
pub open spec fn is_ordering<
    VS: VersionSet,
    E: Fn(&VS::V) -> VS,
    R: Fn(&VS::V) -> VS,
    F: Fn(&VS::V) -> VS,
>(o: VersionOrdering<E, R, F>) -> bool {
    &&& is_mapping::<VS, E>(o.identity())
    &&& is_mapping::<VS, R>(o.rank())
    &&& is_mapping::<VS, F>(o.upgrade())
}

impl<E, R, F> VersionOrdering<E, R, F> {
    /// The versions that are the same selectable realization.
    pub fn same_version<VS: VersionSet>(&self, v: &VS::V) -> (r: VS) where E: Fn(&VS::V) -> VS
        requires
            is_mapping::<VS, E>(self.identity()),
        ensures
            r@ == mapped::<VS, E>(self.identity(), *v),
    {
        let r = (self.same_version)(v);
        proof {
            lemma_mapped::<VS, E>(self.identity(), *v, r);
        }
        r
    }

    /// The versions of the same rank.
    pub fn same_precedence<VS: VersionSet>(&self, v: &VS::V) -> (r: VS) where R: Fn(&VS::V) -> VS
        requires
            is_mapping::<VS, R>(self.rank()),
        ensures
            r@ == mapped::<VS, R>(self.rank(), *v),
    {
        let r = (self.same_precedence)(v);
        proof {
            lemma_mapped::<VS, R>(self.rank(), *v, r);
        }
        r
    }

    /// The versions that count as an upgrade.
    pub fn strictly_higher<VS: VersionSet>(&self, v: &VS::V) -> (r: VS) where F: Fn(&VS::V) -> VS
        requires
            is_mapping::<VS, F>(self.upgrade()),
        ensures
            r@ == mapped::<VS, F>(self.upgrade(), *v),
    {
        let r = (self.strictly_higher)(v);
        proof {
            lemma_mapped::<VS, F>(self.upgrade(), *v, r);
        }
        r
    }
}

impl<V> Precedence<V> {
    /// The versions that are no downgrade.
    pub open spec fn at_least(self, v: V) -> Set<V> {
        (self.equal)(v).union((self.higher)(v))
    }

    /// The condition that the relations break at the version, if any.
    pub open spec fn flaw(self, v: V) -> Option<Seq<char>> {
        if !(self.same)(v).contains(v) {
            Some("same_version must contain the selected version"@)
        } else if !(self.equal)(v).contains(v) {
            Some("same_precedence must contain the selected version"@)
        } else if !(self.same)(v).subset_of((self.equal)(v)) {
            Some("same_version must be a subset of same_precedence"@)
        } else if (self.higher)(v).contains(v) {
            Some("strictly_higher must not contain the selected version"@)
        } else if !(self.equal)(v).disjoint((self.higher)(v)) {
            Some("same_precedence and strictly_higher must be disjoint"@)
        } else {
            None
        }
    }

    /// Seen from versions without a flaw, and among the given ones, the numbers are equal for equal
    /// rank and greater for an upgrade.
    pub open spec fn numbered(self, among: Set<V>, number: spec_fn(V) -> int) -> bool {
        forall|v: V, w: V|
            #![trigger (self.equal)(v).contains(w)]
            #![trigger (self.higher)(v).contains(w)]
            among.contains(v) && among.contains(w) && self.flaw(v) is None ==> {
                &&& (self.equal)(v).contains(w) ==> number(w) == number(v)
                &&& (self.higher)(v).contains(w) ==> number(w) > number(v)
            }
    }

    /// Among the given versions no chain of upgrades leads back to where it started.
    pub open spec fn is_ranked(self, among: Set<V>) -> bool {
        exists|number: spec_fn(V) -> int| #[trigger] self.numbered(among, number)
    }

    /// Of two of the given versions one is an upgrade of the other, or both have the same rank.
    pub open spec fn is_total(self, among: Set<V>) -> bool {
        forall|v: V, w: V|
            #![trigger (self.higher)(v).contains(w)]
            #![trigger (self.equal)(v).contains(w)]
            among.contains(v) && among.contains(w) ==> {
                ||| (self.higher)(v).contains(w)
                ||| (self.higher)(w).contains(v)
                ||| (self.equal)(v).contains(w) && (self.equal)(w).contains(v)
            }
    }

    /// The other selection has an upgrade of the package, and no downgrade of a projected package
    /// that the first one selects.
    pub open spec fn improves<K>(
        self,
        projection: Seq<K>,
        s: Map<K, V>,
        other: Map<K, V>,
        upgraded: K,
    ) -> bool {
        &&& projection.contains(upgraded)
        &&& s.dom().contains(upgraded)
        &&& forall|k: K| #[trigger]
            s.dom().contains(k) && projection.contains(k) ==> {
                &&& other.dom().contains(k)
                &&& if k == upgraded {
                    (self.higher)(s[k]).contains(other[k])
                } else {
                    self.at_least(s[k]).contains(other[k])
                }
            }
    }

    /// The other selection upgrades a projected package without downgrading any that the first one
    /// selects.
    pub open spec fn dominates<K>(
        self,
        projection: Seq<K>,
        s: Map<K, V>,
        other: Map<K, V>,
    ) -> bool {
        exists|k: K| #[trigger] self.improves(projection, s, other, k)
    }

    /// The other selection has the same realization of all projected packages that the first one
    /// selects.
    pub open spec fn repeats<K>(self, projection: Seq<K>, s: Map<K, V>, other: Map<K, V>) -> bool {
        forall|k: K| #[trigger]
            s.dom().contains(k) && projection.contains(k) ==> other.dom().contains(k) && (
            self.same)(s[k]).contains(other[k])
    }

    /// The other selection has a version of the package that is neither of equal rank nor an
    /// upgrade, and no upgrade of any other projected package that the first one selects.
    pub open spec fn falls_short<K>(
        self,
        projection: Seq<K>,
        s: Map<K, V>,
        other: Map<K, V>,
        lower: K,
    ) -> bool {
        &&& projection.contains(lower)
        &&& s.dom().contains(lower)
        &&& forall|k: K| #[trigger]
            s.dom().contains(k) && projection.contains(k) ==> if k == lower {
                other.dom().contains(k) && !self.at_least(s[k]).contains(other[k])
            } else {
                other.dom().contains(k) ==> !(self.higher)(s[k]).contains(other[k])
            }
    }

    /// The first selection speaks for the other one: that repeats it or falls short of it.
    pub open spec fn speaks_for<K>(
        self,
        projection: Seq<K>,
        s: Map<K, V>,
        other: Map<K, V>,
    ) -> bool {
        ||| self.repeats(projection, s, other)
        ||| exists|k: K| #[trigger] self.falls_short(projection, s, other, k)
    }

    /// There is no flaw at the projected versions that are selected.
    pub open spec fn flawless<K>(self, projection: Seq<K>, s: Map<K, V>) -> bool {
        forall|k: K| #[trigger]
            s.dom().contains(k) && projection.contains(k) ==> self.flaw(s[k]) is None
    }

    /// The other selection is the first one, or was reached from it by upgrades: it selects the
    /// same projected packages and more, none of them at a lower rank and some at a higher one.
    pub open spec fn climbs<K>(
        self,
        projection: Seq<K>,
        s: Map<K, V>,
        other: Map<K, V>,
        number: spec_fn(V) -> int,
    ) -> bool {
        ||| other == s
        ||| {
            &&& forall|k: K| #[trigger]
                s.dom().contains(k) && projection.contains(k) ==> other.dom().contains(k)
                    && number(other[k]) >= number(s[k])
            &&& exists|k: K| #[trigger]
                s.dom().contains(k) && projection.contains(k) && number(other[k]) > number(s[k])
        }
    }
}

/// Everything is selected at one of the versions.
pub open spec fn is_among<K, V>(s: Map<K, V>, versions: Set<V>) -> bool {
    forall|k: K| #[trigger] s.dom().contains(k) ==> versions.contains(s[k])
}

/// A step up makes the climb longer.
pub proof fn lemma_climb<K, V>(
    o: Precedence<V>,
    among: Set<V>,
    projection: Seq<K>,
    s: Map<K, V>,
    middle: Map<K, V>,
    other: Map<K, V>,
    number: spec_fn(V) -> int,
)
    requires
        o.numbered(among, number),
        is_among(middle, among),
        is_among(other, among),
        o.climbs(projection, s, middle, number),
        o.dominates(projection, middle, other),
        o.flawless(projection, middle),
    ensures
        o.climbs(projection, s, other, number),
        forall|k: K| #[trigger]
            middle.dom().contains(k) && projection.contains(k) ==> other.dom().contains(k)
                && number(other[k]) >= number(middle[k]),
        exists|k: K| #[trigger]
            middle.dom().contains(k) && projection.contains(k) && number(other[k]) > number(
                middle[k],
            ),
{
    let up = choose|k: K| #[trigger] o.improves(projection, middle, other, k);
    assert forall|k: K| #[trigger] middle.dom().contains(k) && projection.contains(
        k,
    ) implies other.dom().contains(k) && number(other[k]) >= number(middle[k]) by {
        let v = middle[k];
        let w = other[k];
        assert(o.flaw(v) is None);
        if (o.higher)(v).contains(w) {
            assert(number(w) > number(v));
        } else {
            assert((o.equal)(v).contains(w));
        }
    }
    assert(middle.dom().contains(up) && (o.higher)(middle[up]).contains(other[up]));
    assert(number(other[up]) > number(middle[up]));
    if middle != s {
        let k = choose|k: K| #[trigger]
            s.dom().contains(k) && projection.contains(k) && number(middle[k]) > number(s[k]);
        assert(middle.dom().contains(k));
        assert forall|k: K| #[trigger] s.dom().contains(k) && projection.contains(
            k,
        ) implies other.dom().contains(k) && number(other[k]) >= number(s[k]) by {
            assert(middle.dom().contains(k));
        }
        assert(s.dom().contains(k) && number(other[k]) > number(s[k]));
    }
}

/// Whoever has reached the top of a climb speaks for where it started.
pub proof fn lemma_speaks_for_start<K, V>(
    o: Precedence<V>,
    among: Set<V>,
    projection: Seq<K>,
    s: Map<K, V>,
    top: Map<K, V>,
    number: spec_fn(V) -> int,
)
    requires
        o.numbered(among, number),
        is_among(s, among),
        is_among(top, among),
        o.climbs(projection, s, top, number),
        o.flawless(projection, top),
    ensures
        o.speaks_for(projection, top, s),
{
    if top == s {
        assert forall|k: K| #[trigger] top.dom().contains(k) && projection.contains(k) implies (
        o.same)(top[k]).contains(s[k]) by {
            assert(o.flaw(top[k]) is None);
        }
        assert(o.repeats(projection, top, s));
    } else {
        let lower = choose|k: K| #[trigger]
            s.dom().contains(k) && projection.contains(k) && number(top[k]) > number(s[k]);
        assert(s.dom().contains(lower));
        assert(top.dom().contains(lower));
        assert forall|k: K| #[trigger] top.dom().contains(k) && projection.contains(
            k,
        ) implies if k == lower {
            s.dom().contains(k) && !o.at_least(top[k]).contains(s[k])
        } else {
            s.dom().contains(k) ==> !(o.higher)(top[k]).contains(s[k])
        } by {
            assert(o.flaw(top[k]) is None);
            if s.dom().contains(k) {
                assert(number(top[k]) >= number(s[k]));
                if (o.higher)(top[k]).contains(s[k]) {
                    assert(number(s[k]) > number(top[k]));
                }
                if (o.equal)(top[k]).contains(s[k]) {
                    assert(number(s[k]) == number(top[k]));
                }
            }
        }
        assert(o.falls_short(projection, top, s, lower));
    }
}

} // verus!
