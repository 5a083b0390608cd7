//! Which combinations of preferences can be preserved together, and which of them are maximal.

use std::sync::Arc;

use vstd::prelude::*;
use vstd::set_lib::*;

use crate::attempts;
use crate::attempts::Attempt;
use crate::error;
use crate::error::PubGrubError;
use crate::machine;
use crate::machine::Machine;
use crate::observer;
use crate::observer::{
    MaximalityProbeResult, NoopSolverObserver, Observed, SolverEvent, SolverObserver,
};
use crate::package::Package;
use crate::preference;
use crate::preference::PackagePreference;
use crate::problem;
use crate::problem::{Key, Selection, VersionOf};
use crate::progress;
use crate::provider::DependencyProvider;
use crate::report;
use crate::report::{collect_forced_packages, DerivationTree};
use crate::run;
use crate::run::SolverState;
use crate::search;
use crate::search::Clause;
use crate::state::share;
use crate::term;
use crate::term::Term;
use crate::version::Version;
use crate::version_set::VersionSet;

verus! {

/// Which of the preferences are preserved in the selection.
pub open spec fn profile<P: Package, VS: VersionSet>(
    preferences: Seq<PackagePreference<P, VS>>,
    s: Map<P::V, VS::V>,
) -> Seq<bool> {
    Seq::new(preferences.len(), |i: int| preferences[i].kept_in(s))
}

/// Some solution preserves exactly these preferences.
pub open spec fn achievable<DP: DependencyProvider>(
    dp: DP,
    root: Key<DP>,
    version: VersionOf<DP>,
    preferences: Seq<PackagePreference<DP::P, DP::VS>>,
    kept: Seq<bool>,
) -> bool {
    exists|s: Selection<DP>| #[trigger]
        problem::is_solution(dp, root, version, s) && profile(preferences, s) == kept
}

/// Whatever the second one keeps, the first one keeps.
pub open spec fn includes(a: Seq<bool>, b: Seq<bool>) -> bool {
    &&& a.len() == b.len()
    &&& forall|i: int| 0 <= i < b.len() && #[trigger] b[i] ==> a[i]
}

/// It is good, and nothing else that is good keeps as much.
pub open spec fn maximal(good: spec_fn(Seq<bool>) -> bool, kept: Seq<bool>) -> bool {
    &&& good(kept)
    &&& forall|other: Seq<bool>| #[trigger] good(other) && includes(other, kept) ==> other == kept
}

/// The positions that are not kept, in ascending order.
pub open spec fn lost(kept: Seq<bool>) -> Seq<usize>
    decreases kept.len(),
{
    if kept.len() == 0 {
        Seq::empty()
    } else if kept.last() {
        lost(kept.drop_last())
    } else {
        lost(kept.drop_last()).push((kept.len() - 1) as usize)
    }
}

/// The first list comes before the second one in lexicographic order.
pub open spec fn precedes(a: Seq<usize>, b: Seq<usize>) -> bool
    decreases a.len(),
{
    if b.len() == 0 {
        false
    } else if a.len() == 0 {
        true
    } else {
        a[0] < b[0] || (a[0] == b[0] && precedes(a.skip(1), b.skip(1)))
    }
}

/// The list is in lexicographic order of the positions that are not kept, without repetition.
pub open spec fn in_order(front: Seq<Seq<bool>>) -> bool {
    forall|i: int, j: int|
        0 <= i < j < front.len() ==> precedes(
            lost(#[trigger] front[i]),
            lost(#[trigger] front[j]),
        )
}

/// The list holds exactly the maximal elements, in order.
pub open spec fn is_front(good: spec_fn(Seq<bool>) -> bool, front: Seq<Seq<bool>>) -> bool {
    &&& forall|kept: Seq<bool>| #[trigger] front.contains(kept) <==> maximal(good, kept)
    &&& in_order(front)
}

proof fn lemma_precedes_not(a: Seq<usize>)
    ensures
        !precedes(a, a),
    decreases a.len(),
{
    if a.len() > 0 {
        lemma_precedes_not(a.skip(1));
    }
}

/// What is in order holds nothing twice.
pub proof fn lemma_in_order_distinct(front: Seq<Seq<bool>>, a: int, b: int)
    requires
        in_order(front),
        0 <= a < front.len(),
        0 <= b < front.len(),
        front[a] == front[b],
    ensures
        a == b,
{
    lemma_precedes_not(lost(front[a]));
    if a < b {
        assert(precedes(lost(front[a]), lost(front[b])));
    } else if b < a {
        assert(precedes(lost(front[b]), lost(front[a])));
    }
}

proof fn lemma_same_place(
    good: spec_fn(Seq<bool>) -> bool,
    a: Seq<Seq<bool>>,
    b: Seq<Seq<bool>>,
    i: int,
)
    requires
        is_front(good, a),
        is_front(good, b),
        0 <= i < a.len(),
    ensures
        i < b.len(),
        a[i] == b[i],
    decreases i,
{
    assert forall|j: int| 0 <= j < i implies j < b.len() && #[trigger] a[j] == b[j] by {
        lemma_same_place(good, a, b, j);
    }
    assert(a.contains(a[i]));
    assert(b.contains(a[i]));
    let j = choose|j: int| 0 <= j < b.len() && b[j] == a[i];
    if j < i {
        lemma_in_order_distinct(a, i, j);
    }
    if j > i {
        assert(precedes(lost(b[i]), lost(b[j])));
        assert(b.contains(b[i]));
        assert(a.contains(b[i]));
        let m = choose|m: int| 0 <= m < a.len() && a[m] == b[i];
        if m < i {
            lemma_in_order_distinct(b, m, i);
        } else if m > i {
            assert(precedes(lost(a[i]), lost(a[m])));
            lemma_precedes_transitive(lost(a[i]), lost(a[m]), lost(a[i]));
            lemma_precedes_not(lost(a[i]));
        } else {
            lemma_precedes_not(lost(a[i]));
        }
    }
}

/// There is one front only.
pub proof fn front_is_unique(
    good: spec_fn(Seq<bool>) -> bool,
    a: Seq<Seq<bool>>,
    b: Seq<Seq<bool>>,
)
    requires
        is_front(good, a),
        is_front(good, b),
    ensures
        a == b,
{
    assert forall|i: int| 0 <= i < a.len() implies i < b.len() && #[trigger] a[i] == b[i] by {
        lemma_same_place(good, a, b, i);
    }
    assert forall|i: int| 0 <= i < b.len() implies i < a.len() && #[trigger] b[i] == a[i] by {
        lemma_same_place(good, b, a, i);
    }
    if a.len() < b.len() {
        assert(b[a.len() as int] == a[a.len() as int]);
    }
    if b.len() < a.len() {
        assert(a[b.len() as int] == b[b.len() as int]);
    }
    assert(a =~= b);
}

proof fn lemma_precedes_total(a: Seq<usize>, b: Seq<usize>)
    ensures
        a != b ==> precedes(a, b) || precedes(b, a),
    decreases a.len(),
{
    if a.len() > 0 && b.len() > 0 {
        lemma_precedes_total(a.skip(1), b.skip(1));
        if a[0] == b[0] && a.skip(1) == b.skip(1) {
            assert(a.len() == a.skip(1).len() + 1);
            assert(b.len() == b.skip(1).len() + 1);
            assert forall|i: int| 0 <= i < a.len() implies a[i] == b[i] by {
                if i > 0 {
                    assert(a.skip(1)[i - 1] == b.skip(1)[i - 1]);
                }
            }
            assert(a =~= b);
        }
    } else if a.len() == 0 && b.len() == 0 {
        assert(a =~= b);
    }
}

proof fn lemma_precedes_transitive(a: Seq<usize>, b: Seq<usize>, c: Seq<usize>)
    requires
        precedes(a, b),
        precedes(b, c),
    ensures
        precedes(a, c),
    decreases a.len(),
{
    if a.len() > 0 {
        if a[0] == b[0] && b[0] == c[0] {
            lemma_precedes_transitive(a.skip(1), b.skip(1), c.skip(1));
        }
    }
}

pub proof fn lemma_lost(kept: Seq<bool>)
    requires
        kept.len() <= usize::MAX,
    ensures
        forall|i: int|
            0 <= i < kept.len() ==> (!#[trigger] kept[i] <==> lost(kept).contains(i as usize)),
        forall|j: int| 0 <= j < lost(kept).len() ==> #[trigger] lost(kept)[j] < kept.len(),
    decreases kept.len(),
{
    if kept.len() > 0 {
        let before = kept.drop_last();
        let n = kept.len() - 1;
        lemma_lost(before);
        assert forall|i: int| 0 <= i < kept.len() implies (!#[trigger] kept[i] <==> lost(
            kept,
        ).contains(i as usize)) by {
            if i < n {
                assert(before[i] == kept[i]);
                if lost(before).contains(i as usize) {
                    let j = choose|j: int|
                        0 <= j < lost(before).len() && lost(before)[j] == i as usize;
                    assert(lost(kept)[j] == i as usize);
                }
                if lost(kept).contains(i as usize) {
                    let j = choose|j: int| 0 <= j < lost(kept).len() && lost(kept)[j] == i as usize;
                    assert(j < lost(before).len());
                    assert(lost(before)[j] == i as usize);
                }
            } else {
                if !kept[n] {
                    assert(lost(kept)[lost(before).len() as int] == n as usize);
                } else if lost(kept).contains(n as usize) {
                    let j = choose|j: int| 0 <= j < lost(kept).len() && lost(kept)[j] == n as usize;
                    assert(lost(before)[j] < before.len());
                }
            }
        }
        assert forall|j: int| 0 <= j < lost(kept).len() implies #[trigger] lost(kept)[j]
            < kept.len() by {
            if j < lost(before).len() {
                assert(lost(kept)[j] == lost(before)[j]);
            }
        }
    }
}

proof fn lemma_lost_injective(a: Seq<bool>, b: Seq<bool>)
    requires
        a.len() == b.len(),
        a.len() <= usize::MAX,
        lost(a) == lost(b),
    ensures
        a == b,
{
    lemma_lost(a);
    lemma_lost(b);
    assert forall|i: int| 0 <= i < a.len() implies a[i] == b[i] by {
        assert(!a[i] <==> lost(a).contains(i as usize));
        assert(!b[i] <==> lost(b).contains(i as usize));
    }
    assert(a =~= b);
}

/// Whatever is not kept, in ascending order.
fn lost_positions(kept: &Vec<bool>) -> (r: Vec<usize>)
    ensures
        r@ == lost(kept@),
{
    let mut positions: Vec<usize> = Vec::new();
    let mut i: usize = 0;
    assert(kept@.take(0) =~= Seq::empty());
    while i < kept.len()
        invariant
            i <= kept@.len(),
            positions@ == lost(kept@.take(i as int)),
        decreases kept@.len() - i,
    {
        assert(kept@.take(i + 1).drop_last() =~= kept@.take(i as int));
        if !kept[i] {
            positions.push(i);
        }
        i += 1;
    }
    assert(kept@.take(i as int) =~= kept@);
    positions
}

fn comes_before(a: &Vec<usize>, b: &Vec<usize>) -> (r: bool)
    ensures
        r == precedes(a@, b@),
{
    let mut i: usize = 0;
    assert(a@.skip(0) =~= a@);
    assert(b@.skip(0) =~= b@);
    while i < a.len() && i < b.len()
        invariant
            i <= a@.len(),
            i <= b@.len(),
            precedes(a@, b@) == precedes(a@.skip(i as int), b@.skip(i as int)),
        decreases a@.len() - i,
    {
        assert(a@.skip(i as int)[0] == a@[i as int]);
        assert(b@.skip(i as int)[0] == b@[i as int]);
        assert(a@.skip(i as int).skip(1) =~= a@.skip(i + 1));
        assert(b@.skip(i as int).skip(1) =~= b@.skip(i + 1));
        if a[i] != b[i] {
            return a[i] < b[i];
        }
        i += 1;
    }
    i < b.len()
}

/// Whether the first one keeps whatever the second one keeps: the positions that it gives up are
/// among those that the second one gives up.
pub fn is_index_subset(left: &Vec<bool>, right: &Vec<bool>) -> (r: bool)
    requires
        left@.len() == right@.len(),
    ensures
        r == includes(left@, right@),
{
    let mut i: usize = 0;
    while i < left.len()
        invariant
            left@.len() == right@.len(),
            i <= left@.len(),
            forall|j: int| 0 <= j < i && #[trigger] right@[j] ==> left@[j],
        decreases left@.len() - i,
    {
        if right[i] && !left[i] {
            return false;
        }
        i += 1;
    }
    true
}

fn same_mask(a: &Vec<bool>, b: &Vec<bool>) -> (r: bool)
    ensures
        r == (a@ == b@),
{
    if a.len() != b.len() {
        return false;
    }
    let mut i: usize = 0;
    while i < a.len()
        invariant
            a@.len() == b@.len(),
            i <= a@.len(),
            forall|j: int| 0 <= j < i ==> a@[j] == b@[j],
        decreases a@.len() - i,
    {
        if a[i] != b[i] {
            return false;
        }
        i += 1;
    }
    assert(a@ =~= b@);
    true
}

fn duplicate_mask(mask: &Vec<bool>) -> (r: Vec<bool>)
    ensures
        r@ == mask@,
{
    let mut copy: Vec<bool> = Vec::new();
    let mut i: usize = 0;
    while i < mask.len()
        invariant
            i <= mask@.len(),
            copy@ == mask@.take(i as int),
        decreases mask@.len() - i,
    {
        copy.push(mask[i]);
        assert(mask@.take(i + 1) =~= mask@.take(i as int).push(mask@[i as int]));
        i += 1;
    }
    assert(mask@.take(i as int) =~= mask@);
    copy
}

/// The contents of the list.
pub open spec fn masks(list: Seq<Vec<bool>>) -> Seq<Seq<bool>> {
    Seq::new(list.len(), |i: int| list[i]@)
}

/// Something in the list keeps whatever this keeps.
spec fn above(list: Seq<Seq<bool>>, kept: Seq<bool>) -> bool {
    exists|i: int| 0 <= i < list.len() && includes(#[trigger] list[i], kept)
}

/// Something in the list keeps whatever this keeps, and less than the given bound.
spec fn above_within(list: Seq<Seq<bool>>, bound: Seq<bool>, kept: Seq<bool>) -> bool {
    exists|i: int|
        0 <= i < list.len() && includes(#[trigger] list[i], kept) && includes(bound, list[i])
            && list[i] != bound
}

/// Nothing in the list keeps whatever another one keeps.
spec fn antichain(list: Seq<Seq<bool>>) -> bool {
    forall|i: int, j: int|
        0 <= i < list.len() && 0 <= j < list.len() && includes(
            #[trigger] list[i],
            #[trigger] list[j],
        ) ==> i == j
}

/// Where the search for the maximal elements stands: all that is good lies below something known or
/// pending, and what lies below something visited does so without it.
spec fn searching(
    good: spec_fn(Seq<bool>) -> bool,
    known: Seq<Seq<bool>>,
    pending: Seq<Seq<bool>>,
    visited: Seq<Seq<bool>>,
) -> bool {
    &&& forall|i: int| 0 <= i < known.len() ==> good(#[trigger] known[i])
    &&& antichain(known)
    &&& forall|kept: Seq<bool>| #[trigger] good(kept) ==> above(known, kept) || above(pending, kept)
    &&& forall|i: int, kept: Seq<bool>|
        0 <= i < visited.len() && #[trigger] good(kept) && includes(#[trigger] visited[i], kept)
            ==> above(known, kept) || above_within(pending, visited[i], kept)
}

proof fn lemma_includes_transitive(a: Seq<bool>, b: Seq<bool>, c: Seq<bool>)
    requires
        includes(a, b),
        includes(b, c),
    ensures
        includes(a, c),
{
    assert forall|i: int| 0 <= i < c.len() && #[trigger] c[i] implies a[i] by {
        assert(b[i]);
    }
}

pub proof fn lemma_includes_antisymmetric(a: Seq<bool>, b: Seq<bool>)
    requires
        includes(a, b),
        includes(b, a),
    ensures
        a == b,
{
    assert forall|i: int| 0 <= i < a.len() implies a[i] == b[i] by {
        if a[i] {
            assert(b[i]);
        }
        if b[i] {
            assert(a[i]);
        }
    }
    assert(a =~= b);
}

/// What was pending may be dropped where each thing below it lies below something else as well.
proof fn lemma_drop_pending(
    good: spec_fn(Seq<bool>) -> bool,
    known: Seq<Seq<bool>>,
    pending: Seq<Seq<bool>>,
    visited: Seq<Seq<bool>>,
    known_after: Seq<Seq<bool>>,
    pending_after: Seq<Seq<bool>>,
)
    requires
        searching(good, known, pending, visited),
        pending.len() > 0,
        forall|i: int| 0 <= i < known_after.len() ==> good(#[trigger] known_after[i]),
        antichain(known_after),
        forall|kept: Seq<bool>| #[trigger] above(known, kept) ==> above(known_after, kept),
        forall|i: int|
            0 <= i < pending.len() - 1 ==> pending_after.contains(#[trigger] pending[i]),
        forall|kept: Seq<bool>| #[trigger]
            good(kept) && includes(pending.last(), kept) ==> above(known_after, kept)
                || above_within(pending_after, pending.last(), kept),
    ensures
        searching(good, known_after, pending_after, visited.push(pending.last())),
{
    let last = pending.last();
    let n = pending.len() - 1;
    let all_visited = visited.push(last);
    assert forall|kept: Seq<bool>| #[trigger] good(kept) implies above(known_after, kept) || above(
        pending_after,
        kept,
    ) by {
        if !above(known, kept) {
            let i = choose|i: int| 0 <= i < pending.len() && includes(#[trigger] pending[i], kept);
            if i < n {
                let j = choose|j: int|
                    0 <= j < pending_after.len() && pending_after[j] == pending[i];
                assert(includes(pending_after[j], kept));
            } else if !above(known_after, kept) {
                let j = choose|j: int|
                    0 <= j < pending_after.len() && includes(#[trigger] pending_after[j], kept)
                        && includes(last, pending_after[j]) && pending_after[j] != last;
                assert(includes(pending_after[j], kept));
            }
        }
    }
    assert forall|i: int, kept: Seq<bool>|
        0 <= i < all_visited.len() && #[trigger] good(kept) && includes(
            #[trigger] all_visited[i],
            kept,
        ) implies above(known_after, kept) || above_within(
        pending_after,
        all_visited[i],
        kept,
    ) by {
        if i < visited.len() {
            let bound = visited[i];
            assert(all_visited[i] == bound);
            if !above(known, kept) {
                assert(above_within(pending, bound, kept));
                let j = choose|j: int|
                    0 <= j < pending.len() && includes(#[trigger] pending[j], kept) && includes(
                        bound,
                        pending[j],
                    ) && pending[j] != bound;
                if j < n {
                    let m = choose|m: int|
                        0 <= m < pending_after.len() && pending_after[m] == pending[j];
                    assert(includes(pending_after[m], kept));
                } else if !above(known_after, kept) {
                    let m = choose|m: int|
                        0 <= m < pending_after.len() && includes(#[trigger] pending_after[m], kept)
                            && includes(last, pending_after[m]) && pending_after[m] != last;
                    lemma_includes_transitive(bound, last, pending_after[m]);
                    if pending_after[m] == bound {
                        lemma_includes_antisymmetric(bound, last);
                    }
                    assert(includes(pending_after[m], kept));
                }
            }
        }
    }
}

/// What has been visited before may be dropped.
proof fn lemma_drop_visited(
    good: spec_fn(Seq<bool>) -> bool,
    known: Seq<Seq<bool>>,
    pending: Seq<Seq<bool>>,
    visited: Seq<Seq<bool>>,
    v: int,
)
    requires
        searching(good, known, pending, visited),
        pending.len() > 0,
        0 <= v < visited.len(),
        visited[v] == pending.last(),
    ensures
        searching(good, known, pending.drop_last(), visited),
{
    let last = pending.last();
    let after = pending.drop_last();
    assert forall|kept: Seq<bool>| #[trigger] good(kept) && includes(
        last,
        kept,
    ) implies above(known, kept) || above_within(after, last, kept) by {
        assert(includes(visited[v], kept));
        if !above(known, kept) {
            assert(above_within(pending, last, kept));
            let j = choose|j: int|
                0 <= j < pending.len() && includes(#[trigger] pending[j], kept) && includes(
                    last,
                    pending[j],
                ) && pending[j] != last;
            assert(after[j] == pending[j]);
        }
    }
    assert forall|i: int| 0 <= i < pending.len() - 1 implies after.contains(
        #[trigger] pending[i],
    ) by {
        assert(after[i] == pending[i]);
    }
    lemma_drop_pending(good, known, pending, visited, known, after);
    let longer = visited.push(last);
    assert forall|i: int, kept: Seq<bool>|
        0 <= i < visited.len() && #[trigger] good(kept) && includes(
            #[trigger] visited[i],
            kept,
        ) implies above(known, kept) || above_within(after, visited[i], kept) by {
        assert(longer[i] == visited[i]);
    }
}

/// With nothing pending, the known elements are the maximal ones.
proof fn lemma_found_all(
    good: spec_fn(Seq<bool>) -> bool,
    known: Seq<Seq<bool>>,
    visited: Seq<Seq<bool>>,
)
    requires
        searching(good, known, Seq::empty(), visited),
    ensures
        forall|kept: Seq<bool>| #[trigger] known.contains(kept) <==> maximal(good, kept),
        known.len() == 0 ==> forall|kept: Seq<bool>| !#[trigger] good(kept),
{
    assert forall|kept: Seq<bool>| #[trigger] good(kept) implies above(known, kept) by {
        let nothing = Seq::<Seq<bool>>::empty();
        assert(!above(nothing, kept));
    }
    assert forall|kept: Seq<bool>| #[trigger] known.contains(kept) <==> maximal(good, kept) by {
        if known.contains(kept) {
            let i = choose|i: int| 0 <= i < known.len() && known[i] == kept;
            assert forall|other: Seq<bool>| #[trigger] good(other) && includes(
                other,
                kept,
            ) implies other == kept by {
                let j = choose|j: int| 0 <= j < known.len() && includes(#[trigger] known[j], other);
                lemma_includes_transitive(known[j], other, kept);
                assert(includes(known[j], known[i]));
                lemma_includes_antisymmetric(other, kept);
            }
        }
        if maximal(good, kept) {
            let j = choose|j: int| 0 <= j < known.len() && includes(#[trigger] known[j], kept);
            assert(good(known[j]));
            assert(known[j] == kept);
        }
    }
}

/// What a solution has to meet to preserve exactly these preferences.
pub open spec fn demands_for<P: Package, VS: VersionSet>(
    preferences: Seq<PackagePreference<P, VS>>,
    kept: Seq<bool>,
) -> Clause<P::V, VS::V> {
    Seq::new(
        preferences.len(),
        |i: int|
            (
                preferences[i].key(),
                if kept[i] {
                    preferences[i].states()
                } else {
                    preferences[i].states().complement()
                },
            ),
    )
}

pub proof fn lemma_demands_for<P: Package, VS: VersionSet>(
    preferences: Seq<PackagePreference<P, VS>>,
    kept: Seq<bool>,
    s: Map<P::V, VS::V>,
)
    requires
        kept.len() == preferences.len(),
    ensures
        search::violates(demands_for(preferences, kept), s) <==> profile(preferences, s) == kept,
{
    let demands = demands_for(preferences, kept);
    if search::violates(demands, s) {
        assert forall|i: int| 0 <= i < kept.len() implies profile(preferences, s)[i] == kept[i] by {
            assert(demands[i].1.contains(s.get(demands[i].0)));
        }
        assert(profile(preferences, s) =~= kept);
    }
    if profile(preferences, s) == kept {
        assert forall|i: int| 0 <= i < demands.len() implies (#[trigger] demands[i]).1.contains(
            s.get(demands[i].0),
        ) by {
            assert(profile(preferences, s)[i] == kept[i]);
        }
    }
}

/// The terms that a solution has to meet to preserve exactly these preferences.
pub fn required_terms<P: Package, VS: VersionSet>(
    preferences: &Vec<PackagePreference<P, VS>>,
    kept: &Vec<bool>,
) -> (r: Vec<(P, Term<VS>)>)
    requires
        kept@.len() == preferences@.len(),
    ensures
        term::parts(r@) == demands_for(preferences@, kept@),
{
    let mut terms: Vec<(P, Term<VS>)> = Vec::new();
    let ghost demands = demands_for(preferences@, kept@);
    let mut i: usize = 0;
    while i < preferences.len()
        invariant
            kept@.len() == preferences@.len(),
            demands == demands_for(preferences@, kept@),
            i <= preferences@.len(),
            term::parts(terms@) =~= demands.take(i as int),
        decreases preferences@.len() - i,
    {
        let ghost before = term::parts(terms@);
        let term = if kept[i] {
            preferences[i].preferred().duplicate()
        } else {
            preferences[i].preferred().negate()
        };
        terms.push((preferences[i].package().duplicate(), term));
        proof {
            assert(term::parts(terms@) =~= before.push(demands[i as int]));
            assert(demands.take(i + 1) =~= demands.take(i as int).push(demands[i as int]));
        }
        i += 1;
    }
    assert(demands.take(i as int) =~= demands);
    terms
}

/// Whether the mask is in the list.
fn holds_mask(list: &Vec<Vec<bool>>, mask: &Vec<bool>) -> (r: bool)
    ensures
        r == masks(list@).contains(mask@),
{
    let mut i: usize = 0;
    while i < list.len()
        invariant
            i <= list@.len(),
            forall|j: int| 0 <= j < i ==> (#[trigger] list@[j])@ != mask@,
        decreases list@.len() - i,
    {
        if same_mask(&list[i], mask) {
            assert(masks(list@)[i as int] == mask@);
            return true;
        }
        i += 1;
    }
    proof {
        if masks(list@).contains(mask@) {
            let j = choose|j: int| 0 <= j < masks(list@).len() && masks(list@)[j] == mask@;
            assert(list@[j]@ == mask@);
        }
    }
    false
}

/// Whether something in the list keeps whatever the mask keeps.
fn holds_above(list: &Vec<Vec<bool>>, mask: &Vec<bool>) -> (r: bool)
    requires
        forall|i: int| 0 <= i < list@.len() ==> (#[trigger] list@[i])@.len() == mask@.len(),
    ensures
        r == above(masks(list@), mask@),
{
    let mut i: usize = 0;
    while i < list.len()
        invariant
            i <= list@.len(),
            forall|j: int| 0 <= j < list@.len() ==> (#[trigger] list@[j])@.len() == mask@.len(),
            forall|j: int| 0 <= j < i ==> !includes((#[trigger] list@[j])@, mask@),
        decreases list@.len() - i,
    {
        if is_index_subset(&list[i], mask) {
            assert(includes(masks(list@)[i as int], mask@));
            return true;
        }
        i += 1;
    }
    proof {
        if above(masks(list@), mask@) {
            let j = choose|j: int|
                0 <= j < masks(list@).len() && includes(#[trigger] masks(list@)[j], mask@);
            assert(includes(list@[j]@, mask@));
        }
    }
    false
}

/// The list without what keeps no more than the mask, and with the mask.
fn retain_maximal(list: Vec<Vec<bool>>, mask: Vec<bool>) -> (r: Vec<Vec<bool>>)
    requires
        forall|i: int| 0 <= i < list@.len() ==> (#[trigger] list@[i])@.len() == mask@.len(),
        antichain(masks(list@)),
        !above(masks(list@), mask@),
    ensures
        antichain(masks(r@)),
        forall|i: int| 0 <= i < r@.len() ==> (#[trigger] r@[i])@.len() == mask@.len(),
        forall|i: int|
            0 <= i < r@.len() ==> masks(list@).contains((#[trigger] r@[i])@) || r@[i]@ == mask@,
        forall|kept: Seq<bool>| #[trigger]
            above(masks(list@), kept) || includes(mask@, kept) ==> above(masks(r@), kept),
        r@.len() > 0,
{
    let ghost all = masks(list@);
    let mut retained: Vec<Vec<bool>> = Vec::new();
    let mut i: usize = 0;
    while i < list.len()
        invariant
            all == masks(list@),
            forall|i: int| 0 <= i < list@.len() ==> (#[trigger] list@[i])@.len() == mask@.len(),
            antichain(all),
            !above(all, mask@),
            i <= list@.len(),
            antichain(masks(retained@)),
            forall|j: int|
                0 <= j < retained@.len() ==> {
                    &&& (#[trigger] retained@[j])@.len() == mask@.len()
                    &&& all.take(i as int).contains(retained@[j]@)
                    &&& !includes(mask@, retained@[j]@)
                },
            forall|j: int|
                0 <= j < i ==> includes(mask@, #[trigger] all[j]) || masks(retained@).contains(
                    all[j],
                ),
        decreases list@.len() - i,
    {
        let ghost before = masks(retained@);
        let ghost new = all[i as int];
        let below = is_index_subset(&mask, &list[i]);
        if !below {
            retained.push(duplicate_mask(&list[i]));
        }
        proof {
            let after = masks(retained@);
            if !below {
                assert(after =~= before.push(new));
            } else {
                assert(after =~= before);
            }
            assert forall|j: int| 0 <= j < retained@.len() implies {
                &&& (#[trigger] retained@[j])@.len() == mask@.len()
                &&& all.take(i + 1).contains(retained@[j]@)
                &&& !includes(mask@, retained@[j]@)
            } by {
                if j < before.len() {
                    assert(after[j] == before[j]);
                    let m = choose|m: int|
                        0 <= m < all.take(i as int).len() && all.take(i as int)[m]
                            == retained@[j]@;
                    assert(all.take(i + 1)[m] == retained@[j]@);
                } else {
                    assert(all.take(i + 1)[i as int] == new);
                }
            }
            assert(antichain(after)) by {
                assert forall|a: int, b: int|
                    0 <= a < after.len() && 0 <= b < after.len() && includes(
                        #[trigger] after[a],
                        #[trigger] after[b],
                    ) implies a == b by {
                    if a < before.len() && b < before.len() {
                        assert(includes(before[a], before[b]));
                    } else if a < before.len() {
                        assert(after[a] == retained@[a]@);
                        let m = choose|m: int|
                            0 <= m < all.take(i as int).len() && all.take(i as int)[m] == after[a];
                        assert(includes(all[m], all[i as int]));
                    } else if b < before.len() {
                        assert(after[b] == retained@[b]@);
                        let m = choose|m: int|
                            0 <= m < all.take(i as int).len() && all.take(i as int)[m] == after[b];
                        assert(includes(all[i as int], all[m]));
                    }
                }
            }
            assert forall|j: int| 0 <= j < i + 1 implies includes(mask@, #[trigger] all[j])
                || after.contains(all[j]) by {
                if j < i {
                    if before.contains(all[j]) {
                        let m = choose|m: int| 0 <= m < before.len() && before[m] == all[j];
                        assert(after[m] == all[j]);
                    }
                } else if !below {
                    assert(after[before.len() as int] == new);
                }
            }
        }
        i += 1;
    }
    let ghost kept_list = masks(retained@);
    let ghost held = retained@;
    let ghost bits = mask@;
    retained.push(mask);
    proof {
        let after = masks(retained@);
        let n = kept_list.len() as int;
        assert(after =~= kept_list.push(bits));
        assert(all.take(i as int) =~= all);
        assert(antichain(after)) by {
            assert forall|a: int, b: int|
                0 <= a < after.len() && 0 <= b < after.len() && includes(
                    #[trigger] after[a],
                    #[trigger] after[b],
                ) implies a == b by {
                if a < n && b < n {
                    assert(includes(kept_list[a], kept_list[b]));
                } else if a < n {
                    assert(after[a] == held[a]@);
                    let m = choose|m: int| 0 <= m < all.len() && all[m] == after[a];
                    assert(includes(all[m], bits));
                } else if b < n {
                    assert(after[b] == held[b]@);
                }
            }
        }
        assert forall|j: int| 0 <= j < retained@.len() implies masks(list@).contains(
            (#[trigger] retained@[j])@,
        ) || retained@[j]@ == bits by {
            if j < n {
                assert(retained@[j] == held[j]);
            }
        }
        assert forall|j: int| 0 <= j < retained@.len() implies (#[trigger] retained@[j])@.len()
            == bits.len() by {
            if j < n {
                assert(retained@[j] == held[j]);
            }
        }
        assert forall|kept: Seq<bool>| #[trigger]
            above(all, kept) || includes(bits, kept) implies above(after, kept) by {
            assert(after[n] == bits);
            if !includes(bits, kept) {
                let j = choose|j: int| 0 <= j < all.len() && includes(#[trigger] all[j], kept);
                if includes(bits, all[j]) {
                    lemma_includes_transitive(bits, all[j], kept);
                } else {
                    let m = choose|m: int| 0 <= m < kept_list.len() && kept_list[m] == all[j];
                    assert(after[m] == all[j]);
                }
            }
        }
    }
    retained
}

/// The masks in lexicographic order of what they do not keep.
fn sort_masks(list: Vec<Vec<bool>>, n: usize) -> (r: Vec<Vec<bool>>)
    requires
        forall|i: int| 0 <= i < list@.len() ==> (#[trigger] list@[i])@.len() == n,
        antichain(masks(list@)),
    ensures
        in_order(masks(r@)),
        forall|kept: Seq<bool>| #[trigger]
            masks(r@).contains(kept) <==> masks(list@).contains(kept),
        r@.len() == list@.len(),
        forall|i: int| 0 <= i < r@.len() ==> (#[trigger] r@[i])@.len() == n,
{
    let ghost all = masks(list@);
    let mut sorted: Vec<Vec<bool>> = Vec::new();
    let mut i: usize = 0;
    while i < list.len()
        invariant
            all == masks(list@),
            forall|i: int| 0 <= i < list@.len() ==> (#[trigger] list@[i])@.len() == n,
            antichain(all),
            i <= list@.len(),
            sorted@.len() == i,
            in_order(masks(sorted@)),
            forall|j: int| 0 <= j < sorted@.len() ==> (#[trigger] sorted@[j])@.len() == n,
            forall|kept: Seq<bool>| #[trigger]
                masks(sorted@).contains(kept) <==> all.take(i as int).contains(kept),
        decreases list@.len() - i,
    {
        let ghost before = masks(sorted@);
        let ghost held = sorted@;
        let ghost new = all[i as int];
        let positions = lost_positions(&list[i]);
        let mut p: usize = 0;
        while p < sorted.len() && !comes_before(&positions, &lost_positions(&sorted[p]))
            invariant
                p <= sorted@.len(),
                sorted@ == held,
                before == masks(held),
                positions@ == lost(new),
                forall|j: int| 0 <= j < p ==> !precedes(lost(new), lost(#[trigger] before[j])),
            decreases sorted@.len() - p,
        {
            p += 1;
        }
        sorted.insert(p, duplicate_mask(&list[i]));
        proof {
            let after = masks(sorted@);
            assert(after =~= before.insert(p as int, new));
            assert(new.len() == n);
            assert forall|j: int| 0 <= j < before.len() implies #[trigger] before[j] != new by {
                if before[j] == new {
                    assert(before.contains(new));
                    let m = choose|m: int|
                        0 <= m < all.take(i as int).len() && all.take(i as int)[m] == new;
                    assert(includes(all[m], all[i as int]));
                }
            }
            assert forall|j: int| 0 <= j < p implies precedes(
                lost(#[trigger] before[j]),
                lost(new),
            ) by {
                assert(before[j] == held[j]@);
                lemma_precedes_total(lost(before[j]), lost(new));
                if lost(before[j]) == lost(new) {
                    lemma_lost_injective(before[j], new);
                }
            }
            assert forall|j: int| p <= j < before.len() implies precedes(
                lost(new),
                lost(#[trigger] before[j]),
            ) by {
                assert(before[p as int] == held[p as int]@);
                assert(precedes(lost(new), lost(before[p as int])));
                if j > p {
                    lemma_precedes_transitive(
                        lost(new),
                        lost(before[p as int]),
                        lost(before[j]),
                    );
                }
            }
            assert forall|a: int, b: int| 0 <= a < b < after.len() implies precedes(
                lost(#[trigger] after[a]),
                lost(#[trigger] after[b]),
            ) by {
                let x = if a < p {
                    a
                } else {
                    a - 1
                };
                let y = if b < p {
                    b
                } else {
                    b - 1
                };
                if a != p && b != p {
                    assert(after[a] == before[x]);
                    assert(after[b] == before[y]);
                } else if a == p {
                    assert(after[b] == before[y]);
                } else {
                    assert(after[a] == before[x]);
                }
            }
            assert forall|j: int| 0 <= j < sorted@.len() implies (#[trigger] sorted@[j])@.len()
                == n by {
                if j < p {
                    assert(sorted@[j] == held[j]);
                } else if j > p {
                    assert(sorted@[j] == held[j - 1]);
                }
            }
            let prefix = all.take(i as int);
            let longer = all.take(i + 1);
            assert(longer =~= prefix.push(new));
            assert forall|kept: Seq<bool>| #[trigger] after.contains(kept) <==> longer.contains(
                kept,
            ) by {
                if after.contains(kept) {
                    let j = choose|j: int| 0 <= j < after.len() && after[j] == kept;
                    if j == p {
                        assert(longer[i as int] == kept);
                    } else {
                        let m = if j < p {
                            j
                        } else {
                            j - 1
                        };
                        assert(before[m] == kept);
                        assert(before.contains(kept));
                        let x = choose|x: int| 0 <= x < prefix.len() && prefix[x] == kept;
                        assert(longer[x] == kept);
                    }
                }
                if longer.contains(kept) {
                    let x = choose|x: int| 0 <= x < longer.len() && longer[x] == kept;
                    if x < i {
                        assert(prefix[x] == kept);
                        assert(before.contains(kept));
                        let m = choose|m: int| 0 <= m < before.len() && before[m] == kept;
                        if m < p {
                            assert(after[m] == kept);
                        } else {
                            assert(after[m + 1] == kept);
                        }
                    } else {
                        assert(after[p as int] == kept);
                    }
                }
            }
        }
        i += 1;
    }
    assert(all.take(i as int) =~= all);
    sorted
}

/// The combinations of preferences that some solution preserves.
pub open spec fn preservable<DP: DependencyProvider>(
    dp: DP,
    root: Key<DP>,
    version: VersionOf<DP>,
    preferences: Seq<PackagePreference<DP::P, DP::VS>>,
) -> spec_fn(Seq<bool>) -> bool {
    |kept: Seq<bool>| achievable(dp, root, version, preferences, kept)
}

/// The masks that have not been visited.
spec fn unvisited(n: nat, visited: Seq<Seq<bool>>) -> Set<Seq<bool>> {
    Set::new(|mask: Seq<bool>| mask.len() == n && !visited.contains(mask))
}

proof fn lemma_unvisited(n: nat, visited: Seq<Seq<bool>>, mask: Seq<bool>)
    requires
        mask.len() == n,
        !visited.contains(mask),
    ensures
        unvisited(n, visited.push(mask)).len() < unvisited(n, visited).len(),
{
    let before = unvisited(n, visited);
    let after = unvisited(n, visited.push(mask));
    progress::lemma_all_patterns_finite(n);
    lemma_set_subset_finite(progress::all_patterns(n), before);
    assert(visited.push(mask)[visited.len() as int] == mask);
    assert(after.subset_of(before)) by {
        assert forall|other: Seq<bool>| #[trigger] after.contains(other) implies before.contains(
            other,
        ) by {
            if visited.contains(other) {
                let i = choose|i: int| 0 <= i < visited.len() && visited[i] == other;
                assert(visited.push(mask)[i] == other);
            }
        }
    }
    assert(before.contains(mask) && !after.contains(mask));
    after.lemma_subset_not_in_lt(before, mask);
}

/// What is pending, without the preferences that were given up last.
spec fn pending_masks(pending: Seq<(Vec<bool>, Option<usize>)>) -> Seq<Seq<bool>> {
    Seq::new(pending.len(), |i: int| pending[i].0@)
}

/// A solution that keeps less than what turned out to be impossible gives up a preference whose
/// package the proof blames.
proof fn lemma_branch<DP: DependencyProvider>(
    dp: DP,
    root: Key<DP>,
    version: VersionOf<DP>,
    preferences: Seq<PackagePreference<DP::P, DP::VS>>,
    kept: Seq<bool>,
    tree: &DerivationTree<DP::P, DP::VS, DP::M>,
    less: Seq<bool>,
) -> (i: int)
    requires
        kept.len() == preferences.len(),
        forall|i: int|
            0 <= i < preferences.len() ==> preference::usable(root, #[trigger] preferences[i]),
        tree.rests_on(
            problem::facts(
                dp,
                root,
                version,
                run::forced_clauses(root, version, demands_for(preferences, kept)),
            ),
        ),
        forall|s: Selection<DP>| s.get(root) == Some(version) ==> #[trigger] tree.refutes(s),
        achievable(dp, root, version, preferences, less),
        includes(kept, less),
    ensures
        0 <= i < preferences.len(),
        kept[i],
        !less[i],
        tree.forces(preferences[i].key()),
{
    let demands = demands_for(preferences, kept);
    let exclusions = run::forced_clauses(root, version, demands);
    let s = choose|s: Selection<DP>| #[trigger]
        problem::is_solution(dp, root, version, s) && profile(preferences, s) == less;
    assert(tree.refutes(s));
    let j = problem::lemma_blame(dp, root, version, exclusions, tree, s);
    let i = run::lemma_forced_violated(root, version, demands, s, j);
    assert(preference::usable(root, preferences[i]));
    assert(demands[i].1 != Set::<Option<VersionOf<DP>>>::empty()) by {
        if preferences[i].states().complement() =~= Set::<Option<VersionOf<DP>>>::empty() {
            assert(preferences[i].states() =~= Set::full());
        }
    }
    assert(search::mentions(exclusions[j], preferences[i].key()));
    assert(profile(preferences, s)[i] == less[i]);
    i
}

/// Whether the list holds the package.
fn holds<P: Package>(packages: &Vec<&P>, package: &P) -> (r: bool)
    ensures
        r == report::listed(packages@, package@),
{
    let mut i: usize = 0;
    while i < packages.len()
        invariant
            i <= packages@.len(),
            forall|j: int| 0 <= j < i ==> (#[trigger] packages@[j])@ != package@,
        decreases packages@.len() - i,
    {
        if packages[i].same(package) {
            return true;
        }
        i += 1;
    }
    false
}

/// What is pending, with the preferences that were given up last.
spec fn queued(pending: Seq<(Vec<bool>, Option<usize>)>) -> Seq<(Seq<bool>, Option<int>)> {
    Seq::new(
        pending.len(),
        |i: int|
            (
                pending[i].0@,
                match pending[i].1 {
                    Some(index) => Some(index as int),
                    None => None,
                },
            ),
    )
}

/// The preferences that are about one of the packages.
spec fn listed_in<P: Package, VS: VersionSet>(
    preferences: Seq<PackagePreference<P, VS>>,
    packages: Seq<&P>,
) -> Seq<bool> {
    Seq::new(preferences.len(), |i: int| report::listed(packages, preferences[i].key()))
}

/// Add what is left of the mask without each one of the preferences whose package is blamed.
fn branch<P: Package, VS: VersionSet>(
    pending: &mut Vec<(Vec<bool>, Option<usize>)>,
    preferences: &Vec<PackagePreference<P, VS>>,
    kept: &Vec<bool>,
    forced: &Vec<&P>,
)
    requires
        kept@.len() == preferences@.len(),
        forall|i: int|
            0 <= i < old(pending)@.len() ==> {
                &&& (#[trigger] old(pending)@[i]).0@.len() == preferences@.len()
                &&& old(pending)@[i].1 matches Some(index) ==> index < preferences@.len()
            },
    ensures
        forall|i: int|
            0 <= i < final(pending)@.len() ==> {
                &&& (#[trigger] final(pending)@[i]).0@.len() == preferences@.len()
                &&& final(pending)@[i].1 matches Some(index) ==> index < preferences@.len()
            },
        queued(final(pending)@) == queued(old(pending)@) + attempts::fewer(
            kept@,
            listed_in(preferences@, forced@),
            0,
        ),
{
    let ghost before = queued(pending@);
    let ghost blamed = listed_in(preferences@, forced@);
    let n = preferences.len();
    let mut index = n;
    assert(queued(pending@) =~= before + attempts::fewer(kept@, blamed, index as int));
    while index > 0
        invariant
            n == preferences@.len(),
            kept@.len() == n,
            index <= n,
            forall|i: int|
                0 <= i < pending@.len() ==> {
                    &&& (#[trigger] pending@[i]).0@.len() == n
                    &&& pending@[i].1 matches Some(index) ==> index < n
                },
            blamed == listed_in(preferences@, forced@),
            queued(pending@) == before + attempts::fewer(kept@, blamed, index as int),
        decreases index,
    {
        index -= 1;
        let ghost earlier = pending@;
        if kept[index] && holds(forced, preferences[index].package()) {
            let mut descendant = duplicate_mask(kept);
            descendant.set(index, false);
            pending.push((descendant, Some(index)));
            proof {
                let added = (kept@.update(index as int, false), Some(index as int));
                assert(queued(pending@) =~= queued(earlier).push(added));
                assert forall|i: int| 0 <= i < pending@.len() implies {
                    &&& (#[trigger] pending@[i]).0@.len() == n
                    &&& pending@[i].1 matches Some(index) ==> index < n
                } by {
                    if i < earlier.len() {
                        assert(pending@[i] == earlier[i]);
                    }
                }
            }
        }
        assert(queued(pending@) =~= before + attempts::fewer(kept@, blamed, index as int));
    }
}

/// The next number, up to what it can hold.
pub fn next_run(run: u64) -> (r: u64)
    ensures
        r == observer::run_number(run + 1),
{
    if run < u64::MAX {
        run + 1
    } else {
        run
    }
}

/// How a search went, as an observer is told.
pub open spec fn probe_result<T, DP: DependencyProvider>(
    r: Result<T, PubGrubError<DP>>,
) -> MaximalityProbeResult {
    match r {
        Ok(_) => MaximalityProbeResult::Improved,
        Err(PubGrubError::NoSolution(_)) => MaximalityProbeResult::NoImprovement,
        Err(_) => MaximalityProbeResult::Error,
    }
}

/// What an observer is told of a run, and of the preference that is given up in it.
pub open spec fn attempt_told<DP: DependencyProvider>(
    run: u64,
    given_up: Option<Key<DP>>,
    result: MaximalityProbeResult,
) -> Seq<Observed<Key<DP>, VersionOf<DP>>> {
    match given_up {
        Some(k) => seq![
            Observed::EnumerationRunStarted(run),
            Observed::PreferenceProbeStarted(k),
            Observed::PreferenceProbeFinished(k, result),
            Observed::EnumerationRunFinished(run),
        ],
        None => seq![Observed::EnumerationRunStarted(run), Observed::EnumerationRunFinished(run)],
    }
}

/// Look for a solution that meets the demands, and tell the observer of the run.
#[verifier::rlimit(90)]
fn attempt<DP: DependencyProvider, O: SolverObserver<DP::P, DP::VS, DP::M>>(
    dependency_provider: &DP,
    root_package: &DP::P,
    root_version: &VersionOf<DP>,
    required: &Vec<(DP::P, Term<DP::VS>)>,
    given_up: Option<&DP::P>,
    run: u64,
    observer: &mut O,
) -> (r: Result<(), PubGrubError<DP>>)
    ensures
        final(observer).log() == old(observer).log() + attempt_told::<DP>(
            run,
            match given_up {
                Some(package) => Some(package@),
                None => None,
            },
            probe_result(r),
        ),
        error::heeds_cancellation(*dependency_provider, r),
        run::ends_as(
            *dependency_provider,
            root_package@,
            *root_version,
            term::parts(required@),
            r,
        ),
        match r {
            Ok(_) => exists|s: Selection<DP>| #[trigger]
                problem::is_solution(*dependency_provider, root_package@, *root_version, s)
                    && search::violates(term::parts(required@), s),
            Err(error) => {
                ||| error.proves_no_solution(
                    *dependency_provider,
                    root_package@,
                    *root_version,
                    run::forced_clauses(root_package@, *root_version, term::parts(required@)),
                )
                ||| error.raised_by(*dependency_provider) && dependency_provider.may_fail()
            },
        },
{
    let ghost demands = term::parts(required@);
    let ghost exclusions = run::forced_clauses(root_package@, *root_version, demands);
    let ghost log = observer.log();
    let mut solver: SolverState<DP> = SolverState::new(
        root_package.duplicate(),
        root_version.duplicate(),
    );
    assert(solver.agrees(*dependency_provider));
    let ghost nothing = solver.exclusions();
    solver.force_terms(required);
    assert(solver.exclusions() =~= exclusions);
    assert(solver.agrees(*dependency_provider));
    let event = SolverEvent::EnumerationRunStarted { run };
    observer.on_event(event);
    if let Some(package) = given_up {
        let event = SolverEvent::PreferenceProbeStarted { package };
        observer.on_event(event);
    }
    let mut silent = NoopSolverObserver::new();
    let ghost start = solver.holdings();
    let result = solver.run_until_solution(dependency_provider, &mut silent);
    proof {
        if machine::is_deterministic(*dependency_provider) {
            let end = choose|end: Machine<Key<DP>, VersionOf<DP>>|
                #[trigger] machine::runs_to(
                    *dependency_provider,
                    root_package@,
                    *root_version,
                    start,
                    end,
                ) && end.end == Some(run::outcome(result));
            machine::lemma_run_of(
                *dependency_provider,
                root_package@,
                *root_version,
                start,
                end,
            );
        }
    }
    if let Some(package) = given_up {
        let outcome = match &result {
            Ok(_) => MaximalityProbeResult::Improved,
            Err(PubGrubError::NoSolution(_)) => MaximalityProbeResult::NoImprovement,
            Err(_) => MaximalityProbeResult::Error,
        };
        let event = SolverEvent::PreferenceProbeFinished { package, result: outcome };
        observer.on_event(event);
    }
    let event = SolverEvent::EnumerationRunFinished { run };
    observer.on_event(event);
    proof {
        let given = match given_up {
            Some(package) => Some(package@),
            None => None,
        };
        assert(observer.log() =~= log + attempt_told::<DP>(run, given, probe_result(result)));
    }
    match result {
        Ok(solution) => {
            proof {
                run::lemma_forced(root_package@, *root_version, demands, solution@);
                assert(problem::is_solution(
                    *dependency_provider,
                    root_package@,
                    *root_version,
                    solution@,
                ));
            }
            Ok(())
        },
        Err(error) => Err(error),
    }
}

/// The log has grown by complete runs, at least one.
pub open spec fn tells_runs<DP: DependencyProvider, O: SolverObserver<DP::P, DP::VS, DP::M>>(
    before: Seq<Observed<Key<DP>, VersionOf<DP>>>,
    after: Seq<Observed<Key<DP>, VersionOf<DP>>>,
) -> bool {
    exists|runs: u64|
        runs >= 1 && #[trigger] observer::reports::<DP::P, DP::VS, DP::M, O>(before, after, runs, 0)
}

/// What an observer is told of the search for preferences: complete runs, at least one, with a probe
/// for each preference that is given up, and nothing else. A probe ends with an error only where that
/// error is returned.
pub open spec fn tells_attempts<DP: DependencyProvider, O: SolverObserver<DP::P, DP::VS, DP::M>, T>(
    dp: DP,
    root: Key<DP>,
    version: VersionOf<DP>,
    preferences: Seq<PackagePreference<DP::P, DP::VS>>,
    before: Seq<Observed<Key<DP>, VersionOf<DP>>>,
    after: Seq<Observed<Key<DP>, VersionOf<DP>>>,
    r: Result<T, PubGrubError<DP>>,
) -> bool {
    &&& tells_runs::<DP, O>(before, after)
    &&& attempts::tells_each::<DP>(
        dp,
        root,
        version,
        preferences,
        before,
        after,
        attempts::outcome(r),
    )
    &&& observer::only_boundaries(before, after)
    &&& r is Ok || !r->Err_0.raised_by(dp) ==> observer::no_probe_failed(before, after)
}

/// One attempt more.
proof fn lemma_attempt<DP: DependencyProvider, O: SolverObserver<DP::P, DP::VS, DP::M>>(
    log: Seq<Observed<Key<DP>, VersionOf<DP>>>,
    earlier: Seq<Observed<Key<DP>, VersionOf<DP>>>,
    last: u64,
    run: u64,
    given_up: Option<Key<DP>>,
    result: MaximalityProbeResult,
)
    requires
        observer::reports::<DP::P, DP::VS, DP::M, O>(log, earlier, last, 0),
        observer::only_boundaries(log, earlier),
        observer::no_probe_failed(log, earlier),
        run == observer::run_number(last + 1),
    ensures
        observer::reports::<DP::P, DP::VS, DP::M, O>(
            log,
            earlier + attempt_told::<DP>(run, given_up, result),
            run,
            0,
        ),
        observer::only_boundaries(log, earlier + attempt_told::<DP>(run, given_up, result)),
        !(result is Error) ==> observer::no_probe_failed(
            log,
            earlier + attempt_told::<DP>(run, given_up, result),
        ),
{
    reveal(observer::leads);
    let more = attempt_told::<DP>(run, given_up, result);
    let after = earlier + more;
    let from = observer::idle::<Key<DP>>(0);
    let idle = observer::idle::<Key<DP>>(last);
    let running = observer::Stage { run, running: true, probe: None::<Key<DP>> };
    let one = earlier.push(more[0]);
    observer::lemma_leads_push::<DP::P, DP::VS, DP::M, O>(log, earlier, more[0], from, idle, 0);
    match given_up {
        Some(k) => {
            let probing = observer::Stage { run, running: true, probe: Some(k) };
            let two = one.push(more[1]);
            let three = two.push(more[2]);
            observer::lemma_leads_push::<DP::P, DP::VS, DP::M, O>(
                log,
                one,
                more[1],
                from,
                running,
                0,
            );
            observer::lemma_leads_push::<DP::P, DP::VS, DP::M, O>(
                log,
                two,
                more[2],
                from,
                probing,
                0,
            );
            observer::lemma_leads_push::<DP::P, DP::VS, DP::M, O>(
                log,
                three,
                more[3],
                from,
                running,
                0,
            );
            assert(three.push(more[3]) =~= after);
        },
        None => {
            observer::lemma_leads_push::<DP::P, DP::VS, DP::M, O>(
                log,
                one,
                more[1],
                from,
                running,
                0,
            );
            assert(one.push(more[1]) =~= after);
        },
    }
    assert forall|i: int| log.len() <= i < after.len() implies observer::is_boundary(
        #[trigger] after[i],
    ) && !(after[i] is Solution) by {
        if i < earlier.len() {
            assert(after[i] == earlier[i]);
        } else {
            assert(after[i] == more[i - earlier.len()]);
        }
    }
    if !(result is Error) {
        assert forall|i: int| log.len() <= i < after.len() implies match #[trigger] after[i] {
            Observed::MaximalityProbeFinished(_, result) => !(result is Error),
            Observed::PreferenceProbeFinished(_, result) => !(result is Error),
            _ => true,
        } by {
            if i < earlier.len() {
                assert(after[i] == earlier[i]);
            } else {
                assert(after[i] == more[i - earlier.len()]);
            }
        }
    }
}

/// What is visited and known goes with the attempts.
spec fn is_recorded(
    attempts: Seq<Attempt>,
    known: Seq<Seq<bool>>,
    visited: Seq<Seq<bool>>,
) -> bool {
    &&& forall|j: int|
        0 <= j < attempts.len() ==> visited.contains((#[trigger] attempts[j]).kept)
    &&& forall|i: int|
        0 <= i < visited.len() ==> attempts::is_settled(attempts, #[trigger] visited[i])
    &&& forall|kept: Seq<bool>| #[trigger] above(known, kept) <==> attempts::is_found(attempts, kept)
}

/// A combination is settled where it is visited or lies within something known.
proof fn lemma_recorded(
    attempts: Seq<Attempt>,
    known: Seq<Seq<bool>>,
    visited: Seq<Seq<bool>>,
    kept: Seq<bool>,
)
    requires
        is_recorded(attempts, known, visited),
    ensures
        attempts::is_settled(attempts, kept) <==> visited.contains(kept) || above(known, kept),
        known.len() > 0 <==> exists|j: int|
            0 <= j < attempts.len() && (#[trigger] attempts[j]).result is Improved,
{
    assert(above(known, kept) <==> attempts::is_found(attempts, kept));
    if visited.contains(kept) {
        let i = choose|i: int| 0 <= i < visited.len() && visited[i] == kept;
        assert(attempts::is_settled(attempts, visited[i]));
    }
    if known.len() > 0 {
        let first = known[0];
        assert(includes(known[0], first));
        assert(above(known, first));
        let j = choose|j: int|
            0 <= j < attempts.len() && (#[trigger] attempts[j]).result is Improved && includes(
                attempts[j].kept,
                first,
            );
        assert(attempts[j].result is Improved);
    }
    if exists|j: int| 0 <= j < attempts.len() && (#[trigger] attempts[j]).result is Improved {
        let j = choose|j: int|
            0 <= j < attempts.len() && (#[trigger] attempts[j]).result is Improved;
        let found = attempts[j].kept;
        assert(includes(attempts[j].kept, found));
        assert(attempts::is_found(attempts, found));
        assert(above(known, found));
    }
}

/// A combination that lies within something known counts as visited.
proof fn lemma_record_settled(
    attempts: Seq<Attempt>,
    known: Seq<Seq<bool>>,
    visited: Seq<Seq<bool>>,
    kept: Seq<bool>,
)
    requires
        is_recorded(attempts, known, visited),
        above(known, kept),
    ensures
        is_recorded(attempts, known, visited.push(kept)),
{
    let more = visited.push(kept);
    assert forall|j: int| 0 <= j < attempts.len() implies more.contains(
        (#[trigger] attempts[j]).kept,
    ) by {
        let i = choose|i: int| 0 <= i < visited.len() && visited[i] == attempts[j].kept;
        assert(more[i] == attempts[j].kept);
    }
    assert forall|i: int| 0 <= i < more.len() implies attempts::is_settled(
        attempts,
        #[trigger] more[i],
    ) by {
        if i < visited.len() {
            assert(more[i] == visited[i]);
        }
    }
}

/// One attempt more is recorded.
proof fn lemma_record_attempt(
    attempts: Seq<Attempt>,
    known: Seq<Seq<bool>>,
    visited: Seq<Seq<bool>>,
    tried: Attempt,
    known_after: Seq<Seq<bool>>,
)
    requires
        is_recorded(attempts, known, visited),
        forall|kept: Seq<bool>| #[trigger]
            above(known_after, kept) <==> above(known, kept) || tried.result is Improved
                && includes(tried.kept, kept),
    ensures
        is_recorded(attempts.push(tried), known_after, visited.push(tried.kept)),
{
    let all = attempts.push(tried);
    let more = visited.push(tried.kept);
    let n = attempts.len() as int;
    assert(all[n] == tried);
    assert(more[visited.len() as int] == tried.kept);
    assert forall|j: int| 0 <= j < all.len() implies more.contains((#[trigger] all[j]).kept) by {
        if j < n {
            assert(all[j] == attempts[j]);
            let i = choose|i: int| 0 <= i < visited.len() && visited[i] == attempts[j].kept;
            assert(more[i] == all[j].kept);
        }
    }
    assert forall|kept: Seq<bool>|
        attempts::is_found(attempts, kept) || tried.result is Improved && includes(
            tried.kept,
            kept,
        ) <==> #[trigger] attempts::is_found(all, kept) by {
        if attempts::is_found(attempts, kept) {
            let j = choose|j: int|
                0 <= j < attempts.len() && (#[trigger] attempts[j]).result is Improved && includes(
                    attempts[j].kept,
                    kept,
                );
            assert(all[j] == attempts[j]);
        }
        if attempts::is_found(all, kept) {
            let j = choose|j: int|
                0 <= j < all.len() && (#[trigger] all[j]).result is Improved && includes(
                    all[j].kept,
                    kept,
                );
            if j < n {
                assert(attempts[j] == all[j]);
            }
        }
    }
    assert forall|kept: Seq<bool>| #[trigger] above(known_after, kept) <==> attempts::is_found(
        all,
        kept,
    ) by {
        assert(above(known, kept) <==> attempts::is_found(attempts, kept));
    }
    assert forall|i: int| 0 <= i < more.len() implies attempts::is_settled(all, #[trigger] more[i]) by {
        if i < visited.len() {
            let kept = visited[i];
            assert(more[i] == kept);
            if attempts::is_tried(attempts, kept) {
                let j = choose|j: int|
                    0 <= j < attempts.len() && (#[trigger] attempts[j]).kept == kept;
                assert(all[j] == attempts[j]);
            }
            assert(attempts::is_found(attempts, kept) ==> attempts::is_found(all, kept));
        } else {
            assert(attempts::is_tried(all, tried.kept));
        }
    }
}

/// The combinations without a blamed preference lie within what was tried, and take in whatever a
/// solution preserves of it.
proof fn lemma_fewer_above(
    kept: Seq<bool>,
    blamed: Seq<bool>,
    from: int,
    less: Seq<bool>,
    i: int,
) -> (m: int)
    requires
        includes(kept, less),
        0 <= from <= i < kept.len(),
        kept[i],
        blamed[i],
        !less[i],
    ensures
        0 <= m < attempts::fewer(kept, blamed, from).len(),
        attempts::fewer(kept, blamed, from)[m].0 == kept.update(i, false),
        includes(kept.update(i, false), less),
        includes(kept, kept.update(i, false)),
        kept.update(i, false) != kept,
    decreases kept.len() - from,
{
    let rest = attempts::fewer(kept, blamed, from + 1);
    assert(kept.update(i, false)[i] != kept[i]);
    if i == from {
        rest.len() as int
    } else {
        let m = lemma_fewer_above(kept, blamed, from + 1, less, i);
        assert(attempts::fewer(kept, blamed, from)[m] == rest[m]);
        m
    }
}

/// Finds the maximal combinations of preferences that a solution can preserve.
#[verifier::rlimit(100)]
pub fn enumerate_maximal_preference_satisfactions<
    DP: DependencyProvider,
    O: SolverObserver<DP::P, DP::VS, DP::M>,
>(
    dependency_provider: &DP,
    root_package: &DP::P,
    root_version: &VersionOf<DP>,
    preferences: &Vec<PackagePreference<DP::P, DP::VS>>,
    observer: &mut O,
) -> (r: Result<Vec<Vec<bool>>, PubGrubError<DP>>)
    requires
        forall|i: int|
            0 <= i < preferences@.len() ==> preference::usable(
                root_package@,
                #[trigger] preferences@[i],
            ),
    ensures
        tells_attempts::<DP, O, Vec<Vec<bool>>>(
            *dependency_provider,
            root_package@,
            *root_version,
            preferences@,
            old(observer).log(),
            final(observer).log(),
            r,
        ),
        error::heeds_cancellation(*dependency_provider, r),
        preferences@.len() == 0 ==> run::ends_as(
            *dependency_provider,
            root_package@,
            *root_version,
            Seq::empty(),
            r,
        ),
        match r {
            Ok(front) => {
                &&& is_front(
                    preservable(*dependency_provider, root_package@, *root_version, preferences@),
                    masks(front@),
                )
                &&& front@.len() > 0
                &&& forall|i: int|
                    0 <= i < front@.len() ==> (#[trigger] front@[i])@.len() == preferences@.len()
                &&& problem::solvable(*dependency_provider, root_package@, *root_version)
            },
            Err(error) => error::is_failure(
                error,
                *dependency_provider,
                root_package@,
                *root_version,
            ),
        },
{
    let ghost dp = *dependency_provider;
    let ghost root = root_package@;
    let ghost version = *root_version;
    let ghost good = preservable(dp, root, version, preferences@);
    let ghost log = observer.log();
    let ghost nothing = Seq::<Clause<Key<DP>, VersionOf<DP>>>::empty();
    let n = preferences.len();
    let mut all: Vec<bool> = Vec::new();
    while all.len() < n
        invariant
            all@.len() <= n,
            forall|i: int| 0 <= i < all@.len() ==> all@[i],
        decreases n - all@.len(),
    {
        all.push(true);
    }
    let mut pending: Vec<(Vec<bool>, Option<usize>)> = Vec::new();
    let ghost everything = all@;
    pending.push((all, None));
    let mut visited: Vec<Vec<bool>> = Vec::new();
    let mut known: Vec<Vec<bool>> = Vec::new();
    let mut first_failure: Option<Arc<DerivationTree<DP::P, DP::VS, DP::M>>> = None;
    let mut run: u64 = 0;
    let ghost mut attempts: Seq<Attempt> = Seq::empty();
    proof {
        observer::lemma_leads_nowhere::<DP::P, DP::VS, DP::M, O>(log);
        assert(log =~= log + attempts::attempts_told::<DP>(preferences@, attempts));
        assert(everything =~= attempts::everything(n as nat));
        assert(queued(pending@) =~= attempts::left_to_try(n as nat, attempts));
        assert(is_recorded(attempts, masks(known@), masks(visited@)));
        assert forall|kept: Seq<bool>| #[trigger] good(kept) implies above(
            pending_masks(pending@),
            kept,
        ) by {
            let s = choose|s: Selection<DP>| #[trigger]
                problem::is_solution(dp, root, version, s) && profile(preferences@, s) == kept;
            assert(pending_masks(pending@)[0] == everything);
            assert(includes(everything, kept));
        }
        assert(searching(good, masks(known@), pending_masks(pending@), masks(visited@)));
    }
    while pending.len() > 0
        invariant
            dp == *dependency_provider,
            root == root_package@,
            version == *root_version,
            good == preservable(dp, root, version, preferences@),
            log == old(observer).log(),
            nothing == Seq::<Clause<Key<DP>, VersionOf<DP>>>::empty(),
            n == preferences@.len(),
            forall|i: int|
                0 <= i < preferences@.len() ==> preference::usable(
                    root,
                    #[trigger] preferences@[i],
                ),
            forall|i: int|
                0 <= i < pending@.len() ==> {
                    &&& (#[trigger] pending@[i]).0@.len() == n
                    &&& pending@[i].1 matches Some(index) ==> index < n
                },
            forall|i: int| 0 <= i < visited@.len() ==> (#[trigger] visited@[i])@.len() == n,
            forall|i: int| 0 <= i < known@.len() ==> (#[trigger] known@[i])@.len() == n,
            searching(good, masks(known@), pending_masks(pending@), masks(visited@)),
            observer::reports::<DP::P, DP::VS, DP::M, O>(log, observer.log(), run, 0),
            observer::only_boundaries(log, observer.log()),
            observer::no_probe_failed(log, observer.log()),
            visited@.len() > 0 ==> run >= 1 && error::may_go_on(dp),
            observer.log() == log + attempts::attempts_told::<DP>(preferences@, attempts),
            run == observer::run_number(attempts.len() as int),
            attempts::are_attempts(dp, root, version, preferences@, attempts),
            forall|j: int| 0 <= j < attempts.len() ==> !((#[trigger] attempts[j]).result is Error),
            is_recorded(attempts, masks(known@), masks(visited@)),
            attempts::unsettled(queued(pending@), attempts) == attempts::to_try(
                n as nat,
                attempts,
            ),
            visited@.len() > 0 ==> attempts.len() > 0,
            known@.len() > 0 ==> visited@.len() > 0,
            visited@.len() == 0 ==> pending@.len() > 0,
            known@.len() == 0 && visited@.len() > 0 ==> first_failure is Some,
            n == 0 && known@.len() > 0 ==> run::ends_as(
                dp,
                root,
                version,
                Seq::empty(),
                Ok::<(), PubGrubError<DP>>(()),
            ),
            n == 0 && first_failure is Some ==> run::ends_as(
                dp,
                root,
                version,
                Seq::empty(),
                Err::<(), PubGrubError<DP>>(PubGrubError::NoSolution(first_failure->0)),
            ),
            n == 0 && first_failure is Some ==> PubGrubError::<DP>::NoSolution(
                first_failure->0,
            ).proves_no_solution(dp, root, version, nothing),
        decreases unvisited(n as nat, masks(visited@)).len(), pending@.len(),
    {
        let ghost queue = pending_masks(pending@);
        let ghost before = pending@;
        let ghost seen = masks(visited@);
        let ghost held = masks(known@);
        let popped = pending.pop();
        let (kept, given_up) = match popped {
            Some(pair) => pair,
            None => {
                return Ok(known);
            },
        };
        proof {
            assert(pending@ =~= before.drop_last());
            assert((kept, given_up) == before.last());
            assert(queue.last() == kept@);
            assert(pending_masks(pending@) =~= queue.drop_last());
            assert(queued(pending@) =~= queued(before).drop_last());
            assert(queued(before).last().0 == kept@);
            lemma_recorded(attempts, held, seen, kept@);
            assert forall|i: int| 0 <= i < queue.len() - 1 implies queue.drop_last().contains(
                #[trigger] queue[i],
            ) by {
                assert(queue.drop_last()[i] == queue[i]);
            }
        }
        if holds_mask(&visited, &kept) {
            proof {
                let v = choose|v: int| 0 <= v < seen.len() && seen[v] == kept@;
                lemma_drop_visited(good, held, queue, seen, v);
            }
            continue;
        }
        visited.push(duplicate_mask(&kept));
        proof {
            assert(masks(visited@) =~= seen.push(kept@));
            lemma_unvisited(n as nat, seen, kept@);
            assert forall|i: int| 0 <= i < visited@.len() implies (#[trigger] visited@[i])@.len()
                == n by {
                assert(masks(visited@)[i] == visited@[i]@);
                if i < seen.len() {
                    assert(seen[i] == masks(visited@)[i]);
                }
            }
        }
        if holds_above(&known, &kept) {
            proof {
                assert forall|less: Seq<bool>| #[trigger] good(less) && includes(
                    queue.last(),
                    less,
                ) implies above(held, less) by {
                    let j = choose|j: int|
                        0 <= j < held.len() && includes(#[trigger] held[j], kept@);
                    lemma_includes_transitive(held[j], kept@, less);
                }
                lemma_drop_pending(good, held, queue, seen, held, queue.drop_last());
                assert(known@.len() > 0);
                lemma_record_settled(attempts, held, seen, kept@);
            }
            continue;
        }
        let required = required_terms(preferences, &kept);
        let ghost last_run = run;
        run = next_run(run);
        let ghost told = observer.log();
        let package = match given_up {
            Some(index) => Some(preferences[index].package()),
            None => None,
        };
        let result = attempt(
            dependency_provider,
            root_package,
            root_version,
            &required,
            package,
            run,
            observer,
        );
        proof {
            let key = match package {
                Some(package) => Some(package@),
                None => None,
            };
            lemma_attempt::<DP, O>(log, told, last_run, run, key, probe_result(result));
            assert(!attempts::is_settled(attempts, kept@));
        }
        let ghost key = match given_up {
            Some(index) => Some(index as int),
            None => None,
        };
        let ghost earlier = attempts;
        let ghost list = queued(before);
        proof {
            if n == 0 {
                assert(term::parts(required@) =~= Seq::empty());
            }
        }
        assert(list.last() == (kept@, key));
        match result {
            Ok(_) => {
                proof {
                    let s = choose|s: Selection<DP>| #[trigger]
                        problem::is_solution(dp, root, version, s) && search::violates(
                            term::parts(required@),
                            s,
                        );
                    lemma_demands_for(preferences@, kept@, s);
                    assert(good(kept@));
                }
                let ghost bits = kept@;
                let ghost tried = Attempt {
                    kept: kept@,
                    given_up: key,
                    result: MaximalityProbeResult::Improved,
                    blamed: Seq::empty(),
                };
                proof {
                    attempts::lemma_due(n as nat, earlier, list, tried);
                    attempts::lemma_attempts_push(
                        dp,
                        root,
                        version,
                        preferences@,
                        earlier,
                        tried,
                    );
                    attempts = earlier.push(tried);
                    assert(observer.log() =~= log + attempts::attempts_told::<DP>(
                        preferences@,
                        attempts,
                    ));
                }
                let ghost old_known = known@;
                known = retain_maximal(known, kept);
                proof {
                    let after = masks(known@);
                    assert forall|i: int| 0 <= i < after.len() implies good(#[trigger] after[i]) by {
                        assert(after[i] == known@[i]@);
                        if after[i] != bits {
                            let j = choose|j: int| 0 <= j < held.len() && held[j] == after[i];
                            assert(good(held[j]));
                        }
                    }
                    assert forall|less: Seq<bool>| #[trigger] above(held, less) implies above(
                        after,
                        less,
                    ) by {}
                    assert forall|less: Seq<bool>| #[trigger] good(less) && includes(
                        queue.last(),
                        less,
                    ) implies above(after, less) by {
                        assert(above(held, less) || includes(bits, less));
                    }
                    lemma_drop_pending(good, held, queue, seen, after, queue.drop_last());
                    assert forall|less: Seq<bool>| #[trigger] above(after, less) implies above(
                        held,
                        less,
                    ) || includes(bits, less) by {
                        let i = choose|i: int|
                            0 <= i < after.len() && includes(#[trigger] after[i], less);
                        assert(after[i] == known@[i]@);
                        if after[i] != bits {
                            let j = choose|j: int| 0 <= j < held.len() && held[j] == after[i];
                            assert(includes(held[j], less));
                        }
                    }
                    lemma_record_attempt(earlier, held, seen, tried, after);
                }
            },
            Err(PubGrubError::NoSolution(reason)) => {
                let ghost demands = demands_for(preferences@, kept@);
                let ghost exclusions = run::forced_clauses(root, version, demands);
                proof {
                    if n == 0 {
                        assert(demands =~= Seq::empty());
                        assert(exclusions =~= nothing);
                    }
                }
                if first_failure.is_none() {
                    first_failure = Some(share(&reason));
                }
                let mut forced: Vec<&DP::P> = Vec::new();
                collect_forced_packages(&*reason, &mut forced);
                let ghost blamed = listed_in(preferences@, forced@);
                let ghost tried = Attempt {
                    kept: kept@,
                    given_up: key,
                    result: MaximalityProbeResult::NoImprovement,
                    blamed,
                };
                proof {
                    let failure = PubGrubError::<DP>::NoSolution(reason);
                    assert(blamed =~= attempts::blamed_by(preferences@, failure));
                    assert(failure.proves_no_solution(dp, root, version, exclusions));
                    assert forall|less: Seq<bool>| #[trigger]
                        achievable(dp, root, version, preferences@, less) && includes(
                            kept@,
                            less,
                        ) implies attempts::gives_way(kept@, blamed, less) by {
                        let i = lemma_branch(
                            dp,
                            root,
                            version,
                            preferences@,
                            kept@,
                            &*reason,
                            less,
                        );
                        assert(kept@[i] && blamed[i] && !less[i]);
                    }
                    if achievable(dp, root, version, preferences@, kept@) {
                        assert(includes(kept@, kept@));
                        assert(attempts::gives_way(kept@, blamed, kept@));
                    }
                    attempts::lemma_due(n as nat, earlier, list, tried);
                    attempts::lemma_attempts_push(
                        dp,
                        root,
                        version,
                        preferences@,
                        earlier,
                        tried,
                    );
                    attempts = earlier.push(tried);
                    assert(observer.log() =~= log + attempts::attempts_told::<DP>(
                        preferences@,
                        attempts,
                    ));
                    lemma_record_attempt(earlier, held, seen, tried, held);
                }
                branch(&mut pending, preferences, &kept, &forced);
                proof {
                    let after = pending_masks(pending@);
                    let children = attempts::fewer(kept@, blamed, 0);
                    assert(queued(pending@) == list.drop_last() + children);
                    assert(queued(pending@).len() == pending@.len());
                    assert forall|i: int| 0 <= i < queue.len() - 1 implies after.contains(
                        #[trigger] queue[i],
                    ) by {
                        assert(queued(pending@)[i] == list.drop_last()[i]);
                        assert(queued(pending@)[i].0 == after[i]);
                        assert(list[i].0 == queue[i]);
                    }
                    assert forall|less: Seq<bool>| #[trigger] good(less) && includes(
                        queue.last(),
                        less,
                    ) implies above_within(after, queue.last(), less) by {
                        assert(attempts::gives_way(kept@, blamed, less));
                        let i = choose|i: int|
                            0 <= i < kept@.len() && #[trigger] kept@[i] && blamed[i] && !less[i];
                        let m = lemma_fewer_above(kept@, blamed, 0, less, i);
                        let j = list.len() - 1 + m;
                        assert(queued(pending@)[j] == children[m]);
                        assert(queued(pending@)[j].0 == after[j]);
                        assert(includes(after[j], less));
                    }
                    lemma_drop_pending(good, held, queue, seen, held, after);
                }
            },
            Err(error) => {
                proof {
                    let tried = Attempt {
                        kept: kept@,
                        given_up: key,
                        result: MaximalityProbeResult::Error,
                        blamed: Seq::empty(),
                    };
                    attempts::lemma_due(n as nat, earlier, list, tried);
                    attempts::lemma_attempts_push(
                        dp,
                        root,
                        version,
                        preferences@,
                        earlier,
                        tried,
                    );
                    attempts = earlier.push(tried);
                    assert(observer.log() =~= log + attempts::attempts_told::<DP>(
                        preferences@,
                        attempts,
                    ));
                    assert(attempts.last() == tried);
                    let failed = Err::<(), PubGrubError<DP>>(error);
                    assert(attempts::lead_to::<DP>(
                        preferences@,
                        attempts,
                        log,
                        observer.log(),
                        failed,
                    ));
                }
                return Err(error);
            },
        }
    }
    proof {
        assert(queued(pending@).len() == 0);
        assert(attempts::to_try(n as nat, attempts).len() == 0);
        lemma_recorded(attempts, masks(known@), masks(visited@), everything);
        assert(attempts.len() > 0);
        assert(!(attempts.last().result is Error)) by {
            assert(attempts.last() == attempts[attempts.len() - 1]);
        }
        assert(pending_masks(pending@) =~= Seq::empty());
        lemma_found_all(good, masks(known@), masks(visited@));
    }
    if known.len() == 0 {
        proof {
            assert(!problem::solvable(dp, root, version)) by {
                if problem::solvable(dp, root, version) {
                    let s = choose|s: Selection<DP>| #[trigger]
                        problem::is_solution(dp, root, version, s);
                    assert(good(profile(preferences@, s)));
                }
            }
        }
        if preferences.len() > 0 {
            // Every combination blames the clauses that force preferences. The problem on its own
            // has no solution either, and that failure rests on genuine dependency facts.
            let none: Vec<(DP::P, Term<DP::VS>)> = Vec::new();
            let ghost last_run = run;
            run = next_run(run);
            let ghost told = observer.log();
            let result = attempt(
                dependency_provider,
                root_package,
                root_version,
                &none,
                None,
                run,
                observer,
            );
            proof {
                lemma_attempt::<DP, O>(log, told, last_run, run, None, probe_result(result));
                assert(term::parts(none@) =~= Seq::empty());
                assert(run::forced_clauses(root, version, term::parts(none@)) =~= nothing);
            }
            if let Err(error) = result {
                proof {
                    let failed = Err::<(), PubGrubError<DP>>(error);
                    assert(attempts::lead_to::<DP>(
                        preferences@,
                        attempts,
                        log,
                        observer.log(),
                        failed,
                    ));
                }
                return Err(error);
            }
            assert(false);
        }
        match first_failure {
            Some(reason) => {
                proof {
                    let failed = Err::<(), PubGrubError<DP>>(
                        PubGrubError::NoSolution(reason),
                    );
                    assert(attempts::lead_to::<DP>(
                        preferences@,
                        attempts,
                        log,
                        observer.log(),
                        failed,
                    ));
                }
                return Err(PubGrubError::NoSolution(reason));
            },
            None => {},
        }
    }
    let ghost maximal_ones = masks(known@);
    let front = sort_masks(known, n);
    proof {
        let first = front@[0]@;
        assert(masks(front@)[0] == first);
        assert(masks(front@).contains(first));
        assert(good(first));
        let found = Ok::<(), PubGrubError<DP>>(());
        assert(attempts::lead_to::<DP>(
            preferences@,
            attempts,
            log,
            observer.log(),
            found,
        ));
    }
    Ok(front)
}

} // verus!
