//! Reduction of a token sequence's locations to one covering location.

use vstd::prelude::*;

verus! {

/// Whether the locations of successive tokens are joined into one range.
#[derive(Clone, Copy, Debug, PartialEq, Eq, Structural)]
pub enum SpanJoining {
    /// Only the first token's location is taken.
    Off,
    /// Each later token's location is joined onto the running result.
    On,
}

impl Default for SpanJoining {
    fn default() -> (r: SpanJoining)
        ensures
            r == SpanJoining::Off,
    {
        SpanJoining::Off
    }
}

/// The running result after a join attempt: the joined location when the
/// join succeeded, the running result unchanged when it failed.
pub open spec fn absorb<L>(running: L, joined: Option<L>) -> L {
    match joined {
        Some(j) => j,
        None => running,
    }
}

/// Folding the locations `rest` onto `running`, where `join` may yield, for
/// `a` and `b`, any outcome `o` with `join(a, b, o)`: `r` is one possible
/// result.
pub open spec fn folds_to<L>(
    running: L,
    rest: Seq<L>,
    join: spec_fn(L, L, Option<L>) -> bool,
    r: L,
) -> bool
    decreases rest.len(),
{
    if rest.len() == 0 {
        r == running
    } else {
        exists|o: Option<L>|
            #[trigger] join(running, rest[0], o) && folds_to(
                absorb(running, o),
                rest.drop_first(),
                join,
                r,
            )
    }
}

/// `r` is a possible result of resolving `locs` under `joining`, with
/// `call_site` as the fallback and `join` relating two locations to the
/// outcomes of joining them.
pub open spec fn resolves_to<L>(
    locs: Seq<L>,
    call_site: L,
    joining: SpanJoining,
    join: spec_fn(L, L, Option<L>) -> bool,
    r: L,
) -> bool {
    if locs.len() == 0 {
        r == call_site
    } else {
        match joining {
            SpanJoining::Off => r == locs[0],
            SpanJoining::On => folds_to(locs[0], locs.drop_first(), join, r),
        }
    }
}

/// A join of which nothing is known: it allows every outcome.
pub open spec fn any_join<L>() -> spec_fn(L, L, Option<L>) -> bool {
    |a: L, b: L, o: Option<L>| true
}

/// Folding `rest` onto `running` with a join that has one outcome, `f(a, b)`.
pub open spec fn join_fold<L>(running: L, rest: Seq<L>, f: spec_fn(L, L) -> Option<L>) -> L
    decreases rest.len(),
{
    if rest.len() == 0 {
        running
    } else {
        join_fold(absorb(running, f(running, rest[0])), rest.drop_first(), f)
    }
}

/// The location that resolving `locs` under `joining` yields, where the join
/// of `a` and `b` is `f(a, b)`.
pub open spec fn resolution<L>(
    locs: Seq<L>,
    call_site: L,
    joining: SpanJoining,
    f: spec_fn(L, L) -> Option<L>,
) -> L {
    if locs.len() == 0 {
        call_site
    } else {
        match joining {
            SpanJoining::Off => locs[0],
            SpanJoining::On => join_fold(locs[0], locs.drop_first(), f),
        }
    }
}

/// Every outcome that `join` allows for `a` and `b` is `f(a, b)`.
pub open spec fn join_is_fn<L>(
    join: spec_fn(L, L, Option<L>) -> bool,
    f: spec_fn(L, L) -> Option<L>,
) -> bool {
    forall|a: L, b: L, o: Option<L>| #[trigger] join(a, b, o) ==> o == f(a, b)
}

/// With a join whose outcome is `f(a, b)`, the fold's one possible result is
/// `join_fold`.
proof fn lemma_folds_to_fn<L>(
    running: L,
    rest: Seq<L>,
    join: spec_fn(L, L, Option<L>) -> bool,
    f: spec_fn(L, L) -> Option<L>,
    r: L,
)
    requires
        join_is_fn(join, f),
    ensures
        folds_to(running, rest, join, r) ==> r == join_fold(running, rest, f),
    decreases rest.len(),
{
    if rest.len() > 0 && folds_to(running, rest, join, r) {
        let o = choose|o: Option<L>|
            #[trigger] join(running, rest[0], o) && folds_to(
                absorb(running, o),
                rest.drop_first(),
                join,
                r,
            );
        lemma_folds_to_fn(absorb(running, o), rest.drop_first(), join, f, r);
    }
}

/// With a join whose outcome is `f(a, b)`, the one location that
/// `resolves_to` can hold of is `resolution(locs, call_site, joining, f)`.
pub proof fn lemma_resolves_to_fn<L>(
    locs: Seq<L>,
    call_site: L,
    joining: SpanJoining,
    join: spec_fn(L, L, Option<L>) -> bool,
    f: spec_fn(L, L) -> Option<L>,
    r: L,
)
    requires
        join_is_fn(join, f),
    ensures
        resolves_to(locs, call_site, joining, join, r) ==> r == resolution(
            locs,
            call_site,
            joining,
            f,
        ),
{
    if locs.len() > 0 {
        lemma_folds_to_fn(locs[0], locs.drop_first(), join, f, r);
    }
}

/// The join of `running` with every location of `rest` in order, when each
/// join along the way succeeds; `None` when one fails.
pub open spec fn join_chain<L>(running: L, rest: Seq<L>, f: spec_fn(L, L) -> Option<L>) -> Option<L>
    decreases rest.len(),
{
    if rest.len() == 0 {
        Some(running)
    } else {
        match f(running, rest[0]) {
            Some(j) => join_chain(j, rest.drop_first(), f),
            None => None,
        }
    }
}

proof fn lemma_fold_of_chain<L>(running: L, rest: Seq<L>, f: spec_fn(L, L) -> Option<L>, c: L)
    requires
        join_chain(running, rest, f) == Some(c),
    ensures
        join_fold(running, rest, f) == c,
    decreases rest.len(),
{
    if rest.len() > 0 {
        lemma_fold_of_chain(f(running, rest[0])->Some_0, rest.drop_first(), f, c);
    }
}

/// When every location joins onto the running result, resolving with
/// joining on yields the join of all the locations, taken in order.
pub proof fn lemma_all_joined<L>(
    locs: Seq<L>,
    call_site: L,
    f: spec_fn(L, L) -> Option<L>,
    c: L,
)
    requires
        locs.len() > 0,
        join_chain(locs[0], locs.drop_first(), f) == Some(c),
    ensures
        resolution(locs, call_site, SpanJoining::On, f) == c,
{
    lemma_fold_of_chain(locs[0], locs.drop_first(), f, c);
}

/// `f` joins every two locations, in either order to the same location, and
/// joining three gives the same location however they are grouped.
pub open spec fn join_commutes<L>(f: spec_fn(L, L) -> Option<L>) -> bool {
    &&& forall|a: L, b: L| #[trigger] f(a, b) is Some
    &&& forall|a: L, b: L| #[trigger] f(a, b) == f(b, a)
    &&& forall|a: L, b: L, c: L|
        #[trigger] f(f(a, b)->Some_0, c) == f(a, f(b, c)->Some_0)
}

proof fn lemma_fold_pull<L>(running: L, rest: Seq<L>, f: spec_fn(L, L) -> Option<L>, k: int)
    requires
        join_commutes(f),
        0 <= k < rest.len(),
    ensures
        join_fold(running, rest, f) == join_fold(f(running, rest[k])->Some_0, rest.remove(k), f),
    decreases k,
{
    if k == 0 {
        assert(rest.remove(0) =~= rest.drop_first());
    } else {
        let x = rest[k];
        let a = f(running, rest[0])->Some_0;
        let tail = rest.drop_first();
        assert(tail[k - 1] == x);
        lemma_fold_pull(a, tail, f, k - 1);
        let b = f(running, x)->Some_0;
        assert(f(a, x) == f(running, f(rest[0], x)->Some_0));
        assert(f(rest[0], x) == f(x, rest[0]));
        assert(f(b, rest[0]) == f(running, f(x, rest[0])->Some_0));
        let removed = rest.remove(k);
        assert(removed[0] == rest[0]);
        assert(removed.drop_first() =~= tail.remove(k - 1));
    }
}

proof fn lemma_fold_reordered<L>(running: L, s: Seq<L>, t: Seq<L>, f: spec_fn(L, L) -> Option<L>)
    requires
        join_commutes(f),
        s.to_multiset() == t.to_multiset(),
    ensures
        join_fold(running, s, f) == join_fold(running, t, f),
    decreases s.len(),
{
    vstd::seq_lib::to_multiset_len(s);
    vstd::seq_lib::to_multiset_len(t);
    if s.len() > 0 {
        let x = s[0];
        vstd::seq_lib::to_multiset_contains(s, x);
        vstd::seq_lib::to_multiset_contains(t, x);
        assert(s.contains(x));
        let k = choose|k: int| 0 <= k < t.len() && t[k] == x;
        lemma_fold_pull(running, t, f, k);
        vstd::seq_lib::to_multiset_remove(s, 0);
        vstd::seq_lib::to_multiset_remove(t, k);
        assert(s.remove(0) =~= s.drop_first());
        lemma_fold_reordered(f(running, x)->Some_0, s.drop_first(), t.remove(k), f);
    }
}

/// With joining on and a join that joins every two locations, commutes and
/// associates, the locations of a node in any other order resolve to the
/// same location.
pub proof fn lemma_joined_in_any_order<L>(
    locs: Seq<L>,
    reordered: Seq<L>,
    call_site: L,
    f: spec_fn(L, L) -> Option<L>,
)
    requires
        join_commutes(f),
        locs.to_multiset() == reordered.to_multiset(),
    ensures
        resolution(locs, call_site, SpanJoining::On, f) == resolution(
            reordered,
            call_site,
            SpanJoining::On,
            f,
        ),
{
    vstd::seq_lib::to_multiset_len(locs);
    vstd::seq_lib::to_multiset_len(reordered);
    if locs.len() > 0 {
        let s0 = locs[0];
        let t0 = reordered[0];
        vstd::seq_lib::to_multiset_remove(locs, 0);
        assert(locs.remove(0) =~= locs.drop_first());
        vstd::seq_lib::to_multiset_contains(locs, s0);
        vstd::seq_lib::to_multiset_contains(reordered, s0);
        assert(locs.contains(s0));
        let k = choose|k: int| 0 <= k < reordered.len() && reordered[k] == s0;
        vstd::seq_lib::to_multiset_remove(reordered, k);
        if k == 0 {
            assert(reordered.remove(0) =~= reordered.drop_first());
            lemma_fold_reordered(s0, locs.drop_first(), reordered.drop_first(), f);
        } else {
            let rest = reordered.drop_first();
            assert(rest[k - 1] == s0);
            lemma_fold_pull(t0, rest, f, k - 1);
            assert(f(t0, s0) == f(s0, t0));
            let u = reordered.remove(k);
            assert(u[0] == t0);
            assert(u.drop_first() =~= rest.remove(k - 1));
            lemma_fold_reordered(s0, locs.drop_first(), u, f);
        }
    }
}

proof fn lemma_fold_skips_failed<L>(running: L, rest: Seq<L>, f: spec_fn(L, L) -> Option<L>, k: int)
    requires
        0 <= k < rest.len(),
        f(join_fold(running, rest.take(k), f), rest[k]) is None,
    ensures
        join_fold(running, rest, f) == join_fold(running, rest.remove(k), f),
    decreases k,
{
    if k == 0 {
        assert(rest.take(0).len() == 0);
        assert(rest.remove(0) =~= rest.drop_first());
    } else {
        let next = absorb(running, f(running, rest[0]));
        let tail = rest.drop_first();
        assert(rest.take(k)[0] == rest[0]);
        assert(rest.take(k).drop_first() =~= tail.take(k - 1));
        lemma_fold_skips_failed(next, tail, f, k - 1);
        assert(rest.remove(k)[0] == rest[0]);
        assert(rest.remove(k).drop_first() =~= tail.remove(k - 1));
    }
}

/// With joining on, a location whose join onto the running result fails
/// leaves the result as if that token were not there: the locations before
/// and after it are joined as before.
pub proof fn lemma_failed_join_skipped<L>(
    locs: Seq<L>,
    call_site: L,
    f: spec_fn(L, L) -> Option<L>,
    i: int,
)
    requires
        1 <= i < locs.len(),
        f(join_fold(locs[0], locs.subrange(1, i), f), locs[i]) is None,
    ensures
        resolution(locs, call_site, SpanJoining::On, f) == resolution(
            locs.remove(i),
            call_site,
            SpanJoining::On,
            f,
        ),
{
    let rest = locs.drop_first();
    assert(rest.take(i - 1) =~= locs.subrange(1, i));
    lemma_fold_skips_failed(locs[0], rest, f, i - 1);
    assert(locs.remove(i)[0] == locs[0]);
    assert(locs.remove(i).drop_first() =~= rest.remove(i - 1));
}

/// Resolving the same locations twice gives the same location both times,
/// when the join's outcome is a function of the two locations.
pub proof fn lemma_resolution_repeatable<L>(
    locs: Seq<L>,
    call_site: L,
    joining: SpanJoining,
    join: spec_fn(L, L, Option<L>) -> bool,
    f: spec_fn(L, L) -> Option<L>,
    r1: L,
    r2: L,
)
    requires
        join_is_fn(join, f),
        resolves_to(locs, call_site, joining, join, r1),
        resolves_to(locs, call_site, joining, join, r2),
    ensures
        r1 == r2,
{
    lemma_resolves_to_fn(locs, call_site, joining, join, f, r1);
    lemma_resolves_to_fn(locs, call_site, joining, join, f, r2);
}

proof fn lemma_folds_to_weaken<L>(
    running: L,
    rest: Seq<L>,
    join: spec_fn(L, L, Option<L>) -> bool,
    wider: spec_fn(L, L, Option<L>) -> bool,
    r: L,
)
    requires
        forall|a: L, b: L, o: Option<L>| #[trigger] join(a, b, o) ==> wider(a, b, o),
        folds_to(running, rest, join, r),
    ensures
        folds_to(running, rest, wider, r),
    decreases rest.len(),
{
    if rest.len() > 0 {
        let o = choose|o: Option<L>|
            #[trigger] join(running, rest[0], o) && folds_to(
                absorb(running, o),
                rest.drop_first(),
                join,
                r,
            );
        lemma_folds_to_weaken(absorb(running, o), rest.drop_first(), join, wider, r);
        assert(wider(running, rest[0], o));
    }
}

/// A result that resolution allows under `join` it allows under any relation
/// that admits at least the outcomes `join` admits.
pub proof fn lemma_resolves_to_weaken<L>(
    locs: Seq<L>,
    call_site: L,
    joining: SpanJoining,
    join: spec_fn(L, L, Option<L>) -> bool,
    wider: spec_fn(L, L, Option<L>) -> bool,
    r: L,
)
    requires
        forall|a: L, b: L, o: Option<L>| #[trigger] join(a, b, o) ==> wider(a, b, o),
        resolves_to(locs, call_site, joining, join, r),
    ensures
        resolves_to(locs, call_site, joining, wider, r),
{
    if locs.len() > 0 && joining == SpanJoining::On {
        lemma_folds_to_weaken(locs[0], locs.drop_first(), join, wider, r);
    }
}

/// Resolves the locations `locs` of a token sequence to one location.
///
/// An empty sequence yields `call_site`. Otherwise the first location is the
/// running result; with `SpanJoining::On` each later location is joined onto
/// it by `join`, a failed join (`None`) leaving it unchanged.
pub fn resolve_locations<L: Copy, F: Fn(L, L) -> Option<L>>(
    locs: &Vec<L>,
    call_site: L,
    joining: SpanJoining,
    join: F,
) -> (r: L)
    requires
        forall|a: L, b: L| join.requires((a, b)),
    ensures
        resolves_to(locs@, call_site, joining, |a: L, b: L, o: Option<L>| join.ensures((a, b), o), r),
        locs@.len() == 0 ==> r == call_site,
        locs@.len() == 1 ==> r == locs@[0],
        locs@.len() > 0 && joining == SpanJoining::Off ==> r == locs@[0],
        forall|f: spec_fn(L, L) -> Option<L>|
            join_is_fn(|a: L, b: L, o: Option<L>| join.ensures((a, b), o), f) ==> r
                == #[trigger] resolution(locs@, call_site, joining, f),
{
    let ghost rel = |a: L, b: L, o: Option<L>| join.ensures((a, b), o);
    if locs.len() == 0 {
        return call_site;
    }
    let first = locs[0];
    if joining == SpanJoining::Off {
        return first;
    }
    let n = locs.len();
    let mut running = first;
    let mut i: usize = 1;
    while i < n
        invariant
            n == locs@.len(),
            1 <= i <= n,
            forall|a: L, b: L| join.requires((a, b)),
            rel == (|a: L, b: L, o: Option<L>| join.ensures((a, b), o)),
            forall|r: L|
                folds_to(running, locs@.subrange(i as int, n as int), rel, r) ==> folds_to(
                    locs@[0],
                    locs@.drop_first(),
                    rel,
                    r,
                ),
        decreases n - i,
    {
        let next = locs[i];
        let joined = join(running, next);
        let ghost prev = running;
        match joined {
            Some(j) => {
                running = j;
            },
            None => {},
        }
        proof {
            assert(rel(prev, next, joined));
            assert forall|r: L|
                folds_to(running, locs@.subrange(i + 1, n as int), rel, r) implies folds_to(
                    locs@[0],
                    locs@.drop_first(),
                    rel,
                    r,
                ) by {
                let rest = locs@.subrange(i as int, n as int);
                assert(rest[0] == next);
                assert(rest.drop_first() =~= locs@.subrange(i + 1, n as int));
                assert(running == absorb(prev, joined));
                assert(folds_to(prev, rest, rel, r));
            }
        }
        i = i + 1;
    }
    proof {
        assert(locs@.subrange(n as int, n as int).len() == 0);
        assert(folds_to(running, locs@.subrange(n as int, n as int), rel, running));
        assert forall|f: spec_fn(L, L) -> Option<L>| join_is_fn(rel, f) implies running
            == #[trigger] resolution(locs@, call_site, joining, f) by {
            lemma_resolves_to_fn(locs@, call_site, joining, rel, f, running);
        }
    }
    running
}

} // verus!
