//! A second check of a document that has not changed asks the checker
//! nothing and finds what the first check found.

use vstd::prelude::*;
use crate::cache::{Held, Key};
use crate::diagnostic::SuggestionView;
use crate::layout::PieceView;
use crate::session::{key_of, Context, PassView};

verus! {

/// Whether no two of `pieces` have the same text and the same language.
pub open spec fn distinct_pieces(pieces: Seq<PieceView>) -> bool {
    forall|i: int, j: int|
        0 <= i < pieces.len() && 0 <= j < pieces.len() && i != j ==> key_of(#[trigger] pieces[i])
            != key_of(#[trigger] pieces[j])
}

/// What a pass that starts with `cache` takes as the checker's word on
/// chunk `j`: what the cache holds, if it answers for the chunk, else the
/// answer of the checker.
pub open spec fn used(
    pieces: Seq<PieceView>,
    answers: Seq<Seq<SuggestionView>>,
    cache: Held,
    ctx: Context,
    j: int,
) -> Seq<SuggestionView> {
    let state = PassView::begin(cache).run(pieces, answers, j, ctx);
    if state.hits(pieces[j]) {
        state.old[key_of(pieces[j])]
    } else {
        answers[j]
    }
}

/// After the first `k` chunks the new cache holds, for each of them and
/// for nothing else, what was taken as the checker's word.
proof fn lemma_fresh_holds(
    pieces: Seq<PieceView>,
    answers: Seq<Seq<SuggestionView>>,
    cache: Held,
    ctx: Context,
    k: int,
)
    requires
        distinct_pieces(pieces),
        answers.len() == pieces.len(),
        0 <= k <= pieces.len(),
    ensures
        PassView::begin(cache).run(pieces, answers, k, ctx).index == k,
        forall|j: int|
            0 <= j < k ==> {
                let fresh = PassView::begin(cache).run(pieces, answers, k, ctx).fresh;
                &&& fresh.contains_key(key_of(#[trigger] pieces[j]))
                &&& fresh[key_of(pieces[j])] == used(pieces, answers, cache, ctx, j)
            },
        forall|key: Key|
            PassView::begin(cache).run(pieces, answers, k, ctx).fresh.contains_key(key)
                ==> exists|j: int| 0 <= j < k && key_of(#[trigger] pieces[j]) == key,
    decreases k,
{
    if k > 0 {
        lemma_fresh_holds(pieces, answers, cache, ctx, k - 1);
        let before = PassView::begin(cache).run(pieces, answers, k - 1, ctx);
        let after = PassView::begin(cache).run(pieces, answers, k, ctx);
        assert(after == before.step(pieces[k - 1], answers[k - 1], ctx));
        assert forall|j: int| 0 <= j < k implies {
            &&& after.fresh.contains_key(key_of(#[trigger] pieces[j]))
            &&& after.fresh[key_of(pieces[j])] == used(pieces, answers, cache, ctx, j)
        } by {
            if j < k - 1 {
                assert(key_of(pieces[j]) != key_of(pieces[k - 1]));
            }
        }
        assert forall|key: Key| after.fresh.contains_key(key) implies exists|j: int|
            0 <= j < k && key_of(#[trigger] pieces[j]) == key by {
            if key == key_of(pieces[k - 1]) {
                assert(key_of(pieces[k - 1]) == key);
            } else {
                assert(before.fresh.contains_key(key));
                let j = choose|j: int| 0 <= j < k - 1 && key_of(#[trigger] pieces[j]) == key;
                assert(0 <= j < k && key_of(pieces[j]) == key);
            }
        }
    }
}

/// What the first `k` chunks of a pass find is what was found before
/// them, with what the chunk before the last gives.
proof fn lemma_second_pass(
    pieces: Seq<PieceView>,
    first: Seq<Seq<SuggestionView>>,
    second: Seq<Seq<SuggestionView>>,
    cache: Held,
    ctx: Context,
    k: int,
)
    requires
        distinct_pieces(pieces),
        first.len() == pieces.len(),
        second.len() == pieces.len(),
        0 <= k <= pieces.len(),
    ensures
        ({
            let n = pieces.len() as int;
            let one = PassView::begin(cache).run(pieces, first, k, ctx);
            let whole = PassView::begin(cache).run(pieces, first, n, ctx);
            let two = PassView::begin(whole.fresh).run(pieces, second, k, ctx);
            &&& two.calls == 0
            &&& two.index == k
            &&& two.found == one.found
            &&& two.fresh == one.fresh
            &&& forall|j: int|
                k <= j < n ==> two.old.contains_key(key_of(#[trigger] pieces[j]))
                    && two.old[key_of(pieces[j])] == whole.fresh[key_of(pieces[j])]
        }),
    decreases k,
{
    let n = pieces.len() as int;
    let whole = PassView::begin(cache).run(pieces, first, n, ctx);
    lemma_fresh_holds(pieces, first, cache, ctx, n);
    if k > 0 {
        lemma_second_pass(pieces, first, second, cache, ctx, k - 1);
        lemma_fresh_holds(pieces, first, cache, ctx, k - 1);
        let one_before = PassView::begin(cache).run(pieces, first, k - 1, ctx);
        let one = PassView::begin(cache).run(pieces, first, k, ctx);
        let two_before = PassView::begin(whole.fresh).run(pieces, second, k - 1, ctx);
        let two = PassView::begin(whole.fresh).run(pieces, second, k, ctx);
        let piece = pieces[k - 1];
        assert(one == one_before.step(piece, first[k - 1], ctx));
        assert(two == two_before.step(piece, second[k - 1], ctx));
        assert(two_before.old.contains_key(key_of(piece)));
        assert(whole.fresh[key_of(piece)] == used(pieces, first, cache, ctx, k - 1));
        assert(two_before.hits(piece));
        assert forall|j: int| k <= j < n implies two.old.contains_key(
            key_of(#[trigger] pieces[j]),
        ) && two.old[key_of(pieces[j])] == whole.fresh[key_of(pieces[j])] by {
            assert(key_of(pieces[j]) != key_of(pieces[k - 1]));
        }
    } else {
        assert forall|j: int| 0 <= j < n implies whole.fresh.contains_key(
            key_of(#[trigger] pieces[j]),
        ) by {}
    }
}

/// A check of unchanged chunks with the cache of the check before asks
/// the checker nothing and finds the same.
///
/// Take chunks no two of which have the same text and the same language,
/// and check them once,
/// with any cache and any answers of the checker. Check them again with
/// the cache that the first check built: whatever the checker would
/// answer now, it is not asked, the diagnostics are those of the first
/// check, and the cache that is built is the same again.
pub proof fn lemma_recheck_is_idempotent(
    pieces: Seq<PieceView>,
    first: Seq<Seq<SuggestionView>>,
    second: Seq<Seq<SuggestionView>>,
    cache: Held,
    ctx: Context,
)
    requires
        distinct_pieces(pieces),
        first.len() == pieces.len(),
        second.len() == pieces.len(),
    ensures
        ({
            let n = pieces.len() as int;
            let one = PassView::begin(cache).run(pieces, first, n, ctx);
            let two = PassView::begin(one.fresh).run(pieces, second, n, ctx);
            &&& two.calls == 0
            &&& two.found == one.found
            &&& two.fresh == one.fresh
        }),
{
    lemma_second_pass(pieces, first, second, cache, ctx, pieces.len() as int);
}

/// Dealing with one chunk and then with the chunks up to `to` is dealing
/// with the chunks up to `to`.
pub proof fn lemma_run_after_step(
    state: PassView,
    pieces: Seq<PieceView>,
    answers: Seq<Seq<SuggestionView>>,
    to: int,
    ctx: Context,
)
    requires
        state.index < to <= pieces.len(),
        answers.len() == pieces.len(),
    ensures
        state.step(pieces[state.index as int], answers[state.index as int], ctx).run(
            pieces,
            answers,
            to,
            ctx,
        ) == state.run(pieces, answers, to, ctx),
        state.run(pieces, answers, to, ctx).index == to,
    decreases to,
{
    let stepped = state.step(pieces[state.index as int], answers[state.index as int], ctx);
    assert(state.run(pieces, answers, to, ctx) == state.run(pieces, answers, to - 1, ctx).step(
        pieces[to - 1],
        answers[to - 1],
        ctx,
    ));
    if state.index + 1 < to {
        lemma_run_after_step(state, pieces, answers, to - 1, ctx);
        assert(stepped.run(pieces, answers, to, ctx) == stepped.run(
            pieces,
            answers,
            to - 1,
            ctx,
        ).step(pieces[to - 1], answers[to - 1], ctx));
    } else {
        assert(state.run(pieces, answers, to - 1, ctx) == state);
        assert(stepped.run(pieces, answers, to, ctx) == stepped);
    }
}

/// What [`PassView::settled`] does is what [`PassView::run`] does up to
/// the first chunk that the cache does not answer for, whatever the
/// checker would say of the chunks before it; and the checker is not
/// asked on the way.
pub proof fn lemma_settled_is_run(
    state: PassView,
    pieces: Seq<PieceView>,
    answers: Seq<Seq<SuggestionView>>,
    ctx: Context,
)
    requires
        state.index <= pieces.len(),
        answers.len() == pieces.len(),
    ensures
        ({
            let rest = state.settled(pieces, ctx);
            &&& state.index <= rest.index <= pieces.len()
            &&& rest.calls == state.calls
            &&& rest.index < pieces.len() ==> !rest.hits(pieces[rest.index as int]) && rest.step(
                pieces[rest.index as int],
                answers[rest.index as int],
                ctx,
            ) == state.run(pieces, answers, rest.index as int + 1, ctx)
            &&& rest.index == pieces.len() ==> rest == state.run(
                pieces,
                answers,
                pieces.len() as int,
                ctx,
            )
        }),
    decreases pieces.len() - state.index,
{
    if state.index < pieces.len() {
        let piece = pieces[state.index as int];
        if state.hits(piece) {
            let next = state.step(piece, Seq::empty(), ctx);
            assert(next == state.step(piece, answers[state.index as int], ctx));
            lemma_settled_is_run(next, pieces, answers, ctx);
            let rest = next.settled(pieces, ctx);
            if rest.index < pieces.len() {
                lemma_run_after_step(state, pieces, answers, rest.index as int + 1, ctx);
            } else {
                lemma_run_after_step(state, pieces, answers, pieces.len() as int, ctx);
            }
        } else {
            let rest = state.settled(pieces, ctx);
            assert(state.run(pieces, answers, state.index as int, ctx) == state);
            assert(state.run(pieces, answers, state.index as int + 1, ctx) == state.step(
                piece,
                answers[state.index as int],
                ctx,
            ));
        }
    } else {
        assert(state.run(pieces, answers, pieces.len() as int, ctx) == state);
    }
}

/// A pass never forgets the cache that it was given: whatever chunks
/// are dealt with, a pass that is given up hands back the cache of the
/// check before as it was.
pub proof fn lemma_given_stays(
    state: PassView,
    pieces: Seq<PieceView>,
    answers: Seq<Seq<SuggestionView>>,
    to: int,
    ctx: Context,
)
    ensures
        state.run(pieces, answers, to, ctx).given == state.given,
        state.settled(pieces, ctx).given == state.given,
    decreases to, pieces.len() - state.index,
{
    if state.index < to <= pieces.len() && to <= answers.len() {
        lemma_given_stays(state, pieces, answers, to - 1, ctx);
    }
    lemma_settled_keeps_given(state, pieces, ctx);
}

/// [`lemma_given_stays`] for the chunks that the cache answers for.
proof fn lemma_settled_keeps_given(state: PassView, pieces: Seq<PieceView>, ctx: Context)
    ensures
        state.settled(pieces, ctx).given == state.given,
    decreases pieces.len() - state.index,
{
    if state.index < pieces.len() && state.hits(pieces[state.index as int]) {
        lemma_settled_keeps_given(
            state.step(pieces[state.index as int], Seq::empty(), ctx),
            pieces,
            ctx,
        );
    }
}

/// A second check of unchanged chunks is over before the checker is
/// asked anything: with the cache that the first check built, the cache
/// answers for every chunk.
pub proof fn lemma_recheck_needs_no_checker(
    pieces: Seq<PieceView>,
    first: Seq<Seq<SuggestionView>>,
    cache: Held,
    ctx: Context,
)
    requires
        distinct_pieces(pieces),
        first.len() == pieces.len(),
    ensures
        ({
            let n = pieces.len() as int;
            let one = PassView::begin(cache).run(pieces, first, n, ctx);
            let two = PassView::begin(one.fresh).settled(pieces, ctx);
            &&& two.index == n
            &&& two.calls == 0
            &&& two.found == one.found
            &&& two.fresh == one.fresh
        }),
{
    let n = pieces.len() as int;
    let one = PassView::begin(cache).run(pieces, first, n, ctx);
    let start = PassView::begin(one.fresh);
    let two = start.settled(pieces, ctx);
    lemma_settled_is_run(start, pieces, first, ctx);
    if two.index < n {
        let i = two.index as int;
        lemma_second_pass(pieces, first, first, cache, ctx, i);
        lemma_second_pass(pieces, first, first, cache, ctx, i + 1);
        lemma_fresh_holds(pieces, first, cache, ctx, n);
        let before = start.run(pieces, first, i, ctx);
        assert(start.run(pieces, first, i + 1, ctx) == before.step(pieces[i], first[i], ctx));
        assert(before.hits(pieces[i]));
        assert(start.run(pieces, first, i + 1, ctx).calls == 0);
        assert(two.step(pieces[i], first[i], ctx).calls == two.calls + 1);
        assert(false);
    }
    lemma_recheck_is_idempotent(pieces, first, first, cache, ctx);
}

} // verus!
