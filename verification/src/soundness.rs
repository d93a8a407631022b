//! What holds of the knowledge however a game goes: absorbing a scored guess a second
//! time changes nothing, and scores computed from the answer never rule the answer out.

use crate::feedback::{hits, misses, score, score_at, GuessOutcome, LetterOutcome};
use crate::inference::{
    allows, blank_slate, capped_at, clash_at, consistent, contradiction, learned, taught, updated,
    within_caps, LetterState, PositionState,
};
use crate::solver::{absorbed, keeps, Error};
use crate::word::{is_word, occurrences, spellings, Word};
use vstd::prelude::*;

verus! {

/// Whether absorbing position `i`, scored `o`, leaves state `st` as it is.
pub open spec fn settled(st: LetterState, own: bool, o: LetterOutcome, i: int) -> bool {
    taught(st, own, o, i) == st
}

/// Whether two states are of the same kind and say the same of each position.
spec fn alike(x: LetterState, y: LetterState) -> bool {
    match (x, y) {
        (LetterState::Unknown, LetterState::Unknown) => true,
        (LetterState::Absent, LetterState::Absent) => true,
        (LetterState::Positions(p), LetterState::Positions(q)) => p[0] == q[0] && p[1] == q[1]
            && p[2] == q[2] && p[3] == q[3] && p[4] == q[4],
        (LetterState::AntiPositions(p), LetterState::AntiPositions(q)) => p[0] == q[0] && p[1]
            == q[1] && p[2] == q[2] && p[3] == q[3] && p[4] == q[4],
        _ => false,
    }
}

/// States that are alike are equal.
proof fn lemma_alike(x: LetterState, y: LetterState)
    requires
        alike(x, y),
    ensures
        x == y,
{
    match (x, y) {
        (LetterState::Positions(p), LetterState::Positions(q)) => {
            assert(p =~= q);
        },
        (LetterState::AntiPositions(p), LetterState::AntiPositions(q)) => {
            assert(p =~= q);
        },
        _ => {},
    }
}

/// Absorbing a position a second time changes nothing.
proof fn lemma_taught_settles(st: LetterState, own: bool, o: LetterOutcome, i: int)
    requires
        0 <= i < 5,
    ensures
        settled(taught(st, own, o, i), own, o, i),
{
    let t = taught(st, own, o, i);
    lemma_alike(taught(t, own, o, i), t);
}

/// What one position has settled stays settled when another position is absorbed.
proof fn lemma_settled_kept(
    st: LetterState,
    own_j: bool,
    o_j: LetterOutcome,
    j: int,
    own_i: bool,
    o_i: LetterOutcome,
    i: int,
)
    requires
        0 <= i < 5,
        0 <= j < 5,
        i != j,
        settled(st, own_j, o_j, j),
    ensures
        settled(taught(st, own_i, o_i, i), own_j, o_j, j),
{
    let t = taught(st, own_i, o_i, i);
    lemma_alike(taught(t, own_j, o_j, j), t);
}

/// Once the first `n` positions of a guess were absorbed, each of them is settled.
proof fn lemma_learned_settles(
    st: LetterState,
    l: int,
    g: Seq<int>,
    o: Seq<LetterOutcome>,
    n: int,
    j: int,
)
    requires
        0 <= j < n <= 5,
    ensures
        settled(learned(st, l, g, o, n), g[j] == l, o[j], j),
    decreases n,
{
    let before = learned(st, l, g, o, n - 1);
    if j == n - 1 {
        lemma_taught_settles(before, g[j] == l, o[j], j);
    } else {
        lemma_learned_settles(st, l, g, o, n - 1, j);
        lemma_settled_kept(before, g[j] == l, o[j], j, g[n - 1] == l, o[n - 1], n - 1);
    }
}

/// A state that the first `n` positions leave as it is comes out of them unchanged.
proof fn lemma_settled_learns_nothing(
    st: LetterState,
    l: int,
    g: Seq<int>,
    o: Seq<LetterOutcome>,
    n: int,
)
    requires
        0 <= n <= 5,
        forall|j: int| 0 <= j < n ==> settled(st, #[trigger] g[j] == l, o[j], j),
    ensures
        learned(st, l, g, o, n) == st,
    decreases n,
{
    if n > 0 {
        lemma_settled_learns_nothing(st, l, g, o, n - 1);
        assert(settled(st, g[n - 1] == l, o[n - 1], n - 1));
    }
}

/// The state of a letter after a guess was absorbed comes out of any number of its
/// positions unchanged.
proof fn lemma_learned_twice(
    st: LetterState,
    l: int,
    g: Seq<int>,
    o: Seq<LetterOutcome>,
    n: int,
)
    requires
        0 <= n <= 5,
    ensures
        learned(learned(st, l, g, o, 5), l, g, o, n) == learned(st, l, g, o, 5),
{
    let end = learned(st, l, g, o, 5);
    assert forall|j: int| 0 <= j < n implies settled(end, #[trigger] g[j] == l, o[j], j) by {
        lemma_learned_settles(st, l, g, o, 5, j);
    }
    lemma_settled_learns_nothing(end, l, g, o, n);
}

/// A letter known to be in the answer stays so.
proof fn lemma_positions_stay(
    st: LetterState,
    l: int,
    g: Seq<int>,
    o: Seq<LetterOutcome>,
    m: int,
    n: int,
)
    requires
        0 <= m <= n,
        learned(st, l, g, o, m) is Positions,
    ensures
        learned(st, l, g, o, n) is Positions,
    decreases n - m,
{
    if m < n {
        lemma_positions_stay(st, l, g, o, m, n - 1);
    }
}

/// Absorbing the same scored guess a second time leaves the knowledge as the first time
/// left it, so every word fares the same against both; and the second time meets no
/// contradiction that the first did not meet.
pub proof fn law_update_idempotent(k: [LetterState; 26], g: Word, o: GuessOutcome)
    requires
        g.wf(),
    ensures
        updated(updated(k@, g@, o@), g@, o@) == updated(k@, g@, o@),
        forall|w: Seq<int>|
            consistent(w, updated(updated(k@, g@, o@), g@, o@)) == consistent(
                w,
                updated(k@, g@, o@),
            ),
        contradiction(updated(k@, g@, o@), g@, o@) ==> contradiction(k@, g@, o@),
{
    let once = updated(k@, g@, o@);
    let twice = updated(once, g@, o@);
    g.lemma_view();
    assert forall|l: int| 0 <= l < 26 implies twice[l] == once[l] by {
        lemma_learned_twice(k@[l], l, g@, o@, 5);
    }
    assert(twice =~= once);
    if contradiction(once, g@, o@) {
        let i = choose|i: int| 0 <= i < 5 && #[trigger] clash_at(once, g@, o@, i);
        let l = g@[i];
        lemma_learned_twice(k@[l], l, g@, o@, i);
        assert(learned(k@[l], l, g@, o@, 5) == LetterState::Absent);
        if !clash_at(k@, g@, o@, i) {
            assert(learned(k@[l], l, g@, o@, i + 1) is Positions);
            lemma_positions_stay(k@[l], l, g@, o@, i + 1, 5);
        }
    }
}

/// Whether claim `p` about a position is true of a position that holds the letter
/// (`there`) or does not.
pub open spec fn honest(p: PositionState, there: bool) -> bool {
    match p {
        PositionState::Yes => there,
        PositionState::No => !there,
        PositionState::Maybe => true,
    }
}

/// Whether state `st` of letter `l` is true of answer `a`.
///
/// `Absent` is true when the answer lacks the letter. `Positions` is true when the
/// answer has the letter, at every position marked `Yes` and at none marked `No`.
/// `AntiPositions` makes the opposite claims per position, and none about the letter
/// being in the answer.
pub open spec fn true_of(st: LetterState, l: int, a: Seq<int>) -> bool {
    match st {
        LetterState::Unknown => true,
        LetterState::Absent => forall|i: int| 0 <= i < 5 ==> #[trigger] a[i] != l,
        LetterState::Positions(ps) => {
            &&& exists|i: int| 0 <= i < 5 && #[trigger] a[i] == l
            &&& forall|i: int| 0 <= i < 5 ==> honest(#[trigger] ps[i], a[i] == l)
        },
        LetterState::AntiPositions(ps) => forall|i: int|
            0 <= i < 5 ==> honest((#[trigger] ps[i]).flipped(), a[i] == l),
    }
}

/// Whether knowledge `k` is true of answer `a`, letter by letter.
pub open spec fn sound(k: Seq<LetterState>, a: Seq<int>) -> bool {
    &&& k.len() == 26
    &&& forall|l: int| 0 <= l < 26 ==> true_of(#[trigger] k[l], l, a)
}

/// Whether the guess `g` holds letter `l` wherever the answer `a` does.
spec fn all_hit(a: Seq<int>, g: Seq<int>, l: int) -> bool {
    forall|i: int| 0 <= i < 5 && #[trigger] a[i] == l ==> g[i] == l
}

/// The state of a letter between two positions of a guess that still owes a `Correct`:
/// the guess holds the letter wherever the answer does, an earlier occurrence was
/// scored `Absent` before anything else was known, and the exact matches come later.
spec fn pending(st: LetterState, l: int, a: Seq<int>, g: Seq<int>, n: int) -> bool {
    &&& all_hit(a, g, l)
    &&& exists|i: int| 0 <= i < 5 && #[trigger] a[i] == l
    &&& match st {
        LetterState::Absent => forall|i: int| 0 <= i < n ==> #[trigger] a[i] != l,
        LetterState::Positions(ps) => forall|i: int|
            0 <= i < 5 ==> #[trigger] ps[i] == if i < n && a[i] == l {
                PositionState::Yes
            } else {
                PositionState::No
            },
        _ => false,
    }
}

/// What holds of the state of letter `l` once the first `n` positions of guess `g`,
/// scored against answer `a`, were absorbed into a state that was true of `a`.
spec fn on_track(st: LetterState, l: int, a: Seq<int>, g: Seq<int>, n: int) -> bool {
    ||| {
        &&& true_of(st, l, a)
        &&& (st is Unknown || st is AntiPositions) ==> forall|i: int|
            0 <= i < n ==> #[trigger] g[i] != l
    }
    ||| pending(st, l, a, g, n)
}

/// Where the guess lacks a letter, it has neither exact matches nor misplaced
/// occurrences of it.
proof fn lemma_none_guessed(a: Seq<int>, g: Seq<int>, l: int, n: int)
    requires
        forall|i: int| 0 <= i < n ==> #[trigger] g[i] != l,
    ensures
        hits(a, g, l, n) == 0,
        misses(a, g, l, n) == 0,
    decreases n,
{
    if n > 0 {
        lemma_none_guessed(a, g, l, n - 1);
    }
}

/// The exact matches of a letter among the first `n` positions fall short of its
/// occurrences in the answer there as soon as the guess lacks it at one of them.
proof fn lemma_hits_short(a: Seq<int>, g: Seq<int>, l: int, n: int, i: int)
    requires
        0 <= i < n,
        a[i] == l,
        g[i] != l,
    ensures
        hits(a, g, l, n) < occurrences(a, l, n),
    decreases n,
{
    if i == n - 1 {
        crate::feedback::lemma_hits_bound(a, g, l, n - 1);
    } else {
        lemma_hits_short(a, g, l, n - 1, i);
    }
}

/// Where the guess holds a letter wherever the answer does, every occurrence in the
/// answer is an exact match.
proof fn lemma_all_hit(a: Seq<int>, g: Seq<int>, l: int, n: int)
    requires
        0 <= n <= 5,
        all_hit(a, g, l),
    ensures
        hits(a, g, l, n) == occurrences(a, l, n),
    decreases n,
{
    if n > 0 {
        lemma_all_hit(a, g, l, n - 1);
        if a[n - 1] == l {
            assert(g[n - 1] == l);
        }
    }
}

/// Misplaced occurrences only grow with the number of positions looked at.
proof fn lemma_misses_monotonic(a: Seq<int>, g: Seq<int>, l: int, m: int, n: int)
    requires
        m <= n,
    ensures
        misses(a, g, l, m) <= misses(a, g, l, n),
    decreases n - m,
{
    if m < n {
        lemma_misses_monotonic(a, g, l, m, n - 1);
    }
}

/// Every occurrence of a letter in the guess is an exact match or a misplaced one.
proof fn lemma_hits_and_misses(a: Seq<int>, g: Seq<int>, l: int, n: int)
    ensures
        hits(a, g, l, n) + misses(a, g, l, n) == occurrences(g, l, n),
    decreases n,
{
    if n > 0 {
        lemma_hits_and_misses(a, g, l, n - 1);
    }
}

/// One more position keeps the state of a letter on track, and is no `Present` for a
/// letter known to be absent.
proof fn lemma_step_on_track(st: LetterState, l: int, a: Seq<int>, g: Seq<int>, n: int)
    requires
        a.len() == 5,
        g.len() == 5,
        0 <= n < 5,
        on_track(st, l, a, g, n),
    ensures
        on_track(taught(st, g[n] == l, score_at(a, g, n), n), l, a, g, n + 1),
        !(g[n] == l && score_at(a, g, n) == LetterOutcome::Present && st == LetterState::Absent),
{
    let o = score_at(a, g, n);
    let next = taught(st, g[n] == l, o, n);
    crate::feedback::lemma_hits_bound(a, g, l, 5);
    crate::word::lemma_occurrences_positive(a, l, 5);
    if pending(st, l, a, g, n) {
        lemma_all_hit(a, g, l, 5);
        if g[n] != l {
            assert(a[n] != l);
        }
        assert(pending(next, l, a, g, n + 1));
    } else if g[n] == l {
        if o == LetterOutcome::Correct {
            assert(a[n] == l);
            assert(true_of(next, l, a));
        } else if o == LetterOutcome::Present {
            assert(occurrences(a, l, 5) > 0);
            assert(true_of(next, l, a));
        } else {
            match st {
                LetterState::Positions(ps) => {
                    assert(true_of(next, l, a));
                },
                LetterState::Absent => {
                    assert(true_of(next, l, a));
                },
                _ => {
                    lemma_none_guessed(a, g, l, n);
                    if occurrences(a, l, 5) == 0 {
                        assert(true_of(next, l, a));
                    } else {
                        assert(hits(a, g, l, 5) == occurrences(a, l, 5));
                        assert forall|i: int| 0 <= i < 5 && #[trigger] a[i] == l implies g[i]
                            == l by {
                            if g[i] != l {
                                lemma_hits_short(a, g, l, 5, i);
                            }
                        }
                        assert(all_hit(a, g, l));
                        assert(pending(next, l, a, g, n + 1));
                    }
                },
            }
        }
    } else {
        assert(true_of(next, l, a));
    }
}

/// Absorbing the first `n` positions of a guess scored against the answer keeps the
/// state of a letter on track and meets no contradiction.
proof fn lemma_learned_on_track(st: LetterState, l: int, a: Seq<int>, g: Seq<int>, n: int)
    requires
        a.len() == 5,
        g.len() == 5,
        0 <= n <= 5,
        true_of(st, l, a),
    ensures
        on_track(learned(st, l, g, score(a, g), n), l, a, g, n),
        forall|i: int|
            0 <= i < n && g[i] == l && score(a, g)[i] == LetterOutcome::Present ==> #[trigger] learned(
                st,
                l,
                g,
                score(a, g),
                i,
            ) != LetterState::Absent,
    decreases n,
{
    if n > 0 {
        lemma_learned_on_track(st, l, a, g, n - 1);
        lemma_step_on_track(learned(st, l, g, score(a, g), n - 1), l, a, g, n - 1);
    }
}

/// An `Absent` for a letter says that the answer has fewer of it than the guess.
proof fn lemma_absent_caps(a: Seq<int>, g: Seq<int>, i: int)
    requires
        0 <= i < 5,
        score_at(a, g, i) == LetterOutcome::Absent,
    ensures
        occurrences(a, g[i], 5) < occurrences(g, g[i], 5),
{
    let l = g[i];
    lemma_hits_and_misses(a, g, l, 5);
    lemma_misses_monotonic(a, g, l, i + 1, 5);
}

/// Before any guess, the knowledge is true of every answer.
pub proof fn law_blank_slate_sound(a: Word)
    requires
        a.wf(),
    ensures
        sound(blank_slate(), a@),
{
}

/// A guess scored against the answer contradicts no knowledge that is true of the
/// answer, leaves the knowledge true of it, and caps no letter below the answer's count.
proof fn lemma_true_feedback_sound(k: Seq<LetterState>, a: Seq<int>, g: Seq<int>)
    requires
        is_word(a),
        is_word(g),
        sound(k, a),
    ensures
        !contradiction(k, g, score(a, g)),
        sound(updated(k, g, score(a, g)), a),
        within_caps(a, k, g, score(a, g)),
{
    let o = score(a, g);
    assert forall|i: int| 0 <= i < 5 implies !#[trigger] clash_at(k, g, o, i) by {
        lemma_learned_on_track(k[g[i]], g[i], a, g, i + 1);
    }
    assert forall|l: int| 0 <= l < 26 implies true_of(#[trigger] updated(k, g, o)[l], l, a) by {
        lemma_learned_on_track(k[l], l, a, g, 5);
    }
    assert forall|i: int| 0 <= i < 5 && #[trigger] capped_at(k, g, o, i) implies occurrences(
        a,
        g[i],
        5,
    ) < occurrences(g, g[i], 5) by {
        lemma_absent_caps(a, g, i);
    }
}

/// Knowledge that is true of the answer never rules the answer out.
proof fn lemma_sound_keeps_answer(k: Seq<LetterState>, a: Seq<int>)
    requires
        is_word(a),
        sound(k, a),
    ensures
        consistent(a, k),
{
    assert forall|i: int| 0 <= i < 5 implies allows(#[trigger] k[a[i]], i) by {
        assert(true_of(k[a[i]], a[i], a));
    }
    assert forall|l: int| 0 <= l < 26 && #[trigger] k[l] is Positions implies a.contains(l) by {
        assert(true_of(k[l], l, a));
    }
}

/// A guess scored against the answer contradicts no knowledge that is true of the
/// answer, leaves the knowledge true of it, and caps no letter below the answer's count.
pub proof fn law_true_feedback_sound(k: [LetterState; 26], a: Word, g: Word)
    requires
        a.wf(),
        g.wf(),
        sound(k@, a@),
    ensures
        !contradiction(k@, g@, score(a@, g@)),
        sound(updated(k@, g@, score(a@, g@)), a@),
        within_caps(a@, k@, g@, score(a@, g@)),
{
    a.lemma_view();
    g.lemma_view();
    lemma_true_feedback_sound(k@, a@, g@);
}

/// Knowledge that is true of the answer never rules the answer out.
pub proof fn law_sound_keeps_answer(k: [LetterState; 26], a: Word)
    requires
        a.wf(),
        sound(k@, a@),
    ensures
        consistent(a@, k@),
{
    a.lemma_view();
    lemma_sound_keeps_answer(k@, a@);
}

/// The knowledge after the guesses `gs` were absorbed into `k` one after the other, each
/// scored against answer `a`.
pub open spec fn replayed(k: Seq<LetterState>, a: Seq<int>, gs: Seq<Seq<int>>) -> Seq<LetterState>
    decreases gs.len(),
{
    if gs.len() == 0 {
        k
    } else {
        updated(replayed(k, a, gs.drop_last()), gs.last(), score(a, gs.last()))
    }
}

/// However many guesses are scored against the answer and absorbed, starting from no
/// knowledge: the knowledge stays true of the answer, and the answer agrees with it.
pub proof fn law_answer_never_ruled_out(a: Word, gs: Seq<Word>)
    requires
        a.wf(),
        forall|i: int| 0 <= i < gs.len() ==> (#[trigger] gs[i]).wf(),
    ensures
        sound(replayed(blank_slate(), a@, spellings(gs)), a@),
        consistent(a@, replayed(blank_slate(), a@, spellings(gs))),
    decreases gs.len(),
{
    a.lemma_view();
    if gs.len() > 0 {
        let front = gs.drop_last();
        law_answer_never_ruled_out(a, front);
        assert(spellings(gs).drop_last() =~= spellings(front));
        gs.last().lemma_view();
        lemma_true_feedback_sound(replayed(blank_slate(), a@, spellings(front)), a@, gs.last()@);
    }
    lemma_sound_keeps_answer(replayed(blank_slate(), a@, spellings(gs)), a@);
}

/// A round whose guess is scored against the answer does not fail, and leaves the
/// knowledge true of the answer and the answer among the candidates, when the
/// knowledge was true of the answer and the answer was the guess or a candidate.
pub proof fn law_true_feedback_never_stumps(k: [LetterState; 26], pool: Seq<Seq<int>>, a: Word, g: Word)
    requires
        a.wf(),
        g.wf(),
        sound(k@, a@),
        g@ == a@ || pool.contains(a@),
    ensures
        absorbed(k@, pool, g@, Ok(score(a@, g@))).2 == Ok::<Seq<LetterOutcome>, Error>(score(a@, g@)),
        sound(absorbed(k@, pool, g@, Ok(score(a@, g@))).0, a@),
        pool.contains(a@) ==> absorbed(k@, pool, g@, Ok(score(a@, g@))).1.contains(a@),
{
    a.lemma_view();
    g.lemma_view();
    let o = score(a@, g@);
    lemma_true_feedback_sound(k@, a@, g@);
    lemma_sound_keeps_answer(updated(k@, g@, o), a@);
    if pool.contains(a@) {
        let keep = |w: Seq<int>| keeps(w, k@, g@, o);
        let i = choose|i: int| 0 <= i < pool.len() && pool[i] == a@;
        pool.lemma_filter_contains(keep, i);
    }
}

} // verus!
