//! Scoring a guess against the answer.
//!
//! Each position of the guess is scored `Correct`, `Present` or `Absent`. A letter of
//! the guess that is not in its place is `Present` only while the answer still has an
//! occurrence of that letter that no other position of the guess has claimed: exact
//! matches claim first, then misplaced occurrences from left to right.

use crate::word::{occurrences, Word};
use vstd::prelude::*;

verus! {

/// The score of one position of a guess.
#[derive(Clone, Copy, Debug, PartialEq, Eq, Structural)]
pub enum LetterOutcome {
    /// The letter is in the answer at this position.
    Correct,
    /// The letter is in the answer, at another position.
    Present,
    /// The answer has no occurrence of the letter left for this position.
    Absent,
}

impl Default for LetterOutcome {
    fn default() -> (r: LetterOutcome)
        ensures
            r == LetterOutcome::Absent,
    {
        LetterOutcome::Absent
    }
}

/// The scores of the five positions of a guess.
pub type GuessOutcome = [LetterOutcome; 5];

/// How many of the first `n` positions hold `l` in both the answer `a` and the guess `g`.
pub open spec fn hits(a: Seq<int>, g: Seq<int>, l: int, n: int) -> nat
    decreases n,
{
    if n <= 0 {
        0
    } else {
        hits(a, g, l, n - 1) + if g[n - 1] == l && a[n - 1] == l { 1nat } else { 0nat }
    }
}

/// How many of the first `n` positions hold `l` in the guess `g` and another letter in
/// the answer `a`.
pub open spec fn misses(a: Seq<int>, g: Seq<int>, l: int, n: int) -> nat
    decreases n,
{
    if n <= 0 {
        0
    } else {
        misses(a, g, l, n - 1) + if g[n - 1] == l && a[n - 1] != l { 1nat } else { 0nat }
    }
}

/// The score of position `i` of guess `g` against answer `a`.
///
/// A misplaced letter is `Present` when the exact matches of that letter, together with
/// its misplaced occurrences to the left of `i`, leave one of the answer's occurrences
/// unclaimed.
pub open spec fn score_at(a: Seq<int>, g: Seq<int>, i: int) -> LetterOutcome {
    let l = g[i];
    if a[i] == l {
        LetterOutcome::Correct
    } else if hits(a, g, l, 5) + misses(a, g, l, i) < occurrences(a, l, 5) {
        LetterOutcome::Present
    } else {
        LetterOutcome::Absent
    }
}

/// The score of guess `g` against answer `a`.
pub open spec fn score(a: Seq<int>, g: Seq<int>) -> Seq<LetterOutcome> {
    Seq::new(5, |i: int| score_at(a, g, i))
}

/// Whether every position is `Correct`.
pub open spec fn solved(o: Seq<LetterOutcome>) -> bool {
    forall|i: int| 0 <= i < 5 ==> o[i] == LetterOutcome::Correct
}

/// How many of the first `n` positions of guess `g` hold `l` and are scored `Correct` or
/// `Present` against answer `a`.
pub open spec fn credited(a: Seq<int>, g: Seq<int>, l: int, n: int) -> nat
    decreases n,
{
    if n <= 0 {
        0
    } else {
        credited(a, g, l, n - 1) + if g[n - 1] == l && score_at(a, g, n - 1)
            != LetterOutcome::Absent { 1nat } else { 0nat }
    }
}

/// How many of `wanted` misplaced occurrences of a letter are scored `Present` when the
/// exact matches leave `budget` occurrences of it in the answer: the smaller of the two.
pub open spec fn claimed(wanted: nat, budget: int) -> int {
    if wanted <= budget {
        wanted as int
    } else {
        budget
    }
}

/// The exact matches of a letter are among its occurrences in the answer.
pub proof fn lemma_hits_bound(a: Seq<int>, g: Seq<int>, l: int, n: int)
    ensures
        hits(a, g, l, n) <= occurrences(a, l, n),
    decreases n,
{
    if n > 0 {
        lemma_hits_bound(a, g, l, n - 1);
    }
}

/// Among the first `n` positions, the credited occurrences of `l` are its exact matches
/// there plus as many misplaced ones as the answer has occurrences left for.
pub proof fn lemma_credited(a: Seq<int>, g: Seq<int>, l: int, n: int)
    requires
        0 <= n <= 5,
    ensures
        credited(a, g, l, n) == hits(a, g, l, n) + claimed(
            misses(a, g, l, n),
            occurrences(a, l, 5) - hits(a, g, l, 5),
        ),
    decreases n,
{
    lemma_hits_bound(a, g, l, 5);
    if n > 0 {
        lemma_credited(a, g, l, n - 1);
    }
}

/// Counts the occurrences of every letter of the alphabet in `word`.
pub fn letter_counts(word: &Word) -> (counts: [u8; 26])
    ensures
        forall|l: int| 0 <= l < 26 ==> counts[l] == occurrences(word@, l, 5),
{
    let mut counts = [0u8;26];
    let mut i: usize = 0;
    while i < 5
        invariant
            i <= 5,
            forall|l: int| 0 <= l < 26 ==> counts[l] == occurrences(word@, l, i as int),
            forall|l: int| 0 <= l < 26 ==> counts[l] <= i,
        decreases 5 - i,
    {
        let j = word.letter(i).index() as usize;
        counts[j] = counts[j] + 1;
        i += 1;
    }
    counts
}

/// Scores `guess` against `answer`, given the letter counts of the answer.
pub(crate) fn evaluate_counted(answer: &Word, counts: &[u8; 26], guess: &Word) -> (outcome: GuessOutcome)
    requires
        forall|l: int| 0 <= l < 26 ==> counts[l] == occurrences(answer@, l, 5),
    ensures
        outcome@ == score(answer@, guess@),
{
    let ghost a = answer@;
    let ghost g = guess@;
    proof {
        use_type_invariant(answer);
        use_type_invariant(guess);
        answer.lemma_view();
        guess.lemma_view();
    }
    let mut result = [LetterOutcome::Absent;5];
    let mut used = [0u8;26];
    let mut i: usize = 0;
    // Exact matches claim their occurrences first.
    while i < 5
        invariant
            i <= 5,
            a == answer@,
            g == guess@,
            a.len() == 5,
            g.len() == 5,
            forall|l: int| 0 <= l < 26 ==> used[l] == hits(a, g, l, i as int),
            forall|l: int| 0 <= l < 26 ==> used[l] <= i,
            forall|j: int| 0 <= j < i ==> (result[j] == LetterOutcome::Correct <==> a[j] == g[j]),
            forall|j: int| 0 <= j < 5 ==> result[j] == LetterOutcome::Correct || result[j] == LetterOutcome::Absent,
            forall|j: int| i <= j < 5 ==> result[j] == LetterOutcome::Absent,
        decreases 5 - i,
    {
        let x = guess.letter(i).index();
        let y = answer.letter(i).index();
        if x == y {
            result[i] = LetterOutcome::Correct;
            used[x as usize] = used[x as usize] + 1;
        }
        i += 1;
    }
    // Misplaced letters claim what is left, from left to right.
    assert forall|l: int| 0 <= l < 26 implies hits(a, g, l, 5) <= occurrences(a, l, 5) by {
        lemma_hits_bound(a, g, l, 5);
    }
    let mut i: usize = 0;
    while i < 5
        invariant
            i <= 5,
            a == answer@,
            g == guess@,
            a.len() == 5,
            g.len() == 5,
            forall|l: int| 0 <= l < 26 ==> counts[l] == occurrences(a, l, 5),
            forall|l: int|
                0 <= l < 26 ==> used[l] == hits(a, g, l, 5) + claimed(
                    misses(a, g, l, i as int),
                    occurrences(a, l, 5) - hits(a, g, l, 5),
                ),
            forall|j: int| 0 <= j < i ==> result[j] == score_at(a, g, j),
            forall|j: int| i <= j < 5 ==> (result[j] == LetterOutcome::Correct <==> a[j] == g[j]),
        decreases 5 - i,
    {
        let x = guess.letter(i).index() as usize;
        proof {
            lemma_hits_bound(a, g, x as int, 5);
        }
        if result[i] != LetterOutcome::Correct {
            if counts[x] - used[x] == 0 {
                result[i] = LetterOutcome::Absent;
            } else {
                result[i] = LetterOutcome::Present;
                used[x] = used[x] + 1;
            }
        }
        proof {
            assert forall|l: int| 0 <= l < 26 implies used[l] == hits(a, g, l, 5) + claimed(
                misses(a, g, l, i as int + 1),
                occurrences(a, l, 5) - hits(a, g, l, 5),
            ) by {
                lemma_hits_bound(a, g, l, 5);
            }
        }
        i += 1;
    }
    assert(result@ =~= score(a, g));
    result
}

/// Scores `guess` against `answer`.
pub fn evaluate(answer: &Word, guess: &Word) -> (outcome: GuessOutcome)
    ensures
        outcome@ == score(answer@, guess@),
{
    let counts = letter_counts(answer);
    evaluate_counted(answer, &counts, guess)
}

/// Whether every position of `outcome` is `Correct`.
pub fn is_solved(outcome: &GuessOutcome) -> (r: bool)
    ensures
        r == solved(outcome@),
{
    let mut i: usize = 0;
    while i < 5
        invariant
            i <= 5,
            forall|j: int| 0 <= j < i ==> outcome[j] == LetterOutcome::Correct,
        decreases 5 - i,
    {
        if outcome[i] != LetterOutcome::Correct {
            return false;
        }
        i += 1;
    }
    true
}

/// A word scored against itself is `Correct` at every position.
pub proof fn law_self_score(a: Word)
    requires
        a.wf(),
    ensures
        solved(score(a@, a@)),
        score(a@, a@) == Seq::new(5, |i: int| LetterOutcome::Correct),
{
    assert(score(a@, a@) =~= Seq::new(5, |i: int| LetterOutcome::Correct));
}

/// For every letter, the positions of the guess that hold it and are scored `Correct` or
/// `Present` are no more than its occurrences in the answer.
pub proof fn law_credit_within_answer(a: Word, g: Word, l: int)
    requires
        a.wf(),
        g.wf(),
    ensures
        credited(a@, g@, l, 5) <= occurrences(a@, l, 5),
{
    lemma_credited(a@, g@, l, 5);
    lemma_hits_bound(a@, g@, l, 5);
}

} // verus!
