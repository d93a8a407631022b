//! What the scores of earlier guesses say about each letter of the alphabet.
//!
//! The knowledge about the hidden answer is one [`LetterState`] per letter. A scored
//! guess is absorbed position by position, left to right; what one position teaches
//! about a letter depends only on that letter's own state, so the state of letter `l`
//! after a guess is a fold of [`taught`] over the five positions.

use crate::feedback::{GuessOutcome, LetterOutcome};
use crate::word::{occurrences, Word};
use vstd::array::spec_array_update;
use vstd::prelude::*;

verus! {

/// What is known about one letter at one position.
#[derive(Clone, Copy, Debug, PartialEq, Eq, Structural)]
pub enum PositionState {
    Yes,
    Maybe,
    No,
}

impl PositionState {
    /// The opposite claim: `Yes` for `No`, `No` for `Yes`, `Maybe` as it is.
    pub open spec fn flipped(self) -> PositionState {
        match self {
            PositionState::Yes => PositionState::No,
            PositionState::No => PositionState::Yes,
            PositionState::Maybe => PositionState::Maybe,
        }
    }

    /// The opposite claim: `Yes` for `No`, `No` for `Yes`, `Maybe` as it is.
    pub fn not(self) -> (r: PositionState)
        ensures
            r == self.flipped(),
    {
        match self {
            PositionState::Yes => PositionState::No,
            PositionState::No => PositionState::Yes,
            PositionState::Maybe => PositionState::Maybe,
        }
    }
}

impl Default for PositionState {
    fn default() -> (r: PositionState)
        ensures
            r == PositionState::Maybe,
    {
        PositionState::Maybe
    }
}

/// What is known about one letter of the alphabet.
#[derive(Clone, Copy, Debug, PartialEq, Eq)]
pub enum LetterState {
    /// Nothing yet.
    Unknown,
    /// The letter is in the answer; per position, `Yes` if it is there, `No` if it is
    /// not.
    Positions([PositionState; 5]),
    /// Only that some positions hold another letter; per position, `Yes` if the letter
    /// is shut out there.
    AntiPositions([PositionState; 5]),
    /// The letter is not in the answer.
    Absent,
}

/// The knowledge before any guess: nothing about any letter.
pub open spec fn blank_slate() -> Seq<LetterState> {
    Seq::new(26, |l: int| LetterState::Unknown)
}

/// Five positions that all say `p`.
pub open spec fn uniform(p: PositionState) -> [PositionState; 5] {
    [p, p, p, p, p]
}

/// `ps` with every claim flipped.
pub open spec fn inverted(ps: [PositionState; 5]) -> [PositionState; 5] {
    [ps[0].flipped(), ps[1].flipped(), ps[2].flipped(), ps[3].flipped(), ps[4].flipped()]
}

/// `ps` with position `i` set to `p`.
pub open spec fn marked(ps: [PositionState; 5], i: int, p: PositionState) -> [PositionState; 5] {
    spec_array_update(ps, i, p)
}

/// The state of a letter after position `i` of a guess, scored `o`, was absorbed into
/// state `st`. `own` says whether the guess holds this very letter at `i`.
///
/// A `Present` for a letter known to be absent contradicts what was learned; the state
/// then stays as it is (see [`contradiction`]).
pub open spec fn taught(st: LetterState, own: bool, o: LetterOutcome, i: int) -> LetterState {
    if own {
        match o {
            LetterOutcome::Absent => match st {
                LetterState::Positions(ps) => LetterState::Positions(marked(ps, i, PositionState::No)),
                _ => LetterState::Absent,
            },
            LetterOutcome::Present => match st {
                LetterState::Unknown => LetterState::Positions(
                    marked(uniform(PositionState::Maybe), i, PositionState::No),
                ),
                LetterState::Positions(ps) => LetterState::Positions(marked(ps, i, PositionState::No)),
                LetterState::AntiPositions(ps) => LetterState::Positions(
                    marked(inverted(ps), i, PositionState::No),
                ),
                LetterState::Absent => LetterState::Absent,
            },
            LetterOutcome::Correct => match st {
                LetterState::Unknown => LetterState::Positions(
                    marked(uniform(PositionState::Maybe), i, PositionState::Yes),
                ),
                LetterState::Positions(ps) => LetterState::Positions(marked(ps, i, PositionState::Yes)),
                LetterState::AntiPositions(ps) => LetterState::Positions(
                    marked(inverted(ps), i, PositionState::Yes),
                ),
                LetterState::Absent => LetterState::Positions(
                    marked(uniform(PositionState::No), i, PositionState::Yes),
                ),
            },
        }
    } else if o == LetterOutcome::Correct {
        match st {
            LetterState::Unknown => LetterState::AntiPositions(
                marked(uniform(PositionState::Maybe), i, PositionState::Yes),
            ),
            LetterState::AntiPositions(ps) => LetterState::AntiPositions(
                marked(ps, i, PositionState::Yes),
            ),
            LetterState::Positions(ps) => LetterState::Positions(marked(ps, i, PositionState::No)),
            LetterState::Absent => LetterState::Absent,
        }
    } else {
        st
    }
}

/// The state of letter `l` after the first `n` positions of guess `g`, scored `o`, were
/// absorbed into state `st`.
pub open spec fn learned(st: LetterState, l: int, g: Seq<int>, o: Seq<LetterOutcome>, n: int) -> LetterState
    decreases n,
{
    if n <= 0 {
        st
    } else {
        taught(learned(st, l, g, o, n - 1), g[n - 1] == l, o[n - 1], n - 1)
    }
}

/// The knowledge `k` after guess `g`, scored `o`, was absorbed.
pub open spec fn updated(k: Seq<LetterState>, g: Seq<int>, o: Seq<LetterOutcome>) -> Seq<LetterState> {
    Seq::new(26, |l: int| learned(k[l], l, g, o, 5))
}

/// Whether absorbing guess `g`, scored `o`, into knowledge `k` meets a `Present` for a
/// letter that is known to be absent when its position is reached.
pub open spec fn contradiction(k: Seq<LetterState>, g: Seq<int>, o: Seq<LetterOutcome>) -> bool {
    exists|i: int| 0 <= i < 5 && #[trigger] clash_at(k, g, o, i)
}

/// Whether position `i` is scored `Present` while its letter is known to be absent.
pub open spec fn clash_at(k: Seq<LetterState>, g: Seq<int>, o: Seq<LetterOutcome>, i: int) -> bool {
    o[i] == LetterOutcome::Present && learned(k[g[i]], g[i], g, o, i) == LetterState::Absent
}

/// Whether position `i` is scored `Absent` while its letter is known to be in the
/// answer: the answer then has fewer occurrences of the letter than the guess.
pub open spec fn capped_at(k: Seq<LetterState>, g: Seq<int>, o: Seq<LetterOutcome>, i: int) -> bool {
    o[i] == LetterOutcome::Absent && learned(k[g[i]], g[i], g, o, i) is Positions
}

/// Whether word `w` has, of every letter that guess `g`, scored `o`, caps, fewer
/// occurrences than the guess.
pub open spec fn within_caps(w: Seq<int>, k: Seq<LetterState>, g: Seq<int>, o: Seq<LetterOutcome>) -> bool {
    forall|i: int|
        0 <= i < 5 && #[trigger] capped_at(k, g, o, i) ==> occurrences(w, g[i], 5) < occurrences(
            g,
            g[i],
            5,
        )
}

/// Whether state `st` of a letter lets the letter stand at position `i`.
pub open spec fn allows(st: LetterState, i: int) -> bool {
    match st {
        LetterState::Absent => false,
        LetterState::Unknown => true,
        LetterState::Positions(ps) => ps[i] != PositionState::No,
        LetterState::AntiPositions(ps) => ps[i] != PositionState::Yes,
    }
}

/// Whether word `w` agrees with knowledge `k`: each of its letters may stand where it
/// stands, and every letter known to be in the answer is in `w`.
pub open spec fn consistent(w: Seq<int>, k: Seq<LetterState>) -> bool {
    &&& forall|i: int| 0 <= i < 5 ==> allows(#[trigger] k[w[i]], i)
    &&& forall|l: int| 0 <= l < 26 && #[trigger] k[l] is Positions ==> w.contains(l)
}

/// Five positions with every claim of `ps` flipped.
fn invert(ps: [PositionState; 5]) -> (r: [PositionState; 5])
    ensures
        r == inverted(ps),
{
    let r = [ps[0].not(), ps[1].not(), ps[2].not(), ps[3].not(), ps[4].not()];
    assert(r =~= inverted(ps));
    r
}

/// `ps` with position `i` set to `p`.
fn mark(ps: [PositionState; 5], i: usize, p: PositionState) -> (r: [PositionState; 5])
    requires
        i < 5,
    ensures
        r == marked(ps, i as int, p),
{
    let mut r = ps;
    r[i] = p;
    assert(r =~= marked(ps, i as int, p));
    r
}

/// Absorbs position `i` of a guess, scored `o`, into state `st` of one letter; `own`
/// says whether the guess holds this very letter at `i`.
pub fn teach(st: LetterState, own: bool, o: LetterOutcome, i: usize) -> (r: LetterState)
    requires
        i < 5,
    ensures
        r == taught(st, own, o, i as int),
{
    if own {
        match o {
            LetterOutcome::Absent => match st {
                LetterState::Positions(ps) => LetterState::Positions(mark(ps, i, PositionState::No)),
                _ => LetterState::Absent,
            },
            LetterOutcome::Present => match st {
                LetterState::Unknown => {
                    let ps = [PositionState::Maybe;5];
                    assert(ps =~= uniform(PositionState::Maybe));
                    LetterState::Positions(mark(ps, i, PositionState::No))
                },
                LetterState::Positions(ps) => LetterState::Positions(mark(ps, i, PositionState::No)),
                LetterState::AntiPositions(ps) => LetterState::Positions(
                    mark(invert(ps), i, PositionState::No),
                ),
                LetterState::Absent => LetterState::Absent,
            },
            LetterOutcome::Correct => match st {
                LetterState::Unknown => {
                    let ps = [PositionState::Maybe;5];
                    assert(ps =~= uniform(PositionState::Maybe));
                    LetterState::Positions(mark(ps, i, PositionState::Yes))
                },
                LetterState::Positions(ps) => LetterState::Positions(mark(ps, i, PositionState::Yes)),
                LetterState::AntiPositions(ps) => LetterState::Positions(
                    mark(invert(ps), i, PositionState::Yes),
                ),
                LetterState::Absent => {
                    let ps = [PositionState::No;5];
                    assert(ps =~= uniform(PositionState::No));
                    LetterState::Positions(mark(ps, i, PositionState::Yes))
                },
            },
        }
    } else {
        match o {
            LetterOutcome::Correct => match st {
                LetterState::Unknown => {
                    let ps = [PositionState::Maybe;5];
                    assert(ps =~= uniform(PositionState::Maybe));
                    LetterState::AntiPositions(mark(ps, i, PositionState::Yes))
                },
                LetterState::AntiPositions(ps) => LetterState::AntiPositions(
                    mark(ps, i, PositionState::Yes),
                ),
                LetterState::Positions(ps) => LetterState::Positions(mark(ps, i, PositionState::No)),
                LetterState::Absent => LetterState::Absent,
            },
            _ => st,
        }
    }
}

/// The state of the letter with index `l` once the first `n` positions of `guess`,
/// scored `outcome`, were absorbed into `st`.
pub fn foreseen(st: LetterState, l: u8, guess: &Word, outcome: &GuessOutcome, n: usize) -> (r: LetterState)
    requires
        n <= 5,
    ensures
        r == learned(st, l as int, guess@, outcome@, n as int),
{
    let mut r = st;
    let mut i: usize = 0;
    while i < n
        invariant
            i <= n <= 5,
            r == learned(st, l as int, guess@, outcome@, i as int),
        decreases n - i,
    {
        r = teach(r, guess.letter(i).index() == l, outcome[i], i);
        i += 1;
    }
    r
}

/// Whether `guess`, scored `outcome`, contradicts `state`: a letter is scored `Present`
/// where it is known to be absent.
pub fn contradicts(state: &[LetterState; 26], guess: &Word, outcome: &GuessOutcome) -> (r: bool)
    ensures
        r == contradiction(state@, guess@, outcome@),
{
    let mut i: usize = 0;
    while i < 5
        invariant
            i <= 5,
            forall|j: int| 0 <= j < i ==> !clash_at(state@, guess@, outcome@, j),
        decreases 5 - i,
    {
        if outcome[i] == LetterOutcome::Present {
            let l = guess.letter(i).index();
            match foreseen(state[l as usize], l, guess, outcome, i) {
                LetterState::Absent => {
                    assert(clash_at(state@, guess@, outcome@, i as int));
                    return true;
                },
                _ => {},
            }
        }
        i += 1;
    }
    false
}

/// Absorbs `guess`, scored `outcome`, into `state`, position by position from the left.
pub fn update(state: &mut [LetterState; 26], guess: &Word, outcome: &GuessOutcome)
    requires
        !contradiction(old(state)@, guess@, outcome@),
    ensures
        final(state)@ == updated(old(state)@, guess@, outcome@),
{
    let ghost k = state@;
    let ghost g = guess@;
    let ghost o = outcome@;
    proof {
        use_type_invariant(guess);
        guess.lemma_view();
    }
    let mut i: usize = 0;
    while i < 5
        invariant
            i <= 5,
            g == guess@,
            o == outcome@,
            k.len() == 26,
            g.len() == 5,
            forall|l: int| 0 <= l < 26 ==> state[l] == learned(k[l], l, g, o, i as int),
        decreases 5 - i,
    {
        let j = guess.letter(i).index() as usize;
        let here = outcome[i];
        let ghost before = state@;
        state[j] = teach(state[j], true, here, i);
        if here == LetterOutcome::Correct {
            let mut l: usize = 0;
            while l < 26
                invariant
                    l <= 26,
                    i < 5,
                    j < 26,
                    g == guess@,
                    o == outcome@,
                    o[i as int] == LetterOutcome::Correct,
                    k.len() == 26,
                    before.len() == 26,
                    g.len() == 5,
                    g[i as int] == j,
                    forall|m: int| 0 <= m < 26 ==> before[m] == learned(k[m], m, g, o, i as int),
                    forall|m: int| 0 <= m < l || m == j ==> state[m] == learned(k[m], m, g, o, i + 1),
                    forall|m: int| l <= m < 26 && m != j ==> state[m] == before[m],
                decreases 26 - l,
            {
                if l != j {
                    assert(state[l as int] == before[l as int]);
                    state[l] = teach(state[l], false, LetterOutcome::Correct, i);
                }
                l += 1;
            }
        }
        i += 1;
    }
    assert(state@ =~= updated(k, g, o));
}

/// Whether `word` agrees with `state`: each of its letters may stand where it stands,
/// and every letter known to be in the answer is in `word`.
pub fn satisfies(word: &Word, state: &[LetterState; 26]) -> (r: bool)
    ensures
        r == consistent(word@, state@),
{
    let mut i: usize = 0;
    while i < 5
        invariant
            i <= 5,
            forall|j: int| 0 <= j < i ==> allows(#[trigger] state@[word@[j]], j),
        decreases 5 - i,
    {
        let j = word.letter(i).index() as usize;
        let fits = match state[j] {
            LetterState::Absent => false,
            LetterState::Unknown => true,
            LetterState::Positions(ps) => ps[i] != PositionState::No,
            LetterState::AntiPositions(ps) => ps[i] != PositionState::Yes,
        };
        if !fits {
            assert(!allows(state@[word@[i as int]], i as int));
            return false;
        }
        i += 1;
    }
    let mut l: u8 = 0;
    while l < 26
        invariant
            l <= 26,
            forall|j: int| 0 <= j < 5 ==> allows(#[trigger] state@[word@[j]], j),
            forall|m: int| 0 <= m < l && #[trigger] state@[m] is Positions ==> word@.contains(m),
        decreases 26 - l,
    {
        match state[l as usize] {
            LetterState::Positions(_) => {
                if !has_index(word, l) {
                    return false;
                }
            },
            _ => {},
        }
        l += 1;
    }
    true
}

/// Whether `word` holds the letter with index `l`.
fn has_index(word: &Word, l: u8) -> (r: bool)
    ensures
        r == word@.contains(l as int),
{
    proof {
        use_type_invariant(word);
        word.lemma_view();
    }
    let mut i: usize = 0;
    while i < 5
        invariant
            i <= 5,
            word@.len() == 5,
            forall|j: int| 0 <= j < i ==> word@[j] != l,
        decreases 5 - i,
    {
        if word.letter(i).index() == l {
            return true;
        }
        i += 1;
    }
    false
}

/// How many times `word` holds the letter with index `l`.
fn count_index(word: &Word, l: u8) -> (r: u8)
    ensures
        r == occurrences(word@, l as int, 5),
        r <= 5,
{
    let mut n: u8 = 0;
    let mut i: usize = 0;
    while i < 5
        invariant
            i <= 5,
            n == occurrences(word@, l as int, i as int),
            n <= i,
        decreases 5 - i,
    {
        if word.letter(i).index() == l {
            n += 1;
        }
        i += 1;
    }
    n
}

/// Whether `word` has too many of some letter that `guess`, scored `outcome` against
/// knowledge `state`, caps: a letter scored `Absent` while known to be in the answer
/// occurs in the answer fewer times than in the guess.
pub fn exceeds(word: &Word, state: &[LetterState; 26], guess: &Word, outcome: &GuessOutcome) -> (r: bool)
    ensures
        r == !within_caps(word@, state@, guess@, outcome@),
{
    let mut i: usize = 0;
    while i < 5
        invariant
            i <= 5,
            forall|j: int|
                0 <= j < i && #[trigger] capped_at(state@, guess@, outcome@, j) ==> occurrences(
                    word@,
                    guess@[j],
                    5,
                ) < occurrences(guess@, guess@[j], 5),
        decreases 5 - i,
    {
        if outcome[i] == LetterOutcome::Absent {
            let l = guess.letter(i).index();
            match foreseen(state[l as usize], l, guess, outcome, i) {
                LetterState::Positions(_) => {
                    if count_index(word, l) >= count_index(guess, l) {
                        assert(capped_at(state@, guess@, outcome@, i as int));
                        return true;
                    }
                },
                _ => {},
            }
        }
        i += 1;
    }
    false
}

} // verus!
