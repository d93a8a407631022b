//! Feedback sources: who scores the guesses of a game.

use crate::feedback::{evaluate_counted, letter_counts, score, GuessOutcome, LetterOutcome};
use crate::word::{occurrences, spellings, Word};
use vstd::prelude::*;
use vstd::string::StringSliceAdditionalSpecFns;
use vstd::utf8::encode_utf8;

verus! {

/// Why a feedback source refused a guess.
#[derive(Clone, Copy, Debug, PartialEq, Eq, Structural)]
pub enum Error {
    /// No further guesses are taken.
    GameOver,
    /// The word was guessed before in this game.
    AlreadyGuessed,
    /// The word is not in the dictionary.
    InvalidWord,
}

/// A feedback source: it takes guesses and scores them.
pub trait Server {
    /// Whether another guess would be taken.
    fn can_guess(&self) -> bool;

    /// Scores `guess`, or refuses it.
    fn submit(&mut self, guess: Word) -> Result<GuessOutcome, Error>;
}

/// What a feedback source that holds `answer` and `dictionary` and has taken `guesses`
/// so far replies to `guess`.
///
/// Refusals in order: the game is over after six guesses; a word is taken once; a word
/// must be in the dictionary.
pub open spec fn reply(
    answer: Seq<int>,
    dictionary: Seq<Seq<int>>,
    guesses: Seq<Seq<int>>,
    guess: Seq<int>,
) -> Result<Seq<LetterOutcome>, Error> {
    if guesses.len() >= 6 {
        Err(Error::GameOver)
    } else if guesses.contains(guess) {
        Err(Error::AlreadyGuessed)
    } else if !dictionary.contains(guess) {
        Err(Error::InvalidWord)
    } else {
        Ok(score(answer, guess))
    }
}

/// A feedback source that holds the answer and scores guesses against it.
#[derive(Debug)]
pub struct InMemoryServer {
    answer: Word,
    count_in_answer: [u8; 26],
    guess_index: usize,
    guesses: [Option<Word>; 6],
    dictionary: Vec<Word>,
}

impl InMemoryServer {
    /// The counts are those of the answer, and the first `guess_index` slots hold the
    /// guesses taken so far.
    #[verifier::type_invariant]
    pub closed spec fn wf(self) -> bool {
        &&& forall|l: int| 0 <= l < 26 ==> self.count_in_answer[l] == occurrences(self.answer@, l, 5)
        &&& self.guess_index <= 6
        &&& forall|i: int| 0 <= i < self.guess_index ==> (#[trigger] self.guesses[i]) is Some
        &&& self.guesses().no_duplicates()
        &&& forall|i: int|
            0 <= i < self.guess_index ==> self.dictionary().contains(#[trigger] self.guesses()[i])
    }

    /// The hidden answer.
    pub closed spec fn answer(self) -> Seq<int> {
        self.answer@
    }

    /// The words that may be guessed.
    pub closed spec fn dictionary(self) -> Seq<Seq<int>> {
        spellings(self.dictionary@)
    }

    /// The guesses taken so far, in order.
    pub closed spec fn guesses(self) -> Seq<Seq<int>> {
        Seq::new(self.guess_index as nat, |i: int| self.guesses[i]->0@)
    }

    /// At most six guesses were taken, all different and all from the dictionary.
    pub proof fn lemma_guesses(self)
        requires
            self.wf(),
        ensures
            self.guesses().len() <= 6,
            self.guesses().no_duplicates(),
            forall|i: int|
                0 <= i < self.guesses().len() ==> self.dictionary().contains(#[trigger] self.guesses()[i]),
    {
    }

    /// A feedback source for a new game with hidden `answer`, taking the words of
    /// `dictionary` as guesses.
    pub fn new(answer: Word, dictionary: Vec<Word>) -> (r: InMemoryServer)
        ensures
            r.wf(),
            r.answer() == answer@,
            r.dictionary() == spellings(dictionary@),
            r.guesses() == Seq::<Seq<int>>::empty(),
    {
        let count_in_answer = letter_counts(&answer);
        let r = InMemoryServer {
            answer,
            count_in_answer,
            guess_index: 0,
            guesses: [None;6],
            dictionary,
        };
        assert(r.guesses() =~= Seq::<Seq<int>>::empty());
        r
    }

    /// Whether `guess` is among the guesses taken so far.
    fn guessed(&self, guess: &Word) -> (r: bool)
        ensures
            r == self.guesses().contains(guess@),
    {
        proof {
            use_type_invariant(self);
        }
        let mut i: usize = 0;
        while i < self.guess_index
            invariant
                i <= self.guess_index <= 6,
                self.wf(),
                forall|j: int| 0 <= j < i ==> self.guesses()[j] != guess@,
            decreases self.guess_index - i,
        {
            match &self.guesses[i] {
                Some(w) => {
                    if *w == *guess {
                        assert(self.guesses()[i as int] == guess@);
                        return true;
                    }
                },
                None => {},
            }
            i += 1;
        }
        false
    }

    /// Whether `guess` is in the dictionary.
    fn listed(&self, guess: &Word) -> (r: bool)
        ensures
            r == self.dictionary().contains(guess@),
    {
        let n = self.dictionary.len();
        let mut i: usize = 0;
        while i < n
            invariant
                i <= n == self.dictionary@.len(),
                forall|j: int| 0 <= j < i ==> self.dictionary()[j] != guess@,
            decreases n - i,
        {
            if self.dictionary[i] == *guess {
                assert(self.dictionary()[i as int] == guess@);
                return true;
            }
            i += 1;
        }
        false
    }
}

impl Server for InMemoryServer {
    /// Whether fewer than six guesses were taken.
    fn can_guess(&self) -> (r: bool)
        ensures
            r == (self.guesses().len() < 6),
    {
        self.guess_index < 6
    }

    /// Scores `guess` against the answer and records it, unless the game is over, the
    /// word was guessed before, or the dictionary lacks it.
    fn submit(&mut self, guess: Word) -> (r: Result<GuessOutcome, Error>)
        ensures
            final(self).answer() == old(self).answer(),
            final(self).dictionary() == old(self).dictionary(),
            match reply(old(self).answer(), old(self).dictionary(), old(self).guesses(), guess@) {
                Ok(o) => r is Ok && r->Ok_0@ == o && final(self).guesses() == old(self).guesses().push(
                    guess@,
                ),
                Err(e) => r == Err::<GuessOutcome, Error>(e) && final(self).guesses() == old(
                    self,
                ).guesses(),
            },
    {
        proof {
            use_type_invariant(&*self);
            use_type_invariant(&guess);
        }
        if !self.can_guess() {
            return Err(Error::GameOver);
        }
        if self.guessed(&guess) {
            return Err(Error::AlreadyGuessed);
        }
        if !self.listed(&guess) {
            return Err(Error::InvalidWord);
        }
        let mut guesses = self.guesses;
        guesses[self.guess_index] = Some(guess);
        proof {
            let taken = self.guesses();
            let slot = InMemoryServer {
                answer: self.answer,
                count_in_answer: self.count_in_answer,
                guess_index: self.guess_index,
                guesses,
                dictionary: self.dictionary,
            };
            let next = InMemoryServer {
                answer: self.answer,
                count_in_answer: self.count_in_answer,
                guess_index: (self.guess_index + 1) as usize,
                guesses,
                dictionary: self.dictionary,
            };
            assert(slot.guesses() =~= taken);
            assert(next.guesses() =~= taken.push(guess@));
            assert(taken.push(guess@).no_duplicates());
        }
        self.guesses = guesses;
        self.guess_index += 1;
        Ok(evaluate_counted(&self.answer, &self.count_in_answer, &guess))
    }
}

/// Whether `c` has the Unicode property White_Space, by which `str::trim` tells what
/// to strip.
pub uninterp spec fn white_space(c: char) -> bool;

/// How many characters at the start of `s` are white space.
pub open spec fn leading_space(s: Seq<char>) -> nat
    decreases s.len(),
{
    if s.len() == 0 || !white_space(s[0]) {
        0
    } else {
        1 + leading_space(s.drop_first())
    }
}

/// How many characters at the end of `s` are white space.
pub open spec fn trailing_space(s: Seq<char>) -> nat
    decreases s.len(),
{
    if s.len() == 0 || !white_space(s.last()) {
        0
    } else {
        1 + trailing_space(s.drop_last())
    }
}

/// `s` without the white space at its start and at its end.
pub open spec fn trimmed(s: Seq<char>) -> Seq<char> {
    if leading_space(s) >= s.len() {
        Seq::empty()
    } else {
        s.subrange(leading_space(s) as int, s.len() - trailing_space(s))
    }
}

/// The score that a character of typed feedback stands for: `*` for `Correct`, `+` for
/// `Present`, `-` for `Absent`.
pub open spec fn mark_of(c: u8) -> Option<LetterOutcome> {
    if c == 42 {
        Some(LetterOutcome::Correct)
    } else if c == 43 {
        Some(LetterOutcome::Present)
    } else if c == 45 {
        Some(LetterOutcome::Absent)
    } else {
        None
    }
}

/// How the length of a line of typed feedback compares with the five scores it is to
/// hold.
#[derive(Clone, Copy, Debug, PartialEq, Eq, Structural)]
pub enum Length {
    Short,
    Exact,
    Long,
}

/// What a line of typed feedback says.
#[derive(Clone, Copy, Debug, PartialEq, Eq)]
pub enum Reading {
    /// The scores of the five positions.
    Outcome(GuessOutcome),
    /// The person ends the game.
    GameOver,
    /// No score: one of the first five characters is no score (`unrecognized`), or the
    /// line has not five characters (`length`). The person is to be asked again.
    Malformed { unrecognized: bool, length: Length },
}

/// How a line of `n` bytes compares with the five scores it is to hold.
pub open spec fn length_of(n: nat) -> Length {
    if n < 5 {
        Length::Short
    } else if n > 5 {
        Length::Long
    } else {
        Length::Exact
    }
}

/// Whether one of the first five bytes of `line` stands for no score.
pub open spec fn unrecognized(line: Seq<u8>) -> bool {
    exists|i: int| 0 <= i < line.len() && i < 5 && mark_of(#[trigger] line[i]) is None
}

/// What the bytes `line`, a line of typed feedback without the white space around it,
/// say: the game is over if a `!` is anywhere in it; else it is a score if it has five
/// bytes and each stands for a score; else it is malformed.
pub open spec fn read(line: Seq<u8>) -> Reading {
    if line.contains(33u8) {
        Reading::GameOver
    } else if unrecognized(line) || line.len() != 5 {
        Reading::Malformed { unrecognized: unrecognized(line), length: length_of(line.len()) }
    } else {
        Reading::Outcome(
            [
                mark_of(line[0])->0,
                mark_of(line[1])->0,
                mark_of(line[2])->0,
                mark_of(line[3])->0,
                mark_of(line[4])->0,
            ],
        )
    }
}

/// `s` without the white space at its start and at its end.
///
/// Calls `str::trim`. The contract claims what its documentation says: the result is
/// `s` with the leading and the trailing white space removed, so that it neither
/// starts nor ends with white space; white space is every character with the Unicode
/// property White_Space.
#[verifier::external_body]
fn trim<'a>(s: &'a str) -> (r: &'a str)
    ensures
        r@ == trimmed(s@),
        r@.len() > 0 ==> !white_space(r@.first()) && !white_space(r@.last()),
{
    s.trim()
}

/// Reads the bytes of a line of typed feedback, without the white space around it.
pub fn decode(line: &[u8]) -> (r: Reading)
    ensures
        r == read(line@),
{
    let n = line.len();
    let mut i: usize = 0;
    while i < n
        invariant
            i <= n == line@.len(),
            forall|j: int| 0 <= j < i ==> line@[j] != 33,
        decreases n - i,
    {
        if line[i] == 33 {
            return Reading::GameOver;
        }
        i += 1;
    }
    let mut outcome = [LetterOutcome::Absent;5];
    let mut strange = false;
    let mut i: usize = 0;
    while i < 5 && i < n
        invariant
            i <= 5,
            i <= n == line@.len(),
            strange <==> exists|j: int| 0 <= j < i && mark_of(#[trigger] line@[j]) is None,
            forall|j: int| 0 <= j < i && mark_of(line@[j]) is Some ==> outcome[j] == mark_of(line@[j])->0,
        decreases 5 - i,
    {
        let c = line[i];
        if c == 42 {
            outcome[i] = LetterOutcome::Correct;
        } else if c == 43 {
            outcome[i] = LetterOutcome::Present;
        } else if c == 45 {
            outcome[i] = LetterOutcome::Absent;
        } else {
            strange = true;
        }
        i += 1;
    }
    assert(strange == unrecognized(line@));
    if strange || n != 5 {
        let length = if n < 5 {
            Length::Short
        } else if n > 5 {
            Length::Long
        } else {
            Length::Exact
        };
        Reading::Malformed { unrecognized: strange, length }
    } else {
        assert(outcome =~= read(line@)->Outcome_0);
        Reading::Outcome(outcome)
    }
}

impl Reading {
    /// What the feedback source replies to the guess on this reading: the score, or
    /// that the game is over; `None` when the person is to be asked again.
    pub fn reply(self) -> (r: Option<Result<GuessOutcome, Error>>)
        ensures
            r == match self {
                Reading::Outcome(o) => Some(Ok::<GuessOutcome, Error>(o)),
                Reading::GameOver => Some(Err::<GuessOutcome, Error>(Error::GameOver)),
                Reading::Malformed { .. } => None,
            },
    {
        match self {
            Reading::Outcome(o) => Some(Ok(o)),
            Reading::GameOver => Some(Err(Error::GameOver)),
            Reading::Malformed { .. } => None,
        }
    }
}

/// A feedback source where a person scores the guesses, typing one line per guess.
///
/// It decides what a typed line says; showing the guess and reading the line are left
/// to the caller.
#[derive(Clone, Copy, Debug, Default)]
pub struct InteractiveServer;

impl InteractiveServer {
    /// Whether another guess would be taken: always.
    pub fn can_guess(&self) -> (r: bool)
        ensures
            r,
    {
        true
    }

    /// Reads a line of typed feedback: the white space around it is dropped, the rest
    /// is read byte by byte.
    pub fn interpret(&self, line: &str) -> (r: Reading)
        ensures
            r == read(encode_utf8(trimmed(line@))),
    {
        decode(trim(line).as_bytes())
    }
}

} // verus!
