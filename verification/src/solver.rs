//! The solver: it keeps the words that may still be the answer, picks guesses among
//! them and learns from their scores.

use crate::feedback::{is_solved, solved, GuessOutcome, LetterOutcome};
use crate::inference::{
    blank_slate, consistent, contradiction, contradicts, exceeds, satisfies, update, updated,
    within_caps, LetterState,
};
use crate::server;
use crate::server::Server;
use crate::word::{is_word, spellings, vowels_in, Word};
use rand::seq::IteratorRandom;
use vstd::prelude::*;

verus! {

/// Why a solver gave up on a guess.
#[derive(Clone, Copy, Debug, PartialEq, Eq, Structural)]
pub enum Error {
    /// No word agrees with everything that was learned.
    Stumped,
    /// The feedback source refused the guess.
    Server(server::Error),
}

impl From<server::Error> for Error {
    fn from(e: server::Error) -> (r: Error) {
        Error::Server(e)
    }
}

impl vstd::std_specs::convert::FromSpecImpl<server::Error> for Error {
    open spec fn obeys_from_spec() -> bool {
        true
    }

    open spec fn from_spec(e: server::Error) -> Error {
        Error::Server(e)
    }
}

/// The words of `words` in order, each at its first occurrence only.
pub open spec fn distinct(words: Seq<Seq<int>>) -> Seq<Seq<int>>
    decreases words.len(),
{
    if words.len() == 0 {
        words
    } else {
        let before = distinct(words.drop_last());
        if before.contains(words.last()) {
            before
        } else {
            before.push(words.last())
        }
    }
}

/// Whether word `w` stays a candidate once guess `g`, scored `o`, was absorbed into
/// knowledge `k`: it agrees with the new knowledge and has, of every letter that the
/// score caps, fewer than the guess.
pub open spec fn keeps(w: Seq<int>, k: Seq<LetterState>, g: Seq<int>, o: Seq<LetterOutcome>) -> bool {
    consistent(w, updated(k, g, o)) && within_caps(w, k, g, o)
}

/// The candidates of `pool` that stay once guess `g`, scored `o`, was absorbed into
/// knowledge `k`, in their order.
pub open spec fn pruned(
    pool: Seq<Seq<int>>,
    k: Seq<LetterState>,
    g: Seq<int>,
    o: Seq<LetterOutcome>,
) -> Seq<Seq<int>> {
    pool.filter(|w: Seq<int>| keeps(w, k, g, o))
}

/// A sequence holds what its front holds, and its last item.
proof fn lemma_contains_last(s: Seq<Seq<int>>, w: Seq<int>)
    requires
        s.len() > 0,
    ensures
        s.contains(w) <==> s.drop_last().contains(w) || s.last() == w,
{
    let front = s.drop_last();
    if s.contains(w) {
        let i = choose|i: int| 0 <= i < s.len() && s[i] == w;
        if i < s.len() - 1 {
            assert(front[i] == w);
        }
    }
    if front.contains(w) {
        let i = choose|i: int| 0 <= i < front.len() && front[i] == w;
        assert(s[i] == w);
    }
    if s.last() == w {
        assert(s[s.len() - 1] == w);
    }
}

/// `distinct` holds no word twice, and holds exactly the words it was given.
pub proof fn lemma_distinct(words: Seq<Seq<int>>)
    ensures
        distinct(words).no_duplicates(),
        forall|w: Seq<int>| distinct(words).contains(w) <==> words.contains(w),
    decreases words.len(),
{
    if words.len() > 0 {
        let front = words.drop_last();
        let d = distinct(front);
        lemma_distinct(front);
        assert forall|w: Seq<int>| distinct(words).contains(w) <==> words.contains(w) by {
            lemma_contains_last(words, w);
            if !d.contains(words.last()) {
                assert(d.push(words.last()).drop_last() =~= d);
                lemma_contains_last(d.push(words.last()), w);
            }
        }
    }
}

/// How the next guess is picked among the candidates.
#[derive(Clone, Copy, Debug, PartialEq, Eq, Structural)]
pub enum Policy {
    /// Any candidate, drawn at random.
    Random,
    /// The candidate with the most distinct vowels; among several, the last.
    Vowels,
}

/// The position in `pool` of the word with the most distinct vowels; among several, the
/// last: where a pool sorted by rising number of distinct vowels ends.
pub open spec fn richest(pool: Seq<Seq<int>>) -> int
    decreases pool.len(),
{
    if pool.len() <= 1 {
        0
    } else {
        let r = richest(pool.drop_last());
        if vowels_in(pool.last()) >= vowels_in(pool[r]) {
            pool.len() - 1
        } else {
            r
        }
    }
}

/// `richest` is a position of the pool; no word has more distinct vowels than the word
/// there, and every later word has fewer.
pub proof fn lemma_richest(pool: Seq<Seq<int>>)
    requires
        pool.len() > 0,
    ensures
        0 <= richest(pool) < pool.len(),
        forall|j: int| 0 <= j < pool.len() ==> vowels_in(#[trigger] pool[j]) <= vowels_in(pool[richest(pool)]),
        forall|j: int|
            richest(pool) < j < pool.len() ==> vowels_in(#[trigger] pool[j]) < vowels_in(
                pool[richest(pool)],
            ),
    decreases pool.len(),
{
    if pool.len() > 1 {
        let front = pool.drop_last();
        lemma_richest(front);
        assert forall|j: int| 0 <= j < pool.len() implies vowels_in(#[trigger] pool[j]) <= vowels_in(
            pool[richest(pool)],
        ) by {
            if j < front.len() {
                assert(front[j] == pool[j]);
            }
        }
        assert forall|j: int| richest(pool) < j < pool.len() implies vowels_in(#[trigger] pool[j])
            < vowels_in(pool[richest(pool)]) by {
            if j < front.len() {
                assert(front[j] == pool[j]);
            }
        }
    }
}

/// A solver of one game.
#[derive(Debug)]
pub struct Solver {
    letters_state: [LetterState; 26],
    dictionary: Vec<Word>,
}

/// Draws a position below `len`.
///
/// Calls `rand::seq::IteratorRandom::choose` on the range `0..len` with the generator
/// of `rand::thread_rng`. The contract claims what the documentation of `choose`
/// promises of every draw: `None` exactly for the empty range, else one of its items.
/// Which one is not stated, and two draws may differ. `thread_rng` panics if the
/// system gives it no seed; nothing handed to this function decides that.
#[verifier::external_body]
fn choose_index(len: usize) -> (r: Option<usize>)
    ensures
        r is None <==> len == 0,
        r matches Some(i) ==> i < len,
{
    (0..len).choose(&mut rand::thread_rng())
}

impl Solver {
    /// No candidate occurs twice, and every candidate agrees with the knowledge.
    #[verifier::type_invariant]
    pub closed spec fn wf(self) -> bool {
        &&& spellings(self.dictionary@).no_duplicates()
        &&& forall|i: int| 0 <= i < self.dictionary@.len() ==> is_word(#[trigger] spellings(self.dictionary@)[i])
        &&& forall|i: int|
            0 <= i < self.dictionary@.len() ==> consistent(
                #[trigger] spellings(self.dictionary@)[i],
                self.letters_state@,
            )
    }

    /// What is known about each letter of the alphabet.
    pub closed spec fn knowledge(self) -> Seq<LetterState> {
        self.letters_state@
    }

    /// The words that may still be the answer, in order.
    pub closed spec fn candidates(self) -> Seq<Seq<int>> {
        spellings(self.dictionary@)
    }

    /// The candidates of a solver are all different and agree with what it knows.
    pub proof fn lemma_candidates(self)
        requires
            self.wf(),
        ensures
            self.knowledge().len() == 26,
            self.candidates().no_duplicates(),
            forall|i: int| 0 <= i < self.candidates().len() ==> is_word(#[trigger] self.candidates()[i]),
            forall|i: int|
                0 <= i < self.candidates().len() ==> consistent(
                    #[trigger] self.candidates()[i],
                    self.knowledge(),
                ),
    {
    }

    /// A solver that knows nothing yet and takes every word of `dictionary` for a
    /// candidate; a word listed more than once counts once.
    pub fn new(dictionary: Vec<Word>) -> (r: Solver)
        ensures
            r.wf(),
            r.knowledge() == blank_slate(),
            r.candidates() == distinct(spellings(dictionary@)),
    {
        let letters_state = [LetterState::Unknown;26];
        assert(letters_state@ =~= blank_slate());
        let mut pool: Vec<Word> = Vec::new();
        let n = dictionary.len();
        let mut i: usize = 0;
        assert(spellings(dictionary@).take(0) =~= Seq::<Seq<int>>::empty());
        while i < n
            invariant
                i <= n == dictionary@.len(),
                spellings(pool@) == distinct(spellings(dictionary@).take(i as int)),
                forall|j: int| 0 <= j < pool@.len() ==> is_word(#[trigger] spellings(pool@)[j]),
            decreases n - i,
        {
            let word = dictionary[i];
            proof {
                use_type_invariant(&word);
                word.lemma_view();
            }
            let ghost front = spellings(dictionary@).take(i as int);
            assert(spellings(dictionary@).take(i + 1).drop_last() =~= front);
            assert(spellings(dictionary@).take(i + 1).last() == word@);
            if !holds_word(&pool, &word) {
                pool.push(word);
                assert(spellings(pool@) =~= distinct(front).push(word@));
            }
            i += 1;
        }
        assert(spellings(dictionary@).take(n as int) =~= spellings(dictionary@));
        proof {
            lemma_distinct(spellings(dictionary@));
            assert forall|j: int| 0 <= j < pool@.len() implies consistent(
                #[trigger] spellings(pool@)[j],
                letters_state@,
            ) by {}
        }
        Solver { letters_state, dictionary: pool }
    }

    /// The words that may still be the answer, in order.
    pub fn words(&self) -> (r: &Vec<Word>)
        ensures
            spellings(r@) == self.candidates(),
    {
        &self.dictionary
    }

    /// What is known about each letter of the alphabet, `a` first.
    pub fn states(&self) -> (r: &[LetterState; 26])
        ensures
            r@ == self.knowledge(),
    {
        &self.letters_state
    }

    /// Takes a candidate out of the pool for the next guess, picked as `policy` says;
    /// fails with `Stumped` when no candidate is left.
    pub fn next_guess(&mut self, policy: Policy) -> (r: Result<Word, Error>)
        ensures
            final(self).knowledge() == old(self).knowledge(),
            old(self).candidates().len() == 0 ==> r == Err::<Word, Error>(Error::Stumped) && final(self).candidates()
                == old(self).candidates(),
            old(self).candidates().len() > 0 ==> r is Ok && exists|i: int|
                0 <= i < old(self).candidates().len() && old(self).picks(policy, i) && r->Ok_0@ == old(
                    self,
                ).candidates()[i] && final(self).candidates() == old(self).candidates().remove(i),
    {
        let pick = match policy {
            Policy::Random => choose_index(self.dictionary.len()),
            Policy::Vowels => self.richest_index(),
        };
        match pick {
            None => Err(Error::Stumped),
            Some(i) => {
                assert(old(self).picks(policy, i as int));
                Ok(self.take(i))
            },
        }
    }

    /// Whether `policy` may pick the candidate at position `i`.
    pub open spec fn picks(self, policy: Policy, i: int) -> bool {
        may_pick(policy, self.candidates(), i)
    }

    /// The position of the candidate with the most distinct vowels, the last among
    /// several; `None` when no candidate is left.
    fn richest_index(&self) -> (r: Option<usize>)
        ensures
            r is None <==> self.candidates().len() == 0,
            r matches Some(i) ==> i < self.candidates().len() && i == richest(self.candidates()),
    {
        let n = self.dictionary.len();
        if n == 0 {
            return None;
        }
        let ghost pool = spellings(self.dictionary@);
        let mut best: usize = 0;
        let mut most = self.dictionary[0].distinct_vowels();
        let mut i: usize = 1;
        assert(pool.take(1).len() == 1);
        while i < n
            invariant
                1 <= i <= n == self.dictionary@.len(),
                pool == spellings(self.dictionary@),
                best < i,
                best == richest(pool.take(i as int)),
                most == vowels_in(pool[best as int]),
            decreases n - i,
        {
            let v = self.dictionary[i].distinct_vowels();
            proof {
                assert(pool.take(i + 1).drop_last() =~= pool.take(i as int));
                assert(pool.take(i + 1).last() == pool[i as int]);
                assert(pool.take(i + 1)[best as int] == pool[best as int]);
            }
            if v >= most {
                best = i;
                most = v;
            }
            i += 1;
        }
        assert(pool.take(n as int) =~= pool);
        Some(best)
    }

    /// Takes the candidate at position `i` out of the pool.
    fn take(&mut self, i: usize) -> (w: Word)
        requires
            i < old(self).candidates().len(),
        ensures
            w@ == old(self).candidates()[i as int],
            final(self).knowledge() == old(self).knowledge(),
            final(self).candidates() == old(self).candidates().remove(i as int),
    {
        proof {
            use_type_invariant(&*self);
            lemma_remove(self.dictionary@, i as int);
        }
        let mut pool: Vec<Word> = Vec::new();
        core::mem::swap(&mut self.dictionary, &mut pool);
        let w = pool.remove(i);
        self.dictionary = pool;
        w
    }

    /// Absorbs `guess`, scored `outcome`: updates the knowledge and drops every
    /// candidate that no longer agrees with it, or that has too many of a letter that
    /// the score caps.
    ///
    /// Fails with `Stumped`, and with no candidate left, when the score contradicts the
    /// knowledge; the knowledge then stays as it was. Fails with `Stumped` too when no
    /// candidate stays although the guess was not the answer.
    pub fn learn(&mut self, guess: &Word, outcome: &GuessOutcome) -> (r: Result<(), Error>)
        ensures
            contradiction(old(self).knowledge(), guess@, outcome@) ==> {
                &&& r == Err::<(), Error>(Error::Stumped)
                &&& final(self).knowledge() == old(self).knowledge()
                &&& final(self).candidates() == Seq::<Seq<int>>::empty()
            },
            !contradiction(old(self).knowledge(), guess@, outcome@) ==> {
                &&& final(self).knowledge() == updated(old(self).knowledge(), guess@, outcome@)
                &&& final(self).candidates() == pruned(
                    old(self).candidates(),
                    old(self).knowledge(),
                    guess@,
                    outcome@,
                )
                &&& r == if final(self).candidates().len() == 0 && !solved(outcome@) {
                    Err::<(), Error>(Error::Stumped)
                } else {
                    Ok::<(), Error>(())
                }
            },
    {
        proof {
            use_type_invariant(&*self);
        }
        let before = self.letters_state;
        if contradicts(&before, guess, outcome) {
            self.dictionary = Vec::new();
            assert(spellings(self.dictionary@) =~= Seq::<Seq<int>>::empty());
            return Err(Error::Stumped);
        }
        let mut after = before;
        update(&mut after, guess, outcome);
        let ghost pool = spellings(self.dictionary@);
        let ghost keep = |w: Seq<int>| keeps(w, before@, guess@, outcome@);
        let mut kept: Vec<Word> = Vec::new();
        let n = self.dictionary.len();
        let mut i: usize = 0;
        assert(pool.take(0) =~= Seq::<Seq<int>>::empty());
        proof {
            reveal(Seq::filter);
        }
        assert(Seq::<Seq<int>>::empty().filter(keep) =~= Seq::<Seq<int>>::empty());
        while i < n
            invariant
                i <= n == self.dictionary@.len(),
                pool == spellings(self.dictionary@),
                keep == |w: Seq<int>| keeps(w, before@, guess@, outcome@),
                after@ == updated(before@, guess@, outcome@),
                spellings(kept@) == pool.take(i as int).filter(keep),
            decreases n - i,
        {
            let word = self.dictionary[i];
            proof {
                pool.take(i as int).lemma_filter_push(word@, keep);
                assert(pool.take(i as int).push(word@) =~= pool.take(i + 1));
            }
            if satisfies(&word, &after) && !exceeds(&word, &before, guess, outcome) {
                kept.push(word);
                assert(spellings(kept@) =~= pool.take(i as int).filter(keep).push(word@));
            }
            i += 1;
        }
        assert(pool.take(n as int) =~= pool);
        proof {
            lemma_filtered(pool, keep);
        }
        let stumped = kept.len() == 0 && !is_solved(outcome);
        *self = Solver { letters_state: after, dictionary: kept };
        if stumped {
            Err(Error::Stumped)
        } else {
            Ok(())
        }
    }

    /// Absorbs what a feedback source replied to `guess`: a refusal is handed on, a score
    /// is learned from.
    pub fn absorb(&mut self, guess: Word, reply: Result<GuessOutcome, server::Error>) -> (r: Result<
        (Word, GuessOutcome),
        Error,
    >)
        ensures
            final(self).knowledge() == absorbed(old(self).knowledge(), old(self).candidates(), guess@, view_reply(reply)).0,
            final(self).candidates() == absorbed(old(self).knowledge(), old(self).candidates(), guess@, view_reply(reply)).1,
            match absorbed(old(self).knowledge(), old(self).candidates(), guess@, view_reply(reply)).2 {
                Ok(o) => r is Ok && r->Ok_0.0 == guess && r->Ok_0.1@ == o,
                Err(e) => r is Err && r->Err_0 == e,
            },
    {
        match reply {
            Err(e) => Err(Error::from(e)),
            Ok(outcome) => match self.learn(&guess, &outcome) {
                Ok(()) => Ok((guess, outcome)),
                Err(e) => Err(e),
            },
        }
    }

    /// Whether a round that takes the candidate at position `i` for its guess and gets
    /// `reply` to it turns this solver into `next` and returns `r`.
    pub open spec fn plays(
        self,
        i: int,
        reply: Result<Seq<LetterOutcome>, server::Error>,
        next: Solver,
        r: Result<(Word, GuessOutcome), Error>,
    ) -> bool {
        let round = absorbed(self.knowledge(), self.candidates().remove(i), self.candidates()[i], reply);
        &&& 0 <= i < self.candidates().len()
        &&& next.knowledge() == round.0
        &&& next.candidates() == round.1
        &&& match round.2 {
            Ok(o) => r is Ok && r->Ok_0.0@ == self.candidates()[i] && r->Ok_0.1@ == o,
            Err(e) => r is Err && r->Err_0 == e,
        }
    }

    /// Plays one round: takes a candidate out of the pool as `policy` says, submits it
    /// to `server` and absorbs the reply.
    ///
    /// With no candidate left it fails with `Stumped` and submits nothing. Else the
    /// round goes as [`Solver::plays`] says of a candidate that the policy may pick and
    /// of some reply.
    pub fn guess_with<S: Server>(&mut self, server: &mut S, policy: Policy) -> (r: Result<
        (Word, GuessOutcome),
        Error,
    >)
        ensures
            old(self).candidates().len() == 0 ==> {
                &&& r == Err::<(Word, GuessOutcome), Error>(Error::Stumped)
                &&& final(self).knowledge() == old(self).knowledge()
                &&& final(self).candidates() == old(self).candidates()
                &&& *final(server) == *old(server)
            },
            old(self).candidates().len() > 0 ==> exists|
                i: int,
                reply: Result<Seq<LetterOutcome>, server::Error>,
            |
                old(self).picks(policy, i) && #[trigger] old(self).plays(i, reply, *final(self), r),
            old(self).candidates().len() > 0 ==> final(self).candidates().len() < old(self).candidates().len(),
            forall|w: Seq<int>| final(self).candidates().contains(w) ==> old(self).candidates().contains(w),
            r matches Ok(round) ==> old(self).candidates().contains(round.0@) && !final(self).candidates().contains(
                round.0@,
            ),
    {
        proof {
            use_type_invariant(&*self);
        }
        let guess = match self.next_guess(policy) {
            Ok(w) => w,
            Err(e) => {
                return Err(e);
            },
        };
        let ghost i = choose|i: int|
            0 <= i < old(self).candidates().len() && old(self).picks(policy, i) && guess@ == old(
                self,
            ).candidates()[i] && self.candidates() == old(self).candidates().remove(i);
        let reply = server.submit(guess);
        let r = self.absorb(guess, reply);
        proof {
            assert(old(self).plays(i, view_reply(reply), *self, r));
            law_round_shrinks_pool(*old(self), i, view_reply(reply), *self, r);
        }
        r
    }

    /// Plays one round with a guess drawn at random among the candidates: see
    /// [`Solver::guess_with`].
    pub fn guess<S: Server>(&mut self, server: &mut S) -> (r: Result<(Word, GuessOutcome), Error>)
        ensures
            old(self).candidates().len() == 0 ==> {
                &&& r == Err::<(Word, GuessOutcome), Error>(Error::Stumped)
                &&& final(self).knowledge() == old(self).knowledge()
                &&& final(self).candidates() == old(self).candidates()
                &&& *final(server) == *old(server)
            },
            old(self).candidates().len() > 0 ==> exists|
                i: int,
                reply: Result<Seq<LetterOutcome>, server::Error>,
            | #[trigger] old(self).plays(i, reply, *final(self), r),
            old(self).candidates().len() > 0 ==> final(self).candidates().len() < old(self).candidates().len(),
            forall|w: Seq<int>| final(self).candidates().contains(w) ==> old(self).candidates().contains(w),
            r matches Ok(round) ==> old(self).candidates().contains(round.0@) && !final(self).candidates().contains(
                round.0@,
            ),
    {
        self.guess_with(server, Policy::Random)
    }

    /// Plays rounds until a guess is scored all `Correct`, and returns that guess.
    ///
    /// Before each round `server` is asked whether it takes another guess; if not, the
    /// run fails with `GameOver`. A round that fails ends the run with its failure:
    /// the refusal of `server`, or `Stumped` when the candidates have run out. So the
    /// run is some rounds that were scored short of all `Correct` ([`progress`]), and
    /// then an end ([`stops`]). Candidates only ever leave the pool.
    pub fn solve<S: Server>(&mut self, server: &mut S, policy: Policy) -> (r: Result<Word, Error>)
        ensures
            exists|trace: Seq<(int, Result<Seq<LetterOutcome>, server::Error>)>|
                {
                    let reached = #[trigger] progress(
                        old(self).knowledge(),
                        old(self).candidates(),
                        policy,
                        trace,
                    );
                    reached matches Some(at) && stops(
                        at.0,
                        at.1,
                        policy,
                        final(self).knowledge(),
                        final(self).candidates(),
                        view_found(r),
                    )
                },
            r matches Ok(w) ==> old(self).candidates().contains(w@),
            r == Err::<Word, Error>(Error::Stumped) ==> final(self).candidates().len() == 0,
            forall|w: Seq<int>| final(self).candidates().contains(w) ==> old(self).candidates().contains(w),
    {
        let ghost k0 = self.knowledge();
        let ghost pool0 = self.candidates();
        let ghost mut done: Seq<(int, Result<Seq<LetterOutcome>, server::Error>)> = Seq::empty();
        loop
            invariant
                k0 == old(self).knowledge(),
                pool0 == old(self).candidates(),
                progress(k0, pool0, policy, done) == Some((self.knowledge(), self.candidates())),
                forall|w: Seq<int>| self.candidates().contains(w) ==> pool0.contains(w),
            decreases self.candidates().len(),
        {
            let ghost before = *self;
            if !server.can_guess() {
                let r = Err(Error::Server(server::Error::GameOver));
                assert(stops(
                    before.knowledge(),
                    before.candidates(),
                    policy,
                    self.knowledge(),
                    self.candidates(),
                    view_found(r),
                ));
                return r;
            }
            match self.guess_with(server, policy) {
                Err(e) => {
                    proof {
                        lemma_round_stops(before, policy, *self, Err(e));
                    }
                    return Err(e);
                },
                Ok((guess, outcome)) => {
                    if is_solved(&outcome) {
                        proof {
                            lemma_round_stops(before, policy, *self, Ok((guess, outcome)));
                        }
                        return Ok(guess);
                    }
                    proof {
                        let (i, reply) = choose|
                            i: int,
                            reply: Result<Seq<LetterOutcome>, server::Error>,
                        |
                            before.picks(policy, i) && #[trigger] before.plays(
                                i,
                                reply,
                                *self,
                                Ok((guess, outcome)),
                            );
                        assert(done.push((i, reply)).drop_last() =~= done);
                        done = done.push((i, reply));
                    }
                },
            }
        }
    }
}

/// What a run returns, the word it found taken by its view.
pub open spec fn view_found(r: Result<Word, Error>) -> Result<Seq<int>, Error> {
    match r {
        Ok(w) => Ok(w@),
        Err(e) => Err(e),
    }
}

/// Whether `policy` may pick position `i` of `pool`.
pub open spec fn may_pick(policy: Policy, pool: Seq<Seq<int>>, i: int) -> bool {
    &&& 0 <= i < pool.len()
    &&& policy == Policy::Vowels ==> i == richest(pool)
}

/// The knowledge and the candidates after the rounds of `trace` were played from
/// knowledge `k` and candidates `pool`: each round takes the candidate at its position,
/// which `policy` may pick, and is scored as its reply says, short of all `Correct`.
/// `None` if a round of `trace` is no such round.
pub open spec fn progress(
    k: Seq<LetterState>,
    pool: Seq<Seq<int>>,
    policy: Policy,
    trace: Seq<(int, Result<Seq<LetterOutcome>, server::Error>)>,
) -> Option<(Seq<LetterState>, Seq<Seq<int>>)>
    decreases trace.len(),
{
    if trace.len() == 0 {
        Some((k, pool))
    } else {
        match progress(k, pool, policy, trace.drop_last()) {
            None => None,
            Some(at) => {
                let (i, reply) = trace.last();
                let round = absorbed(at.0, at.1.remove(i), at.1[i], reply);
                if may_pick(policy, at.1, i) && round.2 is Ok && !solved(round.2->Ok_0) {
                    Some((round.0, round.1))
                } else {
                    None
                }
            },
        }
    }
}

/// Whether a run that has come to knowledge `k` and candidates `pool` may end there
/// with knowledge `k2`, candidates `pool2` and result `r`.
///
/// It ends without a round when the feedback source takes no further guess, or when no
/// candidate is left. Else it ends with a round that fails, or that is scored all
/// `Correct`.
pub open spec fn stops(
    k: Seq<LetterState>,
    pool: Seq<Seq<int>>,
    policy: Policy,
    k2: Seq<LetterState>,
    pool2: Seq<Seq<int>>,
    r: Result<Seq<int>, Error>,
) -> bool {
    ||| k2 == k && pool2 == pool && r == Err::<Seq<int>, Error>(Error::Server(server::Error::GameOver))
    ||| k2 == k && pool2 == pool && pool.len() == 0 && r == Err::<Seq<int>, Error>(Error::Stumped)
    ||| exists|i: int, reply: Result<Seq<LetterOutcome>, server::Error>|
        may_pick(policy, pool, i) && #[trigger] ends_with(k, pool, i, reply, k2, pool2, r)
}

/// Whether the round that takes the candidate at position `i` and gets `reply` ends a
/// run at knowledge `k` and candidates `pool` with `k2`, `pool2` and `r`: it fails, or
/// it is scored all `Correct`.
pub open spec fn ends_with(
    k: Seq<LetterState>,
    pool: Seq<Seq<int>>,
    i: int,
    reply: Result<Seq<LetterOutcome>, server::Error>,
    k2: Seq<LetterState>,
    pool2: Seq<Seq<int>>,
    r: Result<Seq<int>, Error>,
) -> bool {
    let round = absorbed(k, pool.remove(i), pool[i], reply);
    &&& k2 == round.0
    &&& pool2 == round.1
    &&& match round.2 {
        Err(e) => r == Err::<Seq<int>, Error>(e),
        Ok(o) => solved(o) && r == Ok::<Seq<int>, Error>(pool[i]),
    }
}

/// A round that fails, or that is scored all `Correct`, is an end of a run.
proof fn lemma_round_stops(
    before: Solver,
    policy: Policy,
    after: Solver,
    r: Result<(Word, GuessOutcome), Error>,
)
    requires
        before.candidates().len() == 0 ==> r == Err::<(Word, GuessOutcome), Error>(Error::Stumped)
            && after.candidates() == before.candidates() && after.knowledge() == before.knowledge(),
        before.candidates().len() > 0 ==> exists|
            i: int,
            reply: Result<Seq<LetterOutcome>, server::Error>,
        |
            before.picks(policy, i) && #[trigger] before.plays(i, reply, after, r),
        r matches Ok(round) ==> solved(round.1@),
    ensures
        stops(
            before.knowledge(),
            before.candidates(),
            policy,
            after.knowledge(),
            after.candidates(),
            match r {
                Ok(round) => Ok(round.0@),
                Err(e) => Err(e),
            },
        ),
{
    if before.candidates().len() > 0 {
        let (i, reply) = choose|i: int, reply: Result<Seq<LetterOutcome>, server::Error>|
            before.picks(policy, i) && #[trigger] before.plays(i, reply, after, r);
        let found: Result<Seq<int>, Error> = match r {
            Ok(round) => Ok(round.0@),
            Err(e) => Err(e),
        };
        assert(ends_with(
            before.knowledge(),
            before.candidates(),
            i,
            reply,
            after.knowledge(),
            after.candidates(),
            found,
        ));
    }
}

/// A round only takes candidates out of the pool, its guess among them: no word joins
/// the candidates, the guess was one and is none any more, and the candidates are
/// fewer than before. A round that fails with `Stumped` leaves none.
pub proof fn law_round_shrinks_pool(
    before: Solver,
    i: int,
    reply: Result<Seq<LetterOutcome>, server::Error>,
    after: Solver,
    r: Result<(Word, GuessOutcome), Error>,
)
    requires
        before.wf(),
        before.plays(i, reply, after, r),
    ensures
        forall|w: Seq<int>| after.candidates().contains(w) ==> before.candidates().contains(w),
        !after.candidates().contains(before.candidates()[i]),
        after.candidates().len() < before.candidates().len(),
        r matches Ok(round) ==> round.0@ == before.candidates()[i],
        r == Err::<(Word, GuessOutcome), Error>(Error::Stumped) ==> after.candidates().len() == 0,
{
    before.lemma_candidates();
    let pool = before.candidates();
    let rest = pool.remove(i);
    let g = pool[i];
    assert forall|w: Seq<int>| rest.contains(w) implies pool.contains(w) && w != g by {
        let j = choose|j: int| 0 <= j < rest.len() && rest[j] == w;
        assert(pool[if j < i { j } else { j + 1 }] == w);
    }
    match reply {
        Ok(o) => {
            if !contradiction(before.knowledge(), g, o) {
                let keep = |w: Seq<int>| keeps(w, before.knowledge(), g, o);
                rest.lemma_filter_len(keep);
                assert forall|w: Seq<int>| after.candidates().contains(w) implies rest.contains(w) by {
                    rest.lemma_filter_contains_rev(keep, w);
                }
            }
        },
        Err(e) => {},
    }
    assert(!rest.contains(g));
}

/// The reply of a feedback source, its score taken by its view.
pub open spec fn view_reply(reply: Result<GuessOutcome, server::Error>) -> Result<
    Seq<LetterOutcome>,
    server::Error,
> {
    match reply {
        Ok(o) => Ok(o@),
        Err(e) => Err(e),
    }
}

/// What a round makes of knowledge `k` and candidates `pool` when the feedback source
/// replies `reply` to guess `g`: the new knowledge, the new candidates, and what the
/// round returns, a score or a failure.
///
/// A refusal is handed on and changes nothing. A score that contradicts the knowledge
/// leaves the knowledge as it was and no candidate. Any other score updates the
/// knowledge and prunes the candidates; the round then fails only if no candidate
/// stays although the guess was not the answer.
pub open spec fn absorbed(
    k: Seq<LetterState>,
    pool: Seq<Seq<int>>,
    g: Seq<int>,
    reply: Result<Seq<LetterOutcome>, server::Error>,
) -> (Seq<LetterState>, Seq<Seq<int>>, Result<Seq<LetterOutcome>, Error>) {
    match reply {
        Err(e) => (k, pool, Err(Error::Server(e))),
        Ok(o) => if contradiction(k, g, o) {
            (k, Seq::empty(), Err(Error::Stumped))
        } else {
            let rest = pruned(pool, k, g, o);
            (
                updated(k, g, o),
                rest,
                if rest.len() == 0 && !solved(o) {
                    Err(Error::Stumped)
                } else {
                    Ok(o)
                },
            )
        },
    }
}

/// Taking a word out of a list takes its spelling out of the spellings, and keeps the
/// rest as they were.
proof fn lemma_remove(words: Seq<Word>, i: int)
    requires
        0 <= i < words.len(),
    ensures
        spellings(words.remove(i)) == spellings(words).remove(i),
        spellings(words).no_duplicates() ==> spellings(words).remove(i).no_duplicates(),
        forall|j: int|
            0 <= j < words.len() - 1 ==> #[trigger] spellings(words).remove(i)[j] == spellings(
                words,
            )[if j < i { j } else { j + 1 }],
{
    assert(spellings(words.remove(i)) =~= spellings(words).remove(i));
}

/// What a filter keeps satisfies the filter and was there before, in the same order.
proof fn lemma_filtered(pool: Seq<Seq<int>>, keep: spec_fn(Seq<int>) -> bool)
    ensures
        forall|j: int| 0 <= j < pool.filter(keep).len() ==> keep(#[trigger] pool.filter(keep)[j]),
        forall|j: int|
            0 <= j < pool.filter(keep).len() ==> pool.contains(#[trigger] pool.filter(keep)[j]),
        pool.no_duplicates() ==> pool.filter(keep).no_duplicates(),
    decreases pool.len(),
{
    reveal(Seq::filter);
    if pool.len() > 0 {
        let front = pool.drop_last();
        lemma_filtered(front, keep);
        let f = front.filter(keep);
        assert forall|j: int| 0 <= j < pool.filter(keep).len() implies pool.contains(
            #[trigger] pool.filter(keep)[j],
        ) by {
            let w = pool.filter(keep)[j];
            lemma_contains_last(pool, w);
            if j < f.len() {
                assert(front.contains(f[j]));
            }
        }
        if pool.no_duplicates() && keep(pool.last()) {
            assert(front.no_duplicates());
            assert forall|a: int, b: int|
                0 <= a < f.len() + 1 && 0 <= b < f.len() + 1 && a != b implies f.push(pool.last())[a]
                != f.push(pool.last())[b] by {
                if a == f.len() || b == f.len() {
                    let j = if a == f.len() { b } else { a };
                    assert(front.contains(f[j]));
                    let m = choose|m: int| 0 <= m < front.len() && front[m] == f[j];
                    assert(pool[m] == f[j]);
                }
            }
        }
        if pool.no_duplicates() {
            assert(front.no_duplicates());
        }
    }
}

/// Whether `word` is among `words`.
fn holds_word(words: &Vec<Word>, word: &Word) -> (r: bool)
    ensures
        r == spellings(words@).contains(word@),
{
    let n = words.len();
    let mut i: usize = 0;
    while i < n
        invariant
            i <= n == words@.len(),
            forall|j: int| 0 <= j < i ==> spellings(words@)[j] != word@,
        decreases n - i,
    {
        if words[i] == *word {
            assert(spellings(words@)[i as int] == word@);
            return true;
        }
        i += 1;
    }
    false
}

} // verus!
