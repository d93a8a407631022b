//! The alphabet and the five-letter words over it.
//!
//! A [`Letter`] is modelled by its alphabet index, an `int` in `0..26`; a [`Word`]
//! by the sequence of its five indices.

use vstd::prelude::*;
use vstd::string::StringSliceAdditionalSpecFns;

verus! {

/// The alphabet index of an ASCII letter of either case, `None` for any other byte.
pub open spec fn letter_index(c: u8) -> Option<int> {
    if 97 <= c <= 122 {
        Some(c - 97)
    } else if 65 <= c <= 90 {
        Some(c - 65)
    } else {
        None
    }
}

/// The word that five bytes spell, each an ASCII letter of either case; `None` for
/// any other text.
pub open spec fn spelled(bytes: Seq<u8>) -> Option<Seq<int>> {
    if bytes.len() == 5 && forall|i: int| 0 <= i < 5 ==> letter_index(#[trigger] bytes[i]) is Some {
        Some(Seq::new(5, |i: int| letter_index(bytes[i])->0))
    } else {
        None
    }
}

/// What a sequence must satisfy to be the view of a word: five alphabet indices.
pub open spec fn is_word(w: Seq<int>) -> bool {
    &&& w.len() == 5
    &&& forall|i: int| 0 <= i < 5 ==> 0 <= #[trigger] w[i] < 26
}

/// The views of a list of words.
pub open spec fn spellings(words: Seq<Word>) -> Seq<Seq<int>> {
    words.map_values(|w: Word| w@)
}

/// How many of the first `n` letters of `w` are `l`.
pub open spec fn occurrences(w: Seq<int>, l: int, n: int) -> nat
    decreases n,
{
    if n <= 0 {
        0
    } else {
        occurrences(w, l, n - 1) + if w[n - 1] == l { 1nat } else { 0nat }
    }
}

/// 1 if `w` holds `l` somewhere, else 0.
pub open spec fn holds(w: Seq<int>, l: int) -> nat {
    if w.contains(l) { 1 } else { 0 }
}

/// How many of the five vowels occur in `w`, each counted once.
pub open spec fn vowels_in(w: Seq<int>) -> nat {
    holds(w, 0) + holds(w, 4) + holds(w, 8) + holds(w, 14) + holds(w, 20)
}

/// A letter is counted at least once among the first `n` exactly when one of them is it.
pub proof fn lemma_occurrences_positive(w: Seq<int>, l: int, n: int)
    ensures
        occurrences(w, l, n) > 0 <==> exists|i: int| 0 <= i < n && w[i] == l,
    decreases n,
{
    if n > 0 {
        lemma_occurrences_positive(w, l, n - 1);
        if occurrences(w, l, n) > 0 {
            if w[n - 1] == l {
                assert(0 <= n - 1 < n && w[n - 1] == l);
            } else {
                let i = choose|i: int| 0 <= i < n - 1 && w[i] == l;
                assert(0 <= i < n && w[i] == l);
            }
        }
    }
}

/// One letter of the 26-symbol alphabet, without case.
#[derive(Clone, Copy, Debug, PartialEq, Eq, Hash, Structural)]
pub struct Letter(char);

impl View for Letter {
    type V = int;

    /// The letter's alphabet index.
    closed spec fn view(&self) -> int {
        self.0 as int - 97
    }
}

impl Letter {
    /// Every letter is one of `'a'..='z'`.
    #[verifier::type_invariant]
    pub closed spec fn wf(self) -> bool {
        97 <= self.0 as int <= 122
    }

    /// The letter that byte `c` spells, if it spells one; upper case is folded to lower.
    pub fn new(c: u8) -> (r: Option<Letter>)
        ensures
            match letter_index(c) {
                Some(j) => r is Some && r->0.wf() && r->0@ == j,
                None => r is None,
            },
    {
        if 97 <= c && c <= 122 {
            Some(Letter(c as char))
        } else if 65 <= c && c <= 90 {
            Some(Letter((c + 32) as char))
        } else {
            None
        }
    }

    /// The letter's position in the alphabet, 0 for `a` up to 25 for `z`.
    pub fn index(&self) -> (r: u8)
        ensures
            r == self@,
            r < 26,
    {
        proof {
            use_type_invariant(self);
        }
        (self.0 as u8) - 97
    }

    /// The index of a letter lies in `0..26`.
    pub proof fn lemma_range(self)
        requires
            self.wf(),
        ensures
            0 <= self@ < 26,
    {
    }

    /// Two letters with the same index are the same letter.
    pub proof fn lemma_same(self, other: Letter)
        requires
            self.wf(),
            other.wf(),
        ensures
            self == other <==> self@ == other@,
    {
    }
}

impl Default for Letter {
    fn default() -> (r: Letter)
        ensures
            r@ == 0,
    {
        Letter('a')
    }
}

/// Five letters in order.
#[derive(Clone, Copy, Debug, Eq, Hash)]
pub struct Word([Letter; 5]);

impl View for Word {
    type V = Seq<int>;

    /// The indices of the five letters.
    closed spec fn view(&self) -> Seq<int> {
        Seq::new(5, |i: int| self.0[i]@)
    }
}

impl PartialEq for Word {
    fn eq(&self, other: &Word) -> (r: bool) {
        proof {
            use_type_invariant(self);
            use_type_invariant(other);
        }
        let mut i: usize = 0;
        while i < 5
            invariant
                i <= 5,
                self.wf(),
                other.wf(),
                forall|j: int| 0 <= j < i ==> self@[j] == other@[j],
            decreases 5 - i,
        {
            if self.0[i] != other.0[i] {
                assert(self@[i as int] != other@[i as int]);
                return false;
            }
            i += 1;
        }
        assert(self@ =~= other@);
        true
    }
}

impl vstd::std_specs::cmp::PartialEqSpecImpl for Word {
    open spec fn obeys_eq_spec() -> bool {
        true
    }

    open spec fn eq_spec(&self, other: &Word) -> bool {
        self@ == other@
    }
}

impl Word {
    /// Every one of the five letters is a letter.
    #[verifier::type_invariant]
    pub closed spec fn wf(self) -> bool {
        forall|i: int| 0 <= i < 5 ==> (#[trigger] self.0[i]).wf()
    }

    /// The view of a word is five alphabet indices.
    pub proof fn lemma_view(self)
        requires
            self.wf(),
        ensures
            is_word(self@),
    {
        assert forall|i: int| 0 <= i < 5 implies 0 <= #[trigger] self@[i] < 26 by {
            assert(self.0[i].wf());
        }
    }

    /// Two words with the same letters are the same word.
    pub proof fn lemma_same(self, other: Word)
        requires
            self.wf(),
            other.wf(),
        ensures
            self == other <==> self@ == other@,
    {
        if self@ == other@ {
            assert forall|i: int| 0 <= i < 5 implies self.0[i] == other.0[i] by {
                assert(self.0[i].wf() && other.0[i].wf());
                assert(self@[i] == other@[i]);
            }
            assert(self.0 =~= other.0);
        }
    }

    /// The word of the five `letters`, in their order.
    pub fn new(letters: [Letter; 5]) -> (w: Word)
        ensures
            w.wf(),
            forall|i: int| 0 <= i < 5 ==> w@[i] == (#[trigger] letters[i])@,
    {
        let mut result = [Letter('a');5];
        let mut i: usize = 0;
        while i < 5
            invariant
                i <= 5,
                forall|j: int| 0 <= j < 5 ==> (#[trigger] result[j]).wf(),
                forall|j: int| 0 <= j < i ==> result[j] == letters[j],
            decreases 5 - i,
        {
            let l = letters[i];
            proof {
                use_type_invariant(&l);
            }
            result[i] = l;
            i += 1;
        }
        Word(result)
    }

    /// Reads a word from text: exactly five bytes, each an ASCII letter of either case.
    pub fn try_from_str(s: &str) -> (r: Option<Word>)
        ensures
            match spelled(s.spec_bytes()) {
                Some(w) => r is Some && r->0.wf() && r->0@ == w,
                None => r is None,
            },
    {
        let bytes = s.as_bytes();
        if bytes.len() != 5 {
            return None;
        }
        let mut result = [Letter('a');5];
        let mut i: usize = 0;
        while i < 5
            invariant
                i <= 5,
                bytes@.len() == 5,
                bytes@ == s.spec_bytes(),
                forall|j: int| 0 <= j < 5 ==> (#[trigger] result[j]).wf(),
                forall|j: int| 0 <= j < i ==> letter_index(#[trigger] bytes@[j]) == Some(result[j]@),
            decreases 5 - i,
        {
            match Letter::new(bytes[i]) {
                Some(l) => {
                    result[i] = l;
                },
                None => {
                    assert(letter_index(bytes@[i as int]) is None);
                    return None;
                },
            }
            i += 1;
        }
        let word = Word(result);
        assert(word@ =~= spelled(bytes@)->0) by {
            assert forall|j: int| 0 <= j < 5 implies word@[j] == letter_index(bytes@[j])->0 by {
                assert(letter_index(bytes@[j]) == Some(result[j]@));
            }
        }
        Some(word)
    }

    /// The letter at position `i`.
    pub fn letter(&self, i: usize) -> (l: Letter)
        requires
            i < 5,
        ensures
            l.wf(),
            l@ == self@[i as int],
    {
        proof {
            use_type_invariant(self);
        }
        self.0[i]
    }

    /// An iterator over the five letters, first to last.
    pub fn iter(&self) -> (it: core::slice::Iter<'_, Letter>)
        ensures
            vstd::std_specs::slice::into_iter_elts(it).len() == 5,
            forall|i: int|
                0 <= i < 5 ==> (#[trigger] vstd::std_specs::slice::into_iter_elts(it)[i])@
                    == self@[i],
    {
        let it = self.0.as_slice().iter();
        it
    }

    /// Whether `letter` occurs in the word.
    pub fn contains(&self, letter: &Letter) -> (r: bool)
        ensures
            r == self@.contains(letter@),
    {
        proof {
            use_type_invariant(self);
            use_type_invariant(letter);
        }
        let mut i: usize = 0;
        while i < 5
            invariant
                i <= 5,
                self.wf(),
                letter.wf(),
                forall|j: int| 0 <= j < i ==> self@[j] != letter@,
            decreases 5 - i,
        {
            if self.0[i] == *letter {
                assert(self@[i as int] == letter@);
                return true;
            }
            assert(self.0[i as int].wf());
            i += 1;
        }
        false
    }

    /// How many times `letter` occurs in the word.
    pub fn count(&self, letter: &Letter) -> (r: u8)
        ensures
            r == occurrences(self@, letter@, 5),
            r <= 5,
    {
        proof {
            use_type_invariant(self);
            use_type_invariant(letter);
        }
        let mut n: u8 = 0;
        let mut i: usize = 0;
        while i < 5
            invariant
                i <= 5,
                self.wf(),
                letter.wf(),
                n == occurrences(self@, letter@, i as int),
                n <= i,
            decreases 5 - i,
        {
            assert(self.0[i as int].wf());
            if self.0[i] == *letter {
                n += 1;
            }
            i += 1;
        }
        n
    }

    /// How many of the vowels `a`, `e`, `i`, `o`, `u` occur in the word, each counted once.
    pub fn distinct_vowels(&self) -> (r: u8)
        ensures
            r == vowels_in(self@),
            r <= 5,
    {
        let mut seen = [false;5];
        let mut i: usize = 0;
        while i < 5
            invariant
                i <= 5,
                seen[0] <==> exists|j: int| 0 <= j < i && self@[j] == 0,
                seen[1] <==> exists|j: int| 0 <= j < i && self@[j] == 4,
                seen[2] <==> exists|j: int| 0 <= j < i && self@[j] == 8,
                seen[3] <==> exists|j: int| 0 <= j < i && self@[j] == 14,
                seen[4] <==> exists|j: int| 0 <= j < i && self@[j] == 20,
            decreases 5 - i,
        {
            let l = self.letter(i).index();
            if l == 0 {
                seen[0] = true;
            } else if l == 4 {
                seen[1] = true;
            } else if l == 8 {
                seen[2] = true;
            } else if l == 14 {
                seen[3] = true;
            } else if l == 20 {
                seen[4] = true;
            }
            i += 1;
        }
        let mut n: u8 = 0;
        let mut k: usize = 0;
        while k < 5
            invariant
                k <= 5,
                n <= k,
                n == (if k > 0 && seen[0] { 1int } else { 0 }) + (if k > 1 && seen[1] { 1int } else { 0 })
                    + (if k > 2 && seen[2] { 1int } else { 0 }) + (if k > 3 && seen[3] { 1int } else { 0 })
                    + (if k > 4 && seen[4] { 1int } else { 0 }),
            decreases 5 - k,
        {
            if seen[k] {
                n += 1;
            }
            k += 1;
        }
        n
    }
}

} // verus!
