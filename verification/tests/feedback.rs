use wordle::feedback::{evaluate, is_solved, letter_counts};
use wordle::{GuessOutcome, Letter, LetterOutcome, Word};

use wordle::LetterOutcome::{Absent, Correct, Present};

const WORDS: [&str; 14] = [
    "whack", "audio", "snake", "track", "clack", "cacao", "dwell", "dense", "dryer", "trees",
    "river", "abbey", "eerie", "llama",
];

fn word(s: &str) -> Word {
    Word::try_from_str(s).unwrap()
}

#[test]
fn a_word_scores_all_correct_against_itself() {
    for s in WORDS {
        let w = word(s);
        assert_eq!(evaluate(&w, &w), [Correct; 5]);
        assert!(is_solved(&evaluate(&w, &w)));
    }
}

#[test]
fn credited_positions_stay_within_the_answer_count() {
    for a in WORDS {
        for g in WORDS {
            let (a, g) = (word(a), word(g));
            let outcome = evaluate(&a, &g);
            for c in b'a'..=b'z' {
                let l = Letter::new(c).unwrap();
                let mut credited = 0u8;
                for i in 0..5 {
                    if g.letter(i) == l && outcome[i] != Absent {
                        credited += 1;
                    }
                }
                assert!(credited <= a.count(&l));
            }
        }
    }
}

#[test]
fn scoring_ignores_case() {
    let outcome = evaluate(&word("TREES"), &word("RIVER"));
    assert_eq!(outcome, [Present, Absent, Absent, Correct, Absent]);
    assert_eq!(outcome, evaluate(&word("trees"), &word("river")));
}

#[test]
fn a_spent_letter_scores_absent() {
    let answer = word("whack");
    assert_eq!(evaluate(&answer, &word("audio")), [Present, Absent, Absent, Absent, Absent]);
    assert_eq!(evaluate(&answer, &word("snake")), [Absent, Absent, Correct, Present, Absent]);
    assert_eq!(evaluate(&answer, &word("track")), [Absent, Absent, Correct, Correct, Correct]);
    assert_eq!(evaluate(&answer, &word("clack")), [Absent, Absent, Correct, Correct, Correct]);
    assert_eq!(evaluate(&answer, &word("whack")), [Correct; 5]);
    assert_eq!(evaluate(&answer, &word("cacao")), [Present, Present, Absent, Absent, Absent]);
}

#[test]
fn the_leftmost_misplaced_letter_is_present() {
    // The answer has two of `e`: the third one of the guess finds none left.
    assert_eq!(evaluate(&word("trees"), &word("eerie")), [Present, Present, Present, Absent, Absent]);
    // Both are matched in place: the misplaced one to their left finds none left.
    assert_eq!(evaluate(&word("dense"), &word("eerie")), [Absent, Correct, Absent, Absent, Correct]);
    assert_eq!(evaluate(&word("eerie"), &word("trees")), [Absent, Present, Present, Present, Absent]);
    assert_eq!(evaluate(&word("llama"), &word("dwell")), [Absent, Absent, Absent, Present, Present]);
}

#[test]
fn letter_counts_count_every_letter() {
    let counts = letter_counts(&word("eerie"));
    for c in b'a'..=b'z' {
        let expected = match c {
            b'e' => 3,
            b'r' | b'i' => 1,
            _ => 0,
        };
        assert_eq!(counts[(c - b'a') as usize], expected);
    }
}

#[test]
fn only_five_correct_is_solved() {
    let mut outcome: GuessOutcome = [Correct; 5];
    assert!(is_solved(&outcome));
    for i in 0..5 {
        outcome[i] = Present;
        assert!(!is_solved(&outcome));
        outcome[i] = Absent;
        assert!(!is_solved(&outcome));
        outcome[i] = Correct;
    }
}

#[test]
fn the_default_outcome_is_absent() {
    assert_eq!(LetterOutcome::default(), Absent);
}
