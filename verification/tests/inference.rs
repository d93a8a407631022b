use wordle::feedback::evaluate;
use wordle::inference::{
    contradicts, exceeds, foreseen, satisfies, teach, update, LetterState, PositionState,
};
use wordle::{Letter, Word};

use wordle::inference::LetterState::{AntiPositions, Positions, Unknown};
use wordle::inference::PositionState::{Maybe, No, Yes};
use wordle::LetterOutcome::{Absent, Correct, Present};

const WORDS: [&str; 16] = [
    "whack", "audio", "snake", "track", "clack", "cacao", "dwell", "dense", "dryer", "trees",
    "river", "abbey", "eerie", "llama", "kings", "great",
];

fn word(s: &str) -> Word {
    Word::try_from_str(s).unwrap()
}

fn at(c: u8) -> usize {
    Letter::new(c).unwrap().index() as usize
}

fn blank() -> [LetterState; 26] {
    [Unknown; 26]
}

#[test]
fn not_flips_yes_and_no() {
    assert_eq!(Yes.not(), No);
    assert_eq!(No.not(), Yes);
    assert_eq!(Maybe.not(), Maybe);
    assert_eq!(PositionState::default(), Maybe);
}

#[test]
fn absent_rules() {
    assert_eq!(teach(Unknown, true, Absent, 2), LetterState::Absent);
    assert_eq!(teach(LetterState::Absent, true, Absent, 2), LetterState::Absent);
    assert_eq!(teach(AntiPositions([Yes, Maybe, Maybe, Maybe, Maybe]), true, Absent, 2), LetterState::Absent);
    assert_eq!(
        teach(Positions([No, Maybe, Maybe, Yes, Maybe]), true, Absent, 2),
        Positions([No, Maybe, No, Yes, Maybe])
    );
}

#[test]
fn present_rules() {
    assert_eq!(teach(Unknown, true, Present, 1), Positions([Maybe, No, Maybe, Maybe, Maybe]));
    assert_eq!(
        teach(Positions([No, Maybe, Maybe, Yes, Maybe]), true, Present, 1),
        Positions([No, No, Maybe, Yes, Maybe])
    );
    assert_eq!(
        teach(AntiPositions([Yes, Maybe, Maybe, Yes, Maybe]), true, Present, 1),
        Positions([No, No, Maybe, No, Maybe])
    );
}

#[test]
fn correct_rules() {
    assert_eq!(teach(Unknown, true, Correct, 4), Positions([Maybe, Maybe, Maybe, Maybe, Yes]));
    assert_eq!(
        teach(Positions([No, Maybe, Maybe, Maybe, Maybe]), true, Correct, 4),
        Positions([No, Maybe, Maybe, Maybe, Yes])
    );
    assert_eq!(
        teach(AntiPositions([Yes, Maybe, Maybe, Maybe, Maybe]), true, Correct, 4),
        Positions([No, Maybe, Maybe, Maybe, Yes])
    );
    assert_eq!(teach(LetterState::Absent, true, Correct, 4), Positions([No, No, No, No, Yes]));
}

#[test]
fn a_correct_letter_shuts_out_the_others() {
    assert_eq!(teach(Unknown, false, Correct, 0), AntiPositions([Yes, Maybe, Maybe, Maybe, Maybe]));
    assert_eq!(
        teach(AntiPositions([Yes, Maybe, Maybe, Maybe, Maybe]), false, Correct, 3),
        AntiPositions([Yes, Maybe, Maybe, Yes, Maybe])
    );
    assert_eq!(
        teach(Positions([Maybe, Maybe, Yes, Maybe, Maybe]), false, Correct, 3),
        Positions([Maybe, Maybe, Yes, No, Maybe])
    );
    assert_eq!(teach(LetterState::Absent, false, Correct, 3), LetterState::Absent);
    for st in [Unknown, LetterState::Absent, Positions([Maybe; 5]), AntiPositions([Maybe; 5])] {
        assert_eq!(teach(st, false, Present, 3), st);
        assert_eq!(teach(st, false, Absent, 3), st);
    }
}

#[test]
fn update_absorbs_the_positions_from_the_left() {
    // The first `c` is scored before the second one is known to be in place.
    let mut state = blank();
    let guess = word("clack");
    let outcome = evaluate(&word("whack"), &guess);
    assert!(!contradicts(&state, &guess, &outcome));
    update(&mut state, &guess, &outcome);
    assert_eq!(state[at(b'c')], Positions([No, No, No, Yes, No]));
    assert_eq!(state[at(b'l')], LetterState::Absent);
    assert_eq!(state[at(b'a')], Positions([Maybe, Maybe, Yes, No, No]));
    assert_eq!(state[at(b'k')], Positions([Maybe, Maybe, No, No, Yes]));
    assert_eq!(state[at(b'w')], AntiPositions([Maybe, Maybe, Yes, Yes, Yes]));
    assert_eq!(state[at(b'z')], AntiPositions([Maybe, Maybe, Yes, Yes, Yes]));
}

#[test]
fn foreseen_stops_before_the_given_position() {
    let guess = word("clack");
    let outcome = evaluate(&word("whack"), &guess);
    let c = at(b'c') as u8;
    assert_eq!(foreseen(Unknown, c, &guess, &outcome, 0), Unknown);
    assert_eq!(foreseen(Unknown, c, &guess, &outcome, 1), LetterState::Absent);
    assert_eq!(foreseen(Unknown, c, &guess, &outcome, 3), LetterState::Absent);
    assert_eq!(foreseen(Unknown, c, &guess, &outcome, 4), Positions([No, No, No, Yes, No]));
    assert_eq!(foreseen(Unknown, c, &guess, &outcome, 5), Positions([No, No, No, Yes, No]));
}

#[test]
fn true_feedback_never_rules_out_the_answer() {
    for a in WORDS {
        let answer = word(a);
        let mut state = blank();
        assert!(satisfies(&answer, &state));
        for g in WORDS {
            let guess = word(g);
            let outcome = evaluate(&answer, &guess);
            let before = state;
            assert!(!contradicts(&state, &guess, &outcome), "{} {}", a, g);
            update(&mut state, &guess, &outcome);
            assert!(satisfies(&answer, &state), "{} {}", a, g);
            assert!(!exceeds(&answer, &before, &guess, &outcome), "{} {}", a, g);
        }
    }
}

#[test]
fn absorbing_a_guess_twice_changes_nothing() {
    for a in WORDS {
        let answer = word(a);
        let mut state = blank();
        for g in WORDS {
            let guess = word(g);
            let outcome = evaluate(&answer, &guess);
            update(&mut state, &guess, &outcome);
            let once = state;
            assert!(!contradicts(&state, &guess, &outcome));
            update(&mut state, &guess, &outcome);
            assert_eq!(state, once);
            for w in WORDS {
                assert_eq!(satisfies(&word(w), &state), satisfies(&word(w), &once));
            }
        }
    }
}

#[test]
fn update_is_idempotent_on_any_score() {
    let guess = word("eerie");
    let marks = [Correct, Present, Absent];
    for n in 0..243usize {
        let outcome = [marks[n % 3], marks[n / 3 % 3], marks[n / 9 % 3], marks[n / 27 % 3], marks[n / 81]];
        let mut state = blank();
        if contradicts(&state, &guess, &outcome) {
            continue;
        }
        update(&mut state, &guess, &outcome);
        let once = state;
        assert!(!contradicts(&state, &guess, &outcome));
        update(&mut state, &guess, &outcome);
        assert_eq!(state, once);
    }
}

#[test]
fn present_after_absent_is_a_contradiction() {
    let guess = word("eerie");
    // The first `e` is absent, the second is present.
    assert!(contradicts(&blank(), &guess, &[Absent, Present, Absent, Absent, Absent]));
    // An `e` that is in place later does not help the second one.
    assert!(contradicts(&blank(), &guess, &[Absent, Present, Absent, Absent, Correct]));
    assert!(!contradicts(&blank(), &guess, &[Present, Absent, Absent, Absent, Absent]));
    assert!(!contradicts(&blank(), &guess, &[Absent, Correct, Absent, Absent, Absent]));
    // Known to be absent from an earlier guess.
    let mut state = blank();
    update(&mut state, &word("dense"), &[Absent; 5]);
    assert_eq!(state[at(b'e')], LetterState::Absent);
    assert!(contradicts(&state, &word("abbey"), &[Absent, Absent, Absent, Present, Absent]));
    assert!(!contradicts(&state, &word("abbey"), &[Absent, Absent, Absent, Correct, Absent]));
    assert!(!contradicts(&state, &word("abbey"), &[Absent; 5]));
    // Known to be in the answer: no contradiction however it is scored.
    let mut state = blank();
    update(&mut state, &word("dense"), &[Absent, Present, Absent, Absent, Absent]);
    assert!(!contradicts(&state, &word("eerie"), &[Absent, Present, Absent, Absent, Absent]));
}

#[test]
fn satisfies_checks_positions_and_presence() {
    let mut state = blank();
    assert!(satisfies(&word("zzzzz"), &state));
    state[at(b'a')] = LetterState::Absent;
    assert!(!satisfies(&word("llama"), &state));
    assert!(satisfies(&word("dwell"), &state));
    state[at(b'd')] = Positions([Yes, Maybe, No, Maybe, Maybe]);
    assert!(satisfies(&word("dwell"), &state));
    assert!(satisfies(&word("idled"), &state));
    assert!(!satisfies(&word("undid"), &state));
    assert!(!satisfies(&word("udder"), &state));
    // A letter known to be in the answer has to be in the word.
    assert!(!satisfies(&word("trees"), &state));
    state[at(b'w')] = AntiPositions([Maybe, Yes, Maybe, Maybe, No]);
    assert!(!satisfies(&word("dwell"), &state));
    assert!(satisfies(&word("dryer"), &state));
    assert!(satisfies(&word("wordy"), &state));
    assert!(satisfies(&word("dowew"), &state));
}

#[test]
fn an_absent_for_a_known_letter_caps_its_count() {
    let answer = word("whack");
    let guess = word("cacao");
    let outcome = evaluate(&answer, &guess);
    assert_eq!(outcome, [Present, Present, Absent, Absent, Absent]);
    let before = blank();
    let mut after = before;
    update(&mut after, &guess, &outcome);
    // Two of `c` and two of `a` are as many as the guess has.
    let twice_c = word("bcacz");
    assert!(satisfies(&twice_c, &after));
    assert!(exceeds(&twice_c, &before, &guess, &outcome));
    let twice_a = word("acaxb");
    assert!(satisfies(&twice_a, &after));
    assert!(exceeds(&twice_a, &before, &guess, &outcome));
    assert!(!exceeds(&answer, &before, &guess, &outcome));
    // `o` was unknown when it was scored absent: no cap, the state rules it out.
    assert!(!exceeds(&word("ooooo"), &before, &guess, &outcome));
    assert!(!satisfies(&word("ooooo"), &after));
    // No cap without an absent.
    assert!(!exceeds(&twice_c, &before, &guess, &[Present; 5]));
}
