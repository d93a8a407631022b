use rand::seq::IteratorRandom;
use wordle::{server, solver, LetterOutcome, Word};

const WORDS: [&str; 6] = ["river", "abbey", "crave", "kings", "great", "trees"];

fn load_dictionary() -> Vec<Word> {
    WORDS.iter().filter_map(|s| Word::try_from_str(s)).collect()
}

#[test]
fn test_solver() {
    let dict = load_dictionary();
    let word = *dict.iter().choose(&mut rand::thread_rng()).unwrap();

    let mut server = server::InMemoryServer::new(word, dict.clone());
    let mut solver = solver::Solver::new(dict);

    println!("Answer: {:?}", word);
    loop {
        let (guess, outcome) = solver.guess(&mut server).unwrap();
        println!("{:?} {:?}", guess, outcome);
        if outcome == [LetterOutcome::Correct; 5] {
            break;
        }
    }
}
