use wordle::server::{self, InMemoryServer, Server};
use wordle::util::map_array;
use wordle::{GuessOutcome, LetterOutcome, Word};

fn to_str(xs: &[u8]) -> &str {
    std::str::from_utf8(xs).unwrap()
}

fn guess_outcome_to_ascii(g: GuessOutcome) -> [u8; 5] {
    map_array(g, |l| match l {
        LetterOutcome::Absent => b'-',
        LetterOutcome::Present => b'+',
        LetterOutcome::Correct => b'*',
    })
}

#[test]
fn test_guess_submit() {
    let word = Word::try_from_str("trees").unwrap();
    let dictionary = vec!["river", "abbey", "crave", "kings", "great", "trees"]
        .into_iter()
        .map(|s| Word::try_from_str(s).unwrap())
        .collect();
    let mut server = InMemoryServer::new(word, dictionary);

    let guess = Word::try_from_str("river").unwrap();
    let result = server.submit(guess).unwrap();
    assert_eq!(
        result,
        [
            LetterOutcome::Present,
            LetterOutcome::Absent,
            LetterOutcome::Absent,
            LetterOutcome::Correct,
            LetterOutcome::Absent,
        ]
    );

    assert_eq!(server.submit(guess), Err(server::Error::AlreadyGuessed),);

    let guess = Word::try_from_str("ghwsd").unwrap();
    assert_eq!(server.submit(guess), Err(server::Error::InvalidWord),);

    let guess = Word::try_from_str("abbey").unwrap();
    let result = server.submit(guess).unwrap();
    assert_eq!(
        result,
        [
            LetterOutcome::Absent,
            LetterOutcome::Absent,
            LetterOutcome::Absent,
            LetterOutcome::Correct,
            LetterOutcome::Absent,
        ]
    );

    let guess = Word::try_from_str("crave").unwrap();
    let result = server.submit(guess).unwrap();
    assert_eq!(
        result,
        [
            LetterOutcome::Absent,
            LetterOutcome::Correct,
            LetterOutcome::Absent,
            LetterOutcome::Absent,
            LetterOutcome::Present,
        ]
    );

    let guess = Word::try_from_str("kings").unwrap();
    let result = server.submit(guess).unwrap();
    assert_eq!(
        result,
        [
            LetterOutcome::Absent,
            LetterOutcome::Absent,
            LetterOutcome::Absent,
            LetterOutcome::Absent,
            LetterOutcome::Correct,
        ]
    );

    let guess = Word::try_from_str("great").unwrap();
    let result = server.submit(guess).unwrap();
    assert_eq!(
        result,
        [
            LetterOutcome::Absent,
            LetterOutcome::Correct,
            LetterOutcome::Correct,
            LetterOutcome::Absent,
            LetterOutcome::Present,
        ]
    );

    let result = server.submit(word).unwrap();
    assert_eq!(
        result,
        [
            LetterOutcome::Correct,
            LetterOutcome::Correct,
            LetterOutcome::Correct,
            LetterOutcome::Correct,
            LetterOutcome::Correct,
        ]
    );

    let result = server.submit(guess);
    assert_eq!(result, Err(server::Error::GameOver),);
}

#[test]
fn test_duplicate_letters_in_guess() {
    let word = Word::try_from_str("whack").unwrap();
    let dictionary = vec!["whack", "audio", "snake", "track", "clack"]
        .into_iter()
        .map(|s| Word::try_from_str(s).unwrap())
        .collect();
    let mut server = InMemoryServer::new(word, dictionary);

    let guess = Word::try_from_str("audio").unwrap();
    let outcome = server.submit(guess).unwrap();
    assert_eq!(to_str(&guess_outcome_to_ascii(outcome)), "+----",);

    let guess = Word::try_from_str("snake").unwrap();
    let outcome = server.submit(guess).unwrap();
    assert_eq!(to_str(&guess_outcome_to_ascii(outcome)), "--*+-",);

    let guess = Word::try_from_str("track").unwrap();
    let outcome = server.submit(guess).unwrap();
    assert_eq!(to_str(&guess_outcome_to_ascii(outcome)), "--***",);

    // Note the first 'c' is considered absent because the second
    // 'c' is already in the correct position and there is only one
    // 'c' in the word.
    let guess = Word::try_from_str("clack").unwrap();
    let outcome = server.submit(guess).unwrap();
    assert_eq!(to_str(&guess_outcome_to_ascii(outcome)), "--***",);

    let guess = Word::try_from_str("whack").unwrap();
    let outcome = server.submit(guess).unwrap();
    assert_eq!(to_str(&guess_outcome_to_ascii(outcome)), "*****",);

    let word = Word::try_from_str("whack").unwrap();
    let dictionary = vec!["whack", "cacao"]
        .into_iter()
        .map(|s| Word::try_from_str(s).unwrap())
        .collect();
    let mut server = InMemoryServer::new(word, dictionary);

    // The first 'c' is considered present because there is 1 'c' in the answer,
    // but the second 'c' is considered absent because there are not two.
    // Similarly for the 'a's.
    let guess = Word::try_from_str("cacao").unwrap();
    let outcome = server.submit(guess).unwrap();
    assert_eq!(to_str(&guess_outcome_to_ascii(outcome)), "++---",);
}

#[test]
fn test_duplicate_letters_in_answer() {
    let word = Word::try_from_str("dwell").unwrap();
    let dictionary = vec!["dwell", "audio", "dense", "dryer"]
        .into_iter()
        .map(|s| Word::try_from_str(s).unwrap())
        .collect();
    let mut server = InMemoryServer::new(word, dictionary);

    let guess = Word::try_from_str("audio").unwrap();
    let outcome = server.submit(guess).unwrap();
    assert_eq!(to_str(&guess_outcome_to_ascii(outcome)), "--+--",);

    let guess = Word::try_from_str("dense").unwrap();
    let outcome = server.submit(guess).unwrap();
    assert_eq!(to_str(&guess_outcome_to_ascii(outcome)), "*+---",);

    let guess = Word::try_from_str("dryer").unwrap();
    let outcome = server.submit(guess).unwrap();
    assert_eq!(to_str(&guess_outcome_to_ascii(outcome)), "*--+-",);

    let guess = Word::try_from_str("dwell").unwrap();
    let outcome = server.submit(guess).unwrap();
    assert_eq!(to_str(&guess_outcome_to_ascii(outcome)), "*****",);
}
