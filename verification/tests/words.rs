use wordle::util::map_array;
use wordle::{Letter, Word};

fn letter(c: u8) -> Letter {
    Letter::new(c).unwrap()
}

#[test]
fn test_letters() {
    for c in 'a'..='z' {
        assert_eq!(
            format!("{:?}", Letter::new(c as u8).unwrap()),
            format!("Letter({:?})", c),
        );
    }

    for c in 'A'..='Z' {
        let l = c.to_ascii_lowercase();
        assert_eq!(
            format!("{:?}", Letter::new(c as u8).unwrap()),
            format!("Letter({:?})", l),
        );
    }

    for x in 0u8..=255u8 {
        if (b'A'..=b'z').contains(&x) {
            continue;
        }
        assert_eq!(Letter::new(x), None,);
    }
}

#[test]
fn test_word_from_str() {
    assert_eq!(
        Word::try_from_str("River"),
        Some(Word::new(map_array([b'r', b'i', b'v', b'e', b'r'], letter))),
    );

    // Longer than 5 bytes
    assert_eq!(Word::try_from_str("TooLong"), None,);

    // Spaces don't parse into letters
    assert_eq!(Word::try_from_str("AB CD"), None,);

    // Numbers don't parse into letters
    assert_eq!(Word::try_from_str("ABCD1"), None,);
}
