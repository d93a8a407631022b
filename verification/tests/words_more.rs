use wordle::util::map_array;
use wordle::{Letter, Word};

fn l(c: u8) -> Letter {
    Letter::new(c).unwrap()
}

#[test]
fn letters_are_the_ascii_letters() {
    for c in 0u8..=255 {
        assert_eq!(Letter::new(c).is_some(), c.is_ascii_alphabetic());
    }
    assert_eq!(Letter::new(b'A' - 1), None);
    assert_eq!(Letter::new(b'Z' + 1), None);
    assert_eq!(Letter::new(b'a' - 1), None);
    assert_eq!(Letter::new(b'z' + 1), None);
}

#[test]
fn letters_have_their_alphabet_index() {
    for (i, c) in (b'a'..=b'z').enumerate() {
        assert_eq!(l(c).index() as usize, i);
        assert_eq!(l(c.to_ascii_uppercase()).index() as usize, i);
        assert_eq!(l(c), l(c.to_ascii_uppercase()));
    }
    assert_eq!(Letter::default(), l(b'a'));
}

#[test]
fn words_have_five_ascii_letters() {
    assert_eq!(Word::try_from_str(""), None);
    assert_eq!(Word::try_from_str("four"), None);
    assert_eq!(Word::try_from_str("sixsix"), None);
    assert_eq!(Word::try_from_str("ab-de"), None);
    // Five bytes, three characters.
    assert_eq!(Word::try_from_str("aéé"), None);
    // Five characters, six bytes.
    assert_eq!(Word::try_from_str("héllo"), None);
    assert!(Word::try_from_str("hello").is_some());
}

#[test]
fn words_compare_without_case() {
    assert_eq!(Word::try_from_str("River"), Word::try_from_str("rIVER"));
    assert_ne!(Word::try_from_str("river"), Word::try_from_str("rivet"));
}

#[test]
fn a_word_is_its_letters_in_order() {
    let w = Word::try_from_str("Whack").unwrap();
    let letters: Vec<Letter> = w.iter().copied().collect();
    assert_eq!(letters, vec![l(b'w'), l(b'h'), l(b'a'), l(b'c'), l(b'k')]);
    for i in 0..5 {
        assert_eq!(w.letter(i), letters[i]);
    }
    assert_eq!(Word::new([l(b'W'), l(b'h'), l(b'A'), l(b'c'), l(b'k')]), w);
}

#[test]
fn contains_and_count_look_at_every_position() {
    let w = Word::try_from_str("eerie").unwrap();
    assert_eq!(w.count(&l(b'e')), 3);
    assert_eq!(w.count(&l(b'r')), 1);
    assert_eq!(w.count(&l(b'i')), 1);
    assert_eq!(w.count(&l(b'a')), 0);
    assert!(w.contains(&l(b'e')));
    assert!(w.contains(&l(b'i')));
    assert!(!w.contains(&l(b'z')));
    let w = Word::try_from_str("zzzza").unwrap();
    assert_eq!(w.count(&l(b'z')), 4);
    assert!(w.contains(&l(b'a')));
}

#[test]
fn distinct_vowels_counts_each_vowel_once() {
    let expected = [
        ("audio", 4),
        ("eerie", 2),
        ("crwth", 0),
        ("aaaaa", 1),
        ("queue", 2),
        ("adieu", 4),
        ("lymph", 0),
        ("AEIOU", 5),
        ("syzyg", 0),
    ];
    for (s, n) in expected {
        assert_eq!(Word::try_from_str(s).unwrap().distinct_vowels(), n, "{}", s);
    }
}

#[test]
fn map_array_maps_each_item_in_place() {
    assert_eq!(map_array([1u8, 2, 3], |x| x as u16 * 100), [100u16, 200, 300]);
    let none: [u8; 0] = [];
    assert_eq!(map_array(none, |x| x), none);
    assert_eq!(map_array([true, false], |b| !b), [false, true]);
}
