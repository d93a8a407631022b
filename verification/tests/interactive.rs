use wordle::server::{decode, Error, InteractiveServer, Length, Reading};

use wordle::LetterOutcome::{Absent, Correct, Present};

#[test]
fn five_marks_are_a_score() {
    assert_eq!(decode(b"*+-*+"), Reading::Outcome([Correct, Present, Absent, Correct, Present]));
    assert_eq!(decode(b"-----"), Reading::Outcome([Absent; 5]));
    assert_eq!(decode(b"*****"), Reading::Outcome([Correct; 5]));
}

#[test]
fn a_bang_anywhere_ends_the_game() {
    for line in ["!", "**!**", "****!", "!----", "x!", "*****!", "abc def !", "-!-"] {
        assert_eq!(decode(line.as_bytes()), Reading::GameOver, "{}", line);
    }
}

#[test]
fn other_lines_are_malformed() {
    let malformed = |unrecognized, length| Reading::Malformed { unrecognized, length };
    assert_eq!(decode(b""), malformed(false, Length::Short));
    assert_eq!(decode(b"**"), malformed(false, Length::Short));
    assert_eq!(decode(b"*x"), malformed(true, Length::Short));
    assert_eq!(decode(b"****x"), malformed(true, Length::Exact));
    assert_eq!(decode(b"x****"), malformed(true, Length::Exact));
    assert_eq!(decode(b"*****-"), malformed(false, Length::Long));
    // Only the first five are looked at.
    assert_eq!(decode(b"*****x"), malformed(false, Length::Long));
    assert_eq!(decode(b"** **+"), malformed(true, Length::Long));
    assert_eq!(decode("**é*".as_bytes()), malformed(true, Length::Exact));
}

#[test]
fn white_space_around_a_line_is_dropped() {
    let server = InteractiveServer;
    assert_eq!(server.interpret("*+-*+\n"), Reading::Outcome([Correct, Present, Absent, Correct, Present]));
    assert_eq!(server.interpret("  \t-----\r\n"), Reading::Outcome([Absent; 5]));
    assert_eq!(server.interpret("\u{a0}*****\u{2003}"), Reading::Outcome([Correct; 5]));
    assert_eq!(server.interpret(" ! \n"), Reading::GameOver);
    assert_eq!(server.interpret("\n"), Reading::Malformed { unrecognized: false, length: Length::Short });
    assert_eq!(server.interpret("   "), Reading::Malformed { unrecognized: false, length: Length::Short });
    // White space inside the line stays.
    assert_eq!(server.interpret("** **\n"), Reading::Malformed { unrecognized: true, length: Length::Exact });
}

#[test]
fn a_reading_is_a_reply_or_a_new_prompt() {
    assert_eq!(Reading::Outcome([Present; 5]).reply(), Some(Ok([Present; 5])));
    assert_eq!(Reading::GameOver.reply(), Some(Err(Error::GameOver)));
    assert_eq!(Reading::Malformed { unrecognized: true, length: Length::Long }.reply(), None);
}

#[test]
fn a_person_always_takes_another_guess() {
    assert!(InteractiveServer.can_guess());
    assert!(InteractiveServer::default().can_guess());
}
