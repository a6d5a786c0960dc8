use wordle_solver::guess::{CharGuess, GuessColor, GuessType, Guesses, LetterGuess};
use wordle_solver::model::MalformedHistory;
use wordle_solver::reqs::Requirement;

fn letters(text: &str, colors: &str) -> Vec<LetterGuess> {
    text.bytes()
        .zip(colors.bytes())
        .map(|(char, color)| LetterGuess {
            color: match color {
                b'g' => GuessColor::Green,
                b'y' => GuessColor::Yellow,
                _ => GuessColor::Gray,
            },
            char,
        })
        .collect()
}

fn guesses(word_len: usize, text: &str, colors: &str) -> Guesses {
    Guesses { word_len, val: letters(text, colors) }
}

#[test]
fn zero_word_length_is_refused() {
    assert!(matches!(
        Requirement::try_from(guesses(0, "", "")),
        Err(MalformedHistory::ZeroWordLength)
    ));
    assert!(matches!(
        Requirement::try_from(guesses(0, "abc", "---")),
        Err(MalformedHistory::ZeroWordLength)
    ));
}

#[test]
fn partial_round_is_refused() {
    for count in [1usize, 2, 3, 4, 6, 7, 8, 9, 11] {
        let text = &"abcdefghijk"[..count];
        let colors = &"-----------"[..count];
        assert!(matches!(
            Requirement::try_from(guesses(5, text, colors)),
            Err(MalformedHistory::PartialRound)
        ));
    }
}

#[test]
fn invalid_letter_is_refused() {
    for text in ["ab1de", "abcd ", "@bcde", "abcd[", "`bcde", "abc{e", "ab\u{0}de"] {
        assert!(matches!(
            Requirement::try_from(guesses(5, text, "-----")),
            Err(MalformedHistory::InvalidLetter)
        ));
    }
    let high = Guesses {
        word_len: 1,
        val: vec![LetterGuess { color: GuessColor::Green, char: 0xe9 }],
    };
    assert!(matches!(Requirement::try_from(high), Err(MalformedHistory::InvalidLetter)));
}

#[test]
fn defects_are_reported_in_order() {
    // a partial round is reported before an invalid letter
    assert!(matches!(
        Requirement::try_from(guesses(5, "ab1", "---")),
        Err(MalformedHistory::PartialRound)
    ));
    // a zero word length before either
    assert!(matches!(
        Requirement::try_from(guesses(0, "ab1", "---")),
        Err(MalformedHistory::ZeroWordLength)
    ));
}

#[test]
fn empty_history_demands_only_the_length() {
    let reqs = Requirement::try_from(guesses(3, "", "")).unwrap();
    assert_eq!(reqs.word_len(), 3);
    assert!(reqs.applies_to("abc"));
    assert!(reqs.applies_to("ZZZ"));
    assert!(!reqs.applies_to("ab"));
    assert!(!reqs.applies_to("abcd"));
    assert!(!reqs.applies_to(""));
    for letter in b'a'..=b'z' {
        assert_eq!(reqs.min_count(letter), 0);
        assert_eq!(reqs.exact_count(letter), None);
    }
    for pos in 0..3 {
        assert_eq!(reqs.must_be(pos), None);
        for letter in b'a'..=b'z' {
            assert!(!reqs.must_not_be(pos, letter));
        }
    }
}

#[test]
fn minimum_is_the_largest_count_of_any_round() {
    let mut val = letters("eerie", "yy---");
    val.extend(letters("geese", "-yg-y"));
    val.extend(letters("elope", "y----"));
    let reqs = Requirement::try_from(Guesses { word_len: 5, val }).unwrap();
    assert_eq!(reqs.min_count(b'e'), 3);
    assert_eq!(reqs.min_count(b'r'), 0);
    assert_eq!(reqs.min_count(b'g'), 0);
}

#[test]
fn exact_count_is_what_the_round_showed_before_the_gray_letter() {
    // two yellow, then gray: exactly two
    let reqs = Requirement::try_from(guesses(5, "eeexz", "yy---")).unwrap();
    assert_eq!(reqs.exact_count(b'e'), Some(2));
    assert_eq!(reqs.min_count(b'e'), 2);
    assert_eq!(reqs.exact_count(b'x'), Some(0));
    assert_eq!(reqs.exact_count(b'z'), Some(0));
    assert!(reqs.applies_to("abcee"));
    // one occurrence only
    assert!(!reqs.applies_to("abcde"));
    assert!(!reqs.applies_to("abced"));
    // gray first: zero, whatever follows in the round
    let reqs = Requirement::try_from(guesses(3, "eee", "-gy")).unwrap();
    assert_eq!(reqs.exact_count(b'e'), Some(0));
    assert_eq!(reqs.min_count(b'e'), 2);
    assert!(!reqs.applies_to("eee"));
    assert!(!reqs.applies_to("xex"));
    // the last gray letter of the round counts
    let reqs = Requirement::try_from(guesses(4, "eeee", "-y-y")).unwrap();
    assert_eq!(reqs.exact_count(b'e'), Some(1));
    assert_eq!(reqs.min_count(b'e'), 2);
}

#[test]
fn a_later_round_replaces_fixed_letter_and_exact_count() {
    let mut val = letters("abc", "g--");
    val.extend(letters("xbb", "gy-"));
    let reqs = Requirement::try_from(Guesses { word_len: 3, val }).unwrap();
    assert_eq!(reqs.must_be(0), Some(b'x'));
    assert_eq!(reqs.exact_count(b'b'), Some(1));
    assert_eq!(reqs.exact_count(b'c'), Some(0));
    assert_eq!(reqs.min_count(b'a'), 1);
    assert_eq!(reqs.min_count(b'b'), 1);
    assert_eq!(reqs.min_count(b'x'), 1);
    // a round without a gray letter leaves the exact count as it was
    let mut val = letters("abc", "--g");
    val.extend(letters("cab", "yyy"));
    let reqs = Requirement::try_from(Guesses { word_len: 3, val }).unwrap();
    assert_eq!(reqs.exact_count(b'a'), Some(0));
    assert_eq!(reqs.exact_count(b'b'), Some(0));
    assert_eq!(reqs.must_be(2), Some(b'c'));
    assert_eq!(reqs.min_count(b'a'), 1);
}

#[test]
fn counts_start_anew_in_each_round() {
    let mut val = letters("aab", "yy-");
    val.extend(letters("bab", "-y-"));
    let reqs = Requirement::try_from(Guesses { word_len: 3, val }).unwrap();
    assert_eq!(reqs.min_count(b'a'), 2);
    assert_eq!(reqs.exact_count(b'b'), Some(0));
    let mut val = letters("abb", "yy-");
    val.extend(letters("bxx", "---"));
    let reqs = Requirement::try_from(Guesses { word_len: 3, val }).unwrap();
    // the second round has shown no b before its gray b
    assert_eq!(reqs.exact_count(b'b'), Some(0));
    assert_eq!(reqs.min_count(b'b'), 1);
}

#[test]
fn yellow_and_gray_letters_are_excluded_where_they_stood() {
    let reqs = Requirement::try_from(guesses(3, "abc", "gy-")).unwrap();
    assert!(!reqs.must_not_be(0, b'a'));
    assert!(reqs.must_not_be(1, b'b'));
    assert!(reqs.must_not_be(1, b'B'));
    assert!(reqs.must_not_be(2, b'c'));
    assert!(!reqs.must_not_be(1, b'c'));
    assert!(!reqs.must_not_be(2, b'b'));
    assert!(!reqs.must_not_be(2, b'1'));
}

#[test]
fn letters_of_a_history_count_in_either_case() {
    let lower = Requirement::try_from(guesses(5, "sassy", "g-y--")).unwrap();
    let upper = Requirement::try_from(guesses(5, "SASSY", "g-y--")).unwrap();
    let mixed = Requirement::try_from(guesses(5, "SaSsY", "g-y--")).unwrap();
    for reqs in [&upper, &mixed] {
        for letter in b'a'..=b'z' {
            assert_eq!(reqs.min_count(letter), lower.min_count(letter));
            assert_eq!(reqs.exact_count(letter), lower.exact_count(letter));
        }
        for pos in 0..5 {
            assert_eq!(reqs.must_be(pos), lower.must_be(pos));
            for letter in b'a'..=b'z' {
                assert_eq!(reqs.must_not_be(pos, letter), lower.must_not_be(pos, letter));
            }
        }
    }
    assert_eq!(upper.must_be(0), Some(b's'));
    assert_eq!(upper.min_count(b's'), 2);
    assert_eq!(upper.exact_count(b's'), Some(2));
}

#[test]
fn deriving_twice_gives_the_same_requirement() {
    let first = guesses(5, "cranesloth", "g-y---yg--");
    let second = first.clone();
    assert_eq!(first, second);
    let a = Requirement::try_from(first).unwrap();
    let b = Requirement::try_from(second).unwrap();
    assert_eq!(a.word_len(), b.word_len());
    for letter in b'a'..=b'z' {
        assert_eq!(a.min_count(letter), b.min_count(letter));
        assert_eq!(a.exact_count(letter), b.exact_count(letter));
    }
    for pos in 0..5 {
        assert_eq!(a.must_be(pos), b.must_be(pos));
        for letter in b'a'..=b'z' {
            assert_eq!(a.must_not_be(pos, letter), b.must_not_be(pos, letter));
        }
    }
    let list = "could\nclout\ncloud\nchill\n";
    assert_eq!(a.filter_wordlist(list), b.filter_wordlist(list));
}

#[test]
fn both_sets_of_names_mean_the_same_types() {
    let guess: CharGuess = LetterGuess { color: GuessType::Green, char: b'q' };
    assert_eq!(guess.color, GuessColor::Green);
    let other = CharGuess { color: GuessColor::Yellow, char: b'q' };
    assert_eq!(other.color, GuessType::Yellow);
    assert_eq!(GuessColor::default(), GuessColor::Gray);
}

#[test]
fn a_history_turns_into_a_requirement() {
    let outcome: Result<Requirement, MalformedHistory> = guesses(3, "abc", "g-y").try_into();
    let reqs = outcome.unwrap();
    assert_eq!(reqs.must_be(0), Some(b'a'));
    assert_eq!(reqs.exact_count(b'b'), Some(0));
    assert_eq!(reqs.min_count(b'c'), 1);
    let outcome: Result<Requirement, MalformedHistory> = guesses(2, "abc", "g-y").try_into();
    assert!(matches!(outcome, Err(MalformedHistory::PartialRound)));
    assert_eq!(outcome.unwrap_err(), MalformedHistory::PartialRound);
}
