use wordle_solver::guess::{GuessColor, Guesses, LetterGuess};
use wordle_solver::reqs::Requirement;
use wordle_solver::wordlist::split_first_line;

fn all_lines(text: &str) -> Vec<&str> {
    let mut lines = Vec::new();
    let mut rest = text;
    while let Some((line, tail)) = split_first_line(rest) {
        assert!(tail.len() < rest.len());
        lines.push(line);
        rest = tail;
    }
    assert_eq!(rest, "");
    lines
}

fn blank(word_len: usize) -> Requirement {
    Requirement::try_from(Guesses { word_len, val: Vec::new() }).unwrap()
}

#[test]
fn first_line_and_rest() {
    assert_eq!(split_first_line(""), None);
    assert_eq!(split_first_line("abc"), Some(("abc", "")));
    assert_eq!(split_first_line("abc\n"), Some(("abc", "")));
    assert_eq!(split_first_line("abc\ndef"), Some(("abc", "def")));
    assert_eq!(split_first_line("abc\r\ndef\r\n"), Some(("abc", "def\r\n")));
    assert_eq!(split_first_line("\n"), Some(("", "")));
    assert_eq!(split_first_line("\nabc"), Some(("", "abc")));
    assert_eq!(split_first_line("\r\nabc"), Some(("", "abc")));
    assert_eq!(split_first_line("abc\r"), Some(("abc\r", "")));
    assert_eq!(split_first_line("a\rb\nc"), Some(("a\rb", "c")));
    assert_eq!(split_first_line("abc\r\r\nd"), Some(("abc\r", "d")));
    assert_eq!(split_first_line("\u{e9}t\u{e9}\n\u{df}"), Some(("\u{e9}t\u{e9}", "\u{df}")));
}

#[test]
fn lines_are_those_of_the_standard_library() {
    let texts = [
        "",
        "a",
        "a\n",
        "a\nb",
        "a\nb\n",
        "a\r\nb\r\n",
        "\n",
        "\n\n",
        "\r\n",
        "\r",
        "a\r",
        "a\r\r\n",
        "a\n\rb",
        "foo\nbar\n\r\nbaz\r",
        "\n\na\n\n",
        "one two\n three \n",
        "\u{e9}\n\u{df}\u{20ac}\r\n\u{1f600}",
        "abc\u{85}def\n",
    ];
    for text in texts {
        assert_eq!(all_lines(text), text.lines().collect::<Vec<_>>());
    }
}

#[test]
fn blank_lines_are_left_out() {
    let reqs = blank(2);
    assert_eq!(reqs.filter_wordlist("ab\n\ncd\n\n\nef"), vec!["ab", "cd", "ef"]);
    assert_eq!(reqs.filter_wordlist("\n\n\n"), Vec::<&str>::new());
    assert_eq!(reqs.filter_wordlist(""), Vec::<&str>::new());
    assert_eq!(reqs.filter_wordlist("\r\nab\r\n\r\n"), vec!["ab"]);
}

#[test]
fn lines_with_blanks_or_other_bytes_are_left_out() {
    let reqs = blank(2);
    assert_eq!(reqs.filter_wordlist("ab\n a\nb \nc d\ncd\na\tb\nxy\r"), vec!["ab", "cd"]);
    assert_eq!(reqs.filter_wordlist("\u{e9}\nAB\nq1\n"), vec!["AB"]);
}

#[test]
fn filtering_a_list_is_filtering_its_lines() {
    let reqs = Requirement::try_from(Guesses {
        word_len: 3,
        val: vec![
            LetterGuess { color: GuessColor::Gray, char: b'x' },
            LetterGuess { color: GuessColor::Green, char: b'a' },
            LetterGuess { color: GuessColor::Yellow, char: b't' },
        ],
    })
    .unwrap();
    let list = "tab\r\ncat\nTAN\n\ntax\nbat\ntar\noat\ntart\nta\n";
    let expected: Vec<&str> = list.lines().filter(|word| reqs.applies_to(word)).collect();
    assert_eq!(expected, vec!["tab", "TAN", "tar"]);
    assert_eq!(reqs.filter_wordlist(list), expected);
    assert_eq!(reqs.filter_words(&list.lines().collect::<Vec<_>>()), expected);
}

#[test]
fn matches_come_one_at_a_time() {
    let reqs = blank(3);
    let list = "ab\nabc\n\nabcd\nDEF\r\nx\nghi";
    let (word, rest) = reqs.next_match(list).unwrap();
    assert_eq!((word, rest), ("abc", "\nabcd\nDEF\r\nx\nghi"));
    let (word, rest) = reqs.next_match(rest).unwrap();
    assert_eq!((word, rest), ("DEF", "x\nghi"));
    let (word, rest) = reqs.next_match(rest).unwrap();
    assert_eq!((word, rest), ("ghi", ""));
    assert_eq!(reqs.next_match(rest), None);
    assert_eq!(reqs.next_match("ab\nabcd\n"), None);
    // starting over gives the same words
    let mut found = Vec::new();
    let mut rest = list;
    while let Some((word, tail)) = reqs.next_match(rest) {
        found.push(word);
        rest = tail;
    }
    assert_eq!(found, reqs.filter_wordlist(list));
    assert_eq!(found, vec!["abc", "DEF", "ghi"]);
}

#[test]
fn no_match_is_an_empty_list() {
    let reqs = Requirement::try_from(Guesses {
        word_len: 2,
        val: vec![
            LetterGuess { color: GuessColor::Green, char: b'q' },
            LetterGuess { color: GuessColor::Green, char: b'q' },
        ],
    })
    .unwrap();
    assert!(reqs.filter_wordlist("ab\ncd\nqa\naq\n").is_empty());
    assert_eq!(reqs.filter_wordlist("ab\nqq\n"), vec!["qq"]);
}

#[test]
fn the_first_matches_are_the_start_of_all_matches() {
    let reqs = blank(3);
    let list = "ab\nabc\n\nabcd\nDEF\r\nx\nghi\njkl";
    let all = reqs.filter_wordlist(list);
    assert_eq!(all, vec!["abc", "DEF", "ghi", "jkl"]);
    for limit in 0..=6 {
        let found = reqs.first_matches(list, limit);
        assert_eq!(found, all[..limit.min(all.len())].to_vec());
    }
    assert_eq!(reqs.first_matches(list, 2), vec!["abc", "DEF"]);
    assert_eq!(reqs.first_matches(list, usize::MAX), all);
    assert_eq!(reqs.first_matches("", 3), Vec::<&str>::new());
    assert_eq!(reqs.first_matches("ab\nabcd\n", 3), Vec::<&str>::new());
}
