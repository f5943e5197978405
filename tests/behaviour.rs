use std::str::FromStr;
use tonal_distance::{
    join_paragraphs, lines_of, mark_up, rebuild, rebuild_run, report, split_on, split_text_into_words,
    tell_you_how_bad, Response, ResponseType, Run, Word,
};

fn joined(words: &[Word]) -> String {
    words.iter().map(|w| w.original_word.clone()).collect()
}

fn flags(words: &[Word]) -> Vec<bool> {
    words.iter().map(|w| w.repeated).collect()
}

fn analyse(text: &str, stops: &[&str], lookahead: usize) -> Vec<Word> {
    let stops = stops.iter().map(|s| s.to_string()).collect();
    mark_up(split_text_into_words(String::from(text)), stops, lookahead)
}

#[test]
fn words_give_back_the_text() {
    let text = "Hello, world! It's   fine.\n\nNew para_graph ends here...";
    let words = split_text_into_words(String::from(text));
    assert_eq!(joined(&words), text);
    let pure: Vec<&str> = words.iter().map(|w| w.pure_word.as_str()).collect();
    assert_eq!(pure, vec!["hello", "world", "it's", "fine", "new", "para_graph", "ends", "here"]);
    for (i, w) in words.iter().enumerate() {
        assert_eq!(w.word_position, i as u32);
        assert!(!w.repeated);
    }
}

#[test]
fn leading_filler_is_not_covered() {
    let words = split_text_into_words(String::from("  -- hi there"));
    assert_eq!(joined(&words), "hi there");
    let only_filler = split_text_into_words(String::from(" ,.-\n"));
    assert!(only_filler.is_empty());
}

#[test]
fn apostrophes_stay_in_words() {
    let words = split_text_into_words(String::from("dogs' bark, '''it's' ok"));
    let originals: Vec<&str> = words.iter().map(|w| w.original_word.as_str()).collect();
    assert_eq!(originals, vec!["dogs' ", "bark, '''", "it's' ", "ok"]);
    let pure: Vec<&str> = words.iter().map(|w| w.pure_word.as_str()).collect();
    assert_eq!(pure, vec!["dogs'", "bark", "it's'", "ok"]);
}

#[test]
fn non_ascii_words_are_lowercased() {
    let words = split_text_into_words(String::from("Été CAFÉ naïve Straße"));
    let pure: Vec<&str> = words.iter().map(|w| w.pure_word.as_str()).collect();
    assert_eq!(pure, vec!["été", "café", "naïve", "straße"]);
    assert_eq!(words[1].original_word, "CAFÉ ");
}

#[test]
fn paragraphs_count_line_breaks_before_the_word() {
    let words = split_text_into_words(String::from("a\n\nb c\nd"));
    let paragraphs: Vec<u32> = words.iter().map(|w| w.paragraph).collect();
    assert_eq!(paragraphs, vec![0, 1, 1, 2]);
}

#[test]
fn runs_give_back_the_text_and_alternate() {
    let text = "one two one three three four two";
    let words = analyse(text, &[], 2);
    let runs = rebuild_run(words.clone());
    let all: String = runs.iter().map(|r| r.text.clone()).collect();
    assert_eq!(all, joined(&words));
    assert_eq!(all, text);
    for pair in runs.windows(2) {
        assert_ne!(pair[0].repeated, pair[1].repeated);
    }
    assert!(rebuild_run(vec![]).is_empty());
}

#[test]
fn stop_words_are_never_flagged() {
    let words = analyse("the cat the cat The", &["the"], 10);
    assert_eq!(flags(&words), vec![false, true, false, true, false]);
}

#[test]
fn match_at_the_edge_of_the_window_flags_both() {
    let words = analyse("a b c a", &[], 3);
    assert_eq!(flags(&words), vec![true, false, false, true]);
    let words = analyse("a b c a", &[], 2);
    assert_eq!(flags(&words), vec![false, false, false, false]);
}

#[test]
fn case_does_not_matter_for_matching() {
    let words = analyse("Snow fell. snow SNOW", &[], 1);
    assert_eq!(flags(&words), vec![false, false, true, true]);
}

#[test]
fn mark_up_is_deterministic_and_idempotent() {
    let first = analyse("to be or not to be that is", &["is"], 4);
    let second = analyse("to be or not to be that is", &["is"], 4);
    assert_eq!(first, second);
    let again = mark_up(first.clone(), vec![String::from("is")], 4);
    assert_eq!(again, first);
    assert_eq!(flags(&first), vec![true, true, false, false, true, true, false, false]);
}

#[test]
fn zero_lookahead_flags_nothing() {
    let words = analyse("same same same", &[], 0);
    assert_eq!(flags(&words), vec![false, false, false]);
}

#[test]
fn fewer_than_two_words_flag_nothing() {
    assert_eq!(flags(&analyse("alone", &[], 100)), vec![false]);
    assert!(analyse("", &[], 100).is_empty());
}

#[test]
fn flags_already_set_are_kept() {
    let mut words = split_text_into_words(String::from("x y"));
    words[0].repeated = true;
    let marked = mark_up(words, vec![], 5);
    assert_eq!(flags(&marked), vec![true, false]);
}

#[test]
fn scenario_here_i_am_here() {
    let words = analyse("here\nI'm here-\nthe snow falling", &[], 10);
    assert_eq!(flags(&words), vec![true, false, true, false, false, false]);
    let runs = rebuild_run(words);
    let expected = vec![
        Run { text: String::from("here\n"), repeated: true },
        Run { text: String::from("I'm "), repeated: false },
        Run { text: String::from("here-\n"), repeated: true },
        Run { text: String::from("the snow falling"), repeated: false },
    ];
    assert_eq!(runs, expected);
}

#[test]
fn rebuild_marks_repeated_words() {
    let words = analyse("a b a", &[], 5);
    assert_eq!(rebuild(words, true), "#a b #a");
}

fn flagged_word(pure: &str, original: &str, position: u32, paragraph: u32) -> Word {
    Word {
        pure_word: String::from(pure),
        original_word: String::from(original),
        repeated: true,
        word_position: position,
        paragraph,
    }
}

fn column_of(line: &str, needle: &str) -> Option<usize> {
    let chars: Vec<char> = line.chars().collect();
    let n: Vec<char> = needle.chars().collect();
    chars.windows(n.len()).position(|win| win == n.as_slice())
}

#[test]
fn represent_pads_by_the_normalized_word() {
    let long = flagged_word("extraordinarilylongword", "Extraordinarilylongword, ", 41, 9);
    assert_eq!(
        long.represent(),
        format!(
            "Word: Extraordinarilylongword,  Paragraph: 10{}Word Position: 42",
            " ".repeat(18)
        )
    );
    let accented = flagged_word("été", "été", 0, 123);
    assert_eq!(
        accented.represent(),
        format!("Word: été{}Paragraph: 124{}Word Position: 1", " ".repeat(15), " ".repeat(17))
    );
}

#[test]
fn represent_keeps_fixed_columns() {
    let words = [
        flagged_word("a", "a ", 0, 0),
        flagged_word("b", "B\n", 99, 9),
        flagged_word("internationalization", "internationalization ", 7, 99),
        flagged_word("abcdefghijklmnopqr", "Abcdefghijklmnopqr\r", 123456, 4),
    ];
    for w in words.iter() {
        let line = w.represent();
        assert_eq!(column_of(&line, "Paragraph: "), Some(27));
        assert_eq!(column_of(&line, "Word Position: "), Some(58));
    }
}

#[test]
fn represent_shows_line_breaks_as_spaces() {
    let w = flagged_word("here", "here-\r\n", 2, 1);
    assert_eq!(
        w.represent(),
        format!("Word: here-  {}Paragraph: 2{}Word Position: 3", " ".repeat(16), " ".repeat(19))
    );
}

#[test]
fn report_has_one_line_per_repeated_word() {
    let words = analyse("here\nI'm here-\nthe snow falling", &[], 10);
    let text = report(&words);
    let lines: Vec<&str> = text.split('\n').collect();
    assert_eq!(
        lines,
        vec![
            format!("Word: here {}Paragraph: 1{}Word Position: 1", " ".repeat(16), " ".repeat(19)),
            format!("Word: here- {}Paragraph: 2{}Word Position: 3", " ".repeat(16), " ".repeat(19)),
        ]
    );
}

#[test]
fn lines_of_follows_line_endings() {
    assert_eq!(lines_of("the\nand\n"), vec!["the", "and"]);
    assert_eq!(lines_of("a\r\nb\r"), vec!["a", "b\r"]);
    assert_eq!(lines_of("one\n\ntwo"), vec!["one", "", "two"]);
    assert!(lines_of("").is_empty());
}

#[test]
fn report_is_empty_without_repeats() {
    let words = analyse("all different words here", &[], 10);
    assert_eq!(report(&words), "");
}

#[test]
fn report_lists_repeated_words_in_order() {
    let words = analyse("go go\nstop", &[], 10);
    assert_eq!(
        report(&words),
        format!(
            "Word: go {}Paragraph: 1{}Word Position: 1\nWord: go{}Paragraph: 1{}Word Position: 2",
            " ".repeat(18),
            " ".repeat(19),
            " ".repeat(19),
            " ".repeat(19)
        )
    );
}

#[test]
fn split_on_keeps_empty_pieces() {
    assert_eq!(split_on("a,b,,c", ','), vec!["a", "b", "", "c"]);
    assert_eq!(split_on("", ','), vec![""]);
    assert_eq!(split_on("the\nand\n", '\n'), vec!["the", "and", ""]);
}

#[test]
fn join_paragraphs_puts_one_break_between() {
    let parts = vec![String::from("here"), String::from("I'm here-"), String::from("the snow falling")];
    assert_eq!(join_paragraphs(&parts), "here\nI'm here-\nthe snow falling");
    assert_eq!(join_paragraphs(&vec![]), "");
}

#[test]
fn response_type_names() {
    assert_eq!(ResponseType::from_name("raw"), Some(ResponseType::Raw));
    assert_eq!(ResponseType::from_name("formatted"), Some(ResponseType::Formatted));
    assert_eq!(ResponseType::from_name("Raw"), None);
    assert_eq!(ResponseType::from_str("formatted"), Ok(ResponseType::Formatted));
    assert!(ResponseType::from_str("report").is_err());
}

#[test]
fn whole_analysis_honours_stop_words() {
    let res = tell_you_how_bad(String::from("and then and then"), 5, vec![String::from("and")], ResponseType::Raw);
    match res {
        Response::VecOfRuns(runs) => assert_eq!(
            runs,
            vec![
                Run { text: String::from("and "), repeated: false },
                Run { text: String::from("then "), repeated: true },
                Run { text: String::from("and "), repeated: false },
                Run { text: String::from("then"), repeated: true },
            ]
        ),
        Response::Str(_) => panic!(),
    }
}
