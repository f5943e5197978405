use tonal_distance::{
    mark_up, rebuild, rebuild_run, split_text_into_words, tell_you_how_bad, Response,
    ResponseType, Run, Word,
};

fn word(pure: &str, original: &str, repeated: bool, position: u32, paragraph: u32) -> Word {
    Word {
        pure_word: String::from(pure),
        paragraph,
        repeated,
        original_word: String::from(original),
        word_position: position,
    }
}

fn sample_words() -> Vec<Word> {
    vec![
        word("here", "here\n", false, 0, 0),
        word("i'm", "I'm ", false, 1, 1),
        word("here", "here-\n", false, 2, 1),
        word("the", "the ", false, 3, 2),
        word("snow", "snow ", false, 4, 2),
        word("falling", "falling", false, 5, 2),
    ]
}

fn sample_marked() -> Vec<Word> {
    vec![
        word("here", "here\n", true, 0, 0),
        word("i'm", "I'm ", false, 1, 1),
        word("here", "here-\n", true, 2, 1),
        word("the", "the ", false, 3, 2),
        word("snow", "snow ", false, 4, 2),
        word("falling", "falling", false, 5, 2),
    ]
}

fn sample_runs() -> Vec<Run> {
    vec![
        Run {
            text: String::from("here\n"),
            repeated: true,
        },
        Run {
            text: String::from("I'm "),
            repeated: false,
        },
        Run {
            text: String::from("here-\n"),
            repeated: true,
        },
        Run {
            text: String::from("the snow falling"),
            repeated: false,
        },
    ]
}

const PASSAGE: &str = "yes and drew him down to me so he could feel my breasts all perfume yes and his heart was going like mad and yes I said yes I will Yes.";

#[test]
fn lib_test_splitting_text_into_words() {
    let word_vec = split_text_into_words(String::from("here\nI'm here-\nthe snow falling"));
    assert_eq!(word_vec, sample_words());
}

#[test]
fn lib_test_splitting_nothin() {
    let word_vec = split_text_into_words(String::from(""));
    assert_eq!(word_vec, vec![]);
}

#[test]
fn lib_test_markup() {
    let marked_up_vec = mark_up(sample_words(), vec![], 10);
    assert_eq!(marked_up_vec, sample_marked());
}

#[test]
fn test_rebuilding() {
    let rebuilt_string = rebuild(sample_words(), false);
    assert_eq!(rebuilt_string, "here\nI'm here-\nthe snow falling");
}

#[test]
fn lib_test_rebuild_a_run() {
    let rebuilt_run = rebuild_run(sample_marked());
    assert_eq!(rebuilt_run, sample_runs());
}

#[test]
fn tests_test_splitting_text_into_words() {
    let word_vec = split_text_into_words(String::from("here\nI'm here-\nthe snow falling"));
    assert_eq!(word_vec, sample_words());
}

#[test]
fn tests_test_splitting_nothin() {
    let word_vec = split_text_into_words(String::from(""));
    assert_eq!(word_vec, vec![]);
}

#[test]
fn tests_test_markup() {
    let marked_up_vec = mark_up(sample_words(), vec![], 10);
    assert_eq!(marked_up_vec, sample_marked());
}

#[test]
fn tests_test_rebuild_a_run() {
    let rebuilt_run = rebuild_run(sample_marked());
    assert_eq!(rebuilt_run, sample_runs());
}

#[test]
fn raw_report_on_a_file() {
    let content = String::from(PASSAGE);
    let stop_words: Vec<String> = vec![];
    let res = tell_you_how_bad(content, 50, stop_words, ResponseType::Raw);
    let expected = vec![
        ("yes and ", true),
        ("drew him down to me so he could feel my breasts all perfume ", false),
        ("yes and ", true),
        ("his heart was going like mad ", false),
        ("and yes I ", true),
        ("said ", false),
        ("yes I ", true),
        ("will ", false),
        ("Yes.", true),
    ]
    .into_iter()
    .map(|(text, repeated)| Run {
        text: String::from(text),
        repeated,
    })
    .collect::<Vec<Run>>();
    match res {
        Response::VecOfRuns(resp) => assert_eq!(resp, expected),
        _ => panic!(),
    }
}

#[test]
fn formatted_report_on_a_file() {
    let content = String::from(PASSAGE);
    let stop_words: Vec<String> = vec![];
    let res = tell_you_how_bad(content, 50, stop_words, ResponseType::Formatted);
    match res {
        Response::Str(resp) => assert_eq!(
            resp,
            "Word: yes                  Paragraph: 1                   Word Position: 1\nWord: and                  Paragraph: 1                   Word Position: 2\nWord: yes                  Paragraph: 1                   Word Position: 16\nWord: and                  Paragraph: 1                   Word Position: 17\nWord: and                  Paragraph: 1                   Word Position: 24\nWord: yes                  Paragraph: 1                   Word Position: 25\nWord: I                    Paragraph: 1                   Word Position: 26\nWord: yes                  Paragraph: 1                   Word Position: 28\nWord: I                    Paragraph: 1                   Word Position: 29\nWord: Yes.                 Paragraph: 1                   Word Position: 31"
        ),
        _ => panic!(),
    }
}
