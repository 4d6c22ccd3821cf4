use files_ui::saved_state::{epoch, locate_fold, locate_folds, saved_fold, SavedFold};
use std::time::{Duration, UNIX_EPOCH};

const SOURCE: &str =
    "fn main() {\n    let a = 1;\n    let b = 2;\n}\n\nfn other() {\n    call();\n}\n";

#[test]
fn a_fold_is_found_again_after_the_file_changed() {
    let start = SOURCE.find("{\n    call").unwrap() + 1;
    let fold = start..SOURCE.len() - 2;
    let saved = saved_fold(SOURCE, fold.start, fold.end);
    assert_eq!(locate_fold(SOURCE, &saved, 0), Some((fold.start, fold.end)));
    let prefix = "// header\n";
    let moved = format!("{prefix}{SOURCE}");
    let shift = prefix.chars().count();
    assert_eq!(
        locate_fold(&moved, &saved, 0),
        Some((fold.start + shift, fold.end + shift))
    );
}

#[test]
fn fingerprints_keep_up_to_thirty_two_chars_from_each_end() {
    let text: String = ('a'..='z').chain('A'..='Z').chain('0'..='9').collect();
    let saved = saved_fold(&text, 2, 60);
    assert_eq!(saved.start_text, text[2..34]);
    assert_eq!(saved.end_text, text[28..60]);
    let short = saved_fold(&text, 5, 9);
    assert_eq!((short.start_text.as_str(), short.end_text.as_str()), ("fghi", "fghi"));
}

#[test]
fn folds_that_cannot_be_found_are_dropped_and_repeats_keep_their_order() {
    let text = "ab{x}ab{x}";
    let braces = || SavedFold {
        start: 50,
        end: 55,
        start_text: "{".to_string(),
        end_text: "}".to_string(),
    };
    let gone = SavedFold {
        start: 0,
        end: 3,
        start_text: "zz".to_string(),
        end_text: "q".to_string(),
    };
    let same = SavedFold {
        start: 0,
        end: 2,
        start_text: "ab".to_string(),
        end_text: "ab".to_string(),
    };
    let found = locate_folds(text, &vec![braces(), gone, braces()]);
    assert_eq!(found, vec![(2, 5), (7, 10)]);
    assert_eq!(locate_fold(text, &same, 3), Some((0, 2)));
    let moved_same = SavedFold { start: 1, ..same };
    assert_eq!(locate_fold(text, &moved_same, 3), Some((5, 6)));
}

#[test]
fn disk_times_count_from_the_epoch() {
    let t = UNIX_EPOCH + Duration::new(1_700_000_000, 250);
    assert_eq!(epoch(t), Some((1_700_000_000, 250)));
    assert_eq!(epoch(UNIX_EPOCH - Duration::from_secs(1)), None);
}

#[test]
fn a_reversed_fold_is_still_looked_for() {
    let text = "abcdefgh";
    // Its start text stands at 5 and its end text ends at 2: it comes back as saved.
    let reversed = SavedFold { start: 5, end: 2, start_text: "fg".into(), end_text: "ab".into() };
    assert_eq!(locate_fold(text, &reversed, 0), Some((5, 2)));
    // Moved: found by its texts, the end text after the start text.
    let moved = SavedFold { start: 6, end: 1, start_text: "cd".into(), end_text: "gh".into() };
    assert_eq!(locate_fold(text, &moved, 0), Some((2, 8)));
}
