use voxtype_benchmark::distance::edit_distance;
use voxtype_benchmark::recording::PASSAGE;
use voxtype_benchmark::words::{
    normalize_words, split_words, unquote, word_error_rate, WordErrorRate,
};

fn rate(reference: &str, hypothesis: &str) -> f64 {
    let w = word_error_rate(reference, hypothesis);
    w.errors as f64 / w.words as f64
}

fn words(text: &str) -> Vec<String> {
    text.split(' ').map(|w| w.to_string()).collect()
}

#[test]
fn word_error_rate_ignores_case_and_punctuation() {
    assert_eq!(rate("Hello, world.", "hello world"), 0.0);
    assert_eq!(rate("one two three four", "one too three four"), 0.25);
    assert_eq!(rate("one two three four", "one three four"), 0.25);
    assert_eq!(rate("one two", "one two three"), 0.5);
    assert_eq!(rate("one two", ""), 1.0);
    assert_eq!(rate("", ""), 0.0);
}

#[test]
fn passage_scores_itself_perfectly() {
    assert_eq!(rate(PASSAGE, PASSAGE), 0.0);
    assert_eq!(word_error_rate(PASSAGE, PASSAGE), WordErrorRate { errors: 0, words: 40 });
}

#[test]
fn rate_counts_errors_over_reference_words() {
    assert_eq!(
        word_error_rate("a b c", "x y z w"),
        WordErrorRate { errors: 4, words: 3 }
    );
    assert_eq!(
        word_error_rate("kitten sat on mats", "on mats sat kitten"),
        WordErrorRate { errors: 4, words: 4 }
    );
}

#[test]
fn empty_reference_is_all_or_nothing() {
    assert_eq!(word_error_rate("...", "!"), WordErrorRate { errors: 0, words: 1 });
    assert_eq!(
        word_error_rate("", "some words here"),
        WordErrorRate { errors: 1, words: 1 }
    );
}

#[test]
fn words_keep_digits_and_apostrophes() {
    assert_eq!(
        normalize_words("  Don't STOP; it's 2nd-rate!"),
        vec!["don't", "stop", "it's", "2nd", "rate"]
    );
    assert_eq!(normalize_words(""), Vec::<String>::new());
    assert_eq!(normalize_words(" ,.; "), Vec::<String>::new());
}

#[test]
fn words_beyond_ascii_go_by_unicode() {
    assert_eq!(
        normalize_words("L'ÉCOLE — Straße, ΟΔΟΣ"),
        vec!["l'école", "straße", "οδος"]
    );
    assert_eq!(normalize_words("京都。Ⅷ²"), vec!["京都", "ⅷ²"]);
}

#[test]
fn split_words_keeps_case() {
    assert_eq!(split_words("Ab,Cd"), vec!["Ab", "Cd"]);
}

#[test]
fn words_agree_with_splitting_by_class() {
    let texts = [
        "plain words",
        "a--b  c\td\ne",
        "'quoted' words' and 'more",
        "ǅ ﬁ İstanbul ΑΣ. ΑΣΑ",
        "emoji 🙂 between",
        "tail;",
    ];
    for text in texts {
        let expected: Vec<String> = text
            .to_lowercase()
            .split(|c: char| !(c.is_alphanumeric() || c == '\''))
            .filter(|w| !w.is_empty())
            .map(str::to_string)
            .collect();
        assert_eq!(normalize_words(text), expected);
    }
}

#[test]
fn distance_on_small_sequences() {
    assert_eq!(edit_distance(&vec![], &vec![]), 0);
    assert_eq!(edit_distance(&vec![], &words("a b")), 2);
    assert_eq!(edit_distance(&words("a b"), &vec![]), 2);
    assert_eq!(
        edit_distance(&words("k i t t e n"), &words("s i t t i n g")),
        3
    );
    assert_eq!(
        edit_distance(&words("s i t t i n g"), &words("k i t t e n")),
        3
    );
    assert_eq!(edit_distance(&words("a b c"), &words("a b c")), 0);
}

#[test]
fn separators_only_split() {
    let with_comma = normalize_words("left,right");
    let with_dash = normalize_words("left-right");
    assert_eq!(with_comma, with_dash);
    let mut joined = normalize_words("left");
    joined.extend(normalize_words("right"));
    assert_eq!(with_comma, joined);
}

#[test]
fn case_does_not_matter() {
    assert_eq!(rate("One TWO three", "oNE two THREE"), 0.0);
}

#[test]
fn quotation_marks_are_ignored() {
    assert_eq!(rate("hello world", "'hello' world"), 0.0);
    assert_eq!(rate("'hello' world", "hello world"), 0.0);
    assert_eq!(rate("she said 'one two' twice", "She said: ''One two'', twice '"), 0.0);
    assert_eq!(
        word_error_rate("don't stop", "dont stop"),
        WordErrorRate { errors: 1, words: 2 }
    );
    assert_eq!(word_error_rate("'", "''"), WordErrorRate { errors: 0, words: 1 });
    assert_eq!(word_error_rate("' '", "word"), WordErrorRate { errors: 1, words: 1 });
}

#[test]
fn only_outer_apostrophes_go() {
    let given: Vec<String> = normalize_words("'don't' ' ''rock'n'roll'' plain dogs'");
    assert_eq!(unquote(&given), vec!["don't", "rock'n'roll", "plain", "dogs"]);
}

#[test]
fn words_of_joined_texts_beyond_ascii() {
    let (a, b) = ("ΟΔΥΣΣΕΥΣ Éa", "Σίσυφος, İx");
    let mut joined = normalize_words(a);
    joined.extend(normalize_words(b));
    assert_eq!(normalize_words(&format!("{} {}", a, b)), joined);
    assert_eq!(normalize_words(&a.to_ascii_uppercase()), normalize_words(a));
}
