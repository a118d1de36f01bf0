use word_counter::count::{count_words, WordCount};
use word_counter::merge::{count_texts, merge_all};
use word_counter::text::normalize;
use word_counter::top::top_words;

fn listing(wc: &WordCount) -> Vec<(String, usize)> {
    top_words(wc, usize::MAX)
}

fn pairs(items: &[(&str, usize)]) -> Vec<(String, usize)> {
    items.iter().map(|(w, c)| (w.to_string(), *c)).collect()
}

#[test]
fn trailing_comma_and_case_share_a_key() {
    assert_eq!(normalize("Hello,"), "hello");
    assert_eq!(normalize("hello"), "hello");
    let wc = count_words("Hello, hello");
    assert_eq!(wc.get("hello"), 2);
    assert_eq!(wc.len(), 1);
}

#[test]
fn punctuation_only_token_counts_as_empty_word() {
    assert_eq!(normalize("--"), "");
    let wc = count_words("-- word --");
    assert_eq!(wc.get(""), 2);
    assert_eq!(wc.get("word"), 1);
    assert_eq!(wc.len(), 2);
}

#[test]
fn unreadable_file_contributes_nothing() {
    let alone = count_texts(&vec!["the cat".to_string()]).unwrap();
    let with_missing = count_texts(&vec!["the cat".to_string(), String::new()]).unwrap();
    assert_eq!(listing(&alone), listing(&with_missing));
    assert!(count_words("").is_empty());
}

#[test]
fn two_files_are_summed_word_by_word() {
    let wc = count_texts(&vec!["the cat sat".to_string(), "the dog sat".to_string()]).unwrap();
    assert_eq!(wc.get("the"), 2);
    assert_eq!(wc.get("cat"), 1);
    assert_eq!(wc.get("sat"), 2);
    assert_eq!(wc.get("dog"), 1);
    assert_eq!(wc.len(), 4);
}

#[test]
fn shouted_greetings_fold_into_one_word() {
    let wc = count_words("Hi! Hi? HI.");
    assert_eq!(listing(&wc), pairs(&[("hi", 3)]));
}

#[test]
fn top_ten_of_four_words_lists_four() {
    let wc = count_texts(&vec!["the cat sat".to_string(), "the dog sat".to_string()]).unwrap();
    let top = top_words(&wc, 10);
    assert_eq!(top.len(), 4);
    assert_eq!(top, pairs(&[("sat", 2), ("the", 2), ("cat", 1), ("dog", 1)]));
}

#[test]
fn top_words_cuts_at_n() {
    let wc = count_words("b a b c c c");
    assert_eq!(top_words(&wc, 2), pairs(&[("c", 3), ("b", 2)]));
    assert!(top_words(&wc, 0).is_empty());
}

#[test]
fn merge_order_does_not_matter() {
    let a = count_words("one two two");
    let b = count_words("two three");
    let forward = merge_all(&vec![count_words("one two two"), count_words("two three")]).unwrap();
    let backward = merge_all(&vec![count_words("two three"), count_words("one two two")]).unwrap();
    assert_eq!(listing(&forward), listing(&backward));
    let mut x = WordCount::new();
    assert!(x.merge(&a));
    assert!(x.merge(&b));
    assert_eq!(listing(&x), listing(&forward));
    assert_eq!(forward.get("two"), 3);
}

#[test]
fn merge_that_would_overflow_changes_nothing() {
    let mut big = WordCount::new();
    big.add("x".to_string(), usize::MAX);
    let one = count_words("x y");
    assert!(!big.merge(&one));
    assert_eq!(big.get("x"), usize::MAX);
    assert_eq!(big.get("y"), 0);
    assert_eq!(big.len(), 1);
    assert!(merge_all(&vec![big, count_words("x")]).is_none());
}

#[test]
fn merging_nothing_gives_an_empty_count() {
    assert!(merge_all(&Vec::new()).unwrap().is_empty());
    assert!(count_texts(&Vec::new()).unwrap().is_empty());
}

#[test]
fn inner_punctuation_is_kept() {
    assert_eq!(normalize("\"Don't!\""), "don't");
    assert_eq!(normalize("(x)"), "x");
    assert_eq!(normalize("e-mail"), "e-mail");
}

#[test]
fn lowercasing_reaches_beyond_ascii() {
    assert_eq!(normalize("ÜBER"), "über");
    assert_eq!(normalize("ABC"), "abc");
}

#[test]
fn every_kind_of_whitespace_separates() {
    let wc = count_words("a\tb\n\nc  a\r\nb");
    assert_eq!(listing(&wc), pairs(&[("a", 2), ("b", 2), ("c", 1)]));
}

#[test]
fn digits_count_as_word_characters() {
    let wc = count_words("2024. 2024, (2024)");
    assert_eq!(wc.get("2024"), 3);
}

#[test]
fn adding_to_a_word_accumulates() {
    let mut wc = WordCount::new();
    wc.add("w".to_string(), 2);
    wc.add("w".to_string(), 5);
    assert_eq!(wc.get("w"), 7);
    assert_eq!(wc.to_vec(), pairs(&[("w", 7)]));
}

#[test]
fn three_texts_in_any_order_agree() {
    let texts = ["a b a", "b c", "c c d!"];
    let orders = [[0, 1, 2], [2, 0, 1], [1, 2, 0], [2, 1, 0]];
    let first = count_texts(&texts.iter().map(|t| t.to_string()).collect()).unwrap();
    for order in orders {
        let parts: Vec<WordCount> = order.iter().map(|&i| count_words(texts[i])).collect();
        let merged = merge_all(&parts).unwrap();
        assert_eq!(listing(&merged), listing(&first));
    }
    assert_eq!(listing(&first), pairs(&[("c", 3), ("a", 2), ("b", 2), ("d", 1)]));
}

#[test]
fn a_text_of_one_punctuation_token_has_one_empty_word() {
    let wc = count_words("...");
    assert_eq!(listing(&wc), pairs(&[("", 1)]));
}
