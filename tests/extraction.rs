use rake::ranking::{rank, Scored};
use rake::scoring::Candidate;
use rake::{Rake, StopWords};

fn stop(words: &[&str]) -> StopWords {
    StopWords::from_words(words.iter().map(|w| w.to_string()).collect())
}

fn extractor(words: &[&str]) -> Rake {
    Rake::new(stop(words))
}

fn score(c: &Candidate) -> f64 {
    c.terms
        .iter()
        .fold(0.0f64, |acc, t| acc + (t.degree + t.freq as u128) as f64 / t.freq as f64)
}

fn find<'a>(cands: &'a [Candidate], key: &str) -> &'a Candidate {
    cands.iter().find(|c| c.keyword == key).expect("candidate missing")
}

fn phrases_as_strs(p: &[Vec<String>]) -> Vec<Vec<&str>> {
    p.iter().map(|ph| ph.iter().map(|w| w.as_str()).collect()).collect()
}

#[test]
fn empty_text_has_no_candidates() {
    let r = extractor(&["and"]);
    let c = r.candidates("").unwrap();
    assert!(c.is_empty());
    assert!(r.phrases("").is_empty());
    assert!(r.candidates("   \t  ").unwrap().is_empty());
}

#[test]
fn text_with_a_content_word_has_a_candidate() {
    let r = extractor(&["the", "and"]);
    let c = r.candidates("the and cat and the").unwrap();
    assert_eq!(c.len(), 1);
    assert_eq!(c[0].keyword, "cat");
}

#[test]
fn only_stopwords_give_nothing() {
    let r = extractor(&["the", "and"]);
    assert!(r.candidates("the and THE").unwrap().is_empty());
}

#[test]
fn single_word_scores_one() {
    let r = extractor(&["and"]);
    let c = r.candidates("hello").unwrap();
    assert_eq!(c.len(), 1);
    assert_eq!(c[0].keyword, "hello");
    assert_eq!(c[0].terms.len(), 1);
    assert_eq!(c[0].terms[0].freq, 1);
    assert_eq!(c[0].terms[0].degree, 0);
    assert_eq!(score(&c[0]), 1.0);
}

#[test]
fn two_word_phrase_scores_four() {
    let r = extractor(&["and"]);
    let p = r.phrases("quick fox");
    let w = r.word_scores(&p);
    assert_eq!(w.len(), 2);
    for e in &w {
        assert_eq!(e.freq, 1);
        assert_eq!(e.degree, 1);
    }
    let c = r.candidates("quick fox").unwrap();
    assert_eq!(c.len(), 1);
    assert_eq!(c[0].keyword, "quick fox");
    assert_eq!(score(&c[0]), 4.0);
}

#[test]
fn numeric_phrase_has_no_word_entry_and_scores_zero() {
    let r = extractor(&["and"]);
    let p = r.phrases("12 34");
    assert_eq!(phrases_as_strs(&p), vec![vec!["12", "34"]]);
    assert!(r.word_scores(&p).is_empty());
    let c = r.candidates("12 34").unwrap();
    assert_eq!(c.len(), 1);
    assert_eq!(c[0].keyword, "12 34");
    assert!(c[0].terms.is_empty());
    assert_eq!(score(&c[0]), 0.0);
}

#[test]
fn numbers_inside_a_phrase_stay_in_the_key_and_add_nothing() {
    let r = extractor(&["and"]);
    let c = r.candidates("version 2 release").unwrap();
    assert_eq!(c.len(), 1);
    assert_eq!(c[0].keyword, "version 2 release");
    assert_eq!(c[0].terms.len(), 2);
    assert_eq!(score(&c[0]), 4.0);
}

#[test]
fn numbers_get_no_word_entry() {
    let r = extractor(&[]);
    let p = r.phrases("12 fox 34 dog");
    let w = r.word_scores(&p);
    let words: Vec<&str> = w.iter().map(|e| e.word.as_str()).collect();
    assert_eq!(words, vec!["fox", "dog"]);
    for e in &w {
        assert_eq!(e.freq, 1);
        assert_eq!(e.degree, 1);
    }
}

#[test]
fn stopword_splits_a_segment() {
    let r = extractor(&["and"]);
    let p = r.phrases("quick brown and lazy dog");
    assert_eq!(phrases_as_strs(&p), vec![vec!["quick", "brown"], vec!["lazy", "dog"]]);
}

#[test]
fn stopwords_match_in_any_case() {
    let r = extractor(&["the"]);
    assert!(r.is_stopword("The"));
    assert!(r.is_stopword("THE"));
    assert!(!r.is_stopword("then"));
    let p = r.phrases("The Cat");
    assert_eq!(phrases_as_strs(&p), vec![vec!["Cat"]]);
}

#[test]
fn punctuation_splits_and_hyphenated_words_stay() {
    let r = extractor(&["of"]);
    let p = r.phrases("red fox, lazy dog. state-of-the-art work - new plan");
    assert_eq!(
        phrases_as_strs(&p),
        vec![
            vec!["red", "fox"],
            vec!["lazy", "dog"],
            vec!["state-of-the-art", "work"],
            vec!["new", "plan"],
        ]
    );
}

#[test]
fn repeated_word_scores_by_degree_and_frequency() {
    let r = extractor(&["and"]);
    let c = r.candidates("deep learning. deep sea").unwrap();
    assert_eq!(c.len(), 2);
    let dl = find(&c, "deep learning");
    // deep: freq 2, degree 2 -> 2.0; learning: freq 1, degree 1 -> 2.0
    assert_eq!(dl.terms[0].freq, 2);
    assert_eq!(dl.terms[0].degree, 2);
    assert_eq!(score(dl), 4.0);
    assert_eq!(score(find(&c, "deep sea")), 4.0);
}

#[test]
fn repeated_phrase_is_one_candidate() {
    let r = extractor(&["and"]);
    let c = r.candidates("red fox. red fox and fox").unwrap();
    assert_eq!(c.len(), 2);
    let rf = find(&c, "red fox");
    // red: freq 2, degree 2; fox: freq 3, degree 2
    assert_eq!(score(rf), 2.0 + 5.0 / 3.0);
    assert_eq!(score(find(&c, "fox")), 5.0 / 3.0);
}

#[test]
fn join_uses_single_spaces() {
    let p = vec!["a".to_string(), "B".to_string(), "c".to_string()];
    assert_eq!(rake::scoring::join_phrase(&p), "a B c");
    assert_eq!(rake::scoring::join_phrase(&Vec::new()), "");
}

fn scored(k: &str, s: u64) -> Scored {
    Scored { keyword: k.to_string(), score: s }
}

#[test]
fn ranking_is_by_score_then_keyword() {
    let items = vec![scored("b", 2), scored("a", 5), scored("c", 2), scored("a", 2), scored("z", 9)];
    let r = rank(&items);
    let got: Vec<(&str, u64)> = r.iter().map(|s| (s.keyword.as_str(), s.score)).collect();
    assert_eq!(got, vec![("z", 9), ("a", 5), ("a", 2), ("b", 2), ("c", 2)]);
    for w in r.windows(2) {
        assert!(w[0].score >= w[1].score);
    }
}

#[test]
fn ranking_of_nothing_is_nothing() {
    assert!(rank(&Vec::new()).is_empty());
}

#[test]
fn ranking_does_not_depend_on_input_order() {
    let a = rank(&vec![scored("x", 1), scored("ab", 1), scored("a", 1)]);
    let b = rank(&vec![scored("a", 1), scored("x", 1), scored("ab", 1)]);
    let ka: Vec<&str> = a.iter().map(|s| s.keyword.as_str()).collect();
    let kb: Vec<&str> = b.iter().map(|s| s.keyword.as_str()).collect();
    assert_eq!(ka, vec!["a", "ab", "x"]);
    assert_eq!(ka, kb);
}

#[test]
fn running_twice_gives_the_same_result() {
    let r = extractor(&["and", "the", "of"]);
    let text = "The quick brown fox and the lazy dog. Quick thinking of the fox.";
    let a = r.candidates(text).unwrap();
    let b = r.candidates(text).unwrap();
    assert_eq!(a.len(), b.len());
    for (x, y) in a.iter().zip(b.iter()) {
        assert_eq!(x.keyword, y.keyword);
        assert_eq!(score(x).to_bits(), score(y).to_bits());
    }
}
