use wordle::engine::Engine;
use wordle::words::{Tag, Word, WordList};

fn engine_with(words: &[&str], len: usize) -> Engine {
    let mut list = Vec::new();
    for w in words {
        list.push(Word::from_str(w));
    }
    Engine::init(WordList::load(list, len), len)
}

#[test]
fn score_self_is_all_correct_and_wins() {
    let eng = engine_with(&["HELLO"], 5);
    let secret = Word::from_str("HELLO");
    let guess = Word::from_str("HELLO");
    let (win, scored) = eng.compare(&secret, &guess);
    assert!(win);
    assert_eq!(scored.len(), 5);
    for i in 0..5 {
        assert_eq!(scored.letter(i).tag, Tag::Correct);
        assert_eq!(scored.letter(i).c, secret.letter(i).c);
    }
}

#[test]
fn score_disjoint_is_all_unclassified_and_no_win() {
    let eng = engine_with(&["abc"], 3);
    let secret = Word::from_str("abc");
    let guess = Word::from_str("xyz");
    let (win, scored) = eng.compare(&secret, &guess);
    assert!(!win);
    for i in 0..3 {
        assert_eq!(scored.letter(i).tag, Tag::Unclassified);
        assert_eq!(scored.letter(i).c, guess.letter(i).c);
    }
}

#[test]
fn score_same_position_is_correct() {
    let eng = engine_with(&["spine"], 5);
    let secret = Word::from_str("spine");
    let guess = Word::from_str("shine");
    let (win, scored) = eng.compare(&secret, &guess);
    assert!(!win);
    assert_eq!(scored.letter(0).tag, Tag::Correct);
    assert_eq!(scored.letter(1).tag, Tag::Unclassified);
    assert_eq!(scored.letter(2).tag, Tag::Correct);
    assert_eq!(scored.letter(3).tag, Tag::Correct);
    assert_eq!(scored.letter(4).tag, Tag::Correct);
}

#[test]
fn score_misplaced_letter_is_present() {
    let eng = engine_with(&["HELLO"], 5);
    let secret = Word::from_str("HELLO");
    let guess = Word::from_str("WORLD");
    let (win, scored) = eng.compare(&secret, &guess);
    assert!(!win);
    assert_eq!(scored.letter(0).tag, Tag::Unclassified);
    assert_eq!(scored.letter(1).tag, Tag::Present);
    assert_eq!(scored.letter(2).tag, Tag::Unclassified);
    assert_eq!(scored.letter(3).tag, Tag::Correct);
    assert_eq!(scored.letter(4).tag, Tag::Unclassified);
}

#[test]
fn score_leaves_inputs_unchanged() {
    let eng = engine_with(&["ab"], 2);
    let secret = Word::from_str("ab");
    let guess = Word::from_str("ba");
    let (_, scored) = eng.compare(&secret, &guess);
    for i in 0..2 {
        assert_eq!(secret.letter(i).tag, Tag::Unclassified);
        assert_eq!(guess.letter(i).tag, Tag::Unclassified);
    }
    assert_eq!(scored.letter(0).tag, Tag::Present);
    assert_eq!(scored.letter(1).tag, Tag::Present);
}

#[test]
fn is_valid_guess_rules() {
    let eng = engine_with(&["hello", "world", "earth"], 5);
    assert!(eng.is_valid_guess(&Word::from_str("hello")));
    assert!(eng.is_valid_guess(&Word::from_str("earth")));
    // commands pass through without dictionary checks
    assert!(eng.is_valid_guess(&Word::from_str("!exit")));
    assert!(eng.is_valid_guess(&Word::from_str("!x")));
    // wrong length, empty, or out of the dictionary: rejected
    assert!(!eng.is_valid_guess(&Word::from_str("he")));
    assert!(!eng.is_valid_guess(&Word::from_str("")));
    assert!(!eng.is_valid_guess(&Word::from_str("quartz")));
    assert!(!eng.is_valid_guess(&Word::from_str("xxxxx")));
}
