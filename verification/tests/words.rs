use wordle::words::{Char, Tag, Word, WordList};

fn candidates() -> Vec<Word> {
    let entries = [
        "a", "i", "at", "we", "cat", "dog", "bird", "fish", "apple", "hello", "world",
        "stones", "orange", "elephants", "crocodiles", "loudmouths",
    ];
    let mut words = Vec::new();
    for e in entries {
        words.push(Word::from_str(e));
    }
    words
}

#[test]
fn word_length_1() {
    let wordlist = WordList::load(candidates(), 1);
    assert!(wordlist.len() > 0);
    for i in 0..wordlist.len() {
        assert_eq!(wordlist.list[i].len(), 1);
    }
}

#[test]
fn word_length_2() {
    let wordlist = WordList::load(candidates(), 2);
    assert!(wordlist.len() > 0);
    for i in 0..wordlist.len() {
        assert_eq!(wordlist.list[i].len(), 2);
    }
}

#[test]
fn word_length_3() {
    let wordlist = WordList::load(candidates(), 3);
    assert!(wordlist.len() > 0);
    for i in 0..wordlist.len() {
        assert_eq!(wordlist.list[i].len(), 3);
    }
}

#[test]
fn word_length_4() {
    let wordlist = WordList::load(candidates(), 4);
    assert!(wordlist.len() > 0);
    for i in 0..wordlist.len() {
        assert_eq!(wordlist.list[i].len(), 4);
    }
}

#[test]
fn word_length_5() {
    let wordlist = WordList::load(candidates(), 5);
    assert!(wordlist.len() > 0);
    for i in 0..wordlist.len() {
        assert_eq!(wordlist.list[i].len(), 5);
    }
}

#[test]
fn word_length_10() {
    let wordlist = WordList::load(candidates(), 10);
    assert!(wordlist.len() > 0);
    for i in 0..wordlist.len() {
        assert_eq!(wordlist.list[i].len(), 10);
    }
}

#[test]
fn load_keeps_only_matching_lengths_in_order() {
    let wordlist = WordList::load(candidates(), 5);
    assert_eq!(wordlist.len(), 3);
    assert!(wordlist.list[0].is_str("apple"));
    assert!(wordlist.list[1].is_str("hello"));
    assert!(wordlist.list[2].is_str("world"));
}

#[test]
fn wordlist_contains_ignores_classification() {
    let wordlist = WordList::load(candidates(), 5);
    let mut hello = Word::from_str("hello");
    assert!(wordlist.contains(&hello));
    hello.set_all();
    assert!(wordlist.contains(&hello));
    assert!(!wordlist.contains(&Word::from_str("earth")));
    assert!(!wordlist.contains(&Word::from_str("cat")));
}

#[test]
fn wordlist_random_comes_from_the_list() {
    let wordlist = WordList::load(candidates(), 4);
    for _ in 0..20 {
        let w = wordlist.random();
        assert!(wordlist.contains(&w));
        assert_eq!(w.len(), 4);
    }
}

#[test]
fn word_from_str_is_unclassified() {
    let w = Word::from_str("abc");
    assert_eq!(w.len(), 3);
    for i in 0..3 {
        assert_eq!(w.letter(i).tag, Tag::Unclassified);
    }
    assert_eq!(w.letter(0).c, 'a');
    assert_eq!(w.letter(1).c, 'b');
    assert_eq!(w.letter(2).c, 'c');
}

#[test]
fn word_equality_ignores_classification() {
    let a = Word::from_str("abc");
    let mut b = Word::from_str("abc");
    b.set_all();
    assert!(a.same_chars(&b));
    assert!(!a.same_chars(&Word::from_str("abd")));
    assert!(!a.same_chars(&Word::from_str("ab")));
}

#[test]
fn word_is_str() {
    let w = Word::from_str("!exit");
    assert!(w.is_str("!exit"));
    assert!(!w.is_str("!give"));
    assert!(!w.is_str("!exi"));
}

#[test]
fn word_starts_with() {
    let w = Word::from_str("!quit");
    assert!(w.starts_with("!"));
    assert!(w.starts_with("!qu"));
    assert!(!w.starts_with("?"));
    assert!(!Word::from_str("").starts_with("!"));
}

#[test]
fn word_contains_ignores_classification() {
    let w = Word::from_str("hello");
    let mut e = Char::new('e');
    assert!(w.contains(&e));
    e.set_color(Tag::Correct);
    assert!(w.contains(&e));
    assert!(!w.contains(&Char::new('z')));
}

#[test]
fn word_set_all_and_set_idx_color() {
    let mut w = Word::from_str("hi");
    w.set_all();
    assert_eq!(w.letter(0).tag, Tag::Correct);
    assert_eq!(w.letter(1).tag, Tag::Correct);
    w.set_idx_color(1, Tag::Present);
    assert_eq!(w.letter(0).tag, Tag::Correct);
    assert_eq!(w.letter(1).tag, Tag::Present);
    assert_eq!(w.letter(1).c, 'i');
}

#[test]
fn word_clone_keeps_letters() {
    let mut w = Word::from_str("abc");
    w.set_idx_color(0, Tag::Present);
    let c = w.clone();
    assert!(c.same_chars(&w));
    assert_eq!(c.letter(0).tag, Tag::Present);
    assert_eq!(c.letter(1).tag, Tag::Unclassified);
}
