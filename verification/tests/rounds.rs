use wordle::buffer::Buffer;
use wordle::engine::{Engine, Step};
use wordle::words::{Char, Tag, Word, WordList};

fn engine_with(words: &[&str], len: usize) -> Engine {
    let mut list = Vec::new();
    for w in words {
        list.push(Word::from_str(w));
    }
    Engine::init(WordList::load(list, len), len)
}

#[test]
fn add_fills_slots_and_counts_every_attempt() {
    let mut buffer = Buffer::new(3);
    assert!(buffer.all_none());
    for n in 0..4 {
        let full = buffer.add(Word::from_str("abc"));
        assert!(!full);
        assert_eq!(buffer.guess, n + 1);
        assert_eq!(buffer.next(), n + 1);
        assert!(buffer.all_none());
    }
    let full = buffer.add(Word::from_str("abc"));
    assert!(full);
    assert!(buffer.all_some());
    assert_eq!(buffer.guess, 5);
    assert_eq!(buffer.next(), 5);

    // the sixth call returns true, leaves the slots alone, and still
    // counts the attempt
    let full = buffer.add(Word::from_str("zzz"));
    assert!(full);
    assert_eq!(buffer.guess, 6);
    for i in 0..5 {
        assert!(buffer.words[i].as_ref().unwrap().is_str("abc"));
    }
}

#[test]
fn reset_empties_slots_and_counter_but_keeps_score() {
    let mut buffer = Buffer::new(3);
    buffer.set_score(7);
    buffer.add(Word::from_str("abc"));
    buffer.add(Word::from_str("abc"));
    buffer.reset();
    assert_eq!(buffer.score, 7);
    assert_eq!(buffer.guess, 0);
    assert!(buffer.all_none());
    assert_eq!(buffer.next(), 0);
}

#[test]
fn gather_deduplicates_within_buckets_but_not_across() {
    let mut buffer = Buffer::new(3);
    // first guess: 'a' Correct, 'b' Present, 'b' Present again
    buffer.add(Word {
        letters: vec![
            Char { c: 'a', tag: Tag::Correct },
            Char { c: 'b', tag: Tag::Present },
            Char { c: 'b', tag: Tag::Present },
        ],
    });
    // second guess: 'a' again Correct, 'b' now Correct, 'c' unclassified
    buffer.add(Word {
        letters: vec![
            Char { c: 'a', tag: Tag::Correct },
            Char { c: 'b', tag: Tag::Correct },
            Char { c: 'c', tag: Tag::Unclassified },
        ],
    });
    let (correct, known, unused) = buffer.gather_kcu();
    // within a bucket every character appears once
    assert_eq!(correct.len(), 2);
    assert_eq!(correct[0].c, 'a');
    assert_eq!(correct[1].c, 'b');
    // 'b' appears in two buckets: once Present, once Correct
    assert_eq!(known.len(), 1);
    assert_eq!(known[0].c, 'b');
    assert_eq!(known[0].tag, Tag::Present);
    assert_eq!(unused.len(), 1);
    assert_eq!(unused[0].c, 'c');
}

#[test]
fn round_win_after_miss_scores_one() {
    let mut eng = engine_with(&["HELLO"], 5);
    assert!(eng.secret.is_str("HELLO"));

    let first = eng.step(&Word::from_str("WORLD"));
    assert_eq!(first, Step::Again);
    let scored = eng.buffer.words[0].as_ref().unwrap();
    assert_eq!(scored.letter(0).c, 'W');
    assert_eq!(scored.letter(0).tag, Tag::Unclassified);
    assert_eq!(scored.letter(1).tag, Tag::Present);
    assert_eq!(scored.letter(2).tag, Tag::Unclassified);
    assert_eq!(scored.letter(3).tag, Tag::Correct);
    assert_eq!(scored.letter(4).tag, Tag::Unclassified);

    let second = eng.step(&Word::from_str("HELLO"));
    assert_eq!(second, Step::Won);
    let scored = eng.buffer.words[1].as_ref().unwrap();
    for i in 0..5 {
        assert_eq!(scored.letter(i).tag, Tag::Correct);
    }

    eng.end_round(true);
    assert_eq!(eng.buffer.score, 1);
    assert_eq!(eng.buffer.guess, 0);
    assert!(eng.buffer.all_none());
}

#[test]
fn five_misses_lose_the_round() {
    let mut eng = engine_with(&["abc"], 3);
    eng.buffer.set_score(4);
    for _ in 0..4 {
        assert_eq!(eng.step(&Word::from_str("xyz")), Step::Again);
    }
    assert_eq!(eng.step(&Word::from_str("xyz")), Step::Lost);
    assert_eq!(eng.buffer.guess, 5);
    eng.end_round(false);
    assert_eq!(eng.buffer.score, 0);
}

#[test]
fn give_up_forces_a_loss_and_reveals_the_secret() {
    let mut eng = engine_with(&["HELLO"], 5);
    eng.buffer.set_score(3);
    let r = eng.step(&Word::from_str("!give"));
    assert_eq!(r, Step::Lost);
    assert_eq!(eng.buffer.guess, 5);
    assert!(eng.buffer.all_none());
    assert_eq!(eng.render_correct(), "correct word: HELLO");
    eng.end_round(false);
    assert_eq!(eng.buffer.score, 0);
    assert_eq!(eng.buffer.guess, 0);
    assert!(eng.secret.is_str("HELLO"));
}

#[test]
fn exit_leaves_everything_unchanged() {
    let mut eng = engine_with(&["abc"], 3);
    eng.step(&Word::from_str("xxx"));
    let r = eng.step(&Word::from_str("!exit"));
    assert_eq!(r, Step::Exit);
    assert_eq!(eng.buffer.guess, 1);
    assert!(eng.buffer.words[0].is_some());
}

#[test]
fn error_carries_its_message() {
    let e = wordle::error::Error::new(String::from("boom"));
    assert_eq!(e.message(), "boom");
}
