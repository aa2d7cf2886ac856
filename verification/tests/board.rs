use wordle::buffer::{format_vector, Buffer};
use wordle::words::{Char, Tag, Word};

#[test]
fn gen_board() {
    const BOARD: &str = "\n\t_____\tscore: 0\n\t_____\n\t_____\n\t_____\n\t_____\n";

    let buffer = Buffer {
        word_size: 5,
        words: vec![None, None, None, None, None],
        score: 0,
        guess: 0,
    };

    assert_eq!(BOARD, buffer.render());
}

#[test]
fn board_with_one_word() {
    let mut buffer = Buffer::new(5);
    buffer.add(Word::from_str("HELLO"));
    assert_eq!(
        "\n\tHELLO\tscore: 0\n\t_____\n\t_____\n\t_____\n\t_____\n",
        buffer.render()
    );
}

#[test]
fn board_score_rendering() {
    let mut buffer = Buffer::new(3);
    buffer.set_score(123);
    assert_eq!(
        "\n\t___\tscore: 123\n\t___\n\t___\n\t___\n\t___\n",
        buffer.render()
    );
}

#[test]
fn board_renders_classified_letters() {
    let mut buffer = Buffer::new(2);
    let word = Word {
        letters: vec![
            Char { c: 'a', tag: Tag::Correct },
            Char { c: 'b', tag: Tag::Present },
        ],
    };
    buffer.add(word);
    assert_eq!(
        "\n\t[a](b)\tscore: 0\n\t__\n\t__\n\t__\n\t__\n",
        buffer.render()
    );
}

#[test]
fn format_vector_empty_is_tab() {
    let v: Vec<Char> = Vec::new();
    assert_eq!("\t", format_vector(&v));
}

#[test]
fn format_vector_letters() {
    let v = vec![
        Char { c: 'a', tag: Tag::Correct },
        Char { c: 'b', tag: Tag::Present },
        Char { c: 'c', tag: Tag::Unclassified },
    ];
    assert_eq!("[a](b)c", format_vector(&v));
}

#[test]
fn kc_lines_of_empty_buffer() {
    let buffer = Buffer::new(5);
    assert_eq!("correct: \t\nknown:\t\t\nunused:\t\t\n", buffer.render_kc());
}
