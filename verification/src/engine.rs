//! The scorer and the round state machine.

use crate::buffer::{chars_to_string, mk_letter, push_rendered, render_chars, Buffer};
use crate::words::{Char, Tag, Word, WordList};
use vstd::prelude::*;
use vstd::string::StringExecFns;

verus! {

/// Is the guess a winning one: does it spell the secret exactly?
pub open spec fn spec_win(secret: Seq<char>, guess: Seq<char>) -> bool {
    secret == guess
}

/// The classification position `i` of a guess receives against the
/// secret: Correct where the characters agree in place, Present where the
/// guessed character occurs elsewhere in the secret, and otherwise the
/// classification the letter already carried.
pub open spec fn score_tag(secret: Seq<char>, guess: Seq<char>, orig: Tag, i: int) -> Tag {
    if secret.contains(guess[i]) {
        if secret[i] == guess[i] {
            Tag::Correct
        } else {
            Tag::Present
        }
    } else {
        orig
    }
}

/// Letter `i` of the scored copy of a guess.
pub open spec fn scored_letter(secret: Seq<char>, guess: Seq<Char>, i: int) -> Char {
    mk_letter(
        guess[i].c,
        score_tag(secret, guess.map_values(|x: Char| x.c), guess[i].tag, i),
    )
}

/// The scored copy of a guess: the same characters, each carrying the
/// classification earned against the secret.
pub open spec fn scored_letters(secret: Seq<char>, guess: Seq<Char>) -> Seq<Char> {
    Seq::new(guess.len(), |i: int| scored_letter(secret, guess, i))
}

/// The input line that ends the session.
pub open spec fn exit_cmd() -> Seq<char> {
    "!exit"@
}

/// The input line that gives the current round up.
pub open spec fn give_cmd() -> Seq<char> {
    "!give"@
}

/// What the surrounding program must do after one accepted input line.
#[derive(Clone, Copy, PartialEq, Eq, Structural, Debug)]
pub enum Step {
    /// End the session at once.
    Exit,
    /// The round goes on: render the board and read the next guess.
    Again,
    /// The round is won: render the final board, then close the round.
    Won,
    /// The round is lost: render the final board, reveal the secret, then
    /// close the round.
    Lost,
}

/// Drives one round after another: holds the dictionary, the secret word
/// and the round buffer, and makes every game decision.  The surrounding
/// program only reads input lines and writes the rendered strings.
pub struct Engine {
    pub word_length: usize,
    pub word_list: WordList,
    pub buffer: Buffer,
    pub secret: Word,
}

impl Engine {
    /// The engine's invariant: a well-formed buffer of the configured
    /// word length, a non-empty dictionary of words of that length, and a
    /// secret of that length.
    pub open spec fn wf(self) -> bool {
        &&& self.buffer.wf()
        &&& self.buffer.word_size == self.word_length
        &&& self.word_list.wf()
        &&& self.word_list.word_size == self.word_length
        &&& self.word_list@.len() > 0
        &&& self.secret.chars().len() == self.word_length
    }

    /// Set up a fresh engine: an empty buffer and a first secret word
    /// drawn from the dictionary.
    pub fn init(word_list: WordList, word_length: usize) -> (r: Engine)
        requires
            word_list.wf(),
            word_list.word_size == word_length,
            word_list@.len() > 0,
        ensures
            r.wf(),
            r.word_length == word_length,
            r.word_list == word_list,
            r.buffer.score == 0,
            r.buffer.guess == 0,
            r.buffer.word_size == word_length,
            forall|i: int| 0 <= i < 5 ==> r.buffer.words@[i] is None,
    {
        let secret = word_list.random();
        proof {
            let i = choose|i: int| 0 <= i < word_list@.len() && secret@ == word_list@[i]@;
            assert(word_list@[i].chars().len() == word_length);
        }
        Engine { word_length, word_list, buffer: Buffer::new(word_length), secret }
    }

    /// Compare a guess against the secret.  A full character match wins
    /// and every letter is marked Correct; otherwise each letter earns
    /// the classification of its position.  The inputs are untouched: a
    /// new word is returned.
    pub fn compare(&self, word: &Word, guess: &Word) -> (r: (bool, Word))
        requires
            guess@.len() <= word@.len(),
        ensures
            r.0 == spec_win(word.chars(), guess.chars()),
            r.1@ == scored_letters(word.chars(), guess@),
    {
        proof {
            assert(word.chars().len() == word@.len());
            assert(guess.chars().len() == guess@.len());
        }
        if word.same_chars(guess) {
            let mut green = word.clone();
            green.set_all();
            proof {
                assert forall|i: int| 0 <= i < guess@.len() implies green@[i] == scored_letter(
                    word.chars(),
                    guess@,
                    i,
                ) by {
                    assert(green.chars()[i] == green@[i].c);
                    assert(guess.chars()[i] == guess@[i].c);
                    assert(word.chars()[i] == guess@[i].c);
                    assert(word.chars().contains(guess@[i].c));
                }
                assert(green@ =~= scored_letters(word.chars(), guess@));
            }
            return (true, green);
        }
        let mut new: Word = guess.clone();
        let n = guess.len();
        let mut index: usize = 0;
        while index < n
            invariant
                n == guess@.len(),
                guess@.len() <= word@.len(),
                index <= n,
                new@.len() == guess@.len(),
                forall|j: int| 0 <= j < index ==> new@[j] == scored_letter(
                    word.chars(),
                    guess@,
                    j,
                ),
                forall|j: int| index <= j < guess@.len() ==> new@[j] == guess@[j],
            decreases n - index,
        {
            let ch = guess.letter(index);
            proof {
                assert(guess.chars()[index as int] == guess@[index as int].c);
                assert(word.chars()[index as int] == word@[index as int].c);
            }
            if word.contains(&ch) {
                let color = if word.letter(index).c == ch.c {
                    Tag::Correct
                } else {
                    Tag::Present
                };
                new.set_idx_color(index, color);
                proof {
                    assert(new@[index as int] == scored_letter(word.chars(), guess@, index as int));
                }
            } else {
                proof {
                    assert(new@[index as int] == scored_letter(word.chars(), guess@, index as int));
                }
            }
            index += 1;
        }
        proof {
            assert(new@ =~= scored_letters(word.chars(), guess@));
        }
        (false, new)
    }

    /// Is the input accepted where a guess is awaited?  A line opening
    /// with the command mark passes through unchecked; any other line
    /// must be non-empty, of the configured length, and in the
    /// dictionary.
    pub fn is_valid_guess(&self, word: &Word) -> (r: bool)
        ensures
            r == ((word@.len() > 0 && word.chars()[0] == '!') || (word@.len() > 0 && word@.len()
                == self.word_length && self.word_list.entries().contains(word.chars()))),
    {
        proof {
            reveal_strlit("!");
            assert("!"@ =~= seq!['!']);
            assert(word.chars().len() == word@.len());
        }
        if word.starts_with("!") {
            proof {
                assert(word.chars().take(1)[0] == word.chars()[0]);
            }
            return true;
        }
        proof {
            if word@.len() > 0 && word.chars()[0] == '!' {
                assert(word.chars().take(1) =~= "!"@);
                assert(false);
            }
        }
        if word.len() != self.word_length || word.len() == 0 {
            return false;
        }
        self.word_list.contains(word)
    }

    /// Process one accepted input line while a guess is awaited: an exit
    /// command leaves everything unchanged; a give-up command forces the
    /// attempt counter to five and loses the round; any other word is
    /// scored against the secret and written into the buffer, winning the
    /// round on a full match and losing it on the fifth failed attempt.
    pub fn step(&mut self, guess: &Word) -> (r: Step)
        requires
            old(self).wf(),
            old(self).buffer.guess < 5,
            guess.chars() == exit_cmd() || guess.chars() == give_cmd() || guess@.len() <= old(
                self,
            ).word_length,
        ensures
            final(self).wf(),
            final(self).word_length == old(self).word_length,
            final(self).word_list == old(self).word_list,
            final(self).secret == old(self).secret,
            final(self).buffer.score == old(self).buffer.score,
            final(self).buffer.word_size == old(self).buffer.word_size,
            guess.chars() == exit_cmd() ==> r == Step::Exit && *final(self) == *old(self),
            guess.chars() != exit_cmd() && guess.chars() == give_cmd() ==> r == Step::Lost
                && final(self).buffer.guess == 5 && final(self).buffer.words == old(
                self,
            ).buffer.words,
            guess.chars() != exit_cmd() && guess.chars() != give_cmd() ==> {
                let win = spec_win(old(self).secret.chars(), guess.chars());
                &&& final(self).buffer.guess == old(self).buffer.guess + 1
                &&& (old(self).buffer.spec_all_some() ==> final(self).buffer.words == old(
                    self,
                ).buffer.words)
                &&& (!old(self).buffer.spec_all_some() ==> {
                    let slot = old(self).buffer.spec_next();
                    &&& final(self).buffer.words@.len() == 5
                    &&& final(self).buffer.words@[slot] is Some
                    &&& final(self).buffer.words@[slot].unwrap()@ == scored_letters(
                        old(self).secret.chars(),
                        guess@,
                    )
                    &&& forall|i: int| 0 <= i < 5 && i != slot ==> final(self).buffer.words@[i]
                        == old(self).buffer.words@[i]
                })
                &&& r == (if win {
                    Step::Won
                } else if final(self).buffer.guess == 5 {
                    Step::Lost
                } else {
                    Step::Again
                })
            },
    {
        if guess.is_str("!exit") {
            return Step::Exit;
        }
        let mut found = false;
        if guess.is_str("!give") {
            self.buffer.guess = 5;
        } else {
            proof {
                assert(guess@.len() <= self.secret@.len());
            }
            let (tf, output) = self.compare(&self.secret, guess);
            found = tf;
            self.buffer.add(output);
            proof {
                crate::buffer::lemma_occupied_up_to_bounds(old(self).buffer.words@, 5);
                if !old(self).buffer.spec_all_some() && old(self).buffer.spec_next() == 5 {
                    crate::buffer::lemma_occupied_up_to_full(old(self).buffer.words@, 5);
                }
            }
        }
        if found || self.buffer.guess == 5 {
            if found {
                Step::Won
            } else {
                Step::Lost
            }
        } else {
            Step::Again
        }
    }

    /// Close a round: on a win the score rises by one, on a loss it falls
    /// to zero; the slots and the attempt counter empty (the score is
    /// kept on the board), and a fresh secret is drawn.
    pub fn end_round(&mut self, won: bool)
        requires
            old(self).wf(),
            won ==> old(self).buffer.score < usize::MAX,
        ensures
            final(self).wf(),
            final(self).word_length == old(self).word_length,
            final(self).word_list == old(self).word_list,
            final(self).buffer.score == (if won {
                old(self).buffer.score + 1
            } else {
                0
            }),
            final(self).buffer.guess == 0,
            forall|i: int| 0 <= i < 5 ==> final(self).buffer.words@[i] is None,
            exists|i: int|
                0 <= i < final(self).word_list@.len() && final(self).secret@ == final(
                    self
                ).word_list@[i]@,
    {
        if won {
            let s = self.buffer.score;
            self.buffer.set_score(s + 1);
        } else {
            self.buffer.set_score(0);
        }
        self.buffer.reset();
        self.secret = self.word_list.random();
        proof {
            let i = choose|i: int|
                0 <= i < self.word_list@.len() && self.secret@ == self.word_list@[i]@;
            assert(self.word_list@[i].chars().len() == self.word_length);
        }
    }

    /// The full screen: the rendered board and the letter summary.
    pub fn render_board(&self) -> (r: String)
        requires
            self.buffer.words@.len() == 5,
        ensures
            r@ == self.buffer.spec_render() + self.buffer.spec_kc(),
    {
        let mut out = self.buffer.render();
        let kc = self.buffer.render_kc();
        out.append(kc.as_str());
        out
    }

    /// The line revealing the secret after a lost round.
    pub fn render_correct(&self) -> (r: String)
        ensures
            r@ == "correct word: "@ + render_chars(self.secret@),
    {
        let mut out: String = String::new();
        out.append("correct word: ");
        let mut v: Vec<char> = Vec::new();
        push_rendered(&mut v, &self.secret.letters);
        let s = chars_to_string(v);
        out.append(s.as_str());
        proof {
            assert(Seq::<char>::empty() + render_chars(self.secret@) =~= render_chars(
                self.secret@,
            ));
        }
        out
    }
}

/// Scoring the secret against itself wins and marks every position
/// Correct.
pub proof fn lemma_score_self(secret: Seq<char>, guess: Seq<Char>)
    requires
        guess.map_values(|x: Char| x.c) == secret,
    ensures
        spec_win(secret, guess.map_values(|x: Char| x.c)),
        forall|i: int| 0 <= i < guess.len() ==> scored_letters(secret, guess)[i].tag
            == Tag::Correct,
{
    assert forall|i: int| 0 <= i < guess.len() implies scored_letters(secret, guess)[i].tag
        == Tag::Correct by {
        assert(guess.map_values(|x: Char| x.c)[i] == guess[i].c);
        assert(secret[i] == guess[i].c);
        assert(secret.contains(guess[i].c));
        assert(scored_letters(secret, guess)[i] == scored_letter(secret, guess, i));
    }
}

/// A guess of the secret's length that shares no letter with it, made of
/// fresh unclassified letters and different from the secret, loses and
/// leaves every position unclassified.
pub proof fn lemma_score_disjoint(secret: Seq<char>, guess: Seq<Char>)
    requires
        guess.len() == secret.len(),
        secret != guess.map_values(|x: Char| x.c),
        forall|i: int| 0 <= i < guess.len() ==> !secret.contains((#[trigger] guess[i]).c),
        forall|i: int| 0 <= i < guess.len() ==> (#[trigger] guess[i]).tag == Tag::Unclassified,
    ensures
        !spec_win(secret, guess.map_values(|x: Char| x.c)),
        forall|i: int| 0 <= i < guess.len() ==> scored_letters(secret, guess)[i].tag
            == Tag::Unclassified,
{
    assert forall|i: int| 0 <= i < guess.len() implies scored_letters(secret, guess)[i].tag
        == Tag::Unclassified by {
        assert(guess.map_values(|x: Char| x.c)[i] == guess[i].c);
        assert(scored_letters(secret, guess)[i] == scored_letter(secret, guess, i));
    }
}

/// A position where the guess agrees with the secret is marked Correct.
pub proof fn lemma_score_same_position(secret: Seq<char>, guess: Seq<Char>, i: int)
    requires
        guess.len() <= secret.len(),
        0 <= i < guess.len(),
        guess[i].c == secret[i],
    ensures
        scored_letters(secret, guess)[i].tag == Tag::Correct,
{
    assert(guess.map_values(|x: Char| x.c)[i] == guess[i].c);
    assert(secret.contains(guess[i].c));
    assert(scored_letters(secret, guess)[i] == scored_letter(secret, guess, i));
}

/// A position whose letter occurs somewhere in the secret, but not
/// there, is marked Present.
pub proof fn lemma_score_present(secret: Seq<char>, guess: Seq<Char>, i: int)
    requires
        guess.len() <= secret.len(),
        0 <= i < guess.len(),
        secret.contains(guess[i].c),
        guess[i].c != secret[i],
    ensures
        scored_letters(secret, guess)[i].tag == Tag::Present,
{
    assert(guess.map_values(|x: Char| x.c)[i] == guess[i].c);
    assert(scored_letters(secret, guess)[i] == scored_letter(secret, guess, i));
}

} // verus!

