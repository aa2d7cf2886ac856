//! Letters, words and the dictionary.

use vstd::prelude::*;
use vstd::string::StrSliceExecFns;

verus! {

/// Classification of one guessed letter against the secret word.
#[derive(Clone, Copy, PartialEq, Eq, Structural, Debug)]
pub enum Tag {
    /// Right letter in the right position.
    Correct,
    /// The letter occurs in the secret, but at another position.
    Present,
    /// Nothing is known of the letter: it is absent or was never scored.
    Unclassified,
}

/// One letter of a guess or of the secret: a character together with the
/// classification it received at scoring time.  Letters are compared by
/// character alone; the classification is carried alongside.
#[derive(Clone, Copy, Debug)]
pub struct Char {
    pub c: char,
    pub tag: Tag,
}

impl Char {
    /// A fresh letter that has not been scored yet.
    pub fn new(c: char) -> (r: Char)
        ensures
            r.c == c,
            r.tag == Tag::Unclassified,
    {
        Char { c, tag: Tag::Unclassified }
    }

    /// Overwrite the classification, keeping the character.
    pub fn set_color(&mut self, color: Tag)
        ensures
            final(self).c == old(self).c,
            final(self).tag == color,
    {
        self.tag = color;
    }
}

/// An ordered sequence of letters: one guess, or the secret.
#[derive(Debug)]
pub struct Word {
    pub letters: Vec<Char>,
}

impl View for Word {
    type V = Seq<Char>;

    open spec fn view(&self) -> Seq<Char> {
        self.letters@
    }
}

impl Clone for Word {
    fn clone(&self) -> (r: Word)
        ensures
            r@ == self@,
    {
        let mut letters: Vec<Char> = Vec::new();
        let mut i: usize = 0;
        while i < self.letters.len()
            invariant
                i <= self.letters@.len(),
                letters@ == self.letters@.take(i as int),
            decreases self.letters@.len() - i,
        {
            letters.push(self.letters[i]);
            proof {
                assert(self.letters@.take(i + 1) =~= self.letters@.take(i as int).push(
                    self.letters@[i as int],
                ));
            }
            i += 1;
        }
        proof {
            assert(letters@ =~= self.letters@);
        }
        Word { letters }
    }
}

impl Word {
    /// The character sequence, classification ignored.
    pub open spec fn chars(self) -> Seq<char> {
        self@.map_values(|ch: Char| ch.c)
    }

    /// The classification sequence.
    pub open spec fn tags(self) -> Seq<Tag> {
        self@.map_values(|ch: Char| ch.tag)
    }

    /// Build a word from already-made letters.
    pub fn from_letters(letters: Vec<Char>) -> (r: Word)
        ensures
            r@ == letters@,
    {
        Word { letters }
    }

    /// Build an unclassified word from a string.
    pub fn from_str(s: &str) -> (r: Word)
        ensures
            r.chars() == s@,
            forall|i: int| 0 <= i < r@.len() ==> r@[i].tag == Tag::Unclassified,
    {
        let n = s.unicode_len();
        let mut letters: Vec<Char> = Vec::new();
        let mut i: usize = 0;
        while i < n
            invariant
                n == s@.len(),
                i <= n,
                letters@.len() == i,
                forall|j: int| 0 <= j < i ==> (#[trigger] letters@[j]).c == s@[j],
                forall|j: int| 0 <= j < i ==> (#[trigger] letters@[j]).tag == Tag::Unclassified,
            decreases n - i,
        {
            letters.push(Char::new(s.get_char(i)));
            i += 1;
        }
        let r = Word { letters };
        proof {
            assert(r.chars() =~= s@);
            assert forall|j: int| 0 <= j < r@.len() implies r@[j].tag == Tag::Unclassified by {
                assert(r@[j] == letters@[j]);
            }
        }
        r
    }

    /// Number of letters.
    pub fn len(&self) -> (r: usize)
        ensures
            r == self@.len(),
    {
        self.letters.len()
    }

    /// The letter at a position.
    pub fn letter(&self, i: usize) -> (r: Char)
        requires
            i < self@.len(),
        ensures
            r == self@[i as int],
    {
        self.letters[i]
    }

    /// Character-sequence equality, classification ignored.
    pub fn same_chars(&self, other: &Word) -> (r: bool)
        ensures
            r == (self.chars() == other.chars()),
    {
        if self.letters.len() != other.letters.len() {
            proof {
                assert(self.chars().len() != other.chars().len());
            }
            return false;
        }
        let mut i: usize = 0;
        while i < self.letters.len()
            invariant
                self.letters@.len() == other.letters@.len(),
                i <= self.letters@.len(),
                forall|j: int| 0 <= j < i ==> self.letters@[j].c == other.letters@[j].c,
            decreases self.letters@.len() - i,
        {
            if self.letters[i].c != other.letters[i].c {
                proof {
                    assert(self.chars()[i as int] != other.chars()[i as int]);
                }
                return false;
            }
            i += 1;
        }
        proof {
            assert(self.chars() =~= other.chars());
        }
        true
    }

    /// Does the word read exactly as the given string?
    pub fn is_str(&self, s: &str) -> (r: bool)
        ensures
            r == (self.chars() == s@),
    {
        let n = s.unicode_len();
        if self.letters.len() != n {
            proof {
                assert(self.chars().len() != s@.len());
            }
            return false;
        }
        let mut i: usize = 0;
        while i < n
            invariant
                n == s@.len(),
                self.letters@.len() == n,
                i <= n,
                forall|j: int| 0 <= j < i ==> self.letters@[j].c == s@[j],
            decreases n - i,
        {
            if self.letters[i].c != s.get_char(i) {
                proof {
                    assert(self.chars()[i as int] != s@[i as int]);
                }
                return false;
            }
            i += 1;
        }
        proof {
            assert(self.chars() =~= s@);
        }
        true
    }

    /// Does the word start with the given string?
    pub fn starts_with(&self, needle: &str) -> (r: bool)
        ensures
            r == (needle@.len() <= self@.len() && self.chars().take(needle@.len() as int)
                == needle@),
    {
        let n = needle.unicode_len();
        if n > self.letters.len() {
            return false;
        }
        let mut i: usize = 0;
        while i < n
            invariant
                n == needle@.len(),
                n <= self.letters@.len(),
                i <= n,
                forall|j: int| 0 <= j < i ==> self.letters@[j].c == needle@[j],
            decreases n - i,
        {
            if self.letters[i].c != needle.get_char(i) {
                proof {
                    assert(self.chars().take(n as int)[i as int] != needle@[i as int]);
                }
                return false;
            }
            i += 1;
        }
        proof {
            assert(self.chars().take(n as int) =~= needle@);
        }
        true
    }

    /// Character membership anywhere in the word, classification ignored.
    pub fn contains(&self, c: &Char) -> (r: bool)
        ensures
            r == self.chars().contains(c.c),
    {
        let mut i: usize = 0;
        while i < self.letters.len()
            invariant
                i <= self.letters@.len(),
                forall|j: int| 0 <= j < i ==> self.letters@[j].c != c.c,
            decreases self.letters@.len() - i,
        {
            if self.letters[i].c == c.c {
                proof {
                    assert(self.chars()[i as int] == c.c);
                }
                return true;
            }
            i += 1;
        }
        proof {
            assert(forall|j: int| 0 <= j < self.chars().len() ==> self.chars()[j] != c.c);
        }
        false
    }

    /// Mark every letter Correct, keeping the characters.
    pub fn set_all(&mut self)
        ensures
            final(self)@.len() == old(self)@.len(),
            final(self).chars() == old(self).chars(),
            forall|i: int| 0 <= i < final(self)@.len() ==> final(self)@[i].tag == Tag::Correct,
    {
        let mut i: usize = 0;
        while i < self.letters.len()
            invariant
                self.letters@.len() == old(self).letters@.len(),
                i <= self.letters@.len(),
                forall|j: int| 0 <= j < self.letters@.len() ==> self.letters@[j].c == old(
                    self,
                ).letters@[j].c,
                forall|j: int| 0 <= j < i ==> self.letters@[j].tag == Tag::Correct,
            decreases self.letters@.len() - i,
        {
            let mut ch = self.letters[i];
            ch.set_color(Tag::Correct);
            self.letters.set(i, ch);
            i += 1;
        }
        proof {
            assert(final(self).chars() =~= old(self).chars());
        }
    }

    /// Classify the letter at one position.
    pub fn set_idx_color(&mut self, index: usize, color: Tag)
        requires
            index < old(self)@.len(),
        ensures
            final(self)@ == old(self)@.update(
                index as int,
                Char { c: old(self)@[index as int].c, tag: color },
            ),
            final(self).chars() == old(self).chars(),
    {
        let mut ch = self.letters[index];
        ch.set_color(color);
        self.letters.set(index, ch);
        proof {
            assert(final(self).chars() =~= old(self).chars());
        }
    }
}

/// An immutable set of equal-length candidate words, supporting membership
/// test and random selection.
pub struct WordList {
    pub list: Vec<Word>,
    pub word_size: usize,
}

impl View for WordList {
    type V = Seq<Word>;

    open spec fn view(&self) -> Seq<Word> {
        self.list@
    }
}

/// Relies on `rand::random_range`: a value drawn uniformly from the given
/// non-empty range, so in particular less than its upper bound.
#[verifier::external_body]
fn pick_index(n: usize) -> (r: usize)
    requires
        n > 0,
    ensures
        r < n,
{
    rand::random_range(0..n)
}

impl WordList {
    /// Every entry has exactly the configured length.
    pub open spec fn wf(self) -> bool {
        forall|i: int| 0 <= i < self@.len() ==> (#[trigger] self@[i]).chars().len()
            == self.word_size
    }

    /// The character sequences held, in order.
    pub open spec fn entries(self) -> Seq<Seq<char>> {
        self@.map_values(|w: Word| w.chars())
    }

    /// Keep, in order, exactly the candidates of the configured length.
    pub fn load(candidates: Vec<Word>, word_length: usize) -> (r: WordList)
        ensures
            r.word_size == word_length,
            r.entries() == candidates@.map_values(|w: Word| w.chars()).filter(
                |cs: Seq<char>| cs.len() == word_length,
            ),
            r.wf(),
    {
        let mut list: Vec<Word> = Vec::new();
        let mut i: usize = 0;
        while i < candidates.len()
            invariant
                i <= candidates@.len(),
                list@.map_values(|w: Word| w.chars()) == candidates@.take(i as int).map_values(
                    |w: Word| w.chars(),
                ).filter(|cs: Seq<char>| cs.len() == word_length),
                forall|k: int| 0 <= k < list@.len() ==> (#[trigger] list@[k]).chars().len()
                    == word_length,
            decreases candidates@.len() - i,
        {
            let ghost prefix = candidates@.take(i as int).map_values(|w: Word| w.chars());
            let w = candidates[i].clone();
            let keep = w.len() == word_length;
            proof {
                assert(candidates@.take(i + 1) =~= candidates@.take(i as int).push(
                    candidates@[i as int],
                ));
                assert(candidates@.take(i + 1).map_values(|w: Word| w.chars()) =~= prefix.push(
                    candidates@[i as int].chars(),
                ));
                lemma_filter_push(
                    prefix,
                    candidates@[i as int].chars(),
                    |cs: Seq<char>| cs.len() == word_length,
                );
            }
            if keep {
                list.push(w);
                proof {
                    assert(list@.map_values(|w: Word| w.chars()) =~= prefix.filter(
                        |cs: Seq<char>| cs.len() == word_length,
                    ).push(candidates@[i as int].chars()));
                }
            }
            i += 1;
        }
        proof {
            assert(candidates@.take(candidates@.len() as int) =~= candidates@);
        }
        WordList { list, word_size: word_length }
    }

    /// Number of entries.
    pub fn len(&self) -> (r: usize)
        ensures
            r == self@.len(),
    {
        self.list.len()
    }

    /// Is some entry spelled like the given word? Classification is ignored.
    pub fn contains(&self, word: &Word) -> (r: bool)
        ensures
            r == self.entries().contains(word.chars()),
    {
        let mut i: usize = 0;
        while i < self.list.len()
            invariant
                i <= self.list@.len(),
                forall|j: int| 0 <= j < i ==> (#[trigger] self.list@[j]).chars() != word.chars(),
            decreases self.list@.len() - i,
        {
            if self.list[i].same_chars(word) {
                proof {
                    assert(self.entries()[i as int] == word.chars());
                }
                return true;
            }
            i += 1;
        }
        proof {
            assert(forall|j: int| 0 <= j < self.entries().len() ==> self.entries()[j]
                != word.chars());
        }
        false
    }

    /// One entry, chosen with replacement; every entry may come back.
    pub fn random(&self) -> (r: Word)
        requires
            self@.len() > 0,
        ensures
            exists|i: int| 0 <= i < self@.len() && r@ == self@[i]@,
    {
        let idx = pick_index(self.list.len());
        let r = self.list[idx].clone();
        proof {
            assert(r@ == self@[idx as int]@);
        }
        r
    }
}

/// Filtering a sequence extended by one element keeps the filtered prefix
/// and appends the element exactly when it satisfies the predicate.
pub proof fn lemma_filter_push<A>(s: Seq<A>, x: A, pred: spec_fn(A) -> bool)
    ensures
        s.push(x).filter(pred) == if pred(x) {
            s.filter(pred).push(x)
        } else {
            s.filter(pred)
        },
{
    reveal(Seq::filter);
    assert(s.push(x).drop_last() =~= s);
    assert(s.push(x).last() == x);
}

} // verus!
