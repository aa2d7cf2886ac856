//! The round buffer: up to five scored guesses, the running score and the
//! attempt counter, with the aggregation of a round's letter knowledge and
//! the textual rendering of the board.

use crate::words::{Char, Tag, Word};
use vstd::prelude::*;
use vstd::string::StringExecFns;

verus! {

/// Relies on `String::from_iter`: builds the string holding exactly the
/// given characters, in order.
#[verifier::external_body]
pub(crate) fn chars_to_string(v: Vec<char>) -> (r: String)
    ensures
        r@ == v@,
{
    String::from_iter(v)
}

/// How one letter is displayed: a Correct letter in square brackets, a
/// Present letter in parentheses, an unclassified letter bare.
pub open spec fn render_char(ch: Char) -> Seq<char> {
    match ch.tag {
        Tag::Correct => seq!['[', ch.c, ']'],
        Tag::Present => seq!['(', ch.c, ')'],
        Tag::Unclassified => seq![ch.c],
    }
}

/// The concatenated display of a letter sequence.
pub open spec fn render_chars(s: Seq<Char>) -> Seq<char>
    decreases s.len(),
{
    if s.len() == 0 {
        Seq::empty()
    } else {
        render_chars(s.drop_last()) + render_char(s.last())
    }
}

proof fn lemma_render_chars_push(s: Seq<Char>, x: Char)
    ensures
        render_chars(s.push(x)) == render_chars(s) + render_char(x),
{
    assert(s.push(x).drop_last() =~= s);
}

/// Append the display of every letter to `out`.
pub(crate) fn push_rendered(out: &mut Vec<char>, letters: &Vec<Char>)
    ensures
        final(out)@ == old(out)@ + render_chars(letters@),
{
    proof {
        assert(out@ + render_chars(letters@.take(0)) =~= out@);
    }
    let mut i: usize = 0;
    while i < letters.len()
        invariant
            i <= letters@.len(),
            out@ == old(out)@ + render_chars(letters@.take(i as int)),
        decreases letters@.len() - i,
    {
        let ghost prev = out@;
        let ch = letters[i];
        match ch.tag {
            Tag::Correct => {
                out.push('[');
                out.push(ch.c);
                out.push(']');
            },
            Tag::Present => {
                out.push('(');
                out.push(ch.c);
                out.push(')');
            },
            Tag::Unclassified => {
                out.push(ch.c);
            },
        }
        proof {
            assert(letters@.take(i + 1) =~= letters@.take(i as int).push(letters@[i as int]));
            lemma_render_chars_push(letters@.take(i as int), letters@[i as int]);
            assert(out@ =~= prev + render_char(letters@[i as int]));
            assert(out@ =~= old(out)@ + render_chars(letters@.take(i + 1)));
        }
        i += 1;
    }
    proof {
        assert(letters@.take(letters@.len() as int) =~= letters@);
    }
}

/// What a rendered letter bucket looks like: a lone tab when the bucket is
/// empty, else the letters' display.
pub open spec fn spec_format_vector(s: Seq<Char>) -> Seq<char> {
    if s.len() == 0 {
        seq!['\t']
    } else {
        render_chars(s)
    }
}

/// Render one bucket of letters for display.
pub fn format_vector(v: &Vec<Char>) -> (r: String)
    ensures
        r@ == spec_format_vector(v@),
{
    let mut out: Vec<char> = Vec::new();
    if v.len() == 0 {
        out.push('\t');
        proof {
            assert(out@ =~= seq!['\t']);
        }
    } else {
        push_rendered(&mut out, v);
        proof {
            assert(Seq::<char>::empty() + render_chars(v@) =~= render_chars(v@));
        }
    }
    chars_to_string(out)
}

/// The character for one decimal digit.
pub open spec fn digit_char(d: int) -> char {
    if d == 0 {
        '0'
    } else if d == 1 {
        '1'
    } else if d == 2 {
        '2'
    } else if d == 3 {
        '3'
    } else if d == 4 {
        '4'
    } else if d == 5 {
        '5'
    } else if d == 6 {
        '6'
    } else if d == 7 {
        '7'
    } else if d == 8 {
        '8'
    } else {
        '9'
    }
}

/// The decimal numeral of `n`, most significant digit first.
pub open spec fn spec_dec(n: int) -> Seq<char>
    decreases n,
{
    if n < 10 {
        seq![digit_char(n)]
    } else {
        spec_dec(n / 10).push(digit_char(n % 10))
    }
}

fn digit_of(d: usize) -> (r: char)
    requires
        d < 10,
    ensures
        r == digit_char(d as int),
{
    match d {
        0 => '0',
        1 => '1',
        2 => '2',
        3 => '3',
        4 => '4',
        5 => '5',
        6 => '6',
        7 => '7',
        8 => '8',
        _ => '9',
    }
}

/// Append the decimal numeral of `n` to `out`.
fn push_dec(out: &mut Vec<char>, n: usize)
    ensures
        final(out)@ == old(out)@ + spec_dec(n as int),
    decreases n,
{
    if n < 10 {
        out.push(digit_of(n));
        proof {
            assert(out@ =~= old(out)@ + spec_dec(n as int));
        }
    } else {
        push_dec(out, n / 10);
        out.push(digit_of(n % 10));
        proof {
            assert(out@ =~= old(out)@ + spec_dec(n as int));
        }
    }
}

/// Do the slots fill strictly left to right, with no gap?
pub open spec fn slots_prefix_filled(ws: Seq<Option<Word>>) -> bool {
    forall|i: int, j: int|
        0 <= i <= j < ws.len() && ws[j] is Some ==> ws[i] is Some
}

/// Is every slot occupied?
pub open spec fn all_filled(ws: Seq<Option<Word>>) -> bool {
    forall|i: int| 0 <= i < ws.len() ==> ws[i] is Some
}

/// How many of the first `k` slots are occupied.
pub open spec fn occupied_up_to(ws: Seq<Option<Word>>, k: int) -> int
    decreases k,
{
    if k <= 0 {
        0
    } else {
        occupied_up_to(ws, k - 1) + if ws[k - 1] is Some {
            1int
        } else {
            0int
        }
    }
}

/// The count of occupied slots among the first `k` lies between 0 and `k`.
pub proof fn lemma_occupied_up_to_bounds(ws: Seq<Option<Word>>, k: int)
    requires
        0 <= k,
    ensures
        0 <= occupied_up_to(ws, k) <= k,
    decreases k,
{
    if k > 0 {
        lemma_occupied_up_to_bounds(ws, k - 1);
    }
}

/// When every one of the first `k` slots counts as occupied, each is.
pub proof fn lemma_occupied_up_to_full(ws: Seq<Option<Word>>, k: int)
    requires
        0 <= k,
        occupied_up_to(ws, k) == k,
    ensures
        forall|i: int| 0 <= i < k ==> ws[i] is Some,
    decreases k,
{
    if k > 0 {
        lemma_occupied_up_to_bounds(ws, k - 1);
        lemma_occupied_up_to_full(ws, k - 1);
    }
}

/// Under the gap-free fill, the first `occupied_up_to(ws, k)` slots are
/// the occupied ones: every slot below the count is occupied, and the
/// slot at the count, when it lies below `k`, is free.
pub proof fn lemma_prefix_occupied(ws: Seq<Option<Word>>, k: int)
    requires
        slots_prefix_filled(ws),
        0 <= k <= ws.len(),
    ensures
        forall|j: int| 0 <= j < occupied_up_to(ws, k) ==> ws[j] is Some,
        occupied_up_to(ws, k) < k ==> ws[occupied_up_to(ws, k)] is None,
    decreases k,
{
    if k > 0 {
        lemma_prefix_occupied(ws, k - 1);
        lemma_occupied_up_to_bounds(ws, k - 1);
        let m = occupied_up_to(ws, k - 1);
        if ws[k - 1] is Some {
            if m < k - 1 {
                assert(ws[m] is None);
                assert(false);
            }
        }
    }
}

/// Writing into a free slot raises the occupied count of every prefix
/// reaching past it by exactly one.
pub proof fn lemma_occupied_update(ws: Seq<Option<Word>>, m: int, w: Word, k: int)
    requires
        0 <= m < ws.len(),
        ws[m] is None,
        0 <= k <= ws.len(),
    ensures
        occupied_up_to(ws.update(m, Some(w)), k) == occupied_up_to(ws, k) + if m < k {
            1int
        } else {
            0int
        },
    decreases k,
{
    if k > 0 {
        lemma_occupied_update(ws, m, w, k - 1);
    }
}

/// One more word in the first free slot: the slots stay a gap-free
/// prefix, the occupied count rises by one, and with the fifth word the
/// buffer is full.  Five additions to a fresh buffer thus occupy every
/// slot.
pub proof fn lemma_fill_step(ws: Seq<Option<Word>>, w: Word)
    requires
        ws.len() == 5,
        slots_prefix_filled(ws),
        !all_filled(ws),
    ensures
        slots_prefix_filled(ws.update(occupied_up_to(ws, 5), Some(w))),
        occupied_up_to(ws.update(occupied_up_to(ws, 5), Some(w)), 5) == occupied_up_to(ws, 5) + 1,
        occupied_up_to(ws, 5) + 1 == 5 ==> all_filled(ws.update(occupied_up_to(ws, 5), Some(w))),
{
    let m = occupied_up_to(ws, 5);
    lemma_occupied_up_to_bounds(ws, 5);
    if m == 5 {
        lemma_occupied_up_to_full(ws, 5);
        assert(false);
    }
    lemma_prefix_occupied(ws, 5);
    let u = ws.update(m, Some(w));
    lemma_occupied_update(ws, m, w, 5);
    assert forall|i: int, j: int| 0 <= i <= j < u.len() && u[j] is Some implies u[i] is Some by {
        if i != m {
            if j == m {
                assert(ws[i] is Some);
            } else {
                assert(ws[j] is Some);
                assert(ws[i] is Some);
            }
        }
    }
    if m + 1 == 5 {
        lemma_occupied_up_to_full(u, 5);
    }
}

/// The letters of the occupied slots among the first `k`, slot by slot,
/// left to right.
pub open spec fn letters_up_to(ws: Seq<Option<Word>>, k: int) -> Seq<Char>
    decreases k,
{
    if k <= 0 {
        Seq::empty()
    } else {
        letters_up_to(ws, k - 1) + match ws[k - 1] {
            Some(w) => w@,
            None => Seq::empty(),
        }
    }
}

/// The characters of `s` carrying tag `t`: first occurrence each, in the
/// order the letters appear.
pub open spec fn bucket(s: Seq<Char>, t: Tag) -> Seq<char>
    decreases s.len(),
{
    if s.len() == 0 {
        Seq::empty()
    } else {
        let rest = bucket(s.drop_last(), t);
        if s.last().tag == t && !rest.contains(s.last().c) {
            rest.push(s.last().c)
        } else {
            rest
        }
    }
}

proof fn lemma_bucket_push(s: Seq<Char>, x: Char, t: Tag)
    ensures
        bucket(s.push(x), t) == if x.tag == t && !bucket(s, t).contains(x.c) {
            bucket(s, t).push(x.c)
        } else {
            bucket(s, t)
        },
{
    assert(s.push(x).drop_last() =~= s);
}

/// A bucket never holds the same character twice: the mapping is
/// de-duplicated by character within each bucket.
pub proof fn lemma_bucket_distinct(s: Seq<Char>, t: Tag, i: int, j: int)
    requires
        0 <= i < j < bucket(s, t).len(),
    ensures
        bucket(s, t)[i] != bucket(s, t)[j],
    decreases s.len(),
{
    let b = bucket(s, t);
    let rest = bucket(s.drop_last(), t);
    if s.last().tag == t && !rest.contains(s.last().c) {
        if j < rest.len() {
            lemma_bucket_distinct(s.drop_last(), t, i, j);
        } else {
            assert(b[j] == s.last().c);
            assert(b[i] == rest[i]);
            assert(rest.contains(rest[i]));
        }
    } else {
        lemma_bucket_distinct(s.drop_last(), t, i, j);
    }
}

/// Append `ch` unless a letter with the same character is already there.
fn dedup_insert(v: &mut Vec<Char>, ch: Char)
    ensures
        final(v)@ == if old(v)@.map_values(|x: Char| x.c).contains(ch.c) {
            old(v)@
        } else {
            old(v)@.push(ch)
        },
{
    let mut i: usize = 0;
    while i < v.len()
        invariant
            i <= v@.len(),
            v@ == old(v)@,
            forall|j: int| 0 <= j < i ==> (#[trigger] v@[j]).c != ch.c,
        decreases v@.len() - i,
    {
        if v[i].c == ch.c {
            proof {
                assert(v@.map_values(|x: Char| x.c)[i as int] == ch.c);
            }
            return ;
        }
        i += 1;
    }
    proof {
        let m = v@.map_values(|x: Char| x.c);
        if m.contains(ch.c) {
            let w = choose|idx: int| 0 <= idx < m.len() && m[idx] == ch.c;
            assert(v@[w].c == ch.c);
            assert(false);
        }
    }
    v.push(ch);
}

/// Holds up to five scored guesses for the current round, the displayed
/// score, and a monotonic count of guess attempts.
#[derive(Debug)]
pub struct Buffer {
    pub word_size: usize,
    pub words: Vec<Option<Word>>,
    pub score: usize,
    pub guess: usize,
}

impl Buffer {
    /// Five slots, filled strictly left to right.
    pub open spec fn wf(self) -> bool {
        self.words@.len() == 5 && slots_prefix_filled(self.words@)
    }

    pub open spec fn spec_all_some(self) -> bool {
        all_filled(self.words@)
    }

    /// The index of the first free slot, or 5 when the buffer is full.
    pub open spec fn spec_next(self) -> int {
        occupied_up_to(self.words@, 5)
    }

    /// All letters of the occupied slots, in the order they were played.
    pub open spec fn spec_letters(self) -> Seq<Char> {
        letters_up_to(self.words@, 5)
    }

    /// A fresh, empty buffer for the given word length.
    pub fn new(word_length: usize) -> (r: Buffer)
        ensures
            r.word_size == word_length,
            r.score == 0,
            r.guess == 0,
            r.words@.len() == 5,
            forall|i: int| 0 <= i < 5 ==> r.words@[i] is None,
            r.wf(),
    {
        let mut words: Vec<Option<Word>> = Vec::new();
        words.push(None);
        words.push(None);
        words.push(None);
        words.push(None);
        words.push(None);
        Buffer { word_size: word_length, words, score: 0, guess: 0 }
    }

    /// Overwrite the displayed score.
    pub fn set_score(&mut self, score: usize)
        ensures
            final(self).score == score,
            final(self).word_size == old(self).word_size,
            final(self).words == old(self).words,
            final(self).guess == old(self).guess,
    {
        self.score = score;
    }

    /// Empty all five slots and the attempt counter; the score is kept.
    pub fn reset(&mut self)
        ensures
            final(self).word_size == old(self).word_size,
            final(self).score == old(self).score,
            final(self).guess == 0,
            final(self).words@.len() == 5,
            forall|i: int| 0 <= i < 5 ==> final(self).words@[i] is None,
            final(self).wf(),
    {
        let mut words: Vec<Option<Word>> = Vec::new();
        words.push(None);
        words.push(None);
        words.push(None);
        words.push(None);
        words.push(None);
        self.words = words;
        self.guess = 0;
    }

    /// Is every slot occupied?
    pub fn all_some(&self) -> (r: bool)
        requires
            self.words@.len() == 5,
        ensures
            r == self.spec_all_some(),
    {
        let r = self.words[0].is_some() && self.words[1].is_some() && self.words[2].is_some()
            && self.words[3].is_some() && self.words[4].is_some();
        proof {
            if r {
                assert forall|i: int| 0 <= i < self.words@.len() implies self.words@[i]
                    is Some by {
                    if i == 0 {
                    } else if i == 1 {
                    } else if i == 2 {
                    } else if i == 3 {
                    } else {
                        assert(i == 4);
                    }
                }
            }
        }
        r
    }

    /// Reports that some slot is still free: the negation of `all_some`,
    /// as this game has always read it.
    pub fn all_none(&self) -> (r: bool)
        requires
            self.words@.len() == 5,
        ensures
            r == !self.spec_all_some(),
    {
        !self.all_some()
    }

    /// The count of occupied slots; under the left-to-right fill this is
    /// the index of the first free slot, or 5 when the buffer is full.
    pub fn next(&self) -> (r: usize)
        requires
            self.wf(),
        ensures
            r == self.spec_next(),
            r <= 5,
            r < 5 ==> self.words@[r as int] is None,
            forall|j: int| 0 <= j < r ==> self.words@[j] is Some,
            (r == 5) == self.spec_all_some(),
    {
        if self.all_some() {
            proof {
                assert(occupied_up_to(self.words@, 0) == 0);
                assert(occupied_up_to(self.words@, 1) == 1);
                assert(occupied_up_to(self.words@, 2) == 2);
                assert(occupied_up_to(self.words@, 3) == 3);
                assert(occupied_up_to(self.words@, 4) == 4);
                assert(occupied_up_to(self.words@, 5) == 5);
            }
            return 5;
        }
        let mut pos: usize = 0;
        let mut i: usize = 0;
        while i < 5
            invariant
                self.wf(),
                i <= 5,
                pos <= i,
                pos == occupied_up_to(self.words@, i as int),
                forall|j: int| 0 <= j < pos ==> self.words@[j] is Some,
                pos < i ==> self.words@[pos as int] is None,
            decreases 5 - i,
        {
            if self.words[i].is_some() {
                proof {
                    if pos < i {
                        assert(self.words@[pos as int] is None);
                        assert(false);
                    }
                }
                pos += 1;
            }
            i += 1;
        }
        proof {
            if pos == 5 {
                assert(self.spec_all_some());
            }
        }
        pos
    }

    /// Count one more attempt.  If some slot is free, write the word into
    /// the first free one; a full buffer is left untouched.  Returns
    /// whether the buffer is full after the call.
    pub fn add(&mut self, word: Word) -> (r: bool)
        requires
            old(self).wf(),
            old(self).guess < usize::MAX,
        ensures
            final(self).wf(),
            final(self).guess == old(self).guess + 1,
            final(self).score == old(self).score,
            final(self).word_size == old(self).word_size,
            old(self).spec_all_some() ==> r && final(self).words == old(self).words,
            !old(self).spec_all_some() ==> final(self).words@ == old(self).words@.update(
                old(self).spec_next(),
                Some(word),
            ) && r == final(self).spec_all_some(),
    {
        self.guess = self.guess + 1;
        if self.all_some() {
            return true;
        }
        let next = self.next();
        assert(next < 5);
        let ghost before = self.words@;
        self.words.set(next, Some(word));
        proof {
            assert forall|i: int, j: int|
                0 <= i <= j < self.words@.len() && self.words@[j] is Some implies self.words@[i]
                is Some by {
                if i != next {
                    if j == next {
                        assert(before[i] is Some);
                    } else {
                        assert(before[j] is Some);
                        assert(before[i] is Some);
                    }
                }
            }
        }
        self.all_some()
    }

    /// Scan every occupied slot's every letter and bucket each by its
    /// classification into three de-duplicated, insertion-ordered lists:
    /// Correct letters, Present ("known") letters, unclassified letters.
    pub fn gather_kcu(&self) -> (r: (Vec<Char>, Vec<Char>, Vec<Char>))
        requires
            self.words@.len() == 5,
        ensures
            r.0@.map_values(|x: Char| x.c) == bucket(self.spec_letters(), Tag::Correct),
            r.1@.map_values(|x: Char| x.c) == bucket(self.spec_letters(), Tag::Present),
            r.2@.map_values(|x: Char| x.c) == bucket(self.spec_letters(), Tag::Unclassified),
            forall|i: int| 0 <= i < r.0@.len() ==> (#[trigger] r.0@[i]).tag == Tag::Correct,
            forall|i: int| 0 <= i < r.1@.len() ==> (#[trigger] r.1@[i]).tag == Tag::Present,
            forall|i: int| 0 <= i < r.2@.len() ==> (#[trigger] r.2@[i]).tag == Tag::Unclassified,
    {
        let mut correct: Vec<Char> = Vec::new();
        let mut known: Vec<Char> = Vec::new();
        let mut unused: Vec<Char> = Vec::new();
        let mut k: usize = 0;
        proof {
            assert(correct@.map_values(|x: Char| x.c) =~= bucket(
                letters_up_to(self.words@, 0),
                Tag::Correct,
            ));
            assert(known@.map_values(|x: Char| x.c) =~= bucket(
                letters_up_to(self.words@, 0),
                Tag::Present,
            ));
            assert(unused@.map_values(|x: Char| x.c) =~= bucket(
                letters_up_to(self.words@, 0),
                Tag::Unclassified,
            ));
        }
        while k < 5
            invariant
                self.words@.len() == 5,
                k <= 5,
                correct@.map_values(|x: Char| x.c) == bucket(
                    letters_up_to(self.words@, k as int),
                    Tag::Correct,
                ),
                known@.map_values(|x: Char| x.c) == bucket(
                    letters_up_to(self.words@, k as int),
                    Tag::Present,
                ),
                unused@.map_values(|x: Char| x.c) == bucket(
                    letters_up_to(self.words@, k as int),
                    Tag::Unclassified,
                ),
                forall|i: int| 0 <= i < correct@.len() ==> (#[trigger] correct@[i]).tag
                    == Tag::Correct,
                forall|i: int| 0 <= i < known@.len() ==> (#[trigger] known@[i]).tag == Tag::Present,
                forall|i: int| 0 <= i < unused@.len() ==> (#[trigger] unused@[i]).tag
                    == Tag::Unclassified,
            decreases 5 - k,
        {
            let ghost base = letters_up_to(self.words@, k as int);
            let slot = self.words[k].as_ref();
            if slot.is_some() {
                let word: &Word = slot.unwrap();
                let mut j: usize = 0;
                proof {
                    assert(base + word@.take(0) =~= base);
                }
                while j < word.letters.len()
                    invariant
                        self.words@.len() == 5,
                        k < 5,
                        self.words@[k as int] == Some(*word),
                        base == letters_up_to(self.words@, k as int),
                        j <= word@.len(),
                        correct@.map_values(|x: Char| x.c) == bucket(
                            base + word@.take(j as int),
                            Tag::Correct,
                        ),
                        known@.map_values(|x: Char| x.c) == bucket(
                            base + word@.take(j as int),
                            Tag::Present,
                        ),
                        unused@.map_values(|x: Char| x.c) == bucket(
                            base + word@.take(j as int),
                            Tag::Unclassified,
                        ),
                        forall|i: int| 0 <= i < correct@.len() ==> (#[trigger] correct@[i]).tag
                            == Tag::Correct,
                        forall|i: int| 0 <= i < known@.len() ==> (#[trigger] known@[i]).tag
                            == Tag::Present,
                        forall|i: int| 0 <= i < unused@.len() ==> (#[trigger] unused@[i]).tag
                            == Tag::Unclassified,
                    decreases word@.len() - j,
                {
                    let ch = word.letters[j];
                    let ghost seen = base + word@.take(j as int);
                    proof {
                        assert(base + word@.take(j + 1) =~= seen.push(word@[j as int]));
                        lemma_bucket_push(seen, word@[j as int], Tag::Correct);
                        lemma_bucket_push(seen, word@[j as int], Tag::Present);
                        lemma_bucket_push(seen, word@[j as int], Tag::Unclassified);
                    }
                    match ch.tag {
                        Tag::Correct => {
                            let ghost prev = correct@;
                            dedup_insert(&mut correct, ch);
                            proof {
                                if !prev.map_values(|x: Char| x.c).contains(ch.c) {
                                    assert(correct@.map_values(|x: Char| x.c) =~= prev.map_values(
                                        |x: Char| x.c,
                                    ).push(ch.c));
                                }
                            }
                        },
                        Tag::Present => {
                            let ghost prev = known@;
                            dedup_insert(&mut known, ch);
                            proof {
                                if !prev.map_values(|x: Char| x.c).contains(ch.c) {
                                    assert(known@.map_values(|x: Char| x.c) =~= prev.map_values(
                                        |x: Char| x.c,
                                    ).push(ch.c));
                                }
                            }
                        },
                        Tag::Unclassified => {
                            let ghost prev = unused@;
                            dedup_insert(&mut unused, ch);
                            proof {
                                if !prev.map_values(|x: Char| x.c).contains(ch.c) {
                                    assert(unused@.map_values(|x: Char| x.c) =~= prev.map_values(
                                        |x: Char| x.c,
                                    ).push(ch.c));
                                }
                            }
                        },
                    }
                    j += 1;
                }
                proof {
                    assert(word@.take(word@.len() as int) =~= word@);
                    assert(letters_up_to(self.words@, k + 1) == base + word@);
                }
            } else {
                proof {
                    assert(letters_up_to(self.words@, k + 1) =~= base + Seq::<Char>::empty());
                    assert(base + Seq::<Char>::empty() =~= base);
                }
            }
            k += 1;
        }
        (correct, known, unused)
    }

    /// One board line: the rendered word of an occupied slot, or a filler
    /// of underscores of the configured word length.
    pub open spec fn spec_line(self, i: int) -> Seq<char> {
        match self.words@[i] {
            Some(w) => render_chars(w@),
            None => underscores(self.word_size as int),
        }
    }

    /// One board row: a tab, the line, on the first row the score, then a
    /// newline.
    pub open spec fn spec_row(self, i: int) -> Seq<char> {
        seq!['\t'] + self.spec_line(i) + (if i == 0 {
            score_label() + spec_dec(self.score as int)
        } else {
            Seq::empty()
        }) + seq!['\n']
    }

    /// The first `k` board rows, concatenated.
    pub open spec fn spec_rows(self, k: int) -> Seq<char>
        decreases k,
    {
        if k <= 0 {
            Seq::empty()
        } else {
            self.spec_rows(k - 1) + self.spec_row(k - 1)
        }
    }

    /// The whole board: a leading blank line, then the five rows.
    pub open spec fn spec_render(self) -> Seq<char> {
        seq!['\n'] + self.spec_rows(5)
    }

    /// Render the board into a string.
    pub fn render(&self) -> (r: String)
        requires
            self.words@.len() == 5,
        ensures
            r@ == self.spec_render(),
    {
        let mut out: Vec<char> = Vec::new();
        out.push('\n');
        proof {
            assert(out@ =~= seq!['\n'] + self.spec_rows(0));
        }
        let mut i: usize = 0;
        while i < 5
            invariant
                self.words@.len() == 5,
                i <= 5,
                out@ == seq!['\n'] + self.spec_rows(i as int),
            decreases 5 - i,
        {
            let ghost start = out@;
            out.push('\t');
            let slot = self.words[i].as_ref();
            if slot.is_some() {
                let word: &Word = slot.unwrap();
                push_rendered(&mut out, &word.letters);
            } else {
                push_underscores(&mut out, self.word_size);
            }
            if i == 0 {
                push_score_label(&mut out);
                push_dec(&mut out, self.score);
            }
            out.push('\n');
            proof {
                assert(out@ =~= start + self.spec_row(i as int));
                assert(out@ =~= seq!['\n'] + self.spec_rows(i + 1));
            }
            i += 1;
        }
        chars_to_string(out)
    }

    /// The three-bucket summary printed below the board: the Correct,
    /// Present ("known") and unclassified letters gathered from the round.
    pub open spec fn spec_kc(self) -> Seq<char> {
        "correct: "@ + spec_format_vector(tagged(bucket(self.spec_letters(), Tag::Correct), Tag::Correct))
            + "\nknown:\t"@ + spec_format_vector(tagged(bucket(self.spec_letters(), Tag::Present), Tag::Present))
            + "\nunused:\t"@ + spec_format_vector(tagged(bucket(self.spec_letters(), Tag::Unclassified), Tag::Unclassified))
            + "\n"@
    }

    /// Render the three-bucket summary into a string.
    pub fn render_kc(&self) -> (r: String)
        requires
            self.words@.len() == 5,
        ensures
            r@ == self.spec_kc(),
    {
        let (correct, known, unused) = self.gather_kcu();
        proof {
            lemma_tagged_from(correct@, Tag::Correct);
            lemma_tagged_from(known@, Tag::Present);
            lemma_tagged_from(unused@, Tag::Unclassified);
        }
        let mut out: String = String::new();
        out.append("correct: ");
        let f = format_vector(&correct);
        out.append(f.as_str());
        out.append("\nknown:\t");
        let f = format_vector(&known);
        out.append(f.as_str());
        out.append("\nunused:\t");
        let f = format_vector(&unused);
        out.append(f.as_str());
        out.append("\n");
        proof {
            assert(out@ =~= self.spec_kc());
        }
        out
    }
}

/// A filler of `n` underscore characters.
pub open spec fn underscores(n: int) -> Seq<char> {
    Seq::new(n as nat, |i: int| '_')
}

/// The label between the first line's filler and the score.
pub open spec fn score_label() -> Seq<char> {
    seq!['\t', 's', 'c', 'o', 'r', 'e', ':', ' ']
}

/// A letter with the given character and tag.
pub open spec fn mk_letter(c: char, t: Tag) -> Char {
    Char { c: c, tag: t }
}

/// The letters carrying the given characters, all under one tag.
pub open spec fn tagged(cs: Seq<char>, t: Tag) -> Seq<Char> {
    Seq::new(cs.len(), |i: int| mk_letter(cs[i], t))
}

/// A letter sequence of one uniform tag is recovered from its characters.
proof fn lemma_tagged_from(v: Seq<Char>, t: Tag)
    requires
        forall|i: int| 0 <= i < v.len() ==> (#[trigger] v[i]).tag == t,
    ensures
        tagged(v.map_values(|x: Char| x.c), t) == v,
{
    let m = v.map_values(|x: Char| x.c);
    assert(m.len() == v.len());
    assert forall|i: int| 0 <= i < v.len() implies tagged(m, t)[i] == v[i] by {
        assert(m[i] == v[i].c);
        assert(tagged(m, t)[i] == mk_letter(m[i], t));
    }
    assert(tagged(m, t) =~= v);
}

/// Append `n` underscores to `out`.
fn push_underscores(out: &mut Vec<char>, n: usize)
    ensures
        final(out)@ == old(out)@ + underscores(n as int),
{
    proof {
        assert(out@ + underscores(0) =~= out@);
    }
    let mut i: usize = 0;
    while i < n
        invariant
            i <= n,
            out@ == old(out)@ + underscores(i as int),
        decreases n - i,
    {
        out.push('_');
        proof {
            assert(out@ =~= old(out)@ + underscores(i + 1));
        }
        i += 1;
    }
}

/// Append the score label to `out`.
fn push_score_label(out: &mut Vec<char>)
    ensures
        final(out)@ == old(out)@ + score_label(),
{
    out.push('\t');
    out.push('s');
    out.push('c');
    out.push('o');
    out.push('r');
    out.push('e');
    out.push(':');
    out.push(' ');
    proof {
        assert(out@ =~= old(out)@ + score_label());
    }
}

} // verus!

