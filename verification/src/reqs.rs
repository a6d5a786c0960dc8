//! Requirements: the constraints of a guess history in executable form.

use crate::guess::{GuessColor, GuessHistory, Guesses};
use crate::letters::{is_letter, letter_index, normalize, place, to_lower, ALPHABET};
use crate::model::{occurrences, shown, Constraints, MalformedHistory};
use crate::theorems::{lemma_constraints_well_formed, lemma_constraints_with_round};
use crate::wordlist::{
    after_first_line, bytes_of, first_line, first_match, leading, lemma_first_match, lines,
    split_first_line,
};
use vstd::prelude::*;
use vstd::string::*;

verus! {

/// What a guess history demands of the secret word. A requirement is made
/// from a history once and never changes afterwards.
#[derive(Debug)]
pub struct Requirement {
    word_len: usize,
    min_counts: [usize; ALPHABET],
    exact_counts: [Option<usize>; ALPHABET],
    must_be: Vec<Option<u8>>,
    must_not_be: Vec<Vec<u8>>,
}

/// The constraints that the five tables of a requirement stand for.
spec fn constraints_of(
    word_len: usize,
    min_counts: [usize; ALPHABET],
    exact_counts: [Option<usize>; ALPHABET],
    must_be: Seq<Option<u8>>,
    must_not_be: Seq<Vec<u8>>,
) -> Constraints {
    Constraints {
        word_len: word_len as nat,
        min_counts: Seq::new(ALPHABET as nat, |c: int| min_counts@[c] as nat),
        exact_counts: Seq::new(
            ALPHABET as nat,
            |c: int|
                match exact_counts@[c] {
                    Some(k) => Some(k as nat),
                    None => None,
                },
        ),
        must_be,
        must_not_be: Seq::new(must_not_be.len(), |p: int| must_not_be[p]@.to_set()),
    }
}

impl View for Requirement {
    type V = Constraints;

    closed spec fn view(&self) -> Constraints {
        constraints_of(
            self.word_len,
            self.min_counts,
            self.exact_counts,
            self.must_be@,
            self.must_not_be@,
        )
    }
}

/// Whether `outcome` is what deriving a requirement from `history` gives: the
/// defect of the history if it has one, and otherwise a requirement that
/// stands for the constraints of the history.
pub open spec fn is_derivation(
    history: GuessHistory,
    outcome: Result<Requirement, MalformedHistory>,
) -> bool {
    match history.defect() {
        Some(defect) => outcome == Err::<Requirement, MalformedHistory>(defect),
        None => outcome matches Ok(requirement) && requirement@ == history.constraints(),
    }
}

/// Whether `letter` is among `letters`.
fn holds(letters: &Vec<u8>, letter: u8) -> (found: bool)
    ensures
        found == letters@.contains(letter),
{
    let mut i: usize = 0;
    while i < letters.len()
        invariant
            i <= letters.len(),
            forall|j: int| 0 <= j < i ==> letters@[j] != letter,
        decreases letters.len() - i,
    {
        if letters[i] == letter {
            return true;
        }
        i += 1;
    }
    false
}

impl Requirement {
    #[verifier::type_invariant]
    spec fn tables_fit(self) -> bool {
        &&& self.word_len > 0
        &&& self.must_be@.len() == self.word_len
        &&& self.must_not_be@.len() == self.word_len
    }

    /// Whether `word` is still possible: whether it has the length, consists
    /// of ASCII letters and, with upper and lower case taken alike, has every
    /// letter that is required at its position, no letter where it is
    /// excluded, and each letter as often as required.
    pub fn applies_to(&self, word: &str) -> (possible: bool)
        ensures
            possible == self@.applies_to(word.spec_bytes()),
    {
        proof {
            use_type_invariant(self);
        }
        let bytes = word.as_bytes();
        let len = bytes.len();
        if len != self.word_len {
            return false;
        }
        let mut counts: [usize; ALPHABET] = [0; ALPHABET];
        let mut pos: usize = 0;
        while pos < len
            invariant
                bytes@ == word.spec_bytes(),
                len == bytes@.len(),
                len == self.word_len,
                self.must_be@.len() == self.word_len,
                self.must_not_be@.len() == self.word_len,
                pos <= len,
                forall|q: int| 0 <= q < pos ==> is_letter(#[trigger] bytes@[q]),
                forall|q: int|
                    0 <= q < pos ==> (#[trigger] self@.must_be[q] matches Some(letter)
                        ==> to_lower(bytes@[q]) == letter),
                forall|q: int|
                    0 <= q < pos ==> !(#[trigger] self@.must_not_be[q]).contains(
                        to_lower(bytes@[q]),
                    ),
                forall|c: int|
                    0 <= c < ALPHABET ==> #[trigger] counts@[c] == occurrences(
                        bytes@.take(pos as int),
                        c,
                    ),
                forall|c: int| 0 <= c < ALPHABET ==> #[trigger] counts@[c] <= pos,
            decreases len - pos,
        {
            proof {
                assert(bytes@.take(pos + 1).drop_last() =~= bytes@.take(pos as int));
                assert(bytes@.take(pos + 1).last() == bytes@[pos as int]);
            }
            match normalize(bytes[pos]) {
                None => {
                    proof {
                        assert(!is_letter(word.spec_bytes()[pos as int]));
                    }
                    return false;
                },
                Some((letter, index)) => {
                    if let Some(fixed) = self.must_be[pos] {
                        if letter != fixed {
                            proof {
                                assert(self@.must_be[pos as int] == Some(fixed));
                            }
                            return false;
                        }
                    }
                    if holds(&self.must_not_be[pos], letter) {
                        proof {
                            assert(self@.must_not_be[pos as int].contains(letter));
                        }
                        return false;
                    }
                    counts[index] = counts[index] + 1;
                },
            }
            pos += 1;
        }
        proof {
            assert(bytes@.take(pos as int) =~= bytes@);
        }
        let mut c: usize = 0;
        while c < ALPHABET
            invariant
                c <= ALPHABET,
                bytes@ == word.spec_bytes(),
                forall|d: int|
                    0 <= d < ALPHABET ==> #[trigger] counts@[d] == occurrences(bytes@, d),
                forall|d: int|
                    0 <= d < c ==> (#[trigger] self@.exact_counts[d] matches Some(k)
                        ==> occurrences(bytes@, d) == k),
                forall|d: int|
                    0 <= d < c ==> occurrences(bytes@, d) >= #[trigger] self@.min_counts[d],
            decreases ALPHABET - c,
        {
            if let Some(exact) = self.exact_counts[c] {
                if counts[c] != exact {
                    proof {
                        assert(self@.exact_counts[c as int] == Some(exact as nat));
                    }
                    return false;
                }
            }
            if counts[c] < self.min_counts[c] {
                proof {
                    assert(self@.min_counts[c as int] == self.min_counts@[c as int]);
                }
                return false;
            }
            c += 1;
        }
        true
    }

    /// The first word of a word list that is still possible, together with
    /// the part of the list after it; `None` if no word of the list is
    /// possible. Calling it again on that part gives the next possible word,
    /// so that no more of the list is read than the caller asks for.
    pub fn next_match<'a>(&self, wordlist: &'a str) -> (found: Option<(&'a str, &'a str)>)
        ensures
            match first_match(self@, wordlist.spec_bytes()) {
                Some((word, rest)) => found matches Some((w, r)) && w.spec_bytes() == word
                    && r.spec_bytes() == rest,
                None => found is None,
            },
    {
        let mut rest = wordlist;
        let mut parts = split_first_line(rest);
        while parts.is_some()
            invariant
                parts is None <==> rest.spec_bytes().len() == 0,
                parts matches Some((line, tail)) ==> line.spec_bytes() == first_line(
                    rest.spec_bytes(),
                ) && tail.spec_bytes() == after_first_line(rest.spec_bytes()),
                first_match(self@, wordlist.spec_bytes()) == first_match(self@, rest.spec_bytes()),
            decreases rest.spec_bytes().len(),
        {
            let (line, tail) = parts.unwrap();
            if self.applies_to(line) {
                return Some((line, tail));
            }
            rest = tail;
            parts = split_first_line(rest);
        }
        None
    }

    /// The words of a word list that are still possible, in the order of the
    /// list. A blank line is no word and is left out.
    pub fn filter_wordlist<'a>(&self, wordlist: &'a str) -> (found: Vec<&'a str>)
        ensures
            bytes_of(found@) == self@.matching(lines(wordlist.spec_bytes())),
    {
        let mut found: Vec<&'a str> = Vec::new();
        let mut rest = wordlist;
        let mut next = self.next_match(rest);
        proof {
            assert(bytes_of(found@) =~= Seq::<Seq<u8>>::empty());
        }
        while next.is_some()
            invariant
                match first_match(self@, rest.spec_bytes()) {
                    Some((word, left)) => next matches Some((w, r)) && w.spec_bytes() == word
                        && r.spec_bytes() == left,
                    None => next is None,
                },
                self@.matching(lines(wordlist.spec_bytes())) == bytes_of(found@) + self@.matching(
                    lines(rest.spec_bytes()),
                ),
            decreases rest.spec_bytes().len(),
        {
            let (word, left) = next.unwrap();
            proof {
                lemma_first_match(self@, rest.spec_bytes());
                assert(bytes_of(found@.push(word)) =~= bytes_of(found@).push(word.spec_bytes()));
            }
            found.push(word);
            rest = left;
            next = self.next_match(rest);
        }
        proof {
            lemma_first_match(self@, rest.spec_bytes());
        }
        found
    }

    /// The first `limit` words of a word list that are still possible, in the
    /// order of the list, and all of them if they are no more. The list is
    /// read no further than the last word found.
    pub fn first_matches<'a>(&self, wordlist: &'a str, limit: usize) -> (found: Vec<&'a str>)
        ensures
            bytes_of(found@) == leading(
                self@.matching(lines(wordlist.spec_bytes())),
                limit as nat,
            ),
    {
        let mut found: Vec<&'a str> = Vec::new();
        let mut rest = wordlist;
        proof {
            assert(bytes_of(found@) =~= Seq::<Seq<u8>>::empty());
        }
        while found.len() < limit
            invariant
                found@.len() <= limit,
                self@.matching(lines(wordlist.spec_bytes())) == bytes_of(found@) + self@.matching(
                    lines(rest.spec_bytes()),
                ),
            decreases rest.spec_bytes().len(),
        {
            proof {
                lemma_first_match(self@, rest.spec_bytes());
            }
            match self.next_match(rest) {
                Some((word, left)) => {
                    proof {
                        assert(bytes_of(found@.push(word)) =~= bytes_of(found@).push(
                            word.spec_bytes(),
                        ));
                    }
                    found.push(word);
                    rest = left;
                },
                None => {
                    return found;
                },
            }
        }
        proof {
            let all = self@.matching(lines(wordlist.spec_bytes()));
            assert(all.take(limit as int) =~= bytes_of(found@));
        }
        found
    }

    /// The words among `words` that are still possible, in their order.
    pub fn filter_words<'a>(&self, words: &[&'a str]) -> (found: Vec<&'a str>)
        ensures
            found@ == words@.filter(|word: &str| self@.applies_to(word.spec_bytes())),
            bytes_of(found@) == self@.matching(bytes_of(words@)),
    {
        let ghost possible = |word: &str| self@.applies_to(word.spec_bytes());
        let mut found: Vec<&'a str> = Vec::new();
        let mut i: usize = 0;
        let ghost meets = |word: Seq<u8>| self@.applies_to(word);
        proof {
            reveal(Seq::filter);
            assert(words@.take(0).filter(possible) =~= Seq::<&str>::empty());
            assert(bytes_of(words@.take(0)).filter(meets) =~= Seq::<Seq<u8>>::empty());
            assert(bytes_of(found@) =~= Seq::<Seq<u8>>::empty());
        }
        while i < words.len()
            invariant
                i <= words.len(),
                possible == |word: &str| self@.applies_to(word.spec_bytes()),
                meets == |word: Seq<u8>| self@.applies_to(word),
                found@ == words@.take(i as int).filter(possible),
                bytes_of(found@) == bytes_of(words@.take(i as int)).filter(meets),
            decreases words.len() - i,
        {
            let word = words[i];
            proof {
                assert(words@.take(i + 1) =~= words@.take(i as int).push(word));
                words@.take(i as int).lemma_filter_push(word, possible);
                assert(bytes_of(words@.take(i + 1)) =~= bytes_of(words@.take(i as int)).push(
                    word.spec_bytes(),
                ));
                bytes_of(words@.take(i as int)).lemma_filter_push(word.spec_bytes(), meets);
                assert(bytes_of(found@.push(word)) =~= bytes_of(found@).push(word.spec_bytes()));
            }
            if self.applies_to(word) {
                found.push(word);
            }
            i += 1;
        }
        proof {
            assert(words@.take(i as int) =~= words@);
        }
        found
    }

    /// The length of the words that are possible.
    pub fn word_len(&self) -> (len: usize)
        ensures
            len == self@.word_len,
            len > 0,
    {
        proof {
            use_type_invariant(self);
        }
        self.word_len
    }

    /// How often `letter` occurs at least in a possible word.
    pub fn min_count(&self, letter: u8) -> (count: usize)
        requires
            is_letter(letter),
        ensures
            count == self@.min_counts[letter_index(letter)],
    {
        self.min_counts[place(letter).1]
    }

    /// How often `letter` occurs exactly in a possible word, where that is known.
    pub fn exact_count(&self, letter: u8) -> (count: Option<usize>)
        requires
            is_letter(letter),
        ensures
            match count {
                Some(k) => self@.exact_counts[letter_index(letter)] == Some(k as nat),
                None => self@.exact_counts[letter_index(letter)] is None,
            },
    {
        self.exact_counts[place(letter).1]
    }

    /// The lower-case letter that stands at position `pos` of a possible
    /// word, where that is known.
    pub fn must_be(&self, pos: usize) -> (letter: Option<u8>)
        requires
            pos < self@.word_len,
        ensures
            letter == self@.must_be[pos as int],
    {
        proof {
            use_type_invariant(self);
        }
        self.must_be[pos]
    }

    /// Whether `letter`, in either case, is excluded from position `pos` of a
    /// possible word.
    pub fn must_not_be(&self, pos: usize, letter: u8) -> (excluded: bool)
        requires
            pos < self@.word_len,
        ensures
            excluded == self@.must_not_be[pos as int].contains(to_lower(letter)),
    {
        proof {
            use_type_invariant(self);
        }
        match normalize(letter) {
            Some((lower, _)) => holds(&self.must_not_be[pos], lower),
            None => holds(&self.must_not_be[pos], letter),
        }
    }
}

impl Clone for Requirement {
    /// A requirement that stands for the same constraints.
    fn clone(&self) -> (copy: Requirement)
        ensures
            copy@ == self@,
    {
        proof {
            use_type_invariant(self);
        }
        let mut must_be: Vec<Option<u8>> = Vec::new();
        let mut must_not_be: Vec<Vec<u8>> = Vec::new();
        let mut pos: usize = 0;
        while pos < self.word_len
            invariant
                pos <= self.word_len,
                self.must_be@.len() == self.word_len,
                self.must_not_be@.len() == self.word_len,
                must_be@ == self.must_be@.take(pos as int),
                must_not_be@.len() == pos,
                forall|p: int|
                    0 <= p < pos ==> (#[trigger] must_not_be@[p])@ == self.must_not_be@[p]@,
            decreases self.word_len - pos,
        {
            must_be.push(self.must_be[pos]);
            let letters = &self.must_not_be[pos];
            let mut copied: Vec<u8> = Vec::new();
            let mut i: usize = 0;
            while i < letters.len()
                invariant
                    i <= letters.len(),
                    copied@ == letters@.take(i as int),
                decreases letters.len() - i,
            {
                copied.push(letters[i]);
                proof {
                    assert(letters@.take(i + 1) =~= letters@.take(i as int).push(
                        letters@[i as int],
                    ));
                }
                i += 1;
            }
            proof {
                assert(letters@.take(i as int) =~= letters@);
                assert(self.must_be@.take(pos + 1) =~= self.must_be@.take(pos as int).push(
                    self.must_be@[pos as int],
                ));
            }
            must_not_be.push(copied);
            pos += 1;
        }
        proof {
            assert(self.must_be@.take(pos as int) =~= self.must_be@);
        }
        let copy = Requirement {
            word_len: self.word_len,
            min_counts: self.min_counts,
            exact_counts: self.exact_counts,
            must_be,
            must_not_be,
        };
        proof {
            assert(copy@ =~~= self@);
        }
        copy
    }
}

impl TryFrom<Guesses> for Requirement {
    type Error = MalformedHistory;

    /// Derives the requirement of a guess history. A history that does not
    /// consist of whole rounds of letters is refused, and nothing is derived
    /// from a part of it.
    fn try_from(item: Guesses) -> (outcome: Result<Requirement, MalformedHistory>)
        ensures
            is_derivation(item@, outcome),
    {
        let word_len = item.word_len;
        let total = item.val.len();
        if word_len == 0 {
            return Err(MalformedHistory::ZeroWordLength);
        }
        if total % word_len != 0 {
            return Err(MalformedHistory::PartialRound);
        }
        let mut i: usize = 0;
        while i < total
            invariant
                i <= total,
                total == item.val@.len(),
                word_len == item.word_len,
                word_len > 0,
                total % word_len == 0,
                forall|j: int| 0 <= j < i ==> is_letter(#[trigger] item.val@[j].char),
            decreases total - i,
        {
            if normalize(item.val[i].char).is_none() {
                proof {
                    assert(!is_letter(item@.letters[i as int].char));
                }
                return Err(MalformedHistory::InvalidLetter);
            }
            i += 1;
        }
        let ghost history = item@;
        let mut min_counts: [usize; ALPHABET] = [0; ALPHABET];
        let mut exact_counts: [Option<usize>; ALPHABET] = [None; ALPHABET];
        let mut must_be: Vec<Option<u8>> = vec![None; word_len];
        let mut must_not_be: Vec<Vec<u8>> = Vec::new();
        let mut p: usize = 0;
        while p < word_len
            invariant
                p <= word_len,
                must_not_be@.len() == p,
                forall|q: int| 0 <= q < p ==> (#[trigger] must_not_be@[q])@.len() == 0,
            decreases word_len - p,
        {
            must_not_be.push(Vec::new());
            p += 1;
        }
        proof {
            assert(constraints_of(word_len, min_counts, exact_counts, must_be@, must_not_be@)
                =~~= Constraints::blank(word_len as nat));
            assert(history.played(0).letters.len() == 0);
        }
        let mut start: usize = 0;
        while start < total
            invariant
                history == item@,
                word_len == item.word_len,
                word_len > 0,
                total == item.val@.len(),
                start <= total,
                (total - start) % (word_len as int) == 0,
                forall|j: int| 0 <= j < total ==> is_letter(#[trigger] item.val@[j].char),
                must_be@.len() == word_len,
                must_not_be@.len() == word_len,
                constraints_of(word_len, min_counts, exact_counts, must_be@, must_not_be@)
                    == history.played(start as int).constraints(),
            decreases total - start,
        {
            proof {
                lemma_round_fits(total as int, start as int, word_len as int);
            }
            let ghost before = history.played(start as int).constraints();
            let ghost round = history.letters.subrange(start as int, start + word_len);
            let mut counts: [usize; ALPHABET] = [0; ALPHABET];
            let mut pos: usize = 0;
            proof {
                assert(before.absorb_positions(round.take(0)) =~~= before) by {
                    lemma_constraints_well_formed(history.played(start as int));
                }
            }
            while pos < word_len
                invariant
                    history == item@,
                    total == item.val@.len(),
                    start + word_len <= total,
                    pos <= word_len,
                    round == history.letters.subrange(start as int, start + word_len),
                    forall|j: int| 0 <= j < total ==> is_letter(#[trigger] item.val@[j].char),
                    must_be@.len() == word_len,
                    must_not_be@.len() == word_len,
                    before.well_formed(),
                    before.word_len == word_len,
                    constraints_of(word_len, min_counts, exact_counts, must_be@, must_not_be@)
                        == before.absorb_positions(round.take(pos as int)),
                    forall|c: int|
                        0 <= c < ALPHABET ==> #[trigger] counts@[c] == shown(
                            round.take(pos as int),
                            c,
                        ),
                    forall|c: int| 0 <= c < ALPHABET ==> #[trigger] counts@[c] <= pos,
                decreases word_len - pos,
            {
                let guess = item.val[start + pos];
                let ghost seen = round.take(pos as int);
                let ghost next = round.take(pos + 1);
                let ghost old_not = must_not_be@;
                let ghost counts_before = counts;
                let ghost was = constraints_of(
                    word_len,
                    min_counts,
                    exact_counts,
                    must_be@,
                    must_not_be@,
                );
                proof {
                    assert(guess == round[pos as int]);
                    assert(next.drop_last() =~= seen);
                    assert(next.last() == guess);
                    assert(is_letter(item.val@[start + pos].char));
                }
                let (letter, index) = place(guess.char);
                match guess.color {
                    GuessColor::Green => {
                        must_be[pos] = Some(letter);
                        counts[index] = counts[index] + 1;
                    },
                    GuessColor::Yellow => {
                        must_not_be[pos].push(letter);
                        counts[index] = counts[index] + 1;
                        proof {
                            old_not[pos as int]@.lemma_push_to_set_commute(letter);
                        }
                    },
                    GuessColor::Gray => {
                        must_not_be[pos].push(letter);
                        exact_counts[index] = Some(counts[index]);
                        proof {
                            old_not[pos as int]@.lemma_push_to_set_commute(letter);
                        }
                    },
                }
                proof {
                    let now = constraints_of(
                        word_len,
                        min_counts,
                        exact_counts,
                        must_be@,
                        must_not_be@,
                    );
                    let want = before.absorb_positions(next);
                    assert(was == before.absorb_positions(seen));
                    assert(now.word_len == want.word_len);
                    assert(now.min_counts =~= want.min_counts);
                    assert forall|c: int| 0 <= c < ALPHABET implies now.exact_counts[c]
                        == want.exact_counts[c] by {
                        assert(was.exact_counts[c] == before.absorb_positions(
                            seen,
                        ).exact_counts[c]);
                        assert(counts_before@[c] == shown(seen, c));
                    }
                    assert(now.exact_counts =~= want.exact_counts);
                    assert(now.must_be =~= want.must_be);
                    assert forall|p: int| 0 <= p < word_len implies now.must_not_be[p]
                        =~= want.must_not_be[p] by {
                        assert(was.must_not_be[p] == before.absorb_positions(seen).must_not_be[p]);
                    }
                    assert(now.must_not_be =~= want.must_not_be);
                    assert(now =~~= want);
                }
                pos += 1;
            }
            proof {
                assert(round.take(pos as int) =~= round);
            }
            let mut c: usize = 0;
            while c < ALPHABET
                invariant
                    c <= ALPHABET,
                    before.well_formed(),
                    forall|d: int|
                        0 <= d < c ==> #[trigger] min_counts@[d] == before.absorb(
                            round,
                        ).min_counts[d],
                    forall|d: int|
                        c <= d < ALPHABET ==> #[trigger] min_counts@[d] == before.min_counts[d],
                    forall|d: int| 0 <= d < ALPHABET ==> #[trigger] counts@[d] == shown(round, d),
                decreases ALPHABET - c,
            {
                if counts[c] > min_counts[c] {
                    min_counts[c] = counts[c];
                }
                c += 1;
            }
            proof {
                assert(constraints_of(word_len, min_counts, exact_counts, must_be@, must_not_be@)
                    =~~= before.absorb(round));
                lemma_constraints_with_round(history.played(start as int), round);
                assert(history.played(start as int).with_round(round).letters
                    =~= history.played(start + word_len).letters);
            }
            start += word_len;
        }
        proof {
            assert(history.letters.take(total as int) =~= history.letters);
        }
        Ok(Requirement { word_len, min_counts, exact_counts, must_be, must_not_be })
    }
}

/// What `try_from` returns is stated on `try_from` itself, over the view of
/// the requirement; a requirement as such is not written down here.
impl vstd::std_specs::convert::TryFromSpecImpl<Guesses> for Requirement {
    open spec fn obeys_try_from_spec() -> bool {
        false
    }

    open spec fn try_from_spec(v: Guesses) -> Result<Self, Self::Error> {
        arbitrary()
    }
}

/// With whole rounds left to come and not all letters read, the next round
/// lies within the letters, and whole rounds are left after it.
proof fn lemma_round_fits(total: int, start: int, word_len: int)
    requires
        0 <= start < total,
        word_len > 0,
        (total - start) % word_len == 0,
    ensures
        start + word_len <= total,
        (total - (start + word_len)) % word_len == 0,
{
    let left = total - start;
    if left < word_len {
        vstd::arithmetic::div_mod::lemma_small_mod(left as nat, word_len as nat);
    }
    vstd::arithmetic::div_mod::lemma_mod_sub_multiples_vanish(left, word_len);
}

} // verus!
