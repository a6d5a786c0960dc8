//! What holds of requirements and of filtering, for every history and every word.

use crate::guess::{GuessHistory, LetterGuess};
use crate::letters::{lowered, to_lower, ALPHABET};
use crate::model::{
    lowered_letters, occurrences, settled, shown, Constraints, MalformedHistory,
};
use crate::reqs::{is_derivation, Requirement};
use vstd::prelude::*;

verus! {

/// The tables derived from a history have their lengths, and the word length
/// is that of the history.
pub proof fn lemma_constraints_well_formed(history: GuessHistory)
    ensures
        history.constraints().well_formed(),
        history.constraints().word_len == history.word_len,
    decreases history.letters.len(),
{
    if history.word_len == 0 || history.letters.len() < history.word_len {
    } else {
        lemma_constraints_well_formed(history.played(history.letters.len() - history.word_len));
    }
}

/// Deriving is deterministic: two outcomes of deriving from one history are
/// the same defect, or two requirements that stand for the same constraints.
pub proof fn lemma_derivation_unique(
    history: GuessHistory,
    first: Result<Requirement, MalformedHistory>,
    second: Result<Requirement, MalformedHistory>,
)
    requires
        is_derivation(history, first),
        is_derivation(history, second),
    ensures
        match (first, second) {
            (Ok(a), Ok(b)) => a@ == b@,
            (Err(a), Err(b)) => a == b,
            _ => false,
        },
{
}

/// A word whose length is not the word length of the history is never
/// possible, whatever the history holds. An empty line in particular is not.
pub proof fn lemma_wrong_length_rejected(history: GuessHistory, word: Seq<u8>)
    requires
        word.len() != history.word_len,
    ensures
        !history.constraints().applies_to(word),
{
    lemma_constraints_well_formed(history);
}

/// Filtering is idempotent: filtering what has been filtered by the same
/// constraints changes nothing.
pub proof fn lemma_matching_idempotent(constraints: Constraints, words: Seq<Seq<u8>>)
    ensures
        constraints.matching(constraints.matching(words)) == constraints.matching(words),
    decreases words.len(),
{
    let possible = |word: Seq<u8>| constraints.applies_to(word);
    reveal(Seq::filter);
    if words.len() > 0 {
        let front = words.drop_last();
        lemma_matching_idempotent(constraints, front);
        if possible(words.last()) {
            front.filter(possible).lemma_filter_push(words.last(), possible);
        }
    }
}

/// The constraints of a history with one more round are those of the history
/// with that round taken in.
pub proof fn lemma_constraints_with_round(history: GuessHistory, round: Seq<LetterGuess>)
    requires
        history.word_len > 0,
        round.len() == history.word_len,
    ensures
        history.with_round(round).constraints() == history.constraints().absorb(round),
{
    let longer = history.with_round(round);
    assert(longer.letters.take(longer.letters.len() - longer.word_len) =~= history.letters);
    assert(longer.letters.skip(longer.letters.len() - longer.word_len) =~= round);
}

/// One more round never makes a word possible that was not: every word that
/// is possible after the round was possible before it. This holds where the
/// round keeps the letters and exact counts that the history had settled, and
/// also where no word at all is possible after the round.
pub proof fn lemma_round_narrows(history: GuessHistory, round: Seq<LetterGuess>, word: Seq<u8>)
    requires
        history.word_len > 0,
        round.len() == history.word_len,
        history.constraints().upheld_by(history.with_round(round).constraints()) || forall|
            other: Seq<u8>,
        | !(#[trigger] history.with_round(round).constraints().applies_to(other)),
    ensures
        history.with_round(round).constraints().applies_to(word)
            ==> history.constraints().applies_to(word),
{
    let before = history.constraints();
    let after = history.with_round(round).constraints();
    lemma_constraints_with_round(history, round);
    lemma_constraints_well_formed(history);
    if after.applies_to(word) {
        assert forall|p: int| 0 <= p < word.len() implies !(
        #[trigger] before.must_not_be[p]).contains(to_lower(word[p])) by {
            assert(!after.must_not_be[p].contains(to_lower(word[p])));
        }
        assert forall|p: int| 0 <= p < word.len() implies (
        #[trigger] before.must_be[p] matches Some(letter) ==> to_lower(word[p]) == letter) by {
            assert(after.must_be[p] is Some ==> to_lower(word[p]) == after.must_be[p]->0);
        }
        assert forall|c: int| 0 <= c < ALPHABET implies (
        #[trigger] before.exact_counts[c] matches Some(k) ==> occurrences(word, c) == k) by {
            assert(after.exact_counts[c] is Some ==> occurrences(word, c)
                == after.exact_counts[c]->0);
        }
        assert forall|c: int| 0 <= c < ALPHABET implies occurrences(word, c)
            >= #[trigger] before.min_counts[c] by {
            assert(occurrences(word, c) >= after.min_counts[c]);
        }
    }
}

/// A round that does not keep what the history had settled turns the
/// possible words over: no word that is possible after it was possible before.
pub proof fn lemma_round_overturns(history: GuessHistory, round: Seq<LetterGuess>, word: Seq<u8>)
    requires
        history.word_len > 0,
        round.len() == history.word_len,
        !history.constraints().upheld_by(history.with_round(round).constraints()),
    ensures
        history.with_round(round).constraints().applies_to(word)
            ==> !history.constraints().applies_to(word),
{
    let before = history.constraints();
    let after = history.with_round(round).constraints();
    lemma_constraints_with_round(history, round);
    lemma_constraints_well_formed(history);
    if after.applies_to(word) && before.applies_to(word) {
        if exists|p: int|
            0 <= p < before.word_len && (#[trigger] before.must_be[p]) is Some && after.must_be[p]
                != before.must_be[p] {
            let p = choose|p: int|
                0 <= p < before.word_len && (#[trigger] before.must_be[p]) is Some
                    && after.must_be[p] != before.must_be[p];
            assert(after.must_be[p] is Some);
        } else {
            let c = choose|c: int|
                0 <= c < ALPHABET && (#[trigger] before.exact_counts[c]) is Some
                    && after.exact_counts[c] != before.exact_counts[c];
            assert(after.exact_counts[c] is Some);
        }
    }
}

/// A letter occurs in the lower-case form of a word as often as in the word.
pub proof fn lemma_occurrences_case_blind(word: Seq<u8>, c: int)
    ensures
        occurrences(lowered(word), c) == occurrences(word, c),
    decreases word.len(),
{
    if word.len() > 0 {
        assert(lowered(word).drop_last() =~= lowered(word.drop_last()));
        lemma_occurrences_case_blind(word.drop_last(), c);
    }
}

/// Words count in either case: a word is possible exactly if its lower-case
/// form is.
pub proof fn lemma_word_case_blind(constraints: Constraints, word: Seq<u8>)
    ensures
        constraints.applies_to(word) == constraints.applies_to(lowered(word)),
{
    let low = lowered(word);
    assert forall|c: int| occurrences(low, c) == occurrences(word, c) by {
        lemma_occurrences_case_blind(word, c);
    }
    if constraints.applies_to(word) {
        assert forall|p: int| 0 <= p < low.len() implies crate::letters::is_letter(
            #[trigger] low[p],
        ) by {
            assert(crate::letters::is_letter(word[p]));
        }
        assert(constraints.applies_to(low));
    }
    if constraints.applies_to(low) {
        assert forall|p: int| 0 <= p < word.len() implies crate::letters::is_letter(
            #[trigger] word[p],
        ) by {
            assert(crate::letters::is_letter(low[p]));
        }
        assert forall|p: int| 0 <= p < word.len() implies (
        #[trigger] constraints.must_be[p] matches Some(letter) ==> to_lower(word[p]) == letter) by {
            assert(to_lower(low[p]) == to_lower(word[p]));
        }
        assert forall|p: int| 0 <= p < word.len() implies !(
        #[trigger] constraints.must_not_be[p]).contains(to_lower(word[p])) by {
            assert(to_lower(low[p]) == to_lower(word[p]));
        }
        assert(constraints.applies_to(word));
    }
}

/// Guessed letters in lower case show and settle what they do as they stand.
pub proof fn lemma_round_case_blind(round: Seq<LetterGuess>, c: int)
    ensures
        shown(lowered_letters(round), c) == shown(round, c),
        settled(lowered_letters(round), c) == settled(round, c),
    decreases round.len(),
{
    if round.len() > 0 {
        assert(lowered_letters(round).drop_last() =~= lowered_letters(round.drop_last()));
        lemma_round_case_blind(round.drop_last(), c);
    }
}

/// The letters of a history count in either case: the history yields the
/// constraints that its lower-case form yields.
pub proof fn lemma_history_case_blind(history: GuessHistory)
    ensures
        history.lowered().constraints() == history.constraints(),
    decreases history.letters.len(),
{
    let low = history.lowered();
    if history.word_len == 0 || history.letters.len() < history.word_len {
    } else {
        let start = history.letters.len() - history.word_len;
        let round = history.letters.skip(start);
        let before = history.played(start);
        lemma_history_case_blind(before);
        lemma_constraints_well_formed(before);
        assert(low.played(start).letters =~= before.lowered().letters);
        assert(low.letters.skip(start) =~= lowered_letters(round));
        assert forall|c: int|
            shown(lowered_letters(round), c) == shown(round, c) && settled(
                lowered_letters(round),
                c,
            ) == settled(round, c) by {
            lemma_round_case_blind(round, c);
        }
        assert(before.constraints().absorb(lowered_letters(round)) =~~= before.constraints().absorb(
            round,
        ));
    }
}

} // verus!
