//! Word lists: text with one candidate word on each line.
//!
//! A line ends at a line feed; a carriage return just before that line feed
//! belongs to the line ending. The last line need not end in a line feed, and
//! a list that ends in one has no empty line after it.

use crate::model::Constraints;
use vstd::prelude::*;
use vstd::string::*;
use vstd::utf8::*;

verus! {

/// The byte that ends a line.
pub const LINE_FEED: u8 = 10;

/// The byte that may stand before a line feed and is then part of the line ending.
pub const CARRIAGE_RETURN: u8 = 13;

/// The number of bytes of `text` before its first line feed; the length of
/// `text` if it has none.
pub open spec fn line_end(text: Seq<u8>) -> nat
    decreases text.len(),
{
    if text.len() == 0 || text[0] == LINE_FEED {
        0
    } else {
        1 + line_end(text.drop_first())
    }
}

/// The first line of `text`, without its line ending.
pub open spec fn first_line(text: Seq<u8>) -> Seq<u8> {
    let end = line_end(text) as int;
    if end >= text.len() {
        text
    } else if end > 0 && text[end - 1] == CARRIAGE_RETURN {
        text.take(end - 1)
    } else {
        text.take(end)
    }
}

/// What is left of `text` after its first line and the line ending.
pub open spec fn after_first_line(text: Seq<u8>) -> Seq<u8> {
    let end = line_end(text) as int;
    if end >= text.len() {
        Seq::empty()
    } else {
        text.skip(end + 1)
    }
}

/// The lines of `text`, in order.
pub open spec fn lines(text: Seq<u8>) -> Seq<Seq<u8>>
    decreases text.len(),
{
    if text.len() == 0 {
        Seq::empty()
    } else {
        seq![first_line(text)] + lines(after_first_line(text))
    }
}

/// The first line of `text` that meets the constraints, together with what is
/// left of `text` after that line; `None` if no line meets them.
pub open spec fn first_match(constraints: Constraints, text: Seq<u8>) -> Option<
    (Seq<u8>, Seq<u8>),
>
    decreases text.len(),
{
    if text.len() == 0 {
        None
    } else if constraints.applies_to(first_line(text)) {
        Some((first_line(text), after_first_line(text)))
    } else {
        first_match(constraints, after_first_line(text))
    }
}

/// The first `limit` of `words`, and all of them if they are no more.
pub open spec fn leading(words: Seq<Seq<u8>>, limit: nat) -> Seq<Seq<u8>> {
    if words.len() <= limit {
        words
    } else {
        words.take(limit as int)
    }
}

/// The bytes of each of `words`.
pub open spec fn bytes_of(words: Seq<&str>) -> Seq<Seq<u8>> {
    words.map_values(|word: &str| word.spec_bytes())
}

/// A position up to which `text` has no line feed, and which is the end of
/// `text` or holds a line feed, is where the first line feed of `text` stands.
pub proof fn lemma_line_end(text: Seq<u8>, end: int)
    requires
        0 <= end <= text.len(),
        forall|j: int| 0 <= j < end ==> text[j] != LINE_FEED,
        end < text.len() ==> text[end] == LINE_FEED,
    ensures
        line_end(text) == end,
    decreases end,
{
    if end > 0 {
        let rest = text.drop_first();
        assert forall|j: int| 0 <= j < end - 1 implies rest[j] != LINE_FEED by {
            assert(rest[j] == text[j + 1]);
        }
        lemma_line_end(rest, end - 1);
    }
}

/// The lines of a text that meet the constraints are: the first that does,
/// followed by those of what is left after it.
pub proof fn lemma_first_match(constraints: Constraints, text: Seq<u8>)
    ensures
        match first_match(constraints, text) {
            Some((word, rest)) => constraints.applies_to(word) && rest.len() < text.len()
                && constraints.matching(lines(text)) == seq![word] + constraints.matching(
                lines(rest),
            ),
            None => constraints.matching(lines(text)) == Seq::<Seq<u8>>::empty(),
        },
    decreases text.len(),
{
    let possible = |word: Seq<u8>| constraints.applies_to(word);
    if text.len() == 0 {
        reveal(Seq::filter);
    } else {
        let line = first_line(text);
        let rest = after_first_line(text);
        Seq::filter_distributes_over_add(seq![line], lines(rest), possible);
        assert(seq![line].filter(possible) == if possible(line) {
            seq![line]
        } else {
            Seq::empty()
        }) by {
            reveal_with_fuel(Seq::filter, 2);
            assert(seq![line].drop_last() =~= Seq::<Seq<u8>>::empty());
            assert(seq![line].last() == line);
            assert(Seq::<Seq<u8>>::empty().push(line) =~= seq![line]);
        }
        if !constraints.applies_to(line) {
            lemma_first_match(constraints, rest);
            assert(Seq::<Seq<u8>>::empty() + constraints.matching(lines(rest))
                =~= constraints.matching(lines(rest)));
        }
    }
}

/// Splits the first line off a word list: the line without its line ending,
/// and the text after it. An empty text has no first line.
pub fn split_first_line<'a>(text: &'a str) -> (parts: Option<(&'a str, &'a str)>)
    ensures
        parts is None <==> text.spec_bytes().len() == 0,
        parts matches Some((line, rest)) ==> line.spec_bytes() == first_line(text.spec_bytes())
            && rest.spec_bytes() == after_first_line(text.spec_bytes()),
{
    broadcast use group_utf8_lib;

    let bytes = text.as_bytes();
    let len = bytes.len();
    if len == 0 {
        return None;
    }
    let mut end: usize = 0;
    while end < len && bytes[end] != LINE_FEED
        invariant
            end <= len,
            len == bytes@.len(),
            forall|j: int| 0 <= j < end ==> bytes@[j] != LINE_FEED,
        decreases len - end,
    {
        end += 1;
    }
    proof {
        lemma_line_end(bytes@, end as int);
        assert(valid_utf8(text.spec_bytes()));
        if end < len {
            assert(!is_continuation_byte(bytes@[end as int]));
            is_char_boundary_iff_not_is_continuation_byte(text.spec_bytes(), end as int);
        } else {
            is_char_boundary_start_end_of_seq(text.spec_bytes());
        }
    }
    let (head, tail) = text.split_at(end);
    if end == len {
        proof {
            assert(head.spec_bytes() =~= text.spec_bytes());
            assert(tail.spec_bytes() =~= Seq::<u8>::empty());
        }
        return Some((head, tail));
    }
    proof {
        let t = tail.spec_bytes();
        assert(valid_utf8(t));
        assert(t[0] == LINE_FEED);
        assert(is_char_boundary(t, 1)) by {
            reveal_with_fuel(is_char_boundary, 2);
            reveal_with_fuel(valid_utf8, 2);
        }
    }
    let (_, rest) = tail.split_at(1);
    proof {
        assert(rest.spec_bytes() =~= text.spec_bytes().skip(end + 1));
        assert(head.spec_bytes() =~= text.spec_bytes().take(end as int));
    }
    let head_bytes = head.as_bytes();
    if end > 0 && head_bytes[end - 1] == CARRIAGE_RETURN {
        proof {
            assert(valid_utf8(head.spec_bytes()));
            assert(!is_continuation_byte(head_bytes@[end - 1]));
            is_char_boundary_iff_not_is_continuation_byte(head.spec_bytes(), end - 1);
        }
        let (line, _) = head.split_at(end - 1);
        proof {
            assert(line.spec_bytes() =~= text.spec_bytes().take(end - 1));
        }
        Some((line, rest))
    } else {
        Some((head, rest))
    }
}

} // verus!
