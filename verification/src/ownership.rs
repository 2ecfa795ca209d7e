//! Borrowing, mutable references and string slices.

use vstd::prelude::*;


use crate::text::{chars_of, first_word_of, lemma_words_step, scan};

verus! {

/// Appends ", ", the name and "!" to a greeting.
pub fn add_name(greeting: &mut String, name: &str)
    ensures
        final(greeting)@ == old(greeting)@ + ", "@ + name@ + "!"@,
{
    greeting.append(", ");
    greeting.append(name);
    greeting.append("!");
}

/// The first word of a text, borrowed from it; empty when there is none.
pub fn first_word(text: &str) -> (word: &str)
    ensures
        word@ == first_word_of(text@),
{
    let chars = chars_of(text);
    let start = scan(&chars, 0, false);
    if start == chars.len() {
        proof {
            crate::text::lemma_words_none(text@, 0);
            assert(text@.skip(0) =~= text@);
        }
        let empty = text.substring_char(0, 0);
        proof {
            assert(empty@ =~= Seq::<char>::empty());
        }
        return empty;
    }
    let end = scan(&chars, start, true);
    proof {
        lemma_words_step(text@, 0, start as int, end as int);
        assert(text@.skip(0) =~= text@);
    }
    text.substring_char(start, end)
}

/// The longer of two texts by length in bytes; the left one on a tie.
pub fn longest<'a>(left: &'a str, right: &'a str) -> (result: &'a str)
    ensures
        result == if left.len() >= right.len() {
            left
        } else {
            right
        },
{
    if left.len() >= right.len() {
        left
    } else {
        right
    }
}

} // verus!
