//! Word counting with a hash map, and a small stack built on `Vec`.

use std::collections::HashMap;

use vstd::prelude::*;

use crate::text::{split_words, words};

verus! {

/// How many times `word` occurs in `list`.
pub open spec fn occurrences(list: Seq<Seq<char>>, word: Seq<char>) -> nat
    decreases list.len(),
{
    if list.len() == 0 {
        0
    } else {
        occurrences(list.drop_last(), word) + if list.last() == word {
            1nat
        } else {
            0nat
        }
    }
}

/// Some pair of `pairs` has the text `word`.
pub open spec fn listed(pairs: Seq<(&str, usize)>, word: Seq<char>) -> bool {
    exists|k: int| 0 <= k < pairs.len() && (#[trigger] pairs[k]).0@ == word
}

/// Some key of `counts` has the text `word`.
pub open spec fn counted(counts: Map<&str, usize>, word: Seq<char>) -> bool {
    exists|key: &str| #[trigger] counts.contains_key(key) && key@ == word
}

/// Collects (word, count) pairs with distinct texts into a map
/// (`FromIterator` for `HashMap`): each word maps to its count, and no
/// other key is present.
#[verifier::external_body]
fn collect_counts<'a>(pairs: Vec<(&'a str, usize)>) -> (counts: HashMap<&'a str, usize>)
    requires
        forall|i: int, j: int|
            0 <= i < j < pairs@.len() ==> (#[trigger] pairs@[i]).0@ != (#[trigger] pairs@[j]).0@,
    ensures
        forall|i: int|
            0 <= i < pairs@.len() ==> counts@.contains_key(#[trigger] pairs@[i].0) && counts@[pairs@[i].0]
                == pairs@[i].1,
        forall|key: &str|
            #[trigger] counts@.contains_key(key) ==> exists|i: int|
                0 <= i < pairs@.len() && #[trigger] pairs@[i].0 == key,
{
    pairs.into_iter().collect()
}

/// Counts how often each white-space separated word occurs in a text: one
/// key per distinct word, mapped to its number of occurrences.
///
/// The counting runs over a list of distinct words, searched from the front,
/// and the map is built once at the end: a map keyed by `&str` has no model
/// of its keys' texts that could state what an `entry` update does.
pub fn word_frequencies(text: &str) -> (counts: HashMap<&str, usize>)
    ensures
        forall|key: &str|
            #[trigger] counts@.contains_key(key) ==> words(text@).contains(key@) && counts@[key]
                == occurrences(words(text@), key@),
        forall|i: int| 0 <= i < words(text@).len() ==> #[trigger] counted(counts@, words(text@)[i]),
        forall|a: &str, b: &str|
            #[trigger] counts@.contains_key(a) && #[trigger] counts@.contains_key(b) && a@ == b@ ==> a
                == b,
{
    let all = split_words(text);
    let ghost list = words(text@);
    let mut pairs: Vec<(&str, usize)> = Vec::new();
    let mut keys: Vec<String> = Vec::new();
    let mut i: usize = 0;
    while i < all.len()
        invariant
            all@.map_values(|w: &str| w@) == list,
            i <= all@.len(),
            keys@.len() == pairs@.len(),
            forall|k: int| 0 <= k < pairs@.len() ==> (#[trigger] keys@[k])@ == pairs@[k].0@,
            forall|k: int, l: int|
                0 <= k < l < pairs@.len() ==> (#[trigger] pairs@[k]).0@ != (#[trigger] pairs@[l]).0@,
            forall|k: int|
                0 <= k < pairs@.len() ==> list.take(i as int).contains((#[trigger] pairs@[k]).0@)
                    && pairs@[k].1 == occurrences(list.take(i as int), pairs@[k].0@),
            forall|m: int| 0 <= m < i ==> #[trigger] listed(pairs@, list[m]),
            pairs@.len() <= i,
        decreases all@.len() - i,
    {
        let word = all[i];
        let word_text = word.to_owned();
        let ghost w = list[i as int];
        proof {
            assert(word@ == w);
            assert(list.take(i + 1).drop_last() =~= list.take(i as int));
            assert(list.take(i + 1).last() == w);
        }
        let mut k: usize = 0;
        while k < keys.len() && !(keys[k] == word_text)
            invariant
                keys@.len() == pairs@.len(),
                k <= keys@.len(),
                forall|j: int| 0 <= j < k ==> (#[trigger] keys@[j])@ != word_text@,
            decreases keys@.len() - k,
        {
            k = k + 1;
        }
        let ghost old_pairs = pairs@;
        proof {
            if k == keys.len() {
                assert(!list.take(i as int).contains(w)) by {
                    if list.take(i as int).contains(w) {
                        let x = choose|x: int| 0 <= x < i && list.take(i as int)[x] == w;
                        assert(list[x] == w);
                        assert(listed(pairs@, list[x]));
                        let a = choose|a: int| 0 <= a < pairs@.len() && (#[trigger] pairs@[a]).0@ == w;
                        assert(keys@[a]@ == w);
                    }
                }
            }
        }
        if k < keys.len() {
            let (key, count) = pairs[k];
            proof {
                assert(count == occurrences(list.take(i as int), pairs@[k as int].0@));
                assert(count <= i) by {
                    lemma_occurrences_bound(list.take(i as int), pairs@[k as int].0@);
                }
            }
            pairs.set(k, (key, count + 1));
        } else {
            pairs.push((word, 1));
            keys.push(word_text);
            proof {
                lemma_occurrences_absent(list.take(i as int), w);
            }
        }
        proof {
            let before = list.take(i as int);
            let after = list.take(i + 1);
            assert forall|a: int| 0 <= a < pairs@.len() implies after.contains(
                (#[trigger] pairs@[a]).0@,
            ) && pairs@[a].1 == occurrences(after, pairs@[a].0@) by {
                assert(after[i as int] == w);
                if pairs@[a].0@ != w {
                    assert(before.contains(pairs@[a].0@));
                    let x = choose|x: int| 0 <= x < before.len() && before[x] == pairs@[a].0@;
                    assert(after[x] == before[x]);
                }
            }
            assert forall|m: int| 0 <= m < i + 1 implies #[trigger] listed(pairs@, list[m]) by {
                if m == i {
                    assert(pairs@[k as int].0@ == list[m]);
                } else {
                    assert(listed(old_pairs, list[m]));
                    let a = choose|a: int| 0 <= a < old_pairs.len() && (#[trigger] old_pairs[a]).0@
                        == list[m];
                    assert(pairs@[a].0 == old_pairs[a].0);
                }
            }
        }
        i = i + 1;
    }
    let counts = collect_counts(pairs);
    proof {
        assert(list.take(i as int) =~= list);
        assert forall|key: &str| #[trigger] counts@.contains_key(key) implies list.contains(key@)
            && counts@[key] == occurrences(list, key@) by {
            let a = choose|a: int| 0 <= a < pairs@.len() && #[trigger] pairs@[a].0 == key;
            assert(counts@.contains_key(pairs@[a].0));
        }
        assert forall|m: int| 0 <= m < words(text@).len() implies #[trigger] counted(
            counts@,
            words(text@)[m],
        ) by {
            assert(listed(pairs@, list[m]));
            let a = choose|a: int| 0 <= a < pairs@.len() && (#[trigger] pairs@[a]).0@ == list[m];
            assert(counts@.contains_key(pairs@[a].0));
            assert(pairs@[a].0@ == words(text@)[m]);
        }
        assert forall|a: &str, b: &str|
            #[trigger] counts@.contains_key(a) && #[trigger] counts@.contains_key(b) && a@ == b@
                implies a == b by {
            let x = choose|x: int| 0 <= x < pairs@.len() && #[trigger] pairs@[x].0 == a;
            let y = choose|y: int| 0 <= y < pairs@.len() && #[trigger] pairs@[y].0 == b;
            if x < y {
                assert(pairs@[x].0@ != pairs@[y].0@);
            } else if y < x {
                assert(pairs@[y].0@ != pairs@[x].0@);
            }
        }
    }
    counts
}

proof fn lemma_occurrences_bound(list: Seq<Seq<char>>, word: Seq<char>)
    ensures
        occurrences(list, word) <= list.len(),
    decreases list.len(),
{
    if list.len() > 0 {
        lemma_occurrences_bound(list.drop_last(), word);
    }
}

proof fn lemma_occurrences_absent(list: Seq<Seq<char>>, word: Seq<char>)
    requires
        !list.contains(word),
    ensures
        occurrences(list, word) == 0,
    decreases list.len(),
{
    if list.len() > 0 {
        assert(list.last() == list[list.len() - 1]);
        assert(!list.drop_last().contains(word)) by {
            if list.drop_last().contains(word) {
                let x = choose|x: int| 0 <= x < list.drop_last().len() && list.drop_last()[x] == word;
                assert(list[x] == word);
            }
        }
        lemma_occurrences_absent(list.drop_last(), word);
    }
}

/// A generic last-in, first-out stack.
#[derive(Debug, Clone, PartialEq, Eq)]
pub struct Stack<T> {
    items: Vec<T>,
}

impl<T> View for Stack<T> {
    type V = Seq<T>;

    closed spec fn view(&self) -> Seq<T> {
        self.items@
    }
}

impl<T> Stack<T> {
    pub fn new() -> (stack: Self)
        ensures
            stack@ == Seq::<T>::empty(),
    {
        Self { items: Vec::new() }
    }

    pub fn push(&mut self, item: T)
        ensures
            final(self)@ == old(self)@.push(item),
    {
        self.items.push(item);
    }

    /// Removes and answers the most recently pushed item.
    pub fn pop(&mut self) -> (item: Option<T>)
        ensures
            old(self)@.len() == 0 ==> item is None && final(self)@ == old(self)@,
            old(self)@.len() > 0 ==> item == Some(old(self)@.last()) && final(self)@ == old(
                self,
            )@.drop_last(),
    {
        self.items.pop()
    }

    /// The most recently pushed item, if any.
    pub fn peek(&self) -> (item: Option<&T>)
        ensures
            self@.len() == 0 ==> item is None,
            self@.len() > 0 ==> item == Some(&self@.last()),
    {
        if self.items.len() == 0 {
            None
        } else {
            Some(&self.items[self.items.len() - 1])
        }
    }

    pub fn is_empty(&self) -> (empty: bool)
        ensures
            empty == (self@.len() == 0),
    {
        self.items.len() == 0
    }
}

impl<T> Default for Stack<T> {
    fn default() -> (stack: Self)
        ensures
            stack@ == Seq::<T>::empty(),
    {
        Self::new()
    }
}

/// Last in, first out: popping right after a push answers the pushed item
/// and restores the stack.
pub proof fn law_stack_push_then_pop<T>(before: Seq<T>, item: T)
    ensures
        before.push(item).last() == item,
        before.push(item).drop_last() == before,
{
    assert(before.push(item).drop_last() =~= before);
}

} // verus!
