//! Reusable shapes of query results.
use std::collections::HashSet;
use vstd::prelude::*;

verus! {

broadcast use vstd::std_specs::hash::group_hash_axioms;

/// The words that a user ignores, from the word ids of the user's ignored word rows.
pub fn ignored_words(word_ids: &Vec<i32>) -> (ignored: HashSet<i32>)
    ensures
        ignored@ == word_ids@.to_set(),
{
    let mut ignored: HashSet<i32> = HashSet::new();
    let mut i: usize = 0;
    while i < word_ids.len()
        invariant
            i <= word_ids.len(),
            ignored@ == word_ids@.take(i as int).to_set(),
        decreases word_ids.len() - i,
    {
        ignored.insert(word_ids[i]);
        proof {
            assert(word_ids@.take(i + 1) =~= word_ids@.take(i as int).push(word_ids@[i as int]));
            let prev = word_ids@.take(i as int);
            let next = word_ids@.take(i + 1);
            assert forall|x: i32| next.contains(x) <==> prev.contains(x) || x == word_ids@[i as int] by {
                if next.contains(x) {
                    let k = choose|k: int| 0 <= k < next.len() && next[k] == x;
                    if k < prev.len() {
                        assert(prev[k] == x);
                    }
                }
                if prev.contains(x) {
                    let k = choose|k: int| 0 <= k < prev.len() && prev[k] == x;
                    assert(next[k] == x);
                }
                assert(next[i as int] == word_ids@[i as int]);
            }
            assert(next.to_set() =~= prev.to_set().insert(word_ids@[i as int]));
        }
        i += 1;
    }
    assert(word_ids@.take(word_ids.len() as int) =~= word_ids@);
    ignored
}

} // verus!
