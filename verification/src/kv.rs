//! Association lists keyed by strings, read as maps. A newer entry stands
//! nearer the front and shadows any older entry with the same key, so
//! prepending is insertion and the first match is the current value.

use vstd::prelude::*;

verus! {

/// The map an association list stands for: the entry nearest the front wins.
pub open spec fn assoc_map<T: View>(s: Seq<(String, T)>) -> Map<Seq<char>, T::V>
    decreases s.len(),
{
    if s.len() == 0 {
        Map::empty()
    } else {
        assoc_map(s.drop_first()).insert(s[0].0@, s[0].1@)
    }
}

/// Looking an association list up by key yields the entry nearest the front.
pub proof fn lemma_assoc_first_match<T: View>(s: Seq<(String, T)>, k: Seq<char>, i: int)
    requires
        0 <= i < s.len(),
        s[i].0@ == k,
        forall|j: int| 0 <= j < i ==> #[trigger] s[j].0@ != k,
    ensures
        assoc_map(s).contains_key(k),
        assoc_map(s)[k] == s[i].1@,
    decreases s.len(),
{
    if i > 0 {
        lemma_assoc_first_match(s.drop_first(), k, i - 1);
    }
}

/// A key that no entry carries is not in the map.
pub proof fn lemma_assoc_no_match<T: View>(s: Seq<(String, T)>, k: Seq<char>)
    requires
        forall|j: int| 0 <= j < s.len() ==> #[trigger] s[j].0@ != k,
    ensures
        !assoc_map(s).contains_key(k),
    decreases s.len(),
{
    if s.len() > 0 {
        lemma_assoc_no_match(s.drop_first(), k);
    }
}

} // verus!
