//! Lists of `(key, value)` entries keyed by user or submission name.
//!
//! The first entry with a given key is the one that counts; later entries
//! with the same key are shadowed.
use vstd::prelude::*;

verus! {

/// Whether `i` is the position of the first entry of `s` with key `k`.
pub open spec fn first_key_at<V>(s: Seq<(String, V)>, k: Seq<char>, i: int) -> bool {
    &&& 0 <= i < s.len()
    &&& s[i].0@ == k
    &&& forall|j: int| 0 <= j < i ==> s[j].0@ != k
}

/// Whether some entry of `s` has key `k`.
pub open spec fn has_key<V>(s: Seq<(String, V)>, k: Seq<char>) -> bool {
    exists|i: int| 0 <= i < s.len() && s[i].0@ == k
}

/// The value of the first entry of `s` with key `k`.
pub open spec fn lookup<V>(s: Seq<(String, V)>, k: Seq<char>) -> Option<V> {
    if has_key(s, k) {
        Some(s[choose|i: int| first_key_at(s, k, i)].1)
    } else {
        None
    }
}

/// The value found at the first position with a key is the looked-up value.
pub proof fn lemma_lookup_at<V>(s: Seq<(String, V)>, k: Seq<char>, i: int)
    requires
        first_key_at(s, k, i),
    ensures
        lookup(s, k) == Some(s[i].1),
{
    assert(has_key(s, k));
    let j = choose|j: int| first_key_at(s, k, j);
    assert(first_key_at(s, k, j));
    if j < i {
        assert(s[j].0@ != k);
    } else if i < j {
        assert(s[i].0@ != k);
    }
}

/// Position of the first entry of `s` whose key is `k`.
pub fn find_key<V>(s: &Vec<(String, V)>, k: &String) -> (r: Option<usize>)
    ensures
        r matches Some(i) ==> first_key_at(s@, k@, i as int),
        r is None ==> !has_key(s@, k@),
        r is None <==> lookup(s@, k@) is None,
        r matches Some(i) ==> lookup(s@, k@) == Some(s@[i as int].1),
{
    let mut i: usize = 0;
    while i < s.len()
        invariant
            i <= s.len(),
            forall|j: int| 0 <= j < i ==> s@[j].0@ != k@,
        decreases s.len() - i,
    {
        if s[i].0 == *k {
            proof {
                lemma_lookup_at(s@, k@, i as int);
            }
            return Some(i);
        }
        i = i + 1;
    }
    None
}

/// Value of the first entry of `s` whose key is `k`.
pub fn value_of<V: Copy>(s: &Vec<(String, V)>, k: &String) -> (r: Option<V>)
    ensures
        r == lookup(s@, k@),
{
    match find_key(s, k) {
        Some(i) => Some(s[i].1),
        None => None,
    }
}

} // verus!
