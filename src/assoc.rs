//! Association lists keyed by strings: a sequence of (key, value) pairs
//! read as a finite map in which the last pair with a key wins.

use vstd::prelude::*;

verus! {

/// The value that `s` associates with `k`: that of the last pair with key `k`.
pub open spec fn lookup<V>(s: Seq<(Seq<char>, V)>, k: Seq<char>) -> Option<V>
    decreases s.len(),
{
    if s.len() == 0 {
        None
    } else if s.last().0 == k {
        Some(s.last().1)
    } else {
        lookup(s.drop_last(), k)
    }
}

/// No key occurs twice.
pub open spec fn unique_keys<V>(s: Seq<(Seq<char>, V)>) -> bool {
    forall|i: int, j: int| 0 <= i < s.len() && 0 <= j < s.len() && i != j ==> s[i].0 != s[j].0
}

/// The pair at `i` is the last one with its key, so it decides the lookup.
pub proof fn lemma_lookup_last<V>(s: Seq<(Seq<char>, V)>, i: int)
    requires
        0 <= i < s.len(),
        forall|j: int| i < j < s.len() ==> s[j].0 != s[i].0,
    ensures
        lookup(s, s[i].0) == Some(s[i].1),
    decreases s.len(),
{
    if i < s.len() - 1 {
        lemma_lookup_last(s.drop_last(), i);
    }
}

pub proof fn lemma_lookup_at<V>(s: Seq<(Seq<char>, V)>, i: int)
    requires
        unique_keys(s),
        0 <= i < s.len(),
    ensures
        lookup(s, s[i].0) == Some(s[i].1),
{
    lemma_lookup_last(s, i);
}

pub proof fn lemma_lookup_missing<V>(s: Seq<(Seq<char>, V)>, k: Seq<char>)
    requires
        forall|j: int| 0 <= j < s.len() ==> s[j].0 != k,
    ensures
        lookup(s, k) is None,
    decreases s.len(),
{
    if s.len() > 0 {
        lemma_lookup_missing(s.drop_last(), k);
    }
}

pub proof fn lemma_lookup_found<V>(s: Seq<(Seq<char>, V)>, k: Seq<char>)
    requires
        lookup(s, k) is Some,
    ensures
        exists|i: int| 0 <= i < s.len() && s[i].0 == k && lookup(s, k) == Some(s[i].1),
    decreases s.len(),
{
    if s.last().0 != k {
        lemma_lookup_found(s.drop_last(), k);
        let i = choose|i: int| 0 <= i < s.len() - 1 && s.drop_last()[i].0 == k && lookup(s.drop_last(), k) == Some(s.drop_last()[i].1);
        assert(s[i] == s.drop_last()[i]);
    }
}

/// For a list with unique keys, a lookup is decided by the pair that holds the key.
pub proof fn lemma_lookup_unique<V>(s: Seq<(Seq<char>, V)>, k: Seq<char>)
    requires
        unique_keys(s),
    ensures
        lookup(s, k) is None <==> (forall|j: int| 0 <= j < s.len() ==> s[j].0 != k),
        forall|j: int| 0 <= j < s.len() && s[j].0 == k ==> lookup(s, k) == Some(s[j].1),
{
    if exists|j: int| 0 <= j < s.len() && s[j].0 == k {
        let j = choose|j: int| 0 <= j < s.len() && s[j].0 == k;
        lemma_lookup_at(s, j);
    } else {
        lemma_lookup_missing(s, k);
    }
    assert forall|j: int| 0 <= j < s.len() && s[j].0 == k implies lookup(s, k) == Some(s[j].1) by {
        lemma_lookup_at(s, j);
    }
}

/// Replacing the value of one pair keeps the keys and changes only that lookup.
pub proof fn lemma_update_value<V>(s: Seq<(Seq<char>, V)>, j: int, v: V)
    requires
        unique_keys(s),
        0 <= j < s.len(),
    ensures
        unique_keys(s.update(j, (s[j].0, v))),
        lookup(s.update(j, (s[j].0, v)), s[j].0) == Some(v),
        forall|k: Seq<char>| k != s[j].0 ==> lookup(#[trigger] s.update(j, (s[j].0, v)), k) == lookup(s, k),
{
    let s2 = s.update(j, (s[j].0, v));
    assert forall|a: int, b: int| 0 <= a < s2.len() && 0 <= b < s2.len() && a != b implies s2[a].0 != s2[b].0 by {
        assert(s2[a].0 == s[a].0 && s2[b].0 == s[b].0);
    }
    lemma_lookup_at(s2, j);
    assert forall|k: Seq<char>| k != s[j].0 implies lookup(#[trigger] s.update(j, (s[j].0, v)), k) == lookup(s, k) by {
        lemma_lookup_unique(s, k);
        lemma_lookup_unique(s2, k);
        if exists|i: int| 0 <= i < s.len() && s[i].0 == k {
            let i = choose|i: int| 0 <= i < s.len() && s[i].0 == k;
            assert(s2[i] == s[i]);
        } else {
            assert forall|i: int| 0 <= i < s2.len() implies s2[i].0 != k by {
                assert(s2[i].0 == s[i].0);
            }
        }
    }
}

/// Appending a pair with a new key keeps the keys unique and changes only that lookup.
pub proof fn lemma_push_new<V>(s: Seq<(Seq<char>, V)>, k: Seq<char>, v: V)
    requires
        unique_keys(s),
        forall|j: int| 0 <= j < s.len() ==> s[j].0 != k,
    ensures
        unique_keys(s.push((k, v))),
        lookup(s.push((k, v)), k) == Some(v),
        forall|k2: Seq<char>| k2 != k ==> lookup(#[trigger] s.push((k, v)), k2) == lookup(s, k2),
{
    let s2 = s.push((k, v));
    assert(s2.drop_last() =~= s);
    assert forall|a: int, b: int| 0 <= a < s2.len() && 0 <= b < s2.len() && a != b implies s2[a].0 != s2[b].0 by {
        if a < s.len() {
            assert(s2[a] == s[a]);
        }
        if b < s.len() {
            assert(s2[b] == s[b]);
        }
    }
}

/// The index of the last pair whose key is `k`.
pub fn find_key<V>(s: &Vec<(String, V)>, k: &String) -> (r: Option<usize>)
    ensures
        match r {
            Some(i) => i < s@.len() && s@[i as int].0@ == k@ && forall|j: int|
                i < j < s@.len() ==> s@[j].0@ != k@,
            None => forall|j: int| 0 <= j < s@.len() ==> s@[j].0@ != k@,
        },
{
    let mut i: usize = s.len();
    while i > 0
        invariant
            i <= s@.len(),
            forall|j: int| i <= j < s@.len() ==> s@[j].0@ != k@,
        decreases i,
    {
        i -= 1;
        if s[i].0 == *k {
            return Some(i);
        }
    }
    None
}

} // verus!
