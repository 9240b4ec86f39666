//! Association lists keyed by strings: the position of a key, and the
//! facts about it that the ledger's proofs use.
use vstd::prelude::*;

verus! {

/// Position of `k` in `ks`, searched from the back; `-1` when `k` is absent.
pub open spec fn position<K>(ks: Seq<K>, k: K) -> int
    decreases ks.len(),
{
    if ks.len() == 0 {
        -1
    } else if ks.last() == k {
        ks.len() - 1
    } else {
        position(ks.drop_last(), k)
    }
}

/// The keys of a list of (key, value) pairs.
pub open spec fn keys_of<V>(s: Seq<(Seq<char>, V)>) -> Seq<Seq<char>> {
    s.map_values(|p: (Seq<char>, V)| p.0)
}

/// The keys, as character sequences, of a list of pairs whose keys are strings.
pub open spec fn string_keys<V>(s: Seq<(String, V)>) -> Seq<Seq<char>> {
    s.map_values(|p: (String, V)| p.0@)
}

/// The value paired with `k`, if `k` is a key of `s`.
pub open spec fn lookup<V>(s: Seq<(Seq<char>, V)>, k: Seq<char>) -> Option<V> {
    let p = position(keys_of(s), k);
    if p >= 0 {
        Some(s[p].1)
    } else {
        None
    }
}

/// A position found is in range and holds the key.
pub proof fn lemma_position_range<K>(ks: Seq<K>, k: K)
    ensures
        -1 <= position(ks, k) < ks.len(),
        position(ks, k) >= 0 ==> ks[position(ks, k)] == k,
    decreases ks.len(),
{
    if ks.len() > 0 && ks.last() != k {
        lemma_position_range(ks.drop_last(), k);
    }
}

/// Where keys are distinct, the position of the key at `i` is `i`.
pub proof fn lemma_position_found<K>(ks: Seq<K>, k: K, i: int)
    requires
        ks.no_duplicates(),
        0 <= i < ks.len(),
        ks[i] == k,
    ensures
        position(ks, k) == i,
    decreases ks.len(),
{
    if i != ks.len() - 1 {
        assert(ks.last() != k);
        lemma_position_found(ks.drop_last(), k, i);
    }
}

/// A key that occurs nowhere has no position.
pub proof fn lemma_position_absent<K>(ks: Seq<K>, k: K)
    requires
        forall|j: int| 0 <= j < ks.len() ==> ks[j] != k,
    ensures
        position(ks, k) == -1,
    decreases ks.len(),
{
    if ks.len() > 0 {
        lemma_position_absent(ks.drop_last(), k);
    }
}

/// Appending a key gives it the last position and moves no other.
pub proof fn lemma_position_push<K>(ks: Seq<K>, x: K, k: K)
    ensures
        position(ks.push(x), k) == if x == k {
            ks.len() as int
        } else {
            position(ks, k)
        },
{
    assert(ks.push(x).drop_last() =~= ks);
}

/// Appending a key that was absent keeps the keys distinct.
pub proof fn lemma_push_fresh<K>(ks: Seq<K>, k: K)
    requires
        ks.no_duplicates(),
        position(ks, k) < 0,
    ensures
        ks.push(k).no_duplicates(),
        position(ks.push(k), k) == ks.len(),
{
    lemma_position_range(ks, k);
    assert forall|j: int| 0 <= j < ks.len() implies ks[j] != k by {
        lemma_position_absent_converse(ks, k, j);
    }
    assert forall|a: int, b: int|
        0 <= a < ks.push(k).len() && 0 <= b < ks.push(k).len() && a != b implies ks.push(k)[a]
        != ks.push(k)[b] by {
        if a < ks.len() && b < ks.len() {
            assert(ks.push(k)[a] == ks[a] && ks.push(k)[b] == ks[b]);
        }
    }
    lemma_position_push(ks, k, k);
}

/// Removing the key at `i` shifts the keys after it down by one.
pub proof fn lemma_position_remove<K>(ks: Seq<K>, i: int, k: K)
    requires
        ks.no_duplicates(),
        0 <= i < ks.len(),
    ensures
        ks.remove(i).no_duplicates(),
        position(ks.remove(i), k) == if k == ks[i] {
            -1
        } else if position(ks, k) < i {
            position(ks, k)
        } else {
            position(ks, k) - 1
        },
{
    let r = ks.remove(i);
    assert forall|a: int, b: int| 0 <= a < r.len() && 0 <= b < r.len() && a != b implies r[a]
        != r[b] by {
        let a0 = if a < i {
            a
        } else {
            a + 1
        };
        let b0 = if b < i {
            b
        } else {
            b + 1
        };
        assert(r[a] == ks[a0] && r[b] == ks[b0]);
    }
    lemma_position_range(ks, k);
    let p = position(ks, k);
    if p >= 0 && k != ks[i] {
        let q = if p < i {
            p
        } else {
            p - 1
        };
        assert(r[q] == k);
        lemma_position_found(r, k, q);
    } else {
        assert forall|j: int| 0 <= j < r.len() implies r[j] != k by {
            let j0 = if j < i {
                j
            } else {
                j + 1
            };
            assert(r[j] == ks[j0]);
            if p < 0 {
                lemma_position_absent_converse(ks, k, j0);
            }
        }
        lemma_position_absent(r, k);
    }
}

/// A key without a position occurs nowhere.
pub proof fn lemma_position_absent_converse<K>(ks: Seq<K>, k: K, j: int)
    requires
        position(ks, k) == -1,
        0 <= j < ks.len(),
    ensures
        ks[j] != k,
    decreases ks.len(),
{
    if j != ks.len() - 1 {
        lemma_position_absent_converse(ks.drop_last(), k, j);
    }
}

/// Searches the pairs of `v` for the key `k`.
pub fn find_key<V>(v: &Vec<(String, V)>, k: &String) -> (r: Option<usize>)
    requires
        string_keys(v@).no_duplicates(),
    ensures
        match r {
            Some(i) => i < v@.len() && position(string_keys(v@), k@) == i as int,
            None => position(string_keys(v@), k@) == -1,
        },
{
    let ghost ks = string_keys(v@);
    let mut i: usize = 0;
    while i < v.len()
        invariant
            ks == string_keys(v@),
            ks.no_duplicates(),
            0 <= i <= v.len(),
            forall|j: int| 0 <= j < i ==> ks[j] != k@,
        decreases v.len() - i,
    {
        if v[i].0 == *k {
            proof {
                lemma_position_found(ks, k@, i as int);
            }
            return Some(i);
        }
        i = i + 1;
    }
    proof {
        lemma_position_absent(ks, k@);
    }
    None
}

/// Whether no key occurs twice among the pairs of `v`.
pub fn keys_distinct<V>(v: &Vec<(String, V)>) -> (r: bool)
    ensures
        r == string_keys(v@).no_duplicates(),
{
    let ghost ks = string_keys(v@);
    let mut i: usize = 0;
    while i < v.len()
        invariant
            ks == string_keys(v@),
            i <= v.len(),
            forall|a: int, b: int| 0 <= a < i && a < b < v.len() ==> ks[a] != ks[b],
        decreases v.len() - i,
    {
        let mut j: usize = i + 1;
        while j < v.len()
            invariant
                ks == string_keys(v@),
                i < v.len(),
                i + 1 <= j <= v.len(),
                forall|a: int, b: int| 0 <= a < i && a < b < v.len() ==> ks[a] != ks[b],
                forall|b: int| i < b < j ==> ks[i as int] != ks[b],
            decreases v.len() - j,
        {
            if v[i].0 == v[j].0 {
                assert(ks[i as int] == ks[j as int]);
                return false;
            }
            j = j + 1;
        }
        i = i + 1;
    }
    assert forall|a: int, b: int| 0 <= a < ks.len() && 0 <= b < ks.len() && a != b implies ks[a]
        != ks[b] by {
        if b < a {
            assert(ks[b] != ks[a]);
        }
    }
    true
}

} // verus!
