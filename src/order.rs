//! Ordering a list of keyed members: one entry per key, the first occurrence
//! kept, in strict lexical order of the key.
use vstd::prelude::*;
use crate::text::{lemma_lex_irreflexive, lemma_lex_total, lemma_lex_transitive, less_than, lex_lt};

verus! {

/// Lexical order on pairs of character sequences: first component, then second.
pub open spec fn key_lt(a: (Seq<char>, Seq<char>), b: (Seq<char>, Seq<char>)) -> bool {
    lex_lt(a.0, b.0) || (a.0 == b.0 && lex_lt(a.1, b.1))
}

pub open spec fn key_view(k: (String, String)) -> (Seq<char>, Seq<char>) {
    (k.0@, k.1@)
}

pub open spec fn keys_view(keys: Seq<(String, String)>) -> Seq<(Seq<char>, Seq<char>)> {
    keys.map_values(|k: (String, String)| key_view(k))
}

pub proof fn lemma_key_order(a: (Seq<char>, Seq<char>), b: (Seq<char>, Seq<char>), c: (Seq<char>, Seq<char>))
    ensures
        !key_lt(a, a),
        key_lt(a, b) || key_lt(b, a) || a == b,
        key_lt(a, b) && key_lt(b, c) ==> key_lt(a, c),
{
    lemma_lex_irreflexive(a.0);
    lemma_lex_irreflexive(a.1);
    lemma_lex_total(a.0, b.0);
    lemma_lex_total(a.1, b.1);
    if lex_lt(a.0, b.0) && lex_lt(b.0, c.0) {
        lemma_lex_transitive(a.0, b.0, c.0);
    }
    if lex_lt(a.1, b.1) && lex_lt(b.1, c.1) {
        lemma_lex_transitive(a.1, b.1, c.1);
    }
    if lex_lt(a.0, b.0) && lex_lt(b.0, a.0) {
        lemma_lex_transitive(a.0, b.0, a.0);
    }
}

/// `r` lists positions of `keys`, in strict order of their keys, each the first
/// position of its key, and every key of `keys` occurs among them.
pub open spec fn first_keys_in_order(keys: Seq<(Seq<char>, Seq<char>)>, r: Seq<usize>) -> bool {
    &&& sorted_first(keys, r, keys.len() as int)
    &&& forall|j: int| 0 <= j < keys.len() ==> has_key(keys, r, #[trigger] keys[j])
}

/// Some position of `r` holds the key `x`.
pub open spec fn has_key(kv: Seq<(Seq<char>, Seq<char>)>, r: Seq<usize>, x: (Seq<char>, Seq<char>)) -> bool {
    exists|a: int| 0 <= a < r.len() && #[trigger] kv[r[a] as int] == x
}

/// `r` is in strict key order and holds first positions below `k` only.
pub open spec fn sorted_first(kv: Seq<(Seq<char>, Seq<char>)>, r: Seq<usize>, k: int) -> bool {
    &&& forall|a: int, b: int| 0 <= a < b < r.len() ==> key_lt(kv[r[a] as int], kv[r[b] as int])
    &&& forall|a: int| 0 <= a < r.len() ==> (#[trigger] r[a]) < k
    &&& forall|a: int, j: int| 0 <= a < r.len() && 0 <= j < r[a] ==> #[trigger] kv[j] != kv[#[trigger] r[a] as int]
}

/// `w` gives, for each position below `k`, where its key stands in `r`.
pub open spec fn covered(kv: Seq<(Seq<char>, Seq<char>)>, r: Seq<usize>, w: Seq<int>, k: int) -> bool {
    &&& w.len() == k
    &&& forall|j: int| 0 <= j < k ==> 0 <= #[trigger] w[j] < r.len() && kv[r[w[j]] as int] == kv[j]
}

proof fn lemma_insert_sorted(kv: Seq<(Seq<char>, Seq<char>)>, r: Seq<usize>, w: Seq<int>, i: int, k: usize)
    requires
        sorted_first(kv, r, k as int),
        covered(kv, r, w, k as int),
        0 <= i <= r.len(),
        k < kv.len(),
        forall|a: int| 0 <= a < i ==> key_lt(#[trigger] kv[r[a] as int], kv[k as int]),
        i < r.len() ==> !key_lt(kv[r[i] as int], kv[k as int]) && kv[r[i] as int] != kv[k as int],
    ensures
        sorted_first(kv, r.insert(i, k), k + 1),
{
    let x = kv[k as int];
    let n = r.insert(i, k);
    if i < r.len() {
        lemma_key_order(kv[r[i] as int], x, x);
    }
    assert forall|a: int| i < a < r.len() implies key_lt(x, kv[r[a] as int]) by {
        lemma_key_order(x, kv[r[i] as int], kv[r[a] as int]);
    }
    assert forall|a: int| 0 <= a < r.len() implies kv[r[a] as int] != x by {
        lemma_key_order(kv[r[a] as int], x, x);
        if a > i {
            lemma_key_order(x, kv[r[a] as int], x);
        }
    }
    assert forall|a: int, b: int| 0 <= a < b < n.len() implies key_lt(kv[n[a] as int], kv[n[b] as int]) by {
        if b == i {
            assert(n[a] == r[a]);
        } else if a == i {
            assert(n[b] == r[b - 1]);
        } else if a > i {
            assert(n[a] == r[a - 1]);
            assert(n[b] == r[b - 1]);
        } else if b > i {
            assert(n[a] == r[a]);
            assert(n[b] == r[b - 1]);
        } else {
            assert(n[a] == r[a]);
            assert(n[b] == r[b]);
        }
    }
    assert forall|a: int, j: int| 0 <= a < n.len() && 0 <= j < n[a] implies #[trigger] kv[j] != kv[#[trigger] n[a] as int] by {
        if a == i {
            assert(kv[r[w[j]] as int] == kv[j]);
        } else if a < i {
            assert(n[a] == r[a]);
        } else {
            assert(n[a] == r[a - 1]);
        }
    }
    assert forall|a: int| 0 <= a < n.len() implies (#[trigger] n[a]) < k + 1 by {
        if a < i {
            assert(n[a] == r[a]);
        } else if a > i {
            assert(n[a] == r[a - 1]);
        }
    }
}

/// Where each key stands after `k` is inserted at `i`.
pub open spec fn shifted(w: Seq<int>, i: int) -> Seq<int> {
    w.map_values(|a: int| if a >= i { a + 1 } else { a }).push(i)
}

proof fn lemma_insert_covered(kv: Seq<(Seq<char>, Seq<char>)>, r: Seq<usize>, w: Seq<int>, i: int, k: usize)
    requires
        covered(kv, r, w, k as int),
        0 <= i <= r.len(),
        k < kv.len(),
    ensures
        covered(kv, r.insert(i, k), shifted(w, i), k + 1),
{
    let n = r.insert(i, k);
    let w2 = shifted(w, i);
    assert forall|j: int| 0 <= j < k + 1 implies 0 <= #[trigger] w2[j] < n.len() && kv[n[w2[j]] as int] == kv[j] by {
        if j < k {
            assert(0 <= w[j] < r.len());
            if w[j] >= i {
                assert(n[w[j] + 1] == r[w[j]]);
            } else {
                assert(n[w[j]] == r[w[j]]);
            }
        }
    }
}

proof fn lemma_covered_exists(kv: Seq<(Seq<char>, Seq<char>)>, r: Seq<usize>, w: Seq<int>)
    requires
        covered(kv, r, w, kv.len() as int),
    ensures
        forall|j: int| 0 <= j < kv.len() ==> has_key(kv, r, #[trigger] kv[j]),
{
    assert forall|j: int| 0 <= j < kv.len() implies has_key(kv, r, #[trigger] kv[j]) by {
        let a = w[j];
        assert(0 <= a < r.len() && kv[r[a] as int] == kv[j]);
    }
}

fn key_less(a: &(String, String), b: &(String, String)) -> (r: bool)
    ensures
        r == key_lt(key_view(*a), key_view(*b)),
{
    less_than(a.0.as_str(), b.0.as_str()) || (a.0 == b.0 && less_than(a.1.as_str(), b.1.as_str()))
}

/// The positions of `keys` that `first_keys_in_order` describes.
pub fn order_by_key(keys: &Vec<(String, String)>) -> (r: Vec<usize>)
    ensures
        first_keys_in_order(keys_view(keys@), r@),
{
    let ghost kv = keys_view(keys@);
    let ghost mut w: Seq<int> = Seq::empty();
    let mut r: Vec<usize> = Vec::new();
    let mut k: usize = 0;
    while k < keys.len()
        invariant
            kv == keys_view(keys@),
            kv.len() == keys.len(),
            k <= keys.len(),
            sorted_first(kv, r@, k as int),
            covered(kv, r@, w, k as int),
        decreases keys.len() - k,
    {
        let mut i: usize = 0;
        while i < r.len() && key_less(&keys[r[i]], &keys[k])
            invariant
                kv == keys_view(keys@),
                kv.len() == keys.len(),
                k < keys.len(),
                i <= r.len(),
                sorted_first(kv, r@, k as int),
                forall|a: int| 0 <= a < i ==> key_lt(#[trigger] kv[r@[a] as int], kv[k as int]),
            decreases r.len() - i,
        {
            assert(r@[i as int] < k);
            i = i + 1;
        }
        let dup = i < r.len() && keys[r[i]].0 == keys[k].0 && keys[r[i]].1 == keys[k].1;
        if dup {
            proof {
                assert(kv[r@[i as int] as int] == kv[k as int]);
                w = w.push(i as int);
                assert(covered(kv, r@, w, k + 1));
            }
        } else {
            proof {
                lemma_insert_sorted(kv, r@, w, i as int, k);
                lemma_insert_covered(kv, r@, w, i as int, k);
                w = shifted(w, i as int);
            }
            r.insert(i, k);
        }
        k = k + 1;
    }
    proof {
        lemma_covered_exists(kv, r@, w);
    }
    r
}

} // verus!
