//! Lexicographic order on byte strings and sorted sets of byte strings.

use vstd::prelude::*;

verus! {

/// `i` is where `a` and `b` first differ, with `a` the smaller one there
/// (or `a` a proper prefix of `b`).
pub open spec fn lex_witness(a: Seq<u8>, b: Seq<u8>, i: int) -> bool {
    &&& 0 <= i <= a.len()
    &&& i <= b.len()
    &&& forall|k: int| 0 <= k < i ==> a[k] == b[k]
    &&& ((i == a.len() && i < b.len()) || (i < a.len() && i < b.len() && a[i] < b[i]))
}

/// Byte strings in lexicographic order (the order of `[u8]`).
pub open spec fn lex_lt(a: Seq<u8>, b: Seq<u8>) -> bool {
    exists|i: int| lex_witness(a, b, i)
}

/// Strictly increasing in lexicographic order.
pub open spec fn strictly_sorted(v: Seq<Seq<u8>>) -> bool {
    forall|i: int, j: int| 0 <= i < j < v.len() ==> lex_lt(#[trigger] v[i], #[trigger] v[j])
}

/// No byte string is below itself.
pub proof fn lemma_lex_irreflexive(a: Seq<u8>)
    ensures
        !lex_lt(a, a),
{
}

/// The lexicographic order of byte strings is transitive.
pub proof fn lemma_lex_transitive(a: Seq<u8>, b: Seq<u8>, c: Seq<u8>)
    requires
        lex_lt(a, b),
        lex_lt(b, c),
    ensures
        lex_lt(a, c),
{
    let i = choose|i: int| lex_witness(a, b, i);
    let j = choose|j: int| lex_witness(b, c, j);
    if i < j {
        assert(lex_witness(a, c, i));
    } else if j < i {
        assert(lex_witness(a, c, j));
    } else {
        assert(lex_witness(a, c, i));
    }
}

/// Any two byte strings are equal or one is below the other.
pub proof fn lemma_lex_total(a: Seq<u8>, b: Seq<u8>)
    ensures
        a == b || lex_lt(a, b) || lex_lt(b, a),
{
    if a != b {
        let n = if a.len() < b.len() {
            a.len() as int
        } else {
            b.len() as int
        };
        if forall|k: int| 0 <= k < n ==> a[k] == b[k] {
            if a.len() < b.len() {
                assert(lex_witness(a, b, n));
            } else if b.len() < a.len() {
                assert(lex_witness(b, a, n));
            } else {
                assert(a =~= b);
            }
        } else {
            let k0 = choose|k: int| 0 <= k < n && a[k] != b[k];
            let m = first_diff(a, b, k0);
            if a[m] < b[m] {
                assert(lex_witness(a, b, m));
            } else {
                assert(lex_witness(b, a, m));
            }
        }
    }
}

/// The first index at or below `k` where `a` and `b` differ.
proof fn first_diff(a: Seq<u8>, b: Seq<u8>, k: int) -> (m: int)
    requires
        0 <= k < a.len(),
        k < b.len(),
        a[k] != b[k],
    ensures
        0 <= m <= k,
        a[m] != b[m],
        forall|q: int| 0 <= q < m ==> a[q] == b[q],
    decreases k,
{
    if exists|q: int| 0 <= q < k && a[q] != b[q] {
        let q = choose|q: int| 0 <= q < k && a[q] != b[q];
        first_diff(a, b, q)
    } else {
        k
    }
}

/// Two byte strings are never each below the other.
pub proof fn lemma_lex_asymmetric(a: Seq<u8>, b: Seq<u8>)
    requires
        lex_lt(a, b),
    ensures
        !lex_lt(b, a),
        a != b,
{
    if lex_lt(b, a) {
        lemma_lex_transitive(a, b, a);
    }
}

/// How two byte strings compare.
pub enum KeyOrder {
    Less,
    Equal,
    Greater,
}

/// Compares two byte strings lexicographically.
pub fn compare_bytes(a: &[u8], b: &[u8]) -> (r: KeyOrder)
    ensures
        r is Less <==> lex_lt(a@, b@),
        r is Equal <==> a@ == b@,
        r is Greater <==> lex_lt(b@, a@),
{
    let n = if a.len() < b.len() {
        a.len()
    } else {
        b.len()
    };
    let mut i: usize = 0;
    while i < n
        invariant
            n <= a@.len(),
            n <= b@.len(),
            n == a@.len() || n == b@.len(),
            i <= n,
            forall|k: int| 0 <= k < i ==> a@[k] == b@[k],
        decreases n - i,
    {
        if a[i] < b[i] {
            assert(lex_witness(a@, b@, i as int));
            proof {
                lemma_lex_asymmetric(a@, b@);
            }
            return KeyOrder::Less;
        } else if a[i] > b[i] {
            assert(lex_witness(b@, a@, i as int));
            proof {
                lemma_lex_asymmetric(b@, a@);
            }
            return KeyOrder::Greater;
        }
        i = i + 1;
    }
    if a.len() < b.len() {
        assert(lex_witness(a@, b@, n as int));
        proof {
            lemma_lex_asymmetric(a@, b@);
        }
        KeyOrder::Less
    } else if b.len() < a.len() {
        assert(lex_witness(b@, a@, n as int));
        proof {
            lemma_lex_asymmetric(b@, a@);
        }
        KeyOrder::Greater
    } else {
        assert(a@ =~= b@);
        proof {
            lemma_lex_irreflexive(a@);
        }
        KeyOrder::Equal
    }
}

/// Where `key` sits in the strictly sorted `v`: `Ok(i)` when `v[i]` is
/// `key`, `Err(i)` when `key` belongs before `v[i]` (and after `v[i - 1]`).
pub fn search_sorted(v: &Vec<Vec<u8>>, key: &[u8]) -> (r: Result<usize, usize>)
    requires
        strictly_sorted(v@.map_values(|x: Vec<u8>| x@)),
    ensures
        match r {
            Ok(i) => i < v@.len() && v@[i as int]@ == key@,
            Err(i) => {
                &&& i <= v@.len()
                &&& forall|k: int| 0 <= k < i ==> lex_lt(#[trigger] v@[k]@, key@)
                &&& forall|k: int| i <= k < v@.len() ==> lex_lt(key@, #[trigger] v@[k]@)
            },
        },
{
    let ghost vs = v@.map_values(|x: Vec<u8>| x@);
    let mut lo: usize = 0;
    let mut hi: usize = v.len();
    while lo < hi
        invariant
            vs == v@.map_values(|x: Vec<u8>| x@),
            strictly_sorted(vs),
            lo <= hi <= v@.len(),
            forall|k: int| 0 <= k < lo ==> lex_lt(#[trigger] v@[k]@, key@),
            forall|k: int| hi <= k < v@.len() ==> lex_lt(key@, #[trigger] v@[k]@),
        decreases hi - lo,
    {
        let mid = lo + (hi - lo) / 2;
        match compare_bytes(v[mid].as_slice(), key) {
            KeyOrder::Equal => {
                return Ok(mid);
            },
            KeyOrder::Less => {
                assert forall|k: int| 0 <= k < mid + 1 implies lex_lt(#[trigger] v@[k]@, key@) by {
                    if k < mid {
                        assert(vs[k] == v@[k]@ && vs[mid as int] == v@[mid as int]@);
                        lemma_lex_transitive(v@[k]@, v@[mid as int]@, key@);
                    }
                }
                lo = mid + 1;
            },
            KeyOrder::Greater => {
                assert forall|k: int| mid <= k < v@.len() implies lex_lt(key@, #[trigger] v@[k]@) by {
                    if k > mid {
                        assert(vs[k] == v@[k]@ && vs[mid as int] == v@[mid as int]@);
                        lemma_lex_transitive(key@, v@[mid as int]@, v@[k]@);
                    }
                }
                hi = mid;
            },
        }
    }
    Err(lo)
}

/// Adds `key` to the strictly sorted `v` unless it is there already.
pub fn insert_sorted(v: &mut Vec<Vec<u8>>, key: Vec<u8>)
    requires
        strictly_sorted(old(v)@.map_values(|x: Vec<u8>| x@)),
    ensures
        strictly_sorted(final(v)@.map_values(|x: Vec<u8>| x@)),
        final(v)@.map_values(|x: Vec<u8>| x@).to_set() == old(v)@.map_values(
            |x: Vec<u8>| x@,
        ).to_set().insert(key@),
{
    let ghost old_vs = v@.map_values(|x: Vec<u8>| x@);
    match search_sorted(v, key.as_slice()) {
        Ok(i) => {
            assert(old_vs[i as int] == key@);
            assert(old_vs.to_set().contains(key@));
            assert(old_vs.to_set().insert(key@) =~= old_vs.to_set());
        },
        Err(i) => {
            let ghost kv = key@;
            v.insert(i, key);
            let ghost new_vs = v@.map_values(|x: Vec<u8>| x@);
            assert(new_vs =~= old_vs.insert(i as int, kv));
            assert forall|a: int, b: int| 0 <= a < b < new_vs.len() implies lex_lt(
                #[trigger] new_vs[a],
                #[trigger] new_vs[b],
            ) by {
                if b < i {
                    assert(new_vs[a] == old_vs[a] && new_vs[b] == old_vs[b]);
                } else if b == i {
                    assert(new_vs[a] == old_vs[a]);
                } else if a == i {
                    assert(new_vs[b] == old_vs[b - 1]);
                } else if a > i {
                    assert(new_vs[a] == old_vs[a - 1] && new_vs[b] == old_vs[b - 1]);
                } else {
                    assert(new_vs[a] == old_vs[a] && new_vs[b] == old_vs[b - 1]);
                }
            }
            assert(new_vs.to_set() =~= old_vs.to_set().insert(kv)) by {
                assert forall|x: Seq<u8>| new_vs.to_set().contains(x) <==> old_vs.to_set().insert(
                    kv,
                ).contains(x) by {
                    if new_vs.to_set().contains(x) {
                        let q = choose|q: int| 0 <= q < new_vs.len() && new_vs[q] == x;
                        if q < i {
                            assert(old_vs[q] == x);
                        } else if q > i {
                            assert(old_vs[q - 1] == x);
                        }
                    }
                    if old_vs.to_set().contains(x) {
                        let q = choose|q: int| 0 <= q < old_vs.len() && old_vs[q] == x;
                        if q < i {
                            assert(new_vs[q] == x);
                        } else {
                            assert(new_vs[q + 1] == x);
                        }
                    }
                    if x == kv {
                        assert(new_vs[i as int] == x);
                    }
                }
            }
        },
    }
}

// The same order on char strings (the order of `str`, since UTF-8
// preserves the order of code points).


/// `i` is where `a` and `b` first differ, with `a` the smaller one there
/// (or `a` a proper prefix of `b`).
pub open spec fn lex_witness_chars(a: Seq<char>, b: Seq<char>, i: int) -> bool {
    &&& 0 <= i <= a.len()
    &&& i <= b.len()
    &&& forall|k: int| 0 <= k < i ==> a[k] == b[k]
    &&& ((i == a.len() && i < b.len()) || (i < a.len() && i < b.len() && a[i] < b[i]))
}

/// Char strings in lexicographic order (the order of `[u8]`).
pub open spec fn lex_lt_chars(a: Seq<char>, b: Seq<char>) -> bool {
    exists|i: int| lex_witness_chars(a, b, i)
}

/// Strictly increasing in lexicographic order.
pub open spec fn strictly_sorted_chars(v: Seq<Seq<char>>) -> bool {
    forall|i: int, j: int| 0 <= i < j < v.len() ==> lex_lt_chars(#[trigger] v[i], #[trigger] v[j])
}

/// No char string is below itself.
pub proof fn lemma_lex_irreflexive_chars(a: Seq<char>)
    ensures
        !lex_lt_chars(a, a),
{
}

/// The lexicographic order of char strings is transitive.
pub proof fn lemma_lex_transitive_chars(a: Seq<char>, b: Seq<char>, c: Seq<char>)
    requires
        lex_lt_chars(a, b),
        lex_lt_chars(b, c),
    ensures
        lex_lt_chars(a, c),
{
    let i = choose|i: int| lex_witness_chars(a, b, i);
    let j = choose|j: int| lex_witness_chars(b, c, j);
    if i < j {
        assert(lex_witness_chars(a, c, i));
    } else if j < i {
        assert(lex_witness_chars(a, c, j));
    } else {
        assert(lex_witness_chars(a, c, i));
    }
}

/// Any two char strings are equal or one is below the other.
pub proof fn lemma_lex_total_chars(a: Seq<char>, b: Seq<char>)
    ensures
        a == b || lex_lt_chars(a, b) || lex_lt_chars(b, a),
{
    if a != b {
        let n = if a.len() < b.len() {
            a.len() as int
        } else {
            b.len() as int
        };
        if forall|k: int| 0 <= k < n ==> a[k] == b[k] {
            if a.len() < b.len() {
                assert(lex_witness_chars(a, b, n));
            } else if b.len() < a.len() {
                assert(lex_witness_chars(b, a, n));
            } else {
                assert(a =~= b);
            }
        } else {
            let k0 = choose|k: int| 0 <= k < n && a[k] != b[k];
            let m = first_diff_chars(a, b, k0);
            if a[m] < b[m] {
                assert(lex_witness_chars(a, b, m));
            } else {
                assert(lex_witness_chars(b, a, m));
            }
        }
    }
}

/// The first index at or below `k` where `a` and `b` differ.
proof fn first_diff_chars(a: Seq<char>, b: Seq<char>, k: int) -> (m: int)
    requires
        0 <= k < a.len(),
        k < b.len(),
        a[k] != b[k],
    ensures
        0 <= m <= k,
        a[m] != b[m],
        forall|q: int| 0 <= q < m ==> a[q] == b[q],
    decreases k,
{
    if exists|q: int| 0 <= q < k && a[q] != b[q] {
        let q = choose|q: int| 0 <= q < k && a[q] != b[q];
        first_diff_chars(a, b, q)
    } else {
        k
    }
}

/// Two char strings are never each below the other.
pub proof fn lemma_lex_asymmetric_chars(a: Seq<char>, b: Seq<char>)
    requires
        lex_lt_chars(a, b),
    ensures
        !lex_lt_chars(b, a),
        a != b,
{
    if lex_lt_chars(b, a) {
        lemma_lex_transitive_chars(a, b, a);
    }
}

/// Two strictly sorted sequences with the same elements are equal: a set of
/// char strings has one strictly sorted listing.
pub proof fn lemma_sorted_unique_chars(a: Seq<Seq<char>>, b: Seq<Seq<char>>)
    requires
        strictly_sorted_chars(a),
        strictly_sorted_chars(b),
        a.to_set() == b.to_set(),
    ensures
        a == b,
    decreases a.len(),
{
    if a.len() == 0 {
        if b.len() > 0 {
            assert(b.to_set().contains(b[0]));
        }
        assert(a =~= b);
    } else {
        assert(a.to_set().contains(a[0]));
        assert(b.len() > 0);
        assert(b.to_set().contains(b[0]));
        let j = choose|j: int| 0 <= j < a.len() && a[j] == b[0];
        let k = choose|k: int| 0 <= k < b.len() && b[k] == a[0];
        if j > 0 && k > 0 {
            assert(lex_lt_chars(a[0], a[j]));
            assert(lex_lt_chars(b[0], b[k]));
            lemma_lex_asymmetric_chars(a[0], b[0]);
        }
        assert(a[0] == b[0]);
        let a1 = a.drop_first();
        let b1 = b.drop_first();
        assert forall|x: Seq<char>| a1.to_set().contains(x) <==> b1.to_set().contains(x) by {
            if a1.to_set().contains(x) {
                let q = choose|q: int| 0 <= q < a1.len() && a1[q] == x;
                assert(a[q + 1] == x);
                assert(lex_lt_chars(a[0], a[q + 1]));
                lemma_lex_irreflexive_chars(x);
                assert(b.to_set().contains(x));
                let r = choose|r: int| 0 <= r < b.len() && b[r] == x;
                assert(r != 0);
                assert(b1[r - 1] == x);
            }
            if b1.to_set().contains(x) {
                let q = choose|q: int| 0 <= q < b1.len() && b1[q] == x;
                assert(b[q + 1] == x);
                assert(lex_lt_chars(b[0], b[q + 1]));
                lemma_lex_irreflexive_chars(x);
                assert(a.to_set().contains(x));
                let r = choose|r: int| 0 <= r < a.len() && a[r] == x;
                assert(r != 0);
                assert(a1[r - 1] == x);
            }
        }
        assert(a1.to_set() =~= b1.to_set());
        assert forall|i: int, j2: int| 0 <= i < j2 < a1.len() implies lex_lt_chars(#[trigger] a1[i], #[trigger] a1[j2]) by {
            assert(lex_lt_chars(a[i + 1], a[j2 + 1]));
        }
        assert forall|i: int, j2: int| 0 <= i < j2 < b1.len() implies lex_lt_chars(#[trigger] b1[i], #[trigger] b1[j2]) by {
            assert(lex_lt_chars(b[i + 1], b[j2 + 1]));
        }
        lemma_sorted_unique_chars(a1, b1);
        assert(a =~= b1.insert(0, b[0]));
        assert(b =~= b1.insert(0, b[0]));
    }
}

/// Compares two char strings lexicographically.
pub fn compare_chars(a: &[char], b: &[char]) -> (r: KeyOrder)
    ensures
        r is Less <==> lex_lt_chars(a@, b@),
        r is Equal <==> a@ == b@,
        r is Greater <==> lex_lt_chars(b@, a@),
{
    let n = if a.len() < b.len() {
        a.len()
    } else {
        b.len()
    };
    let mut i: usize = 0;
    while i < n
        invariant
            n <= a@.len(),
            n <= b@.len(),
            n == a@.len() || n == b@.len(),
            i <= n,
            forall|k: int| 0 <= k < i ==> a@[k] == b@[k],
        decreases n - i,
    {
        if a[i] < b[i] {
            assert(lex_witness_chars(a@, b@, i as int));
            proof {
                lemma_lex_asymmetric_chars(a@, b@);
            }
            return KeyOrder::Less;
        } else if a[i] > b[i] {
            assert(lex_witness_chars(b@, a@, i as int));
            proof {
                lemma_lex_asymmetric_chars(b@, a@);
            }
            return KeyOrder::Greater;
        }
        i = i + 1;
    }
    if a.len() < b.len() {
        assert(lex_witness_chars(a@, b@, n as int));
        proof {
            lemma_lex_asymmetric_chars(a@, b@);
        }
        KeyOrder::Less
    } else if b.len() < a.len() {
        assert(lex_witness_chars(b@, a@, n as int));
        proof {
            lemma_lex_asymmetric_chars(b@, a@);
        }
        KeyOrder::Greater
    } else {
        assert(a@ =~= b@);
        proof {
            lemma_lex_irreflexive_chars(a@);
        }
        KeyOrder::Equal
    }
}

/// Where `key` sits in the strictly sorted `v`: `Ok(i)` when `v[i]` is
/// `key`, `Err(i)` when `key` belongs before `v[i]` (and after `v[i - 1]`).
pub fn search_sorted_chars(v: &Vec<Vec<char>>, key: &[char]) -> (r: Result<usize, usize>)
    requires
        strictly_sorted_chars(v@.map_values(|x: Vec<char>| x@)),
    ensures
        match r {
            Ok(i) => i < v@.len() && v@[i as int]@ == key@,
            Err(i) => {
                &&& i <= v@.len()
                &&& forall|k: int| 0 <= k < i ==> lex_lt_chars(#[trigger] v@[k]@, key@)
                &&& forall|k: int| i <= k < v@.len() ==> lex_lt_chars(key@, #[trigger] v@[k]@)
            },
        },
{
    let ghost vs = v@.map_values(|x: Vec<char>| x@);
    let mut lo: usize = 0;
    let mut hi: usize = v.len();
    while lo < hi
        invariant
            vs == v@.map_values(|x: Vec<char>| x@),
            strictly_sorted_chars(vs),
            lo <= hi <= v@.len(),
            forall|k: int| 0 <= k < lo ==> lex_lt_chars(#[trigger] v@[k]@, key@),
            forall|k: int| hi <= k < v@.len() ==> lex_lt_chars(key@, #[trigger] v@[k]@),
        decreases hi - lo,
    {
        let mid = lo + (hi - lo) / 2;
        match compare_chars(v[mid].as_slice(), key) {
            KeyOrder::Equal => {
                return Ok(mid);
            },
            KeyOrder::Less => {
                assert forall|k: int| 0 <= k < mid + 1 implies lex_lt_chars(#[trigger] v@[k]@, key@) by {
                    if k < mid {
                        assert(vs[k] == v@[k]@ && vs[mid as int] == v@[mid as int]@);
                        lemma_lex_transitive_chars(v@[k]@, v@[mid as int]@, key@);
                    }
                }
                lo = mid + 1;
            },
            KeyOrder::Greater => {
                assert forall|k: int| mid <= k < v@.len() implies lex_lt_chars(key@, #[trigger] v@[k]@) by {
                    if k > mid {
                        assert(vs[k] == v@[k]@ && vs[mid as int] == v@[mid as int]@);
                        lemma_lex_transitive_chars(key@, v@[mid as int]@, v@[k]@);
                    }
                }
                hi = mid;
            },
        }
    }
    Err(lo)
}

/// Adds `key` to the strictly sorted `v` unless it is there already.
pub fn insert_sorted_chars(v: &mut Vec<Vec<char>>, key: Vec<char>)
    requires
        strictly_sorted_chars(old(v)@.map_values(|x: Vec<char>| x@)),
    ensures
        strictly_sorted_chars(final(v)@.map_values(|x: Vec<char>| x@)),
        final(v)@.map_values(|x: Vec<char>| x@).to_set() == old(v)@.map_values(
            |x: Vec<char>| x@,
        ).to_set().insert(key@),
{
    let ghost old_vs = v@.map_values(|x: Vec<char>| x@);
    match search_sorted_chars(v, key.as_slice()) {
        Ok(i) => {
            assert(old_vs[i as int] == key@);
            assert(old_vs.to_set().contains(key@));
            assert(old_vs.to_set().insert(key@) =~= old_vs.to_set());
        },
        Err(i) => {
            let ghost kv = key@;
            v.insert(i, key);
            let ghost new_vs = v@.map_values(|x: Vec<char>| x@);
            assert(new_vs =~= old_vs.insert(i as int, kv));
            assert forall|a: int, b: int| 0 <= a < b < new_vs.len() implies lex_lt_chars(
                #[trigger] new_vs[a],
                #[trigger] new_vs[b],
            ) by {
                if b < i {
                    assert(new_vs[a] == old_vs[a] && new_vs[b] == old_vs[b]);
                } else if b == i {
                    assert(new_vs[a] == old_vs[a]);
                } else if a == i {
                    assert(new_vs[b] == old_vs[b - 1]);
                } else if a > i {
                    assert(new_vs[a] == old_vs[a - 1] && new_vs[b] == old_vs[b - 1]);
                } else {
                    assert(new_vs[a] == old_vs[a] && new_vs[b] == old_vs[b - 1]);
                }
            }
            assert(new_vs.to_set() =~= old_vs.to_set().insert(kv)) by {
                assert forall|x: Seq<char>| new_vs.to_set().contains(x) <==> old_vs.to_set().insert(
                    kv,
                ).contains(x) by {
                    if new_vs.to_set().contains(x) {
                        let q = choose|q: int| 0 <= q < new_vs.len() && new_vs[q] == x;
                        if q < i {
                            assert(old_vs[q] == x);
                        } else if q > i {
                            assert(old_vs[q - 1] == x);
                        }
                    }
                    if old_vs.to_set().contains(x) {
                        let q = choose|q: int| 0 <= q < old_vs.len() && old_vs[q] == x;
                        if q < i {
                            assert(new_vs[q] == x);
                        } else {
                            assert(new_vs[q + 1] == x);
                        }
                    }
                    if x == kv {
                        assert(new_vs[i as int] == x);
                    }
                }
            }
        },
    }
}

} // verus!
