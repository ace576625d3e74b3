//! Nybble addressing of byte strings.
//!
//! A key of `n` bytes is read as a string of `2 * n` nybbles: nybble `2 * i`
//! is the low half of byte `i` and nybble `2 * i + 1` its high half. The
//! "nybble index" of a position is that nybble plus one, or zero past the end
//! of the key, so that a shorter key sorts before every key it is a prefix of.

use vstd::prelude::*;

verus! {

/// Number of distinct nybble indices: zero (past the end) and one per nybble value.
pub const NYBBLE_SLOTS: u8 = 17;

/// The nybble index of position `n` in `key`.
pub open spec fn nybble_at(n: int, key: Seq<u8>) -> u8 {
    if 0 <= n && n / 2 < key.len() {
        let byte = key[n / 2];
        (if n % 2 == 0 { byte % 16 } else { byte / 16 } + 1) as u8
    } else {
        0
    }
}

/// `a` and `b` have the same nybble index at every position below `n`.
pub open spec fn agree_below(a: Seq<u8>, b: Seq<u8>, n: int) -> bool {
    forall|i: int| 0 <= i < n ==> #[trigger] nybble_at(i, a) == nybble_at(i, b)
}

/// `m` is the first position at which `a` and `b` have different nybble indices.
pub open spec fn is_first_mismatch(a: Seq<u8>, b: Seq<u8>, m: int) -> bool {
    &&& 0 <= m
    &&& agree_below(a, b, m)
    &&& nybble_at(m, a) != nybble_at(m, b)
}

/// A key length that a slice of bytes can have: at most `isize::MAX`, so that
/// every nybble position of the key fits in a `usize`.
pub open spec fn key_len_ok(key: Seq<u8>) -> bool {
    key.len() <= isize::MAX
}

proof fn lemma_byte_halves(a: u8, b: u8)
    by (bit_vector)
    ensures
        a & 0x0F == a % 16,
        a >> 4 == a / 16,
        a % 16 < 16,
        a / 16 < 16,
        (a % 16 == b % 16 && a / 16 == b / 16) ==> a == b,
        ((a ^ b) & 0x0F == 0) <==> (a % 16 == b % 16),
        (a ^ b == 0) <==> (a == b),
{
}

proof fn lemma_parity(n: usize)
    by (bit_vector)
    ensures
        (n & 1 == 0) <==> (n % 2 == 0),
{
}

/// Every nybble index is below `NYBBLE_SLOTS`.
pub proof fn lemma_nybble_bound(n: int, key: Seq<u8>)
    ensures
        nybble_at(n, key) < NYBBLE_SLOTS,
        (nybble_at(n, key) == 0) <==> !(0 <= n && n / 2 < key.len()),
{
    if 0 <= n && n / 2 < key.len() {
        lemma_byte_halves(key[n / 2], key[n / 2]);
    }
}

/// A key is a prefix of another exactly when their nybble indices agree on
/// the first `2 * len` positions of the shorter one.
pub proof fn lemma_prefix_iff_agree(p: Seq<u8>, k: Seq<u8>)
    ensures
        p.is_prefix_of(k) <==> agree_below(p, k, 2 * p.len() as int),
{
    if p.is_prefix_of(k) {
        assert forall|i: int| 0 <= i < 2 * p.len() implies #[trigger] nybble_at(i, p) == nybble_at(i, k) by {
            assert(p[i / 2] == k[i / 2]);
        }
    }
    if agree_below(p, k, 2 * p.len() as int) {
        if p.len() > 0 {
            assert(nybble_at(2 * (p.len() - 1), p) == nybble_at(2 * (p.len() - 1), k));
            lemma_nybble_bound(2 * (p.len() - 1), p);
            lemma_nybble_bound(2 * (p.len() - 1), k);
        }
        assert forall|j: int| 0 <= j < p.len() implies p[j] == k[j] by {
            assert(nybble_at(2 * j, p) == nybble_at(2 * j, k));
            assert(nybble_at(2 * j + 1, p) == nybble_at(2 * j + 1, k));
            assert((2 * j) / 2 == j);
            assert((2 * j + 1) / 2 == j);
            lemma_byte_halves(p[j], k[j]);
        }
    }
}

/// Agreement below a position is symmetric and transitive, and holds below
/// every smaller position.
pub proof fn lemma_agree_below(a: Seq<u8>, b: Seq<u8>, c: Seq<u8>, n: int, m: int)
    ensures
        agree_below(a, b, n) ==> agree_below(b, a, n),
        agree_below(a, b, n) && agree_below(b, c, n) ==> agree_below(a, c, n),
        agree_below(a, b, n) && m <= n ==> agree_below(a, b, m),
        agree_below(a, a, n),
{
}

/// The nybble index of position `n` in `key`.
pub fn nybble_index(n: usize, key: &[u8]) -> (r: u8)
    ensures
        r == nybble_at(n as int, key@),
{
    let byte_idx = n / 2;
    if byte_idx < key.len() {
        let byte = key[byte_idx];
        proof {
            lemma_byte_halves(byte, byte);
            lemma_parity(n);
        }
        let nybble = if n & 1 == 0 {
            byte & 0x0F
        } else {
            byte >> 4
        };
        nybble + 1
    } else {
        0
    }
}

/// The first position at which the nybble indices of `left` and `right`
/// differ, or `None` when the two keys are equal.
pub fn nybble_mismatch(left: &[u8], right: &[u8]) -> (r: Option<usize>)
    requires
        key_len_ok(left@),
        key_len_ok(right@),
    ensures
        r is None <==> left@ == right@,
        r matches Some(m) ==> is_first_mismatch(left@, right@, m as int),
{
    let len = if left.len() < right.len() {
        left.len()
    } else {
        right.len()
    };
    let mut i: usize = 0;
    while i < len
        invariant
            len <= left@.len(),
            len <= right@.len(),
            len == left@.len() || len == right@.len(),
            len <= isize::MAX,
            i <= len,
            forall|j: int| 0 <= j < i ==> left@[j] == right@[j],
        decreases len - i,
    {
        let l = left[i];
        let r = right[i];
        let difference = l ^ r;
        proof {
            lemma_byte_halves(l, r);
        }
        if difference != 0 {
            let m: usize = if difference & 0x0F == 0 {
                1 + i * 2
            } else {
                i * 2
            };
            assert(agree_below(left@, right@, m as int)) by {
                assert forall|k: int| 0 <= k < m implies #[trigger] nybble_at(k, left@) == nybble_at(k, right@) by {
                    assert(k / 2 < i || k / 2 == i);
                }
            }
            assert(m as int / 2 == i);
            return Some(m);
        }
        i = i + 1;
    }
    if left.len() == right.len() {
        assert(left@ =~= right@);
        None
    } else {
        let m = len * 2;
        assert(agree_below(left@, right@, m as int)) by {
            assert forall|k: int| 0 <= k < m implies #[trigger] nybble_at(k, left@) == nybble_at(k, right@) by {
                assert(k / 2 < len);
            }
        }
        assert(m as int / 2 == len);
        proof {
            lemma_nybble_bound(m as int, left@);
            lemma_nybble_bound(m as int, right@);
        }
        Some(m)
    }
}

/// Whether `prefix` is a prefix of `key`.
pub fn starts_with(key: &[u8], prefix: &[u8]) -> (r: bool)
    ensures
        r == prefix@.is_prefix_of(key@),
{
    if prefix.len() > key.len() {
        return false;
    }
    let mut i: usize = 0;
    while i < prefix.len()
        invariant
            prefix@.len() <= key@.len(),
            i <= prefix@.len(),
            forall|j: int| 0 <= j < i ==> prefix@[j] == key@[j],
        decreases prefix@.len() - i,
    {
        if prefix[i] != key[i] {
            return false;
        }
        i = i + 1;
    }
    true
}


/// Whether two byte strings are equal.
pub fn bytes_eq(a: &[u8], b: &[u8]) -> (r: bool)
    ensures
        r == (a@ == b@),
{
    if a.len() != b.len() {
        return false;
    }
    let r = starts_with(a, b);
    proof {
        if r {
            assert(a@ =~= b@);
        }
    }
    r
}

} // verus!
