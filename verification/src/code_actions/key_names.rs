//! A fresh name for a duplicated mapping key: the key with the least suffix `_2`, `_3`, ...
//! that no entry uses yet.
use vstd::prelude::*;
use vstd::utf8::valid_utf8;

use crate::code_actions::syntax_index::{entries_view, EntV, IndexedEntry};
use crate::parser::fallback::{decimal, lemma_decimal_ascii};
use crate::text::{bytes_eq, lemma_ascii_valid};

verus! {

broadcast use vstd::utf8::valid_utf8_concat;

/// `key_n`
pub open spec fn candidate(key: Seq<u8>, n: nat) -> Seq<u8> {
    key + seq![0x5fu8] + decimal(n)
}

pub open spec fn key_taken(es: Seq<EntV>, name: Seq<u8>) -> bool {
    exists|i: int| 0 <= i < es.len() && (#[trigger] es[i]).0 == name
}

/// `n` is the least suffix from 2 whose candidate no entry uses.
pub open spec fn least_free(es: Seq<EntV>, key: Seq<u8>, n: nat) -> bool {
    &&& n >= 2
    &&& !key_taken(es, candidate(key, n))
    &&& forall|m: nat| 2 <= m < n ==> key_taken(es, #[trigger] candidate(key, m))
}

/// The fresh name for `key` among the entries.
pub open spec fn next_name(es: Seq<EntV>, key: Seq<u8>) -> Seq<u8> {
    candidate(key, choose|n: nat| least_free(es, key, n))
}

// ---------------------------------------------------------------------------
// Why a free suffix exists among the first `entries + 2`
pub open spec fn is_cand_upto(key: Seq<u8>, x: Seq<u8>, s: nat) -> bool
    decreases s,
{
    if s < 2 {
        false
    } else {
        x == candidate(key, s) || is_cand_upto(key, x, (s - 1) as nat)
    }
}

pub open spec fn count_cands(es: Seq<EntV>, key: Seq<u8>, s: nat, k: int) -> int
    decreases k,
{
    if k <= 0 {
        0
    } else {
        count_cands(es, key, s, k - 1) + if is_cand_upto(key, es[k - 1].0, s) {
            1int
        } else {
            0int
        }
    }
}

pub open spec fn count_eq(es: Seq<EntV>, x: Seq<u8>, k: int) -> int
    decreases k,
{
    if k <= 0 {
        0
    } else {
        count_eq(es, x, k - 1) + if es[k - 1].0 == x {
            1int
        } else {
            0int
        }
    }
}

proof fn lemma_decimal_len(n: nat)
    ensures
        decimal(n).len() >= 1,
        n >= 10 ==> decimal(n).len() >= 2,
    decreases n,
{
    if n >= 10 {
        lemma_decimal_len(n / 10);
    }
}

proof fn lemma_decimal_injective(a: nat, b: nat)
    requires
        decimal(a) == decimal(b),
    ensures
        a == b,
    decreases a + b,
{
    lemma_decimal_len(a);
    lemma_decimal_len(b);
    if a < 10 && b < 10 {
        assert(decimal(a) == seq![(0x30 + a) as u8]);
        assert(decimal(b) == seq![(0x30 + b) as u8]);
        assert(decimal(a)[0] == decimal(b)[0]);
        assert(seq![(0x30 + a) as u8][0] == (0x30 + a) as u8);
        assert(seq![(0x30 + b) as u8][0] == (0x30 + b) as u8);
    } else if a < 10 {
        assert(decimal(a).len() == 1);
    } else if b < 10 {
        assert(decimal(b).len() == 1);
    } else {
        let da = decimal(a / 10);
        let db = decimal(b / 10);
        assert(decimal(a) == da + seq![(0x30 + a % 10) as u8]);
        assert(decimal(b) == db + seq![(0x30 + b % 10) as u8]);
        assert(decimal(a).len() == da.len() + 1);
        assert(da =~= decimal(a).subrange(0, da.len() as int));
        assert(db =~= decimal(b).subrange(0, db.len() as int));
        assert(decimal(a)[da.len() as int] == (0x30 + a % 10) as u8);
        assert(decimal(b)[db.len() as int] == (0x30 + b % 10) as u8);
        lemma_decimal_injective(a / 10, b / 10);
        assert((0x30 + a % 10) as u8 == (0x30 + b % 10) as u8);
        assert(a % 10 == b % 10);
        assert(a == 10 * (a / 10) + a % 10);
        assert(b == 10 * (b / 10) + b % 10);
    }
}

proof fn lemma_candidate_injective(key: Seq<u8>, m: nat, n: nat)
    requires
        candidate(key, m) == candidate(key, n),
    ensures
        m == n,
{
    let k = key.len() + 1;
    assert(decimal(m) =~= candidate(key, m).subrange(k as int, candidate(key, m).len() as int));
    assert(decimal(n) =~= candidate(key, n).subrange(k as int, candidate(key, n).len() as int));
    lemma_decimal_injective(m, n);
}

proof fn lemma_not_earlier(key: Seq<u8>, s: nat, t: nat)
    requires
        t < s,
    ensures
        !is_cand_upto(key, candidate(key, s), t),
    decreases t,
{
    if t >= 2 {
        if candidate(key, s) == candidate(key, t) {
            lemma_candidate_injective(key, s, t);
        }
        lemma_not_earlier(key, s, (t - 1) as nat);
    }
}

proof fn lemma_count_split(es: Seq<EntV>, key: Seq<u8>, s: nat, k: int)
    requires
        s >= 2,
        0 <= k <= es.len(),
    ensures
        count_cands(es, key, s, k) == count_cands(es, key, (s - 1) as nat, k) + count_eq(
            es,
            candidate(key, s),
            k,
        ),
    decreases k,
{
    if k > 0 {
        lemma_count_split(es, key, s, k - 1);
        lemma_not_earlier(key, s, (s - 1) as nat);
    }
}

proof fn lemma_count_nonneg(es: Seq<EntV>, key: Seq<u8>, s: nat, k: int)
    ensures
        count_cands(es, key, s, k) >= 0,
    decreases k,
{
    if k > 0 {
        lemma_count_nonneg(es, key, s, k - 1);
    }
}

proof fn lemma_count_bound(es: Seq<EntV>, key: Seq<u8>, s: nat, k: int)
    requires
        0 <= k,
    ensures
        count_cands(es, key, s, k) <= k,
    decreases k,
{
    if k > 0 {
        lemma_count_bound(es, key, s, k - 1);
    }
}

proof fn lemma_count_eq_positive(es: Seq<EntV>, x: Seq<u8>, i: int, k: int)
    requires
        0 <= i < k <= es.len(),
        es[i].0 == x,
    ensures
        count_eq(es, x, k) >= 1,
    decreases k,
{
    if i < k - 1 {
        lemma_count_eq_positive(es, x, i, k - 1);
    }
    lemma_count_eq_nonneg(es, x, k - 1);
}

proof fn lemma_count_eq_nonneg(es: Seq<EntV>, x: Seq<u8>, k: int)
    ensures
        count_eq(es, x, k) >= 0,
    decreases k,
{
    if k > 0 {
        lemma_count_eq_nonneg(es, x, k - 1);
    }
}

proof fn lemma_least_unique(es: Seq<EntV>, key: Seq<u8>, a: nat, b: nat)
    requires
        least_free(es, key, a),
        least_free(es, key, b),
    ensures
        a == b,
{
    if a < b {
        assert(key_taken(es, candidate(key, a)));
    } else if b < a {
        assert(key_taken(es, candidate(key, b)));
    }
}

// ---------------------------------------------------------------------------
// Executable
fn push_decimal_wide(out: &mut Vec<u8>, n: u128)
    ensures
        final(out)@ == old(out)@ + decimal(n as nat),
    decreases n,
{
    if n >= 10 {
        push_decimal_wide(out, n / 10);
    }
    out.push(0x30 + (n % 10) as u8);
    proof {
        assert(final(out)@ =~= old(out)@ + decimal(n as nat));
    }
}

fn candidate_exec(key: &[u8], n: u128) -> (c: Vec<u8>)
    ensures
        c@ == candidate(key@, n as nat),
{
    let mut c: Vec<u8> = Vec::new();
    let mut i: usize = 0;
    while i < key.len()
        invariant
            i <= key@.len(),
            c@ =~= key@.subrange(0, i as int),
        decreases key@.len() - i,
    {
        c.push(key[i]);
        i = i + 1;
    }
    c.push(0x5f);
    push_decimal_wide(&mut c, n);
    proof {
        assert(key@.subrange(0, key@.len() as int) =~= key@);
        assert(c@ =~= candidate(key@, n as nat));
    }
    c
}

fn is_taken(entries: &Vec<IndexedEntry>, name: &[u8]) -> (r: bool)
    ensures
        r == key_taken(entries_view(entries@), name@),
{
    let ghost es = entries_view(entries@);
    let n = entries.len();
    let mut i: usize = 0;
    while i < n
        invariant
            i <= n,
            n == entries@.len(),
            es == entries_view(entries@),
            forall|j: int| 0 <= j < i ==> (#[trigger] es[j]).0 != name@,
        decreases n - i,
    {
        if bytes_eq(entries[i].key.as_str().as_bytes(), name) {
            assert(es[i as int].0 == name@);
            return true;
        }
        i = i + 1;
    }
    false
}

/// The key with the least suffix `_2`, `_3`, ... that no entry uses.
pub fn next_available_key_name(entries: &Vec<IndexedEntry>, key: &[u8]) -> (name: Vec<u8>)
    ensures
        name@ == next_name(entries_view(entries@), key@),
{
    let ghost es = entries_view(entries@);
    let ghost len = es.len() as int;
    let count = entries.len();
    proof {
        lemma_count_nonneg(es, key@, 1, len);
    }
    let mut suffix: u128 = 2;
    loop
        invariant
            es == entries_view(entries@),
            len == entries@.len(),
            count == len,
            2 <= suffix <= len + 2,
            forall|m: nat| 2 <= m < suffix ==> key_taken(es, #[trigger] candidate(key@, m)),
            count_cands(es, key@, (suffix - 1) as nat, len) >= suffix - 2,
        decreases len + 2 - suffix,
    {
        let c = candidate_exec(key, suffix);
        if !is_taken(entries, c.as_slice()) {
            proof {
                assert(least_free(es, key@, suffix as nat));
                let n = choose|n: nat| least_free(es, key@, n);
                lemma_least_unique(es, key@, n, suffix as nat);
            }
            return c;
        }
        proof {
            let s = suffix as nat;
            lemma_count_split(es, key@, s, len);
            let i = choose|i: int| 0 <= i < es.len() && (#[trigger] es[i]).0 == candidate(key@, s);
            lemma_count_eq_positive(es, candidate(key@, s), i, len);
            lemma_count_bound(es, key@, s, len);
        }
        suffix = suffix + 1;
    }
}

/// The fresh name is valid text when the key is.
pub proof fn lemma_next_name_valid(es: Seq<EntV>, key: Seq<u8>)
    requires
        valid_utf8(key),
    ensures
        valid_utf8(next_name(es, key)),
{
    let n = choose|n: nat| least_free(es, key, n);
    lemma_decimal_ascii(n);
    let sep = seq![0x5fu8];
    assert(crate::text::is_ascii_byte(sep[0]));
    lemma_ascii_valid(sep);
    lemma_ascii_valid(decimal(n));
    assert(valid_utf8(key + sep));
    assert(valid_utf8(key + sep + decimal(n)));
}

} // verus!
