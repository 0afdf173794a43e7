use vstd::prelude::*;

use crate::alphabet::{index_of, is_symbol, symbol, symbol_at, symbol_index};

verus! {

/// Length of a full identifier.
pub const ID_LEN: usize = 11;

/// Length of the base prefixes that the coordinator hands out as one unit of work.
pub const BASE_LEN: usize = 8;

/// `64` to the power `n`.
pub open spec fn pow64(n: nat) -> int
    decreases n,
{
    if n == 0 {
        1
    } else {
        64 * pow64((n - 1) as nat)
    }
}

/// Every element of `s` is a symbol of the alphabet.
pub open spec fn is_word(s: Seq<char>) -> bool {
    forall|i: int| 0 <= i < s.len() ==> is_symbol(#[trigger] s[i])
}

/// A base prefix: a word of the coordinator's fixed length.
pub open spec fn is_base_prefix(s: Seq<char>) -> bool {
    is_word(s) && s.len() == BASE_LEN
}

/// The value of a word read as a base-64 numeral whose digits are the symbols' positions.
/// Between two words of one length, the smaller value is the one that comes first in
/// enumeration order (see `lemma_rank_orders_lexicographically`).
pub open spec fn rank(s: Seq<char>) -> int
    decreases s.len(),
{
    if s.len() == 0 {
        0
    } else {
        rank(s.drop_last()) * 64 + symbol_index(s.last())
    }
}

/// The word of length `n` whose value is `r`.
pub open spec fn word_of(r: int, n: nat) -> Seq<char>
    decreases n,
{
    if n == 0 {
        Seq::<char>::empty()
    } else {
        word_of(r / 64, (n - 1) as nat).push(symbol(r % 64))
    }
}

/// The contents of an optional word.
pub open spec fn opt_word(w: Option<Vec<char>>) -> Option<Seq<char>> {
    match w {
        Some(v) => Some(v@),
        None => None,
    }
}

/// `a` comes strictly before `b` in enumeration order: at the first position where they
/// differ, the symbol of `a` has the smaller index.
pub open spec fn lex_before(a: Seq<char>, b: Seq<char>) -> bool {
    exists|i: int|
        0 <= i < a.len() && i < b.len() && a.subrange(0, i) == b.subrange(0, i) && symbol_index(
            #[trigger] a[i],
        ) < symbol_index(b[i])
}

pub proof fn lemma_pow64_positive(n: nat)
    ensures
        pow64(n) >= 1,
    decreases n,
{
    if n > 0 {
        lemma_pow64_positive((n - 1) as nat);
    }
}

pub proof fn lemma_pow64_adds(a: nat, b: nat)
    ensures
        pow64(a + b) == pow64(a) * pow64(b),
    decreases b,
{
    if b > 0 {
        lemma_pow64_adds(a, (b - 1) as nat);
        assert(pow64(a + b) == 64 * pow64((a + b - 1) as nat));
        assert(pow64(b) == 64 * pow64((b - 1) as nat));
        assert(64 * (pow64(a) * pow64((b - 1) as nat)) == pow64(a) * (64 * pow64(
            (b - 1) as nat,
        ))) by (nonlinear_arith);
    }
}

pub proof fn lemma_pow64_mono(a: nat, b: nat)
    requires
        a <= b,
    ensures
        pow64(a) <= pow64(b),
    decreases b,
{
    if a < b {
        lemma_pow64_mono(a, (b - 1) as nat);
        lemma_pow64_positive((b - 1) as nat);
    }
}

/// A word of length `n` has a value in `[0, 64^n)`.
pub proof fn lemma_rank_bounds(s: Seq<char>)
    requires
        is_word(s),
    ensures
        0 <= rank(s) < pow64(s.len()),
    decreases s.len(),
{
    if s.len() > 0 {
        let t = s.drop_last();
        assert(is_word(t)) by {
            assert forall|i: int| 0 <= i < t.len() implies is_symbol(#[trigger] t[i]) by {
                assert(t[i] == s[i]);
            }
        }
        lemma_rank_bounds(t);
        assert(is_symbol(s[s.len() - 1]));
        let d = symbol_index(s.last());
        let r = rank(t);
        let p = pow64(t.len());
        assert(0 <= d < 64);
        assert(0 <= r * 64 + d < 64 * p) by (nonlinear_arith)
            requires
                0 <= r < p,
                0 <= d < 64,
        ;
    }
}

proof fn lemma_div_mod_64(r: int, d: int)
    requires
        0 <= d < 64,
    ensures
        (r * 64 + d) / 64 == r,
        (r * 64 + d) % 64 == d,
{
    assert((r * 64 + d) / 64 == r) by (nonlinear_arith)
        requires
            0 <= d < 64,
    ;
    assert((r * 64 + d) % 64 == d) by (nonlinear_arith)
        requires
            0 <= d < 64,
    ;
}

/// Reading a word as a numeral and writing the value back gives the word again.
pub proof fn lemma_word_of_rank(s: Seq<char>)
    requires
        is_word(s),
    ensures
        word_of(rank(s), s.len()) == s,
    decreases s.len(),
{
    if s.len() > 0 {
        let t = s.drop_last();
        assert(is_word(t)) by {
            assert forall|i: int| 0 <= i < t.len() implies is_symbol(#[trigger] t[i]) by {
                assert(t[i] == s[i]);
            }
        }
        lemma_word_of_rank(t);
        assert(is_symbol(s[s.len() - 1]));
        crate::alphabet::lemma_index_symbol(s.last());
        lemma_div_mod_64(rank(t), symbol_index(s.last()));
        assert(word_of(rank(s), s.len()) =~= s);
    }
}

/// Writing a value below `64^n` as a word of length `n` and reading it back gives the value.
pub proof fn lemma_rank_word_of(r: int, n: nat)
    requires
        0 <= r < pow64(n),
    ensures
        word_of(r, n).len() == n,
        is_word(word_of(r, n)),
        rank(word_of(r, n)) == r,
    decreases n,
{
    if n > 0 {
        let q = r / 64;
        assert(0 <= q < pow64((n - 1) as nat)) by (nonlinear_arith)
            requires
                0 <= r < 64 * pow64((n - 1) as nat),
                q == r / 64,
        ;
        lemma_rank_word_of(q, (n - 1) as nat);
        crate::alphabet::lemma_symbol_index(r % 64);
        let w = word_of(r, n);
        assert(w.drop_last() =~= word_of(q, (n - 1) as nat));
        assert(r == q * 64 + r % 64) by (nonlinear_arith)
            requires
                q == r / 64,
        ;
    }
}

/// Two words of one length with one value are the same word.
pub proof fn lemma_rank_injective(a: Seq<char>, b: Seq<char>)
    requires
        is_word(a),
        is_word(b),
        a.len() == b.len(),
        rank(a) == rank(b),
    ensures
        a == b,
{
    lemma_word_of_rank(a);
    lemma_word_of_rank(b);
}

/// The value of `a + b` is that of `a` shifted left by `|b|` digits, plus that of `b`.
pub proof fn lemma_rank_concat(a: Seq<char>, b: Seq<char>)
    ensures
        rank(a + b) == rank(a) * pow64(b.len()) + rank(b),
    decreases b.len(),
{
    if b.len() == 0 {
        assert(a + b =~= a);
    } else {
        let b1 = b.drop_last();
        lemma_rank_concat(a, b1);
        assert((a + b).drop_last() =~= a + b1);
        assert((a + b).last() == b.last());
        let ra = rank(a);
        let p = pow64(b1.len());
        let rb = rank(b1);
        let d = symbol_index(b.last());
        assert((ra * p + rb) * 64 + d == ra * (64 * p) + (rb * 64 + d)) by (nonlinear_arith);
    }
}

proof fn lemma_word_prefix(s: Seq<char>, k: int)
    requires
        is_word(s),
        0 <= k <= s.len(),
    ensures
        is_word(s.subrange(0, k)),
        is_word(s.subrange(k, s.len() as int)),
{
    assert forall|i: int| 0 <= i < k implies is_symbol(#[trigger] s.subrange(0, k)[i]) by {
        assert(s.subrange(0, k)[i] == s[i]);
    }
    assert forall|i: int| 0 <= i < s.len() - k implies is_symbol(
        #[trigger] s.subrange(k, s.len() as int)[i],
    ) by {
        assert(s.subrange(k, s.len() as int)[i] == s[k + i]);
    }
}

proof fn lemma_lex_before_ranks(a: Seq<char>, b: Seq<char>)
    requires
        is_word(a),
        is_word(b),
        a.len() == b.len(),
        lex_before(a, b),
    ensures
        rank(a) < rank(b),
{
    let i = choose|i: int|
        0 <= i < a.len() && i < b.len() && a.subrange(0, i) == b.subrange(0, i) && symbol_index(
            #[trigger] a[i],
        ) < symbol_index(b[i]);
    let n = a.len() as int;
    let ah = a.subrange(0, i + 1);
    let bh = b.subrange(0, i + 1);
    let at = a.subrange(i + 1, n);
    let bt = b.subrange(i + 1, n);
    assert(a =~= ah + at);
    assert(b =~= bh + bt);
    lemma_rank_concat(ah, at);
    lemma_rank_concat(bh, bt);
    assert(ah.drop_last() =~= a.subrange(0, i));
    assert(bh.drop_last() =~= b.subrange(0, i));
    lemma_word_prefix(a, i + 1);
    lemma_word_prefix(b, i + 1);
    lemma_rank_bounds(at);
    lemma_rank_bounds(bt);
    let ra = rank(ah);
    let rb = rank(bh);
    assert(ra < rb);
    let p = pow64(at.len());
    assert(bt.len() == at.len());
    assert(ra * p + rank(at) < rb * p + rank(bt)) by (nonlinear_arith)
        requires
            ra + 1 <= rb,
            0 <= rank(at) < p,
            0 <= rank(bt),
    ;
}

proof fn lemma_lex_total(a: Seq<char>, b: Seq<char>)
    requires
        is_word(a),
        is_word(b),
        a.len() == b.len(),
        a != b,
    ensures
        lex_before(a, b) || lex_before(b, a),
    decreases a.len(),
{
    let n = a.len() as int;
    if n == 0 {
        assert(a =~= b);
    } else {
        let a1 = a.drop_last();
        let b1 = b.drop_last();
        lemma_word_prefix(a, n - 1);
        lemma_word_prefix(b, n - 1);
        assert(a1 =~= a.subrange(0, n - 1));
        assert(b1 =~= b.subrange(0, n - 1));
        if a1 == b1 {
            assert(a[n - 1] != b[n - 1]) by {
                if a[n - 1] == b[n - 1] {
                    assert forall|j: int| 0 <= j < n implies a[j] == b[j] by {
                        if j < n - 1 {
                            assert(a[j] == a1[j] && b[j] == b1[j]);
                        }
                    }
                    assert(a =~= b);
                }
            }
            assert(is_symbol(a[n - 1]) && is_symbol(b[n - 1]));
            crate::alphabet::lemma_index_symbol(a[n - 1]);
            crate::alphabet::lemma_index_symbol(b[n - 1]);
            if symbol_index(a[n - 1]) < symbol_index(b[n - 1]) {
                assert(lex_before(a, b));
            } else {
                assert(lex_before(b, a));
            }
        } else {
            lemma_lex_total(a1, b1);
            if lex_before(a1, b1) {
                let i = choose|i: int|
                    0 <= i < a1.len() && i < b1.len() && a1.subrange(0, i) == b1.subrange(0, i)
                        && symbol_index(#[trigger] a1[i]) < symbol_index(b1[i]);
                assert(a.subrange(0, i) =~= a1.subrange(0, i));
                assert(b.subrange(0, i) =~= b1.subrange(0, i));
                assert(a[i] == a1[i] && b[i] == b1[i]);
                assert(lex_before(a, b));
            } else {
                let i = choose|i: int|
                    0 <= i < b1.len() && i < a1.len() && b1.subrange(0, i) == a1.subrange(0, i)
                        && symbol_index(#[trigger] b1[i]) < symbol_index(a1[i]);
                assert(a.subrange(0, i) =~= a1.subrange(0, i));
                assert(b.subrange(0, i) =~= b1.subrange(0, i));
                assert(a[i] == a1[i] && b[i] == b1[i]);
                assert(lex_before(b, a));
            }
        }
    }
}

/// Between words of one length, comparing values is comparing lexicographically by the
/// symbols' positions in the alphabet.
pub proof fn lemma_rank_orders_lexicographically(a: Seq<char>, b: Seq<char>)
    requires
        is_word(a),
        is_word(b),
        a.len() == b.len(),
    ensures
        lex_before(a, b) <==> rank(a) < rank(b),
{
    if lex_before(a, b) {
        lemma_lex_before_ranks(a, b);
    }
    if rank(a) < rank(b) {
        lemma_lex_total(a, b);
        if lex_before(b, a) {
            lemma_lex_before_ranks(b, a);
        }
    }
}

/// The powers of 64 that bound the words handled in executable code.
pub proof fn lemma_pow64_values()
    ensures
        pow64(3) == 262144,
        pow64(8) == 281474976710656,
        pow64(9) == 18014398509481984,
        pow64(10) == 1152921504606846976,
{
    assert(pow64(0) == 1);
    assert(pow64(1) == 64);
    assert(pow64(2) == 4096);
    assert(pow64(3) == 262144);
    assert(pow64(4) == 16777216);
    assert(pow64(5) == 1073741824);
    assert(pow64(6) == 68719476736);
    assert(pow64(7) == 4398046511104);
    assert(pow64(8) == 281474976710656);
    assert(pow64(9) == 18014398509481984);
    assert(pow64(10) == 1152921504606846976);
}

/// Computes `64^n`.
pub fn pow64_exec(n: usize) -> (r: u64)
    requires
        n <= ID_LEN - 1,
    ensures
        r == pow64(n as nat),
{
    let mut r: u64 = 1;
    let mut i: usize = 0;
    while i < n
        invariant
            i <= n <= ID_LEN - 1,
            r == pow64(i as nat),
        decreases n - i,
    {
        proof {
            lemma_pow64_mono((i + 1) as nat, 10);
            lemma_pow64_values();
        }
        r = r * 64;
        i = i + 1;
    }
    r
}

/// Whether every element of `s` is a symbol of the alphabet.
pub fn is_word_exec(s: &Vec<char>) -> (r: bool)
    ensures
        r == is_word(s@),
{
    let mut i: usize = 0;
    while i < s.len()
        invariant
            i <= s.len(),
            forall|j: int| 0 <= j < i ==> is_symbol(#[trigger] s@[j]),
        decreases s.len() - i,
    {
        if index_of(s[i]).is_none() {
            return false;
        }
        i = i + 1;
    }
    true
}

/// The value of a word of at most ten symbols.
pub fn rank_of(s: &Vec<char>) -> (r: u64)
    requires
        is_word(s@),
        s.len() <= ID_LEN - 1,
    ensures
        r == rank(s@),
{
    let mut r: u64 = 0;
    let mut i: usize = 0;
    while i < s.len()
        invariant
            i <= s.len() <= ID_LEN - 1,
            is_word(s@),
            r == rank(s@.subrange(0, i as int)),
        decreases s.len() - i,
    {
        let ghost prefix = s@.subrange(0, i as int);
        let ghost next = s@.subrange(0, i + 1);
        proof {
            lemma_word_prefix(s@, i as int);
            lemma_rank_bounds(prefix);
            lemma_pow64_mono(i as nat, 9);
            lemma_pow64_values();
            assert(next.drop_last() =~= prefix);
            assert(is_symbol(s@[i as int]));
        }
        let d = index_of(s[i]).unwrap();
        r = r * 64 + d as u64;
        i = i + 1;
    }
    assert(s@.subrange(0, s.len() as int) =~= s@);
    r
}

/// The word of length `n` whose value is `r`.
pub fn word_at(r: u64, n: usize) -> (w: Vec<char>)
    ensures
        w@ == word_of(r as int, n as nat),
{
    let mut w: Vec<char> = Vec::new();
    let mut q: u64 = r;
    let mut k: usize = 0;
    while k < n
        invariant
            k <= n,
            word_of(r as int, n as nat) == word_of(q as int, (n - k) as nat) + w@,
        decreases n - k,
    {
        let c = symbol_at((q % 64) as usize);
        proof {
            let m = (n - k) as nat;
            assert(word_of(q as int, m) == word_of(q as int / 64, (m - 1) as nat).push(c));
            assert(word_of(q as int / 64, (m - 1) as nat) + w@.insert(0, c) =~= word_of(
                q as int,
                m,
            ) + w@);
        }
        w.insert(0, c);
        q = q / 64;
        k = k + 1;
    }
    assert(word_of(q as int, 0) + w@ =~= w@);
    w
}

/// Whether two words are the same.
pub fn same_word(a: &Vec<char>, b: &Vec<char>) -> (r: bool)
    ensures
        r == (a@ == b@),
{
    if a.len() != b.len() {
        return false;
    }
    let mut i: usize = 0;
    while i < a.len()
        invariant
            i <= a.len(),
            a.len() == b.len(),
            forall|j: int| 0 <= j < i ==> a@[j] == b@[j],
        decreases a.len() - i,
    {
        if a[i] != b[i] {
            return false;
        }
        i = i + 1;
    }
    assert(a@ =~= b@);
    true
}

} // verus!
