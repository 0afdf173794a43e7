use vstd::prelude::*;

use crate::prefix::{
    is_base_prefix, is_word, opt_word, lemma_pow64_adds, lemma_pow64_positive, lemma_pow64_values,
    lemma_rank_bounds, lemma_rank_concat, lemma_rank_injective, lemma_rank_orders_lexicographically,
    lemma_rank_word_of, lemma_word_of_rank, lex_before, pow64, pow64_exec, rank, rank_of, word_at,
    word_of, BASE_LEN,
};

verus! {

/// Value of the first base prefix under `start` (the start padded with the first symbol).
pub open spec fn subtree_first(start: Seq<char>) -> int {
    rank(start) * pow64((BASE_LEN - start.len()) as nat)
}

/// One past the value of the last base prefix under `start`.
pub open spec fn subtree_end(start: Seq<char>) -> int {
    (rank(start) + 1) * pow64((BASE_LEN - start.len()) as nat)
}

/// Value of the first base prefix to enumerate: the first one under `start`, or the one right
/// after the watermark when that comes later.
pub open spec fn first_rank(start: Seq<char>, watermark: Option<Seq<char>>) -> int {
    match watermark {
        Some(w) => if rank(w) + 1 > subtree_first(start) {
            rank(w) + 1
        } else {
            subtree_first(start)
        },
        None => subtree_first(start),
    }
}

/// The base prefixes of the values in `[from, to)`, in increasing order.
pub open spec fn words_between(from: int, to: int) -> Seq<Seq<char>> {
    Seq::new(if to > from { (to - from) as nat } else { 0 }, |i: int| word_of(from + i, BASE_LEN as nat))
}

/// The enumeration of a run: every base prefix under `start` that comes after the watermark,
/// in enumeration order.
pub open spec fn enumeration(start: Seq<char>, watermark: Option<Seq<char>>) -> Seq<Seq<char>> {
    words_between(first_rank(start, watermark), subtree_end(start))
}

/// `p` lies in the subtree rooted at `start`.
pub open spec fn extends(p: Seq<char>, start: Seq<char>) -> bool {
    start.len() <= p.len() && p.subrange(0, start.len() as int) == start
}

/// A valid pair of starting prefix and watermark.
pub open spec fn valid_run(start: Seq<char>, watermark: Option<Seq<char>>) -> bool {
    &&& is_word(start)
    &&& start.len() <= BASE_LEN
    &&& (watermark matches Some(w) ==> is_base_prefix(w))
}

/// Produces the base prefixes of a run one at a time, in enumeration order.
pub struct Enumerator {
    next: u64,
    end: u64,
}

impl Enumerator {
    /// Value of the next base prefix to produce.
    pub closed spec fn next_rank(&self) -> int {
        self.next as int
    }

    /// One past the value of the last base prefix to produce.
    pub closed spec fn end_rank(&self) -> int {
        self.end as int
    }

    /// The base prefixes still to be produced, in order.
    pub open spec fn remaining(&self) -> Seq<Seq<char>> {
        words_between(self.next_rank(), self.end_rank())
    }

    pub closed spec fn wf(&self) -> bool {
        self.end <= pow64(BASE_LEN as nat)
    }

    /// Starts the enumeration of the run given by `start` and `watermark`.
    pub fn new(start: &Vec<char>, watermark: &Option<Vec<char>>) -> (r: Enumerator)
        requires
            valid_run(start@, opt_word(*watermark)),
        ensures
            r.wf(),
            r.next_rank() == first_rank(start@, opt_word(*watermark)),
            r.end_rank() == subtree_end(start@),
            r.remaining() == enumeration(start@, opt_word(*watermark)),
    {
        let k = start.len();
        let m = BASE_LEN - k;
        proof {
            lemma_rank_bounds(start@);
            lemma_pow64_adds(k as nat, m as nat);
            lemma_pow64_values();
            lemma_pow64_positive(m as nat);
            lemma_pow64_positive(k as nat);
            let a = rank(start@);
            let pk = pow64(k as nat);
            let pm = pow64(m as nat);
            assert((a + 1) * pm <= pk * pm) by (nonlinear_arith)
                requires
                    a + 1 <= pk,
                    pm >= 1,
            ;
            assert(a * pm <= (a + 1) * pm == a * pm + pm) by (nonlinear_arith)
                requires
                    pm >= 1,
            ;
        }
        let size = pow64_exec(m);
        let base = rank_of(start);
        let first = base * size;
        let end = first + size;
        let next = match watermark {
            Some(w) => {
                proof {
                    lemma_rank_bounds(w@);
                }
                let rw = rank_of(w);
                if rw + 1 > first {
                    rw + 1
                } else {
                    first
                }
            },
            None => first,
        };
        Enumerator { next, end }
    }

    /// Value of the next base prefix to produce.
    pub fn next_value(&self) -> (r: u64)
        ensures
            r == self.next_rank(),
    {
        self.next
    }

    /// Steps past the next base prefix and returns its value, or `None` once the subtree is
    /// exhausted.
    pub fn advance(&mut self) -> (r: Option<u64>)
        requires
            old(self).wf(),
        ensures
            final(self).wf(),
            final(self).end_rank() == old(self).end_rank(),
            old(self).next_rank() < old(self).end_rank() ==> (r matches Some(v) && v == old(
                self,
            ).next_rank()) && final(self).next_rank() == old(self).next_rank() + 1,
            old(self).next_rank() >= old(self).end_rank() ==> r.is_none() && final(self).next_rank()
                == old(self).next_rank(),
    {
        if self.next < self.end {
            let r = self.next;
            self.next = self.next + 1;
            Some(r)
        } else {
            None
        }
    }

    /// Produces the next base prefix, or `None` once the subtree is exhausted.
    pub fn next(&mut self) -> (r: Option<Vec<char>>)
        requires
            old(self).wf(),
        ensures
            final(self).wf(),
            final(self).end_rank() == old(self).end_rank(),
            old(self).remaining().len() == 0 ==> r.is_none() && final(self).next_rank() == old(
                self,
            ).next_rank(),
            old(self).remaining().len() > 0 ==> {
                &&& r matches Some(p)
                &&& p@ == old(self).remaining()[0]
                &&& final(self).next_rank() == old(self).next_rank() + 1
            },
            final(self).remaining() == if old(self).remaining().len() > 0 {
                old(self).remaining().drop_first()
            } else {
                old(self).remaining()
            },
    {
        match self.advance() {
            Some(v) => {
                assert(self.remaining() =~= old(self).remaining().drop_first());
                Some(word_at(v, BASE_LEN))
            },
            None => None,
        }
    }
}

/// Consecutive base prefixes of an enumeration are strictly increasing in enumeration order.
pub proof fn lemma_enumeration_increasing(
    start: Seq<char>,
    watermark: Option<Seq<char>>,
    i: int,
)
    requires
        valid_run(start, watermark),
        0 <= i,
        i + 1 < enumeration(start, watermark).len(),
    ensures
        lex_before(enumeration(start, watermark)[i], enumeration(start, watermark)[i + 1]),
{
    let e = enumeration(start, watermark);
    let r = first_rank(start, watermark) + i;
    lemma_subtree_bounds(start, watermark);
    lemma_rank_word_of(r, BASE_LEN as nat);
    lemma_rank_word_of(r + 1, BASE_LEN as nat);
    lemma_rank_orders_lexicographically(e[i], e[i + 1]);
}

/// The enumeration lies within the base prefixes.
proof fn lemma_subtree_bounds(start: Seq<char>, watermark: Option<Seq<char>>)
    requires
        valid_run(start, watermark),
    ensures
        0 <= subtree_first(start) <= first_rank(start, watermark),
        subtree_first(start) < subtree_end(start) <= pow64(BASE_LEN as nat),
{
    let k = start.len();
    let m = (BASE_LEN - k) as nat;
    lemma_rank_bounds(start);
    lemma_pow64_adds(k, m);
    lemma_pow64_positive(m);
    let a = rank(start);
    let pk = pow64(k);
    let pm = pow64(m);
    assert((a + 1) * pm <= pk * pm) by (nonlinear_arith)
        requires
            a + 1 <= pk,
            pm >= 1,
    ;
    assert(0 <= a * pm < (a + 1) * pm) by (nonlinear_arith)
        requires
            pm >= 1,
            a >= 0,
    ;
}

/// A base prefix lies under `start` exactly when its value lies in the subtree's range.
proof fn lemma_subtree_range(start: Seq<char>, p: Seq<char>)
    requires
        is_word(start),
        start.len() <= BASE_LEN,
        is_base_prefix(p),
    ensures
        extends(p, start) <==> subtree_first(start) <= rank(p) < subtree_end(start),
{
    let k = start.len() as int;
    let m = (BASE_LEN - k) as nat;
    lemma_pow64_positive(m);
    let head = p.subrange(0, k);
    let tail = p.subrange(k, BASE_LEN as int);
    assert(p =~= head + tail);
    lemma_rank_concat(head, tail);
    assert(is_word(head) && is_word(tail)) by {
        assert forall|i: int| 0 <= i < head.len() implies crate::alphabet::is_symbol(
            #[trigger] head[i],
        ) by {
            assert(head[i] == p[i]);
        }
        assert forall|i: int| 0 <= i < tail.len() implies crate::alphabet::is_symbol(
            #[trigger] tail[i],
        ) by {
            assert(tail[i] == p[k + i]);
        }
    }
    lemma_rank_bounds(tail);
    lemma_rank_bounds(head);
    let a = rank(start);
    let h = rank(head);
    let t = rank(tail);
    let pm = pow64(m);
    assert(tail.len() == m);
    if h < a {
        assert(h * pm + t < a * pm) by (nonlinear_arith)
            requires
                h + 1 <= a,
                0 <= t < pm,
        ;
        assert(head != start);
    } else if h > a {
        assert(h * pm + t >= (a + 1) * pm) by (nonlinear_arith)
            requires
                h >= a + 1,
                0 <= t,
                pm >= 1,
        ;
        assert(head != start);
    } else {
        lemma_rank_injective(head, start);
        assert(a * pm <= a * pm + t < (a + 1) * pm) by (nonlinear_arith)
            requires
                0 <= t < pm,
        ;
    }
}

/// A base prefix belongs to the enumeration of a run exactly when it lies under the starting
/// prefix and comes after the watermark.
pub proof fn lemma_enumeration_members(
    start: Seq<char>,
    watermark: Option<Seq<char>>,
    p: Seq<char>,
)
    requires
        valid_run(start, watermark),
        is_base_prefix(p),
    ensures
        enumeration(start, watermark).contains(p) <==> (extends(p, start) && (
        watermark matches Some(w) ==> lex_before(w, p))),
{
    let e = enumeration(start, watermark);
    let f = first_rank(start, watermark);
    lemma_subtree_bounds(start, watermark);
    lemma_subtree_range(start, p);
    lemma_rank_bounds(p);
    if let Some(w) = watermark {
        lemma_rank_orders_lexicographically(w, p);
    }
    if e.contains(p) {
        let i = choose|i: int| 0 <= i < e.len() && e[i] == p;
        lemma_rank_word_of(f + i, BASE_LEN as nat);
    }
    if f <= rank(p) < subtree_end(start) {
        lemma_word_of_rank(p);
        assert(e[rank(p) - f] == p);
    }
}

/// Resuming a run from a watermark taken from its enumeration yields exactly the rest of that
/// enumeration after the watermark; nothing up to the watermark is produced again.
pub proof fn lemma_resume_suffix(start: Seq<char>, watermark: Option<Seq<char>>, k: int)
    requires
        valid_run(start, watermark),
        0 <= k < enumeration(start, watermark).len(),
    ensures
        enumeration(start, Some(enumeration(start, watermark)[k])) == enumeration(
            start,
            watermark,
        ).subrange(k + 1, enumeration(start, watermark).len() as int),
        forall|p: Seq<char>|
            #[trigger] enumeration(start, Some(enumeration(start, watermark)[k])).contains(p)
                ==> lex_before(enumeration(start, watermark)[k], p),
{
    let e = enumeration(start, watermark);
    let f = first_rank(start, watermark);
    let w = e[k];
    lemma_subtree_bounds(start, watermark);
    lemma_rank_word_of(f + k, BASE_LEN as nat);
    assert(rank(w) == f + k);
    assert(first_rank(start, Some(w)) == f + k + 1);
    let e2 = enumeration(start, Some(w));
    assert(e2 =~= e.subrange(k + 1, e.len() as int));
    assert forall|p: Seq<char>| #[trigger] e2.contains(p) implies lex_before(w, p) by {
        let i = choose|i: int| 0 <= i < e2.len() && e2[i] == p;
        lemma_rank_word_of(f + k + 1 + i, BASE_LEN as nat);
        lemma_rank_orders_lexicographically(w, p);
    }
}

} // verus!
