use vstd::prelude::*;

use crate::enumerator::{first_rank, subtree_end, valid_run, Enumerator};
use crate::prefix::{
    is_base_prefix, is_word_exec, lemma_rank_bounds, opt_word, rank, rank_of, same_word, word_at,
    word_of, BASE_LEN,
};
use crate::protocol::ErrorCode;

verus! {

/// Why a session got no base prefix.
#[derive(PartialEq, Eq, Structural, Clone, Copy, Debug)]
pub enum DispatchError {
    /// The session still owes the result for the prefix it was given.
    AlreadyAwaiting,
    /// Nothing is left to hand out: the subtree is exhausted and nothing was returned.
    Exhausted,
}

/// What the coordinator knows of one session. Prefixes are given by their values (`rank`).
pub struct SlotState {
    pub open: bool,
    /// The prefix whose result the session owes, if any.
    pub awaited: Option<int>,
    /// Every prefix dispatched to the session, in order.
    pub sent: Seq<int>,
}

/// The coordination domain: enumeration progress, outstanding set, returned prefixes,
/// sessions and watermark. Base prefixes are given by their values (`rank`).
pub struct DispatchState {
    /// The watermark the run was resumed from.
    pub initial: Option<int>,
    /// The first value of this run's enumeration.
    pub first: int,
    /// One past the last value of the subtree.
    pub end: int,
    /// The next value the enumerator will produce; every value in `[first, next_fresh)` has
    /// been dispatched at least once.
    pub next_fresh: int,
    /// Dispatched and not yet acknowledged.
    pub outstanding: Set<int>,
    /// Outstanding prefixes returned by closed sessions; the last one is handed out first.
    pub requeued: Seq<int>,
    pub slots: Seq<SlotState>,
    pub watermark: Option<int>,
}

/// `f` is the least element of `out` together with `d`.
pub open spec fn is_frontier(f: int, out: Set<int>, d: int) -> bool {
    &&& f <= d
    &&& (f == d || out.contains(f))
    &&& forall|p: int| out.contains(p) ==> f <= p
}

/// The least value that is outstanding or not yet dispatched.
pub open spec fn frontier(out: Set<int>, d: int) -> int {
    choose|f: int| is_frontier(f, out, d)
}

/// The watermark for a frontier `f`: the value just below it, or the initial watermark when
/// nothing of this run lies below it.
pub open spec fn watermark_for(initial: Option<int>, first: int, f: int) -> Option<int> {
    if f > first {
        Some(f - 1)
    } else {
        initial
    }
}

/// `a` is no later than `b`, where `None` means that nothing has been completed.
pub open spec fn watermark_le(a: Option<int>, b: Option<int>) -> bool {
    match (a, b) {
        (None, _) => true,
        (Some(x), Some(y)) => x <= y,
        (Some(_), None) => false,
    }
}

/// `p` belongs to this run, was dispatched and was acknowledged.
pub open spec fn acknowledged(s: DispatchState, p: int) -> bool {
    s.first <= p < s.next_fresh && !s.outstanding.contains(p)
}

pub open spec fn valid_state(s: DispatchState) -> bool {
    &&& s.first <= s.next_fresh
    &&& (s.next_fresh <= s.end || s.next_fresh == s.first)
    &&& (s.initial matches Some(w) ==> w < s.first)
    &&& forall|p: int| s.outstanding.contains(p) ==> s.first <= p < s.next_fresh
    &&& s.watermark == watermark_for(s.initial, s.first, frontier(s.outstanding, s.next_fresh))
    &&& forall|a: int, b: int|
        0 <= a < b < s.requeued.len() ==> s.requeued[a] != s.requeued[b]
    &&& forall|a: int| 0 <= a < s.requeued.len() ==> s.outstanding.contains(#[trigger] s.requeued[a])
    &&& forall|k: int, a: int|
        0 <= k < s.slots.len() && 0 <= a < s.requeued.len() ==> #[trigger] s.slots[k].awaited
            != Some(#[trigger] s.requeued[a])
    &&& forall|k: int|
        0 <= k < s.slots.len() ==> (#[trigger] s.slots[k].awaited matches Some(p) ==> {
            &&& s.slots[k].open
            &&& s.outstanding.contains(p)
            &&& s.slots[k].sent.len() > 0
            &&& s.slots[k].sent.last() == p
        })
    &&& forall|k1: int, k2: int|
        0 <= k1 < s.slots.len() && 0 <= k2 < s.slots.len() && k1 != k2
            && #[trigger] s.slots[k1].awaited is Some ==> s.slots[k1].awaited
            != #[trigger] s.slots[k2].awaited
    &&& forall|p: int|
        #[trigger] s.outstanding.contains(p) ==> s.requeued.contains(p) || exists|k: int|
            0 <= k < s.slots.len() && s.slots[k].awaited == Some(p)
}

/// The state a run starts in.
pub open spec fn initial_state(start: Seq<char>, watermark: Option<Seq<char>>) -> DispatchState {
    let initial = match watermark {
        Some(w) => Some(rank(w)),
        None => None,
    };
    DispatchState {
        initial,
        first: first_rank(start, watermark),
        end: subtree_end(start),
        next_fresh: first_rank(start, watermark),
        outstanding: Set::empty(),
        requeued: Seq::empty(),
        slots: Seq::empty(),
        watermark: initial,
    }
}

/// A new session gets a slot.
pub open spec fn after_open(s: DispatchState) -> DispatchState {
    DispatchState {
        slots: s.slots.push(SlotState { open: true, awaited: None, sent: Seq::empty() }),
        ..s
    }
}

/// The prefix the next dispatch to session `i` hands out: the last returned one, else the next
/// one of the enumeration.
pub open spec fn dispatch_choice(s: DispatchState, i: int) -> Result<int, DispatchError> {
    if s.slots[i].awaited is Some {
        Err(DispatchError::AlreadyAwaiting)
    } else if s.requeued.len() > 0 {
        Ok(s.requeued.last())
    } else if s.next_fresh < s.end {
        Ok(s.next_fresh)
    } else {
        Err(DispatchError::Exhausted)
    }
}

/// The state after a dispatch to session `i`.
pub open spec fn after_dispatch(s: DispatchState, i: int) -> DispatchState {
    match dispatch_choice(s, i) {
        Ok(p) => {
            let slot = SlotState { open: s.slots[i].open, awaited: Some(p), sent: s.slots[i].sent.push(p) };
            if s.requeued.len() > 0 {
                DispatchState { requeued: s.requeued.drop_last(), slots: s.slots.update(i, slot), ..s }
            } else {
                DispatchState {
                    next_fresh: s.next_fresh + 1,
                    outstanding: s.outstanding.insert(p),
                    slots: s.slots.update(i, slot),
                    ..s
                }
            }
        },
        Err(_) => s,
    }
}

/// Whether session `i` may acknowledge `prefix`: it must be the prefix the session awaits.
pub open spec fn submit_check(s: DispatchState, i: int, prefix: Seq<char>) -> Result<int, ErrorCode> {
    match s.slots[i].awaited {
        None => Err(ErrorCode::NotExpectingResults),
        Some(p) => if prefix == word_of(p, BASE_LEN as nat) {
            Ok(p)
        } else {
            Err(ErrorCode::WrongResultString)
        },
    }
}

/// The state after session `i` acknowledged `p`: `p` leaves the outstanding set and the
/// watermark follows the new frontier.
pub open spec fn after_ack(s: DispatchState, i: int, p: int) -> DispatchState {
    let out = s.outstanding.remove(p);
    DispatchState {
        outstanding: out,
        slots: s.slots.update(i, SlotState { awaited: None, ..s.slots[i] }),
        watermark: watermark_for(s.initial, s.first, frontier(out, s.next_fresh)),
        ..s
    }
}

/// The state after session `i` closed: the prefix it owed goes back to the front of the
/// dispatch queue. Closing a closed session changes nothing.
pub open spec fn after_close(s: DispatchState, i: int) -> DispatchState {
    if !s.slots[i].open {
        s
    } else {
        let slot = SlotState { open: false, awaited: None, sent: s.slots[i].sent };
        match s.slots[i].awaited {
            Some(p) => DispatchState {
                requeued: s.requeued.push(p),
                slots: s.slots.update(i, slot),
                ..s
            },
            None => DispatchState { slots: s.slots.update(i, slot), ..s },
        }
    }
}

/// Number of open sessions.
pub open spec fn open_count(slots: Seq<SlotState>) -> nat
    decreases slots.len(),
{
    if slots.len() == 0 {
        0
    } else {
        open_count(slots.drop_last()) + if slots.last().open { 1nat } else { 0nat }
    }
}

proof fn lemma_frontier_unique(f: int, out: Set<int>, d: int)
    requires
        is_frontier(f, out, d),
    ensures
        frontier(out, d) == f,
{
    let g = frontier(out, d);
    assert(is_frontier(g, out, d));
}

proof fn lemma_frontier_exists(out: Set<int>, d: int, lo: int)
    requires
        lo <= d,
        forall|p: int| out.contains(p) ==> lo <= p < d,
    ensures
        is_frontier(frontier(out, d), out, d),
    decreases d - lo,
{
    if lo == d || out.contains(lo) {
        assert(is_frontier(lo, out, d));
    } else {
        lemma_frontier_exists(out, d, lo + 1);
    }
}

proof fn lemma_watermark_for_mono(initial: Option<int>, first: int, f1: int, f2: int)
    requires
        f1 <= f2,
        initial matches Some(w) ==> w < first,
    ensures
        watermark_le(watermark_for(initial, first, f1), watermark_for(initial, first, f2)),
{
}

/// Dispatching preserves validity and leaves the watermark and acknowledgements as they were.
proof fn lemma_dispatch_valid(s: DispatchState, i: int)
    requires
        valid_state(s),
        0 <= i < s.slots.len(),
        s.slots[i].open,
    ensures
        valid_state(after_dispatch(s, i)),
        after_dispatch(s, i).watermark == s.watermark,
        forall|q: int| acknowledged(s, q) <==> acknowledged(after_dispatch(s, i), q),
{
    let t = after_dispatch(s, i);
    match dispatch_choice(s, i) {
        Ok(p) => {
            if s.requeued.len() > 0 {
                let n = s.requeued.len() - 1;
                assert forall|q: int| #[trigger] t.outstanding.contains(q) implies t.requeued.contains(q)
                    || exists|k: int| 0 <= k < t.slots.len() && t.slots[k].awaited == Some(q) by {
                    if q == p {
                        assert(t.slots[i].awaited == Some(q));
                    } else if s.requeued.contains(q) {
                        let a = choose|a: int| 0 <= a < s.requeued.len() && s.requeued[a] == q;
                        assert(t.requeued[a] == q);
                    } else {
                        let k = choose|k: int| 0 <= k < s.slots.len() && s.slots[k].awaited == Some(q);
                        assert(t.slots[k].awaited == Some(q));
                    }
                }
                assert forall|k: int, a: int|
                    0 <= k < t.slots.len() && 0 <= a < t.requeued.len() implies #[trigger] t.slots[k].awaited
                        != Some(#[trigger] t.requeued[a]) by {
                    assert(s.requeued[a] != s.requeued[n]);
                }
            } else {
                let f = frontier(s.outstanding, s.next_fresh);
                lemma_frontier_exists(s.outstanding, s.next_fresh, s.first);
                assert(is_frontier(f, t.outstanding, t.next_fresh));
                lemma_frontier_unique(f, t.outstanding, t.next_fresh);
                assert forall|q: int| #[trigger] t.outstanding.contains(q) implies t.requeued.contains(q)
                    || exists|k: int| 0 <= k < t.slots.len() && t.slots[k].awaited == Some(q) by {
                    if q == p {
                        assert(t.slots[i].awaited == Some(q));
                    } else {
                        let k = choose|k: int| 0 <= k < s.slots.len() && s.slots[k].awaited == Some(q);
                        assert(t.slots[k].awaited == Some(q));
                    }
                }
            }
        },
        Err(_) => {},
    }
}

/// Acknowledging the awaited prefix preserves validity, moves the watermark only forward and
/// marks exactly that prefix as acknowledged.
proof fn lemma_ack_valid(s: DispatchState, i: int, p: int)
    requires
        valid_state(s),
        0 <= i < s.slots.len(),
        s.slots[i].awaited == Some(p),
    ensures
        valid_state(after_ack(s, i, p)),
        watermark_le(s.watermark, after_ack(s, i, p).watermark),
        !acknowledged(s, p),
        acknowledged(after_ack(s, i, p), p),
        forall|q: int| q != p ==> (acknowledged(s, q) <==> acknowledged(after_ack(s, i, p), q)),
{
    let t = after_ack(s, i, p);
    lemma_frontier_exists(s.outstanding, s.next_fresh, s.first);
    lemma_frontier_exists(t.outstanding, t.next_fresh, s.first);
    let f1 = frontier(s.outstanding, s.next_fresh);
    let f2 = frontier(t.outstanding, t.next_fresh);
    assert(f1 <= f2);
    lemma_watermark_for_mono(s.initial, s.first, f1, f2);
    assert forall|a: int| 0 <= a < t.requeued.len() implies t.outstanding.contains(
        #[trigger] t.requeued[a],
    ) by {
        assert(s.slots[i].awaited != Some(s.requeued[a]));
    }
    assert forall|k: int| 0 <= k < t.slots.len() implies (#[trigger] t.slots[k].awaited matches Some(
        q,
    ) ==> {
        &&& t.slots[k].open
        &&& t.outstanding.contains(q)
        &&& t.slots[k].sent.len() > 0
        &&& t.slots[k].sent.last() == q
    }) by {
        if k != i && t.slots[k].awaited is Some {
            assert(s.slots[k].awaited != s.slots[i].awaited);
        }
    }
    assert forall|q: int| #[trigger] t.outstanding.contains(q) implies t.requeued.contains(q)
        || exists|k: int| 0 <= k < t.slots.len() && t.slots[k].awaited == Some(q) by {
        if !s.requeued.contains(q) {
            let k = choose|k: int| 0 <= k < s.slots.len() && s.slots[k].awaited == Some(q);
            assert(k != i);
            assert(t.slots[k].awaited == Some(q));
        }
    }
}

/// Closing a session preserves validity and leaves the watermark and acknowledgements as they
/// were.
proof fn lemma_close_valid(s: DispatchState, i: int)
    requires
        valid_state(s),
        0 <= i < s.slots.len(),
    ensures
        valid_state(after_close(s, i)),
        after_close(s, i).watermark == s.watermark,
        forall|q: int| acknowledged(s, q) <==> acknowledged(after_close(s, i), q),
{
    let t = after_close(s, i);
    if s.slots[i].open {
        assert forall|q: int| #[trigger] t.outstanding.contains(q) implies t.requeued.contains(q)
            || exists|k: int| 0 <= k < t.slots.len() && t.slots[k].awaited == Some(q) by {
            if s.slots[i].awaited == Some(q) {
                assert(t.requeued[t.requeued.len() - 1] == q);
            } else if s.requeued.contains(q) {
                let a = choose|a: int| 0 <= a < s.requeued.len() && s.requeued[a] == q;
                assert(t.requeued[a] == q);
            } else {
                let k = choose|k: int| 0 <= k < s.slots.len() && s.slots[k].awaited == Some(q);
                assert(k != i);
                assert(t.slots[k].awaited == Some(q));
            }
        }
        if let Some(p) = s.slots[i].awaited {
            assert forall|a: int, b: int| 0 <= a < b < t.requeued.len() implies t.requeued[a]
                != t.requeued[b] by {
                if b == t.requeued.len() - 1 {
                    assert(s.slots[i].awaited != Some(s.requeued[a]));
                }
            }
            assert forall|k: int, a: int|
                0 <= k < t.slots.len() && 0 <= a < t.requeued.len() implies #[trigger] t.slots[k].awaited
                    != Some(#[trigger] t.requeued[a]) by {
                if a == t.requeued.len() - 1 && k != i && t.slots[k].awaited is Some {
                    assert(s.slots[k].awaited != s.slots[i].awaited);
                }
            }
        }
    }
}

/// Opening a session preserves validity.
proof fn lemma_open_valid(s: DispatchState)
    requires
        valid_state(s),
    ensures
        valid_state(after_open(s)),
{
    let t = after_open(s);
    assert forall|q: int| #[trigger] t.outstanding.contains(q) implies t.requeued.contains(q)
        || exists|k: int| 0 <= k < t.slots.len() && t.slots[k].awaited == Some(q) by {
        if !s.requeued.contains(q) {
            let k = choose|k: int| 0 <= k < s.slots.len() && s.slots[k].awaited == Some(q);
            assert(t.slots[k].awaited == Some(q));
        }
    }
}

/// The values held in `v`.
pub open spec fn set_of(v: Seq<u64>) -> Set<int> {
    Set::new(|p: int| exists|k: int| 0 <= k < v.len() && v[k] as int == p)
}

pub open spec fn no_dups(v: Seq<u64>) -> bool {
    forall|a: int, b: int| 0 <= a < b < v.len() ==> v[a] != v[b]
}

proof fn lemma_set_of_index(v: Seq<u64>, k: int)
    requires
        0 <= k < v.len(),
    ensures
        set_of(v).contains(v[k] as int),
{
}

proof fn lemma_push_fresh(v: Seq<u64>, p: u64)
    requires
        no_dups(v),
        forall|k: int| 0 <= k < v.len() ==> v[k] < p,
    ensures
        no_dups(v.push(p)),
{
    assert forall|a: int, b: int| 0 <= a < b < v.push(p).len() implies v.push(p)[a] != v.push(p)[b] by {
        assert(v.push(p)[a] == v[a]);
        if b < v.len() {
            assert(v.push(p)[b] == v[b]);
        }
    }
}

proof fn lemma_set_of_push(v: Seq<u64>, x: u64)
    ensures
        set_of(v.push(x)) == set_of(v).insert(x as int),
{
    let w = v.push(x);
    assert forall|p: int| set_of(w).contains(p) <==> set_of(v).insert(x as int).contains(p) by {
        if set_of(v).contains(p) {
            let k = choose|k: int| 0 <= k < v.len() && v[k] as int == p;
            assert(w[k] == v[k]);
        }
        if p == x as int {
            assert(w[v.len() as int] == x);
        }
        if set_of(w).contains(p) {
            let k = choose|k: int| 0 <= k < w.len() && w[k] as int == p;
            if k < v.len() {
                assert(w[k] == v[k]);
            }
        }
    }
    assert(set_of(w) =~= set_of(v).insert(x as int));
}

proof fn lemma_set_of_remove(v: Seq<u64>, k: int)
    requires
        no_dups(v),
        0 <= k < v.len(),
    ensures
        set_of(v.remove(k)) == set_of(v).remove(v[k] as int),
        no_dups(v.remove(k)),
{
    let w = v.remove(k);
    assert forall|p: int| set_of(w).contains(p) <==> set_of(v).remove(v[k] as int).contains(p) by {
        if set_of(w).contains(p) {
            let j = choose|j: int| 0 <= j < w.len() && w[j] as int == p;
            if j < k {
                assert(w[j] == v[j]);
            } else {
                assert(w[j] == v[j + 1]);
            }
        }
        if set_of(v).remove(v[k] as int).contains(p) {
            let j = choose|j: int| 0 <= j < v.len() && v[j] as int == p;
            assert(j != k);
            if j < k {
                assert(w[j] == v[j]);
            } else {
                assert(w[j - 1] == v[j]);
            }
        }
    }
    assert(set_of(w) =~= set_of(v).remove(v[k] as int));
    assert forall|a: int, b: int| 0 <= a < b < w.len() implies w[a] != w[b] by {
        let a1 = if a < k { a } else { a + 1 };
        let b1 = if b < k { b } else { b + 1 };
        assert(w[a] == v[a1] && w[b] == v[b1]);
    }
}

pub open spec fn opt_int(x: Option<u64>) -> Option<int> {
    match x {
        Some(v) => Some(v as int),
        None => None,
    }
}

/// One session's record in the coordinator.
struct Slot {
    open: bool,
    awaited: Option<u64>,
    sent: Ghost<Seq<int>>,
}

spec fn slot_state(s: Slot) -> SlotState {
    SlotState { open: s.open, awaited: opt_int(s.awaited), sent: s.sent@ }
}

/// The coordinator's dispatch and reconciliation: hands out base prefixes to sessions, tracks
/// the outstanding set, takes prefixes back from closed sessions and advances the watermark in
/// enumeration order.
pub struct Coordinator {
    initial: Option<u64>,
    first: u64,
    enumerator: Enumerator,
    outstanding: Vec<u64>,
    requeued: Vec<u64>,
    slots: Vec<Slot>,
    watermark: Option<u64>,
}

impl View for Coordinator {
    type V = DispatchState;

    closed spec fn view(&self) -> DispatchState {
        DispatchState {
            initial: opt_int(self.initial),
            first: self.first as int,
            end: self.enumerator.end_rank(),
            next_fresh: self.enumerator.next_rank(),
            outstanding: set_of(self.outstanding@),
            requeued: self.requeued@.map_values(|x: u64| x as int),
            slots: self.slots@.map_values(|s: Slot| slot_state(s)),
            watermark: opt_int(self.watermark),
        }
    }
}

impl Coordinator {
    pub closed spec fn wf(&self) -> bool {
        &&& valid_state(self@)
        &&& self.enumerator.wf()
        &&& no_dups(self.outstanding@)
    }

    /// A well-formed coordinator is in a valid state.
    pub proof fn lemma_wf_valid(&self)
        requires
            self.wf(),
        ensures
            valid_state(self@),
    {
    }

    /// Starts a run under `start`, resuming after `watermark` when one was persisted.
    pub fn new(start: &Vec<char>, watermark: &Option<Vec<char>>) -> (r: Coordinator)
        requires
            valid_run(start@, opt_word(*watermark)),
        ensures
            r.wf(),
            r@ == initial_state(start@, opt_word(*watermark)),
    {
        let enumerator = Enumerator::new(start, watermark);
        let initial = match watermark {
            Some(w) => Some(rank_of(w)),
            None => None,
        };
        let first = enumerator.next_value();
        let r = Coordinator {
            initial,
            first,
            enumerator,
            outstanding: Vec::new(),
            requeued: Vec::new(),
            slots: Vec::new(),
            watermark: initial,
        };
        proof {
            assert(is_frontier(r@.next_fresh, r@.outstanding, r@.next_fresh));
            lemma_frontier_unique(r@.next_fresh, r@.outstanding, r@.next_fresh);
            assert(r@.outstanding =~= Set::<int>::empty());
            assert(r@.requeued =~= Seq::<int>::empty());
            assert(r@.slots =~= Seq::<SlotState>::empty());
            if let Some(w) = watermark {
                lemma_rank_bounds(w@);
            }
        }
        r
    }

    /// Gives a newly connected session its slot.
    pub fn open_session(&mut self) -> (slot: usize)
        requires
            old(self).wf(),
            old(self)@.slots.len() < usize::MAX,
        ensures
            final(self).wf(),
            final(self)@ == after_open(old(self)@),
            slot == old(self)@.slots.len(),
    {
        self.slots.push(Slot { open: true, awaited: None, sent: Ghost(Seq::empty()) });
        proof {
            lemma_open_valid(old(self)@);
            assert(self@.slots =~= after_open(old(self)@).slots);
        }
        self.slots.len() - 1
    }

    /// Number of slots handed out so far, open or closed.
    pub fn sessions_len(&self) -> (n: usize)
        ensures
            n == self@.slots.len(),
    {
        self.slots.len()
    }

    /// Number of sessions currently open.
    pub fn connected_workers(&self) -> (n: usize)
        ensures
            n == open_count(self@.slots),
    {
        let mut n: usize = 0;
        let mut i: usize = 0;
        while i < self.slots.len()
            invariant
                i <= self.slots.len(),
                n == open_count(self@.slots.subrange(0, i as int)),
                n <= i,
            decreases self.slots.len() - i,
        {
            proof {
                let sub = self@.slots.subrange(0, i + 1);
                assert(sub.drop_last() =~= self@.slots.subrange(0, i as int));
            }
            if self.slots[i].open {
                n = n + 1;
            }
            i = i + 1;
        }
        assert(self@.slots.subrange(0, i as int) =~= self@.slots);
        n
    }

    /// The persisted watermark: every base prefix of the run up to it has been acknowledged.
    pub fn watermark(&self) -> (r: Option<Vec<char>>)
        ensures
            match self@.watermark {
                Some(w) => r matches Some(v) && v@ == word_of(w, BASE_LEN as nat),
                None => r is None,
            },
    {
        match self.watermark {
            Some(w) => Some(word_at(w, BASE_LEN)),
            None => None,
        }
    }

    /// Number of returned prefixes waiting at the front of the dispatch queue.
    pub fn queued_len(&self) -> (n: usize)
        ensures
            n == self@.requeued.len(),
    {
        self.requeued.len()
    }

    /// Whether `prefix` is outstanding.
    pub fn is_outstanding(&self, prefix: &Vec<char>) -> (r: bool)
        ensures
            r == (is_base_prefix(prefix@) && self@.outstanding.contains(rank(prefix@))),
    {
        if prefix.len() != BASE_LEN || !is_word_exec(prefix) {
            return false;
        }
        proof {
            lemma_rank_bounds(prefix@);
            crate::prefix::lemma_pow64_values();
        }
        let p = rank_of(prefix);
        let mut i: usize = 0;
        while i < self.outstanding.len()
            invariant
                i <= self.outstanding.len(),
                is_base_prefix(prefix@),
                p == rank(prefix@),
                forall|k: int| 0 <= k < i ==> self.outstanding@[k] != p,
            decreases self.outstanding.len() - i,
        {
            if self.outstanding[i] == p {
                proof {
                    lemma_set_of_index(self.outstanding@, i as int);
                }
                return true;
            }
            i = i + 1;
        }
        false
    }

    /// The prefix session `slot` owes a result for.
    pub fn awaited_prefix(&self, slot: usize) -> (r: Option<Vec<char>>)
        requires
            slot < self@.slots.len(),
        ensures
            match self@.slots[slot as int].awaited {
                Some(p) => r matches Some(v) && v@ == word_of(p, BASE_LEN as nat),
                None => r is None,
            },
    {
        match self.slots[slot].awaited {
            Some(p) => Some(word_at(p, BASE_LEN)),
            None => None,
        }
    }

    /// Hands session `slot` its next base prefix: the last one returned by a closed session,
    /// else the next one of the enumeration. The prefix becomes outstanding and awaited by the
    /// session.
    pub fn request_next(&mut self, slot: usize) -> (r: Result<Vec<char>, DispatchError>)
        requires
            old(self).wf(),
            slot < old(self)@.slots.len(),
            old(self)@.slots[slot as int].open,
        ensures
            final(self).wf(),
            final(self)@ == after_dispatch(old(self)@, slot as int),
            match dispatch_choice(old(self)@, slot as int) {
                Ok(p) => r matches Ok(v) && v@ == word_of(p, BASE_LEN as nat),
                Err(e) => r == Err::<Vec<char>, DispatchError>(e),
            },
            final(self)@.watermark == old(self)@.watermark,
            forall|q: int| acknowledged(old(self)@, q) <==> acknowledged(final(self)@, q),
    {
        proof {
            lemma_dispatch_valid(self@, slot as int);
        }
        if self.slots[slot].awaited.is_some() {
            return Err(DispatchError::AlreadyAwaiting);
        }
        let ghost old_sent = self.slots[slot as int].sent@;
        assert(old(self)@.slots[slot as int] == slot_state(old(self).slots@[slot as int]));
        assert(old(self)@.slots[slot as int].awaited is None);
        let p: u64;
        if self.requeued.len() > 0 {
            p = self.requeued.pop().unwrap();
            proof {
                assert(self@.requeued =~= old(self)@.requeued.drop_last());
                assert(dispatch_choice(old(self)@, slot as int) == Ok::<int, DispatchError>(p as int));
            }
        } else {
            match self.enumerator.advance() {
                Some(v) => {
                    p = v;
                    proof {
                        lemma_set_of_push(self.outstanding@, p);
                        assert forall|k: int| 0 <= k < self.outstanding@.len() implies self.outstanding@[k] < p by {
                            lemma_set_of_index(self.outstanding@, k);
                            assert(old(self)@.outstanding.contains(self.outstanding@[k] as int));
                        }
                        lemma_push_fresh(self.outstanding@, p);
                        assert(dispatch_choice(old(self)@, slot as int) == Ok::<int, DispatchError>(p as int));
                    }
                    self.outstanding.push(p);
                },
                None => {
                    return Err(DispatchError::Exhausted);
                },
            }
        }
        self.slots[slot] = Slot { open: true, awaited: Some(p), sent: Ghost(old_sent.push(p as int)) };
        proof {
            let t = after_dispatch(old(self)@, slot as int);
            assert(dispatch_choice(old(self)@, slot as int) == Ok::<int, DispatchError>(p as int));
            assert(self@.slots.len() == t.slots.len());
            assert forall|k: int| 0 <= k < t.slots.len() implies self@.slots[k] == t.slots[k] by {
                if k == slot {
                    assert(self.slots@[k].sent@ == old_sent.push(p as int));
                    assert(slot_state(old(self).slots@[k]).sent == old_sent);
                } else {
                    assert(self.slots@[k] == old(self).slots@[k]);
                }
            }
            assert(self@.slots =~= t.slots);
            assert(self@.outstanding =~= after_dispatch(old(self)@, slot as int).outstanding);
        }
        Ok(word_at(p, BASE_LEN))
    }
    /// The least value that is outstanding or not yet dispatched.
    fn compute_frontier(&self) -> (f: u64)
        ensures
            is_frontier(f as int, set_of(self.outstanding@), self.enumerator.next_rank()),
    {
        let d = self.enumerator.next_value();
        let mut m = d;
        let mut i: usize = 0;
        while i < self.outstanding.len()
            invariant
                i <= self.outstanding.len(),
                d == self.enumerator.next_rank(),
                m <= d,
                m == d || exists|k: int| 0 <= k < i && self.outstanding@[k] == m,
                forall|k: int| 0 <= k < i ==> m <= self.outstanding@[k],
            decreases self.outstanding.len() - i,
        {
            if self.outstanding[i] < m {
                m = self.outstanding[i];
            }
            i = i + 1;
        }
        proof {
            if m != d {
                let k = choose|k: int| 0 <= k < i && self.outstanding@[k] == m;
                lemma_set_of_index(self.outstanding@, k);
            }
            assert forall|p: int| set_of(self.outstanding@).contains(p) implies m <= p by {
                let k = choose|k: int| 0 <= k < self.outstanding@.len() && self.outstanding@[k] as int == p;
            }
        }
        m
    }

    /// Removes the awaited prefix `p` of session `slot` from the outstanding set and advances
    /// the watermark.
    fn acknowledge(&mut self, slot: usize, p: u64)
        requires
            old(self).wf(),
            slot < old(self)@.slots.len(),
            old(self)@.slots[slot as int].awaited == Some(p as int),
        ensures
            final(self).wf(),
            final(self)@ == after_ack(old(self)@, slot as int, p as int),
    {
        proof {
            lemma_ack_valid(self@, slot as int, p as int);
        }
        let mut k: usize = 0;
        while k < self.outstanding.len()
            invariant
                *self == *old(self),
                k <= self.outstanding.len(),
                set_of(self.outstanding@).contains(p as int),
                forall|j: int| 0 <= j < k ==> self.outstanding@[j] != p,
            ensures
                k < self.outstanding.len() ==> self.outstanding@[k as int] == p,
                k <= self.outstanding.len(),
                forall|j: int| 0 <= j < k ==> self.outstanding@[j] != p,
                *self == *old(self),
            decreases self.outstanding.len() - k,
        {
            if self.outstanding[k] == p {
                break;
            }
            k = k + 1;
        }
        if k == self.outstanding.len() {
            proof {
                let j = choose|j: int| 0 <= j < self.outstanding@.len() && self.outstanding@[j] as int == p as int;
                assert(false);
            }
            return;
        }
        proof {
            lemma_set_of_remove(self.outstanding@, k as int);
        }
        self.outstanding.remove(k);
        let ghost sent = self.slots@[slot as int].sent@;
        self.slots[slot] = Slot { open: true, awaited: None, sent: Ghost(sent) };
        let f = self.compute_frontier();
        proof {
            lemma_frontier_unique(f as int, set_of(self.outstanding@), self.enumerator.next_rank());
        }
        if f > self.first {
            self.watermark = Some(f - 1);
        } else {
            self.watermark = self.initial;
        }
        proof {
            let t = after_ack(old(self)@, slot as int, p as int);
            assert(self@.outstanding == t.outstanding);
            assert(self@.slots.len() == t.slots.len());
            assert forall|j: int| 0 <= j < t.slots.len() implies self@.slots[j] == t.slots[j] by {
                if j != slot {
                    assert(self.slots@[j] == old(self).slots@[j]);
                } else {
                    assert(old(self)@.slots[j] == slot_state(old(self).slots@[j]));
                }
            }
            assert(self@.slots =~= t.slots);
        }
    }

    /// Accepts the result of session `slot` for `prefix` when it is the prefix the session
    /// awaits: the prefix is acknowledged, the watermark advances, and the session is handed its
    /// next prefix (`None` when nothing is left). Otherwise nothing changes and the error says
    /// why the session must be closed.
    pub fn submit_result(&mut self, slot: usize, prefix: &Vec<char>) -> (r: Result<
        Option<Vec<char>>,
        ErrorCode,
    >)
        requires
            old(self).wf(),
            slot < old(self)@.slots.len(),
            old(self)@.slots[slot as int].open,
        ensures
            final(self).wf(),
            match submit_check(old(self)@, slot as int, prefix@) {
                Err(e) => r == Err::<Option<Vec<char>>, ErrorCode>(e) && final(self)@ == old(self)@,
                Ok(p) => {
                    let mid = after_ack(old(self)@, slot as int, p);
                    &&& final(self)@ == after_dispatch(mid, slot as int)
                    &&& match dispatch_choice(mid, slot as int) {
                        Ok(q) => r matches Ok(Some(v)) && v@ == word_of(q, BASE_LEN as nat),
                        Err(_) => r matches Ok(None),
                    }
                    &&& !acknowledged(old(self)@, p)
                    &&& acknowledged(final(self)@, p)
                    &&& old(self)@.slots[slot as int].sent.len() > 0
                    &&& old(self)@.slots[slot as int].sent.last() == p
                },
            },
            watermark_le(old(self)@.watermark, final(self)@.watermark),
            forall|q: int| acknowledged(old(self)@, q) ==> acknowledged(final(self)@, q),
    {
        assert(old(self)@.slots[slot as int] == slot_state(old(self).slots@[slot as int]));
        match self.slots[slot].awaited {
            None => Err(ErrorCode::NotExpectingResults),
            Some(p) => {
                let expected = word_at(p, BASE_LEN);
                if !same_word(prefix, &expected) {
                    return Err(ErrorCode::WrongResultString);
                }
                proof {
                    lemma_ack_valid(self@, slot as int, p as int);
                }
                self.acknowledge(slot, p);
                proof {
                    lemma_dispatch_valid(self@, slot as int);
                }
                match self.request_next(slot) {
                    Ok(v) => Ok(Some(v)),
                    Err(_) => Ok(None),
                }
            },
        }
    }

    /// Ends session `slot`: the prefix it owed, if any, goes back to the front of the dispatch
    /// queue and stays outstanding. Closing a closed session changes nothing.
    pub fn on_session_close(&mut self, slot: usize)
        requires
            old(self).wf(),
            slot < old(self)@.slots.len(),
        ensures
            final(self).wf(),
            final(self)@ == after_close(old(self)@, slot as int),
            final(self)@.watermark == old(self)@.watermark,
            forall|q: int| acknowledged(old(self)@, q) <==> acknowledged(final(self)@, q),
    {
        proof {
            lemma_close_valid(self@, slot as int);
        }
        assert(old(self)@.slots[slot as int] == slot_state(old(self).slots@[slot as int]));
        if !self.slots[slot].open {
            return;
        }
        let ghost sent = self.slots@[slot as int].sent@;
        if let Some(p) = self.slots[slot].awaited {
            self.requeued.push(p);
        }
        self.slots[slot] = Slot { open: false, awaited: None, sent: Ghost(sent) };
        proof {
            let t = after_close(old(self)@, slot as int);
            assert(self@.requeued =~= t.requeued);
            assert forall|j: int| 0 <= j < t.slots.len() implies self@.slots[j] == t.slots[j] by {
                if j != slot {
                    assert(self.slots@[j] == old(self).slots@[j]);
                }
            }
            assert(self@.slots =~= t.slots);
        }
    }
}

/// In every valid state the watermark lies strictly below every outstanding prefix.
pub proof fn lemma_watermark_below_outstanding(s: DispatchState)
    requires
        valid_state(s),
    ensures
        forall|p: int| #[trigger]
            s.outstanding.contains(p) ==> (s.watermark matches Some(w) ==> w < p),
{
    lemma_frontier_exists(s.outstanding, s.next_fresh, s.first);
}

/// A result is accepted only for an outstanding prefix that was not acknowledged before, and
/// accepting it acknowledges it; acknowledgements are never taken back (see the contracts of
/// `Coordinator`), so each prefix is accepted once.
pub proof fn lemma_single_acknowledgement(s: DispatchState, i: int, prefix: Seq<char>)
    requires
        valid_state(s),
        0 <= i < s.slots.len(),
        submit_check(s, i, prefix) is Ok,
    ensures
        s.outstanding.contains(submit_check(s, i, prefix)->Ok_0),
        !acknowledged(s, submit_check(s, i, prefix)->Ok_0),
        acknowledged(after_ack(s, i, submit_check(s, i, prefix)->Ok_0), submit_check(s, i, prefix)->Ok_0),
{
}

/// Closing a session twice leaves the same state as closing it once.
pub proof fn lemma_close_idempotent(s: DispatchState, i: int)
    requires
        0 <= i < s.slots.len(),
    ensures
        after_close(after_close(s, i), i) == after_close(s, i),
{
}

/// A result is accepted only for the prefix most recently dispatched to the same session.
pub proof fn lemma_prefix_echo(s: DispatchState, i: int, prefix: Seq<char>)
    requires
        valid_state(s),
        0 <= i < s.slots.len(),
        submit_check(s, i, prefix) is Ok,
    ensures
        s.slots[i].sent.len() > 0,
        s.slots[i].sent.last() == submit_check(s, i, prefix)->Ok_0,
        prefix == word_of(s.slots[i].sent.last(), BASE_LEN as nat),
{
}

/// The watermark never moves backward: opening, dispatching and closing leave it where it is,
/// and an accepted acknowledgement moves it forward or not at all.
pub proof fn lemma_watermark_monotone(s: DispatchState, i: int)
    requires
        valid_state(s),
        0 <= i < s.slots.len(),
    ensures
        after_open(s).watermark == s.watermark,
        after_close(s, i).watermark == s.watermark,
        s.slots[i].open ==> after_dispatch(s, i).watermark == s.watermark,
        s.slots[i].awaited matches Some(p) ==> watermark_le(
            s.watermark,
            after_ack(s, i, p).watermark,
        ),
{
    lemma_close_valid(s, i);
    if s.slots[i].open {
        lemma_dispatch_valid(s, i);
    }
    if let Some(p) = s.slots[i].awaited {
        lemma_ack_valid(s, i, p);
    }
}

/// An acknowledged prefix stays acknowledged through every step, and only the acknowledgement
/// of `p` itself makes `p` acknowledged.
pub proof fn lemma_acknowledged_persist(s: DispatchState, i: int, q: int)
    requires
        valid_state(s),
        0 <= i < s.slots.len(),
    ensures
        acknowledged(s, q) <==> acknowledged(after_open(s), q),
        acknowledged(s, q) <==> acknowledged(after_close(s, i), q),
        s.slots[i].open ==> (acknowledged(s, q) <==> acknowledged(after_dispatch(s, i), q)),
        s.slots[i].awaited matches Some(p) ==> (q != p ==> (acknowledged(s, q) <==> acknowledged(
            after_ack(s, i, p),
            q,
        ))) && !acknowledged(s, p) && acknowledged(after_ack(s, i, p), p),
{
    lemma_close_valid(s, i);
    if s.slots[i].open {
        lemma_dispatch_valid(s, i);
    }
    if let Some(p) = s.slots[i].awaited {
        lemma_ack_valid(s, i, p);
    }
}

} // verus!
