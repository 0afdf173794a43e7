use vstd::prelude::*;

use crate::prefix::{
    is_word, lemma_pow64_values, lemma_rank_word_of, pow64, pow64_exec, word_at, word_of,
    BASE_LEN, ID_LEN,
};
use crate::protocol::{Data, ErrorCode, OperationCode, Payload, TestingResultData};
use crate::types::{Video, VideoEvent};

verus! {

/// Classification of one probe response.
#[derive(PartialEq, Eq, Structural, Clone, Copy, Debug)]
pub enum ProbeOutcome {
    Success,
    NotEmbeddable,
    NotFound,
    /// Rate limited, an unexpected status or a connection error: the probe is retried.
    Transient,
}

/// The classification of an HTTP status from the probe endpoint.
pub open spec fn outcome_of(status: u16) -> ProbeOutcome {
    if status == 200 {
        ProbeOutcome::Success
    } else if status == 401 {
        ProbeOutcome::NotEmbeddable
    } else if status == 400 || status == 404 {
        ProbeOutcome::NotFound
    } else {
        ProbeOutcome::Transient
    }
}

/// Classifies an HTTP status from the probe endpoint.
pub fn classify_status(status: u16) -> (r: ProbeOutcome)
    ensures
        r == outcome_of(status),
{
    if status == 200 {
        ProbeOutcome::Success
    } else if status == 401 {
        ProbeOutcome::NotEmbeddable
    } else if status == 400 || status == 404 {
        ProbeOutcome::NotFound
    } else {
        ProbeOutcome::Transient
    }
}

/// Back-off after a rate-limit response, in milliseconds.
pub const RATE_LIMIT_BACKOFF_MS: u64 = 1000;

/// Back-off after any other transient failure, in milliseconds.
pub const TRANSIENT_BACKOFF_MS: u64 = 100;

/// What a probe does after one attempt.
#[derive(PartialEq, Eq, Structural, Clone, Copy, Debug)]
pub enum ProbeStep {
    /// A terminal classification was obtained.
    Done(VideoEvent),
    /// Wait this many milliseconds and probe again.
    Retry(u64),
}

/// The decision after one probe attempt, given the response status (`None` for a
/// connection-level error). Transient outcomes never end the probe.
pub fn probe_step(status: Option<u16>) -> (r: ProbeStep)
    ensures
        match status {
            None => r == ProbeStep::Retry(TRANSIENT_BACKOFF_MS),
            Some(s) => match outcome_of(s) {
                ProbeOutcome::Success => r == ProbeStep::Done(VideoEvent::Success),
                ProbeOutcome::NotEmbeddable => r == ProbeStep::Done(VideoEvent::NotEmbeddable),
                ProbeOutcome::NotFound => r == ProbeStep::Done(VideoEvent::NotFound),
                ProbeOutcome::Transient => r == ProbeStep::Retry(
                    if s == 429 {
                        RATE_LIMIT_BACKOFF_MS
                    } else {
                        TRANSIENT_BACKOFF_MS
                    },
                ),
            },
        },
{
    match status {
        None => ProbeStep::Retry(TRANSIENT_BACKOFF_MS),
        Some(s) => match classify_status(s) {
            ProbeOutcome::Success => ProbeStep::Done(VideoEvent::Success),
            ProbeOutcome::NotEmbeddable => ProbeStep::Done(VideoEvent::NotEmbeddable),
            ProbeOutcome::NotFound => ProbeStep::Done(VideoEvent::NotFound),
            ProbeOutcome::Transient => if s == 429 {
                ProbeStep::Retry(RATE_LIMIT_BACKOFF_MS)
            } else {
                ProbeStep::Retry(TRANSIENT_BACKOFF_MS)
            },
        },
    }
}

/// The decision once a successful probe's metadata has been read: the probe ends with
/// `Success` when the metadata decodes, and is retried as a transient failure otherwise.
pub fn metadata_step(decoded: bool) -> (r: ProbeStep)
    ensures
        decoded ==> r == ProbeStep::Done(VideoEvent::Success),
        !decoded ==> r == ProbeStep::Retry(TRANSIENT_BACKOFF_MS),
{
    if decoded {
        ProbeStep::Done(VideoEvent::Success)
    } else {
        ProbeStep::Retry(TRANSIENT_BACKOFF_MS)
    }
}

/// Success and NotEmbeddable are positives; NotFound is not.
pub open spec fn is_positive(e: VideoEvent) -> bool {
    e != VideoEvent::NotFound
}

/// The positives among `s`, in order.
pub open spec fn positives_of(s: Seq<Video>) -> Seq<Video>
    decreases s.len(),
{
    if s.len() == 0 {
        Seq::empty()
    } else if is_positive(s.last().event) {
        positives_of(s.drop_last()).push(s.last())
    } else {
        positives_of(s.drop_last())
    }
}

/// Number of full identifiers that complete a prefix of length `len`.
pub open spec fn batch_size(len: nat) -> int {
    pow64((ID_LEN - len) as nat)
}

/// Gathers the probe outcomes of one batch and keeps the positives.
pub struct BatchCollector {
    prefix: Vec<char>,
    expected: u64,
    checked: u64,
    positives: Vec<Video>,
    recorded: Ghost<Seq<Video>>,
}

impl BatchCollector {
    /// The base prefix of the batch.
    pub closed spec fn prefix(&self) -> Seq<char> {
        self.prefix@
    }

    /// The number of outcomes the batch is made of.
    pub closed spec fn expected(&self) -> int {
        self.expected as int
    }

    /// The outcomes recorded so far, in order.
    pub closed spec fn recorded(&self) -> Seq<Video> {
        self.recorded@
    }

    pub closed spec fn wf(&self) -> bool {
        &&& self.checked == self.recorded@.len()
        &&& self.checked <= self.expected
        &&& self.positives@ == positives_of(self.recorded@)
    }

    /// Starts the batch of a base prefix.
    pub fn new(prefix: Vec<char>) -> (r: BatchCollector)
        requires
            prefix@.len() == BASE_LEN,
        ensures
            r.wf(),
            r.prefix() == prefix@,
            r.expected() == batch_size(BASE_LEN as nat),
            r.recorded().len() == 0,
    {
        let expected = pow64_exec(ID_LEN - BASE_LEN);
        BatchCollector {
            prefix,
            expected,
            checked: 0,
            positives: Vec::new(),
            recorded: Ghost(Seq::empty()),
        }
    }

    /// The base prefix of the batch.
    pub fn prefix_word(&self) -> (r: &Vec<char>)
        ensures
            r@ == self.prefix(),
    {
        &self.prefix
    }

    /// Whether every outcome of the batch has been recorded.
    pub fn is_complete(&self) -> (r: bool)
        requires
            self.wf(),
        ensures
            r == (self.recorded().len() == self.expected()),
    {
        self.checked == self.expected
    }

    /// Number of positives recorded so far.
    pub fn positives_len(&self) -> (r: usize)
        requires
            self.wf(),
        ensures
            r == positives_of(self.recorded()).len(),
    {
        self.positives.len()
    }

    /// Records the outcome of one probe of the batch.
    pub fn record(&mut self, video: Video)
        requires
            old(self).wf(),
            old(self).recorded().len() < old(self).expected(),
        ensures
            final(self).wf(),
            final(self).recorded() == old(self).recorded().push(video),
            final(self).prefix() == old(self).prefix(),
            final(self).expected() == old(self).expected(),
    {
        let ghost v = video;
        self.checked = self.checked + 1;
        if video.event != VideoEvent::NotFound {
            self.positives.push(video);
        }
        self.recorded = Ghost(self.recorded@.push(v));
        assert(self.recorded@.drop_last() =~= old(self).recorded@);
    }

    /// The result message of the batch: its prefix, echoed, and its positives.
    pub fn finish(self) -> (r: TestingResultData)
        requires
            self.wf(),
        ensures
            r.id@ == self.prefix(),
            r.positives@ == positives_of(self.recorded()),
    {
        TestingResultData { id: self.prefix, positives: self.positives }
    }
}

/// The `i`-th completion of `base` to a full identifier.
pub fn completion(base: &Vec<char>, i: u64) -> (r: Vec<char>)
    requires
        base@.len() <= ID_LEN,
    ensures
        r@ == base@ + word_of(i as int, (ID_LEN - base@.len()) as nat),
{
    let mut r = base.clone();
    let mut tail = word_at(i, ID_LEN - base.len());
    r.append(&mut tail);
    r
}

/// Every full identifier that completes `base_id`, each once, in enumeration order.
pub fn generate_ids(base_id: Vec<char>) -> (r: Vec<Vec<char>>)
    requires
        is_word(base_id@),
        BASE_LEN <= base_id@.len() < ID_LEN,
    ensures
        r@.len() == batch_size(base_id@.len()),
        forall|i: int|
            0 <= i < r@.len() ==> #[trigger] r@[i]@ == base_id@ + word_of(
                i,
                (ID_LEN - base_id@.len()) as nat,
            ),
{
    proof {
        lemma_pow64_values();
        crate::prefix::lemma_pow64_mono((ID_LEN - base_id@.len()) as nat, 3);
    }
    let count = pow64_exec(ID_LEN - base_id.len());
    let mut r: Vec<Vec<char>> = Vec::new();
    let mut i: u64 = 0;
    while i < count
        invariant
            i <= count,
            count == batch_size(base_id@.len()),
            base_id@.len() < ID_LEN,
            r@.len() == i,
            forall|j: int|
                0 <= j < i ==> #[trigger] r@[j]@ == base_id@ + word_of(
                    j,
                    (ID_LEN - base_id@.len()) as nat,
                ),
        decreases count - i,
    {
        r.push(completion(&base_id, i));
        i = i + 1;
    }
    r
}

/// What the worker does with a message from the coordinator.
#[derive(Debug)]
pub enum WorkerAction {
    /// Test this base prefix.
    StartBatch(Vec<char>),
    /// The coordinator ended the session; `exit` when the client must stop altogether.
    SessionEnded { code: ErrorCode, exit: bool },
    /// The payload's data does not fit its operation code: close the connection.
    Malformed,
    /// A message the coordinator never sends: reply `UnexpectedOP` and close.
    Unexpected,
}

/// Decides what the worker does with a decoded message from the coordinator.
pub fn worker_action(payload: Payload) -> (r: WorkerAction)
    ensures
        match (payload.op_code, payload.data) {
            (OperationCode::TestRequestData, Data::TestRequestData(d)) => r matches WorkerAction::StartBatch(
                p,
            ) && p@ == d.id@,
            (OperationCode::InvalidSession, Data::InvalidSession(d)) => r == (WorkerAction::SessionEnded {
                code: d.code,
                exit: d.code == ErrorCode::UnsupportedClientVersion,
            }),
            (OperationCode::Identify, _) | (OperationCode::TestingResult, _) => r is Unexpected,
            _ => r is Malformed,
        },
{
    match (payload.op_code, payload.data) {
        (OperationCode::TestRequestData, Data::TestRequestData(d)) => WorkerAction::StartBatch(d.id),
        (OperationCode::InvalidSession, Data::InvalidSession(d)) => WorkerAction::SessionEnded {
            code: d.code,
            exit: d.code == ErrorCode::UnsupportedClientVersion,
        },
        (OperationCode::Identify, _) | (OperationCode::TestingResult, _) => WorkerAction::Unexpected,
        _ => WorkerAction::Malformed,
    }
}

/// The completions of a prefix are all distinct, and every full identifier that extends the
/// prefix is one of them.
pub proof fn lemma_completions_exact(base: Seq<char>, x: Seq<char>, i: int, j: int)
    requires
        is_word(base),
        base.len() <= ID_LEN,
        0 <= i < batch_size(base.len()),
        0 <= j < batch_size(base.len()),
    ensures
        i != j ==> base + word_of(i, (ID_LEN - base.len()) as nat) != base + word_of(
            j,
            (ID_LEN - base.len()) as nat,
        ),
        is_word(x) && x.len() == ID_LEN && crate::enumerator::extends(x, base) ==> exists|k: int|
            0 <= k < batch_size(base.len()) && x == base + #[trigger] word_of(k, (ID_LEN - base.len()) as nat),
{
    let m = (ID_LEN - base.len()) as nat;
    lemma_rank_word_of(i, m);
    lemma_rank_word_of(j, m);
    if i != j {
        let a = base + word_of(i, m);
        let b = base + word_of(j, m);
        assert(a.subrange(base.len() as int, ID_LEN as int) =~= word_of(i, m));
        assert(b.subrange(base.len() as int, ID_LEN as int) =~= word_of(j, m));
    }
    if is_word(x) && x.len() == ID_LEN && crate::enumerator::extends(x, base) {
        let tail = x.subrange(base.len() as int, ID_LEN as int);
        assert(crate::prefix::is_word(tail)) by {
            assert forall|k: int| 0 <= k < tail.len() implies crate::alphabet::is_symbol(
                #[trigger] tail[k],
            ) by {
                assert(tail[k] == x[base.len() + k]);
            }
        }
        crate::prefix::lemma_rank_bounds(tail);
        crate::prefix::lemma_word_of_rank(tail);
        let k = crate::prefix::rank(tail);
        assert(x =~= base + word_of(k, m));
    }
}

} // verus!
