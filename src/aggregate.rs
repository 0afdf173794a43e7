use vstd::prelude::*;

use ahash::AHashMap;

use crate::prefix::{
    is_base_prefix, is_word, lemma_pow64_values, lemma_rank_bounds, lemma_rank_injective, rank,
    rank_of, BASE_LEN,
};
use crate::protocol::TestingResultData;
use crate::types::Video;
use crate::worker::{batch_size, positives_of, BatchCollector};

verus! {

/// The hash map of `ahash` (`ahash::AHashMap`), held opaque; its contents are named by
/// `batch_index`.
#[verifier::external_type_specification]
#[verifier::external_body]
#[verifier::reject_recursive_types(K)]
#[verifier::reject_recursive_types(V)]
#[verifier::reject_recursive_types(S)]
pub struct ExAHashMap<K, V, S>(AHashMap<K, V, S>);

/// The default hasher of `ahash::AHashMap` (`ahash::RandomState`), held opaque.
#[verifier::external_type_specification]
#[verifier::external_body]
pub struct ExRandomState(ahash::RandomState);

/// Positions of the open batches, keyed by the value of their base prefix.
pub type BatchIndex = AHashMap<u64, usize>;

/// What a batch index holds: the key-value pairs that `ahash::AHashMap` stores.
pub uninterp spec fn batch_index(m: BatchIndex) -> Map<u64, usize>;

pub open spec fn no_batches() -> Map<u64, usize> {
    Map::empty()
}

/// Relies on `ahash::AHashMap::new`: the map starts empty.
#[verifier::external_body]
fn index_new() -> (r: BatchIndex)
    ensures
        batch_index(r) == no_batches(),
{
    AHashMap::new()
}

/// Relies on `ahash::AHashMap::get`: the value stored under the key, if any.
#[verifier::external_body]
fn index_get(m: &BatchIndex, k: u64) -> (r: Option<usize>)
    ensures
        batch_index(*m).contains_key(k) ==> r == Some(batch_index(*m)[k]),
        !batch_index(*m).contains_key(k) ==> r is None,
{
    m.get(&k).copied()
}

/// Relies on `ahash::AHashMap::insert`: the key is mapped to the value, the rest is kept.
#[verifier::external_body]
fn index_insert(m: &mut BatchIndex, k: u64, v: usize)
    ensures
        batch_index(*final(m)) == batch_index(*old(m)).insert(k, v),
{
    m.insert(k, v);
}

/// Relies on `ahash::AHashMap::remove`: the key is no longer mapped, the rest is kept.
#[verifier::external_body]
fn index_remove(m: &mut BatchIndex, k: u64)
    ensures
        batch_index(*final(m)) == batch_index(*old(m)).remove(k),
{
    m.remove(&k);
}

/// The base prefix of the batch a probed identifier belongs to.
pub open spec fn batch_key(v: Video) -> Seq<char> {
    v.id@.subrange(0, BASE_LEN as int)
}

/// The outcomes of `v`'s batch once `v` is added to them.
pub open spec fn extended(open: Map<Seq<char>, Seq<Video>>, v: Video) -> Seq<Video> {
    if open.contains_key(batch_key(v)) {
        open[batch_key(v)].push(v)
    } else {
        seq![v]
    }
}

/// Collects probe outcomes that arrive from several batches at once, and hands out each batch's
/// result when its last outcome comes in.
pub struct ResultsAggregator {
    index: BatchIndex,
    batches: Vec<BatchCollector>,
}

impl ResultsAggregator {
    /// The outcomes recorded so far for each batch that is not complete yet.
    pub closed spec fn open_batches(&self) -> Map<Seq<char>, Seq<Video>> {
        Map::new(
            |p: Seq<char>| exists|i: int| 0 <= i < self.batches@.len() && self.batches@[i].prefix() == p,
            |p: Seq<char>|
                self.batches@[choose|i: int|
                    0 <= i < self.batches@.len() && self.batches@[i].prefix() == p].recorded(),
        )
    }

    /// The collector at position `i` is a well-formed, incomplete batch of a base prefix, and the
    /// index maps that prefix's value to `i`.
    closed spec fn batch_ok(&self, i: int) -> bool {
        &&& self.batches@[i].wf()
        &&& is_base_prefix(self.batches@[i].prefix())
        &&& self.batches@[i].expected() == batch_size(BASE_LEN as nat)
        &&& self.batches@[i].recorded().len() < self.batches@[i].expected()
        &&& batch_index(self.index).contains_key(rank(self.batches@[i].prefix()) as u64)
        &&& batch_index(self.index)[rank(self.batches@[i].prefix()) as u64] == i
    }

    pub closed spec fn wf(&self) -> bool {
        &&& forall|k: u64| #[trigger]
            batch_index(self.index).contains_key(k) ==> {
                &&& batch_index(self.index)[k] < self.batches@.len()
                &&& rank(self.batches@[batch_index(self.index)[k] as int].prefix()) == k
            }
        &&& forall|i: int|
            #![trigger self.batches@[i]]
            0 <= i < self.batches@.len() ==> self.batch_ok(i)
    }

    /// An aggregator with no open batch.
    pub fn new() -> (r: ResultsAggregator)
        ensures
            r.wf(),
            r.open_batches() == Map::<Seq<char>, Seq<Video>>::empty(),
    {
        let r = ResultsAggregator { index: index_new(), batches: Vec::new() };
        assert(r.open_batches() =~= Map::<Seq<char>, Seq<Video>>::empty());
        r
    }
    /// Distinct open batches have distinct prefixes.
    proof fn lemma_unique(&self, i: int, j: int)
        requires
            self.wf(),
            0 <= i < self.batches@.len(),
            0 <= j < self.batches@.len(),
            self.batches@[i].prefix() == self.batches@[j].prefix(),
        ensures
            i == j,
    {
    }

    /// The open batches are exactly the prefixes of the collectors, each with its outcomes.
    proof fn lemma_open_batches(&self, p: Seq<char>)
        requires
            self.wf(),
        ensures
            self.open_batches().contains_key(p) <==> exists|i: int|
                0 <= i < self.batches@.len() && self.batches@[i].prefix() == p,
            forall|i: int|
                0 <= i < self.batches@.len() && #[trigger] self.batches@[i].prefix() == p
                    ==> self.open_batches()[p] == self.batches@[i].recorded(),
    {
        assert forall|i: int|
            0 <= i < self.batches@.len() && #[trigger] self.batches@[i].prefix() == p implies self.open_batches()[p]
            == self.batches@[i].recorded() by {
            let j = choose|j: int| 0 <= j < self.batches@.len() && self.batches@[j].prefix() == p;
            self.lemma_unique(i, j);
        }
    }

    /// Records the outcome of one probe. When it completes its batch, the batch's result is
    /// returned and the batch is closed.
    pub fn record(&mut self, video: Video) -> (r: Option<TestingResultData>)
        requires
            old(self).wf(),
            is_word(video.id@),
            BASE_LEN <= video.id@.len(),
        ensures
            final(self).wf(),
            extended(old(self).open_batches(), video).len() == batch_size(BASE_LEN as nat) ==> {
                &&& r matches Some(d)
                &&& d.id@ == batch_key(video)
                &&& d.positives@ == positives_of(extended(old(self).open_batches(), video))
                &&& final(self).open_batches() == old(self).open_batches().remove(batch_key(video))
            },
            extended(old(self).open_batches(), video).len() < batch_size(BASE_LEN as nat) ==> {
                &&& r is None
                &&& final(self).open_batches() == old(self).open_batches().insert(
                    batch_key(video),
                    extended(old(self).open_batches(), video),
                )
            },
    {
        let ghost b = batch_key(video);
        let ghost old_open = old(self).open_batches();
        let mut base = video.id.clone();
        base.truncate(BASE_LEN);
        assert(base@ == b);
        proof {
            assert(is_base_prefix(b)) by {
                assert forall|k: int| 0 <= k < b.len() implies crate::alphabet::is_symbol(#[trigger] b[k]) by {
                    assert(b[k] == video.id@[k]);
                }
            }
            lemma_rank_bounds(b);
            lemma_pow64_values();
            old(self).lemma_open_batches(b);
        }
        let key = rank_of(&base);
        let i: usize = match index_get(&self.index, key) {
            Some(i) => {
                proof {
                    lemma_rank_injective(self.batches@[i as int].prefix(), b);
                }
                i
            },
            None => {
                proof {
                    assert forall|j: int| 0 <= j < self.batches@.len() implies self.batches@[j].prefix() != b by {
                        if self.batches@[j].prefix() == b {
                            assert(batch_index(self.index).contains_key(rank(b) as u64));
                        }
                    }
                }
                let n = self.batches.len();
                self.batches.push(BatchCollector::new(base));
                index_insert(&mut self.index, key, n);
                proof {
                    assert forall|k: u64| #[trigger] batch_index(self.index).contains_key(k) implies {
                        &&& batch_index(self.index)[k] < self.batches@.len()
                        &&& rank(self.batches@[batch_index(self.index)[k] as int].prefix()) == k
                    } by {
                        if k != key {
                            assert(batch_index(old(self).index).contains_key(k));
                        }
                    }
                    assert forall|j: int| 0 <= j < self.batches@.len() implies self.batch_ok(j) by {
                        if j < n {
                            assert(self.batches@[j] == old(self).batches@[j]);
                            let pj = self.batches@[j].prefix();
                            lemma_rank_bounds(pj);
                            if rank(pj) as u64 == key {
                                lemma_rank_injective(pj, b);
                            }
                        } else {
                            lemma_pow64_values();
                        }
                    }
                    self.lemma_open_batches(b);
                    assert(self.batches@[n as int].prefix() == b);
                    assert(self.batches@[n as int].recorded() == Seq::<Video>::empty());
                    assert(self.open_batches() =~= old_open.insert(b, Seq::empty())) by {
                        assert forall|p: Seq<char>| #[trigger] self.open_batches().contains_key(p) <==> old_open.insert(b, Seq::empty()).contains_key(p) by {
                            old(self).lemma_open_batches(p);
                            self.lemma_open_batches(p);
                            if old_open.contains_key(p) {
                                let j = choose|j: int| 0 <= j < old(self).batches@.len() && old(self).batches@[j].prefix() == p;
                                assert(self.batches@[j] == old(self).batches@[j]);
                            }
                            if self.open_batches().contains_key(p) && p != b {
                                let j = choose|j: int| 0 <= j < self.batches@.len() && self.batches@[j].prefix() == p;
                                assert(j < n);
                                assert(self.batches@[j] == old(self).batches@[j]);
                            }
                        }
                        assert forall|p: Seq<char>| #[trigger] self.open_batches().contains_key(p) implies self.open_batches()[p] == old_open.insert(b, Seq::empty())[p] by {
                            old(self).lemma_open_batches(p);
                            self.lemma_open_batches(p);
                            let j = choose|j: int| 0 <= j < self.batches@.len() && self.batches@[j].prefix() == p;
                            if j < n {
                                assert(self.batches@[j] == old(self).batches@[j]);
                            }
                        }
                    }
                }
                n
            },
        };
        let ghost mid = *self;
        let ghost mid_open = self.open_batches();
        proof {
            self.lemma_open_batches(b);
            assert(self.batches@[i as int].prefix() == b);
            assert(mid_open.contains_key(b));
            assert(extended(old_open, video) == mid_open[b].push(video));
        }
        assert(mid.wf());
        self.batches[i].record(video);
        let ghost after = self.batches@;
        proof {
            assert(after[i as int].prefix() == b);
            assert(after[i as int].recorded() == extended(old_open, video));
            assert forall|j: int| 0 <= j < after.len() && j != i implies after[j] == mid.batches@[j] by {}
        }
        if self.batches[i].is_complete() {
            let done = self.batches.swap_remove(i);
            index_remove(&mut self.index, key);
            let ghost last = (after.len() - 1) as int;
            if i < self.batches.len() {
                let moved = rank_of(self.batches[i].prefix_word());
                proof {
                    let pm = after[last].prefix();
                    lemma_rank_bounds(pm);
                    assert(batch_index(mid.index)[moved] == last);
                }
                index_insert(&mut self.index, moved, i);
            }
            proof {
                let fin = self.batches@;
                assert forall|j: int| 0 <= j < fin.len() implies fin[j] == (if j == i {
                    after[last]
                } else {
                    after[j]
                }) by {}
                assert forall|k: u64| #[trigger] batch_index(self.index).contains_key(k) implies {
                    &&& batch_index(self.index)[k] < self.batches@.len()
                    &&& rank(self.batches@[batch_index(self.index)[k] as int].prefix()) == k
                } by {
                    if i < fin.len() && k == rank(after[last].prefix()) as u64 {
                        lemma_rank_bounds(after[last].prefix());
                    } else {
                        assert(batch_index(mid.index).contains_key(k));
                        let j = batch_index(mid.index)[k] as int;
                        assert(k != key);
                        assert(j != i as int);
                        if j == last {
                            lemma_rank_bounds(after[last].prefix());
                        }
                    }
                }
                assert forall|j: int| 0 <= j < self.batches@.len() implies self.batch_ok(j) by {
                    let src = if j == i { last } else { j };
                    assert(self.batches@[j] == mid.batches@[src]);
                    let kj = rank(mid.batches@[src].prefix()) as u64;
                    assert(batch_index(mid.index)[kj] == src);
                    lemma_rank_bounds(mid.batches@[src].prefix());
                    lemma_rank_bounds(b);
                    if kj == key {
                        assert(src == i as int);
                    }
                    if j != i {
                        lemma_rank_bounds(after[last].prefix());
                    }
                }
                assert forall|p: Seq<char>| #[trigger] self.open_batches().contains_key(p) <==> old_open.remove(b).contains_key(p) by {
                    old(self).lemma_open_batches(p);
                    mid.lemma_open_batches(p);
                    self.lemma_open_batches(p);
                    if old_open.contains_key(p) && p != b {
                        let j = choose|j: int| 0 <= j < mid.batches@.len() && mid.batches@[j].prefix() == p;
                        assert(j != i);
                        if j == last {
                            assert(self.batches@[i as int].prefix() == p);
                        } else {
                            assert(self.batches@[j].prefix() == p);
                        }
                    }
                    if self.open_batches().contains_key(p) {
                        let j = choose|j: int| 0 <= j < self.batches@.len() && self.batches@[j].prefix() == p;
                        let src = if j == i { last } else { j };
                        assert(mid.batches@[src].prefix() == p);
                        assert(src != i);
                    }
                }
                assert forall|p: Seq<char>| #[trigger] self.open_batches().contains_key(p) implies self.open_batches()[p] == old_open.remove(b)[p] by {
                    old(self).lemma_open_batches(p);
                    mid.lemma_open_batches(p);
                    self.lemma_open_batches(p);
                    let j = choose|j: int| 0 <= j < self.batches@.len() && self.batches@[j].prefix() == p;
                    let src = if j == i { last } else { j };
                    assert(mid.batches@[src].prefix() == p);
                    assert(src != i);
                }
                assert(self.open_batches() =~= old_open.remove(b));
            }
            Some(done.finish())
        } else {
            proof {
                assert forall|j: int| 0 <= j < self.batches@.len() implies self.batch_ok(j) by {}
                let target = old_open.insert(b, extended(old_open, video));
                assert forall|p: Seq<char>| #[trigger] self.open_batches().contains_key(p) <==> target.contains_key(p) by {
                    old(self).lemma_open_batches(p);
                    mid.lemma_open_batches(p);
                    self.lemma_open_batches(p);
                    if self.open_batches().contains_key(p) {
                        let j = choose|j: int| 0 <= j < self.batches@.len() && self.batches@[j].prefix() == p;
                        assert(mid.batches@[j].prefix() == p);
                    }
                    if mid_open.contains_key(p) {
                        let j = choose|j: int| 0 <= j < mid.batches@.len() && mid.batches@[j].prefix() == p;
                        assert(self.batches@[j].prefix() == p);
                    }
                }
                assert forall|p: Seq<char>| #[trigger] self.open_batches().contains_key(p) implies self.open_batches()[p] == target[p] by {
                    old(self).lemma_open_batches(p);
                    mid.lemma_open_batches(p);
                    self.lemma_open_batches(p);
                    let j = choose|j: int| 0 <= j < self.batches@.len() && self.batches@[j].prefix() == p;
                    assert(mid.batches@[j].prefix() == p);
                }
                assert(self.open_batches() =~= target);
            }
            None
        }
    }
}

} // verus!
