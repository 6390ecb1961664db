//! Cache-first processing of a batch of day-chunks. The decisions live here,
//! as a machine that says which chunk needs the analysis service next and
//! takes its reply; the caller performs the service calls.

use vstd::prelude::*;
use crate::keys::sanitized;
use crate::cache::{ChunkCache, stored};
use crate::json::{completion_of, completion_text};
use crate::normalize::{normalized, normalize};

verus! {

/// One utterance of a conversation.
pub struct ChatMessage {
    pub date: String,
    pub time: String,
    pub author: String,
    pub text: String,
}

/// The messages of one day: the unit of analysis.
pub struct DayChunk {
    pub date: String,
    pub messages: Vec<ChatMessage>,
}

/// A contiguous slice of a conversation's chunks; `chunks[i]` has global
/// index `start + i`.
pub struct ChatBatch {
    pub name: String,
    pub start: usize,
    pub chunks: Vec<DayChunk>,
}

/// Why processing stopped.
#[derive(Debug)]
pub enum PipelineError {
    /// A required setting (the service credential) is missing.
    Configuration(String),
    /// A cache record could not be read or written.
    Storage(String),
    /// The service failed or its response lacked a completion.
    ExternalService(String),
}

/// What the caller has to do next for a batch.
#[derive(Debug)]
pub enum Step {
    /// Send the chunk at this position of the batch to the analysis service
    /// and hand the reply to `BatchRun::complete`.
    Analyze(usize),
    /// Every chunk has its result.
    Finished,
}

/// The state of a batch in progress, as the proofs see it.
pub struct RunView {
    pub name: Seq<char>,
    pub start: nat,
    pub total: nat,
    pub pos: nat,
    pub results: Seq<serde_json::Value>,
    pub failed: bool,
}

/// A batch in progress: results for positions before `pos` are known.
pub struct BatchRun {
    name: String,
    start: usize,
    total: usize,
    pos: usize,
    results: Vec<serde_json::Value>,
    failed: bool,
}

/// The run's results agree with the cache: result `j` is the record at
/// global index `start + j` of the run's conversation.
pub open spec fn consistent(run: RunView, cache: ChunkCache) -> bool {
    &&& run.pos <= run.total
    &&& run.start + run.total <= usize::MAX
    &&& run.results.len() == run.pos
    &&& forall|j: int|
        0 <= j < run.pos ==> #[trigger] cache.entry(sanitized(run.name), (run.start + j) as nat)
            == Some(run.results[j])
}

/// `now` differs from `origin` at most in the records of the run's
/// conversation at the global indices of the positions the run has passed.
pub open spec fn within_run(run: RunView, origin: ChunkCache, now: ChunkCache) -> bool {
    forall|q: Seq<char>, h: nat|
        !(q == sanitized(run.name) && run.start <= h < run.start + run.pos) ==> #[trigger] now.entry(
            q,
            h,
        ) == origin.entry(q, h)
}

/// When a run stops, part-way or at its end, the chunks before its position
/// have records, and the cache is as it was before the run everywhere else:
/// in particular the failing chunk and those after it have no records unless
/// they had them before.
pub proof fn lemma_run_commits_only_its_prefix(run: RunView, origin: ChunkCache, now: ChunkCache)
    requires
        consistent(run, now),
        within_run(run, origin, now),
    ensures
        forall|j: int| 0 <= j < run.pos ==> #[trigger] now.entry(sanitized(run.name), (run.start + j) as nat) is Some,
        forall|j: int|
            run.pos <= j < run.total ==> #[trigger] now.entry(sanitized(run.name), (run.start + j) as nat)
                == origin.entry(sanitized(run.name), (run.start + j) as nat),
        forall|q: Seq<char>, h: nat| q != sanitized(run.name) ==> #[trigger] now.entry(q, h) == origin.entry(q, h),
{
    assert forall|j: int| run.pos <= j < run.total implies #[trigger] now.entry(sanitized(run.name), (run.start + j) as nat)
        == origin.entry(sanitized(run.name), (run.start + j) as nat) by {
        assert(!(run.start <= (run.start + j) as nat && ((run.start + j) as nat) < run.start + run.pos));
    }
}

/// The first position at or after `from`, below `total`, whose chunk has no
/// record in the cache; `total` when there is none.
pub open spec fn first_miss(cache: ChunkCache, p: Seq<char>, start: nat, total: nat, from: nat) -> nat
    decreases total - from,
{
    if from < total && cache.entry(p, start + from) is Some {
        first_miss(cache, p, start, total, from + 1)
    } else {
        from
    }
}

proof fn lemma_first_miss_bounds(cache: ChunkCache, p: Seq<char>, start: nat, total: nat, from: nat)
    requires
        from <= total,
    ensures
        from <= first_miss(cache, p, start, total, from) <= total,
        forall|j: nat|
            from <= j < first_miss(cache, p, start, total, from) ==> #[trigger] cache.entry(
                p,
                start + j,
            ) is Some,
        first_miss(cache, p, start, total, from) < total ==> cache.entry(
            p,
            start + first_miss(cache, p, start, total, from),
        ) is None,
    decreases total - from,
{
    if from < total && cache.entry(p, start + from) is Some {
        lemma_first_miss_bounds(cache, p, start, total, from + 1);
    }
}

/// A batch whose every chunk is already cached needs no call of the
/// analysis service: the first miss lies at its end.
pub proof fn lemma_cached_batch_needs_no_service(
    cache: ChunkCache,
    p: Seq<char>,
    start: nat,
    total: nat,
    from: nat,
)
    requires
        from <= total,
        forall|j: nat| from <= j < total ==> #[trigger] cache.entry(p, start + j) is Some,
    ensures
        first_miss(cache, p, start, total, from) == total,
    decreases total - from,
{
    if from < total {
        lemma_cached_batch_needs_no_service(cache, p, start, total, from + 1);
    }
}

/// A finished run holds one result per chunk, in chunk order: result `j` is
/// the record of the chunk at position `j`.
pub proof fn lemma_finished_run_in_order(run: RunView, cache: ChunkCache)
    requires
        consistent(run, cache),
        run.pos == run.total,
    ensures
        run.results.len() == run.total,
        forall|j: int|
            0 <= j < run.total ==> #[trigger] cache.entry(sanitized(run.name), (run.start + j) as nat)
                == Some(run.results[j]),
{
}

/// Resubmitting a batch that has finished against the same cache asks the
/// service for nothing, and a finished resubmission has the same results.
pub proof fn lemma_resubmission_is_free(first: RunView, again: RunView, cache: ChunkCache)
    requires
        consistent(first, cache),
        first.pos == first.total,
        consistent(again, cache),
        again.pos == again.total,
        again.name == first.name,
        again.start == first.start,
        again.total == first.total,
    ensures
        first_miss(cache, sanitized(first.name), first.start, first.total, 0) == first.total,
        again.results == first.results,
{
    assert forall|j: nat| 0 <= j < first.total implies #[trigger] cache.entry(
        sanitized(first.name),
        first.start + j,
    ) is Some by {
        assert(cache.entry(sanitized(first.name), (first.start + j as int) as nat) == Some(
            first.results[j as int],
        ));
    }
    lemma_cached_batch_needs_no_service(cache, sanitized(first.name), first.start, first.total, 0);
    assert forall|j: int| 0 <= j < first.total implies again.results[j] == first.results[j] by {
        assert(cache.entry(sanitized(first.name), (first.start + j) as nat) == Some(first.results[j]));
        assert(cache.entry(sanitized(again.name), (again.start + j) as nat) == Some(again.results[j]));
    }
    assert(again.results =~= first.results);
}

impl View for BatchRun {
    type V = RunView;

    closed spec fn view(&self) -> RunView {
        RunView {
            name: self.name@,
            start: self.start as nat,
            total: self.total as nat,
            pos: self.pos as nat,
            results: self.results@,
            failed: self.failed,
        }
    }
}

impl BatchRun {
    /// Starts processing `batch` from its first chunk.
    pub fn new(batch: &ChatBatch) -> (r: BatchRun)
        requires
            batch.start + batch.chunks@.len() <= usize::MAX,
        ensures
            r@ == (RunView {
                name: batch.name@,
                start: batch.start as nat,
                total: batch.chunks@.len(),
                pos: 0,
                results: Seq::empty(),
                failed: false,
            }),
            forall|c: ChunkCache| #[trigger] within_run(r@, c, c),
    {
        BatchRun {
            name: batch.name.clone(),
            start: batch.start,
            total: batch.chunks.len(),
            pos: 0,
            results: Vec::new(),
            failed: false,
        }
    }

    /// Takes the cached results of the chunks from the current position on,
    /// up to the first chunk without a record, which it asks to be analyzed.
    /// It makes no request for a chunk that has a record.
    pub fn advance(&mut self, cache: &ChunkCache) -> (s: Step)
        requires
            cache.wf(),
            consistent(old(self)@, *cache),
        ensures
            final(self)@.pos == first_miss(
                *cache,
                sanitized(old(self)@.name),
                old(self)@.start,
                old(self)@.total,
                old(self)@.pos,
            ),
            final(self)@.name == old(self)@.name,
            final(self)@.start == old(self)@.start,
            final(self)@.total == old(self)@.total,
            final(self)@.failed == old(self)@.failed,
            final(self)@.results.take(old(self)@.pos as int) == old(self)@.results,
            consistent(final(self)@, *cache),
            s == (if final(self)@.pos < final(self)@.total {
                Step::Analyze(final(self)@.pos as usize)
            } else {
                Step::Finished
            }),
            final(self)@.pos < final(self)@.total ==> cache.entry(
                sanitized(old(self)@.name),
                old(self)@.start + final(self)@.pos,
            ) is None,
            forall|origin: ChunkCache| #[trigger]
                within_run(old(self)@, origin, *cache) ==> within_run(final(self)@, origin, *cache),
    {
        let ghost p = sanitized(self.name@);
        proof {
            lemma_first_miss_bounds(*cache, p, self.start as nat, self.total as nat, self.pos as nat);
        }
        let ghost first = first_miss(*cache, p, self.start as nat, self.total as nat, self.pos as nat);
        let ghost before = self.results@;
        while self.pos < self.total
            invariant
                consistent(self@, *cache),
                cache.wf(),
                p == sanitized(self.name@),
                self.pos <= first <= self.total,
                first == first_miss(*cache, p, self.start as nat, self.total as nat, self.pos as nat),
                forall|j: nat|
                    self.pos <= j < first ==> #[trigger] cache.entry(p, self.start as nat + j) is Some,
                first < self.total ==> cache.entry(p, self.start as nat + first) is None,
                self.results@.take(old(self)@.pos as int) == before,
                before == old(self)@.results,
                first == first_miss(
                    *cache,
                    sanitized(old(self)@.name),
                    old(self)@.start,
                    old(self)@.total,
                    old(self)@.pos,
                ),
                old(self)@.pos <= self.pos,
                self.name == old(self).name,
                self.start == old(self).start,
                self.total == old(self).total,
                self.failed == old(self).failed,
            decreases self.total - self.pos,
        {
            match cache.lookup(self.name.as_str(), self.start + self.pos) {
                None => {
                    return Step::Analyze(self.pos);
                },
                Some(v) => {
                    let ghost prev = self.results@;
                    self.results.push(v);
                    assert(self.results@.take(old(self)@.pos as int) =~= prev.take(
                        old(self)@.pos as int,
                    ));
                    self.pos = self.pos + 1;
                },
            }
        }
        Step::Finished
    }

    /// Takes the service's reply for the chunk at the current position. On a
    /// response with a completion, the normalized completion is stored in the
    /// cache and becomes that chunk's result. A failed call, or a response
    /// without a completion, fails the run and leaves the cache as it was.
    pub fn complete(
        &mut self,
        cache: &mut ChunkCache,
        reply: Result<serde_json::Value, PipelineError>,
    ) -> (r: Result<(), PipelineError>)
        requires
            old(cache).wf(),
            consistent(old(self)@, *old(cache)),
            old(self)@.pos < old(self)@.total,
        ensures
            final(cache).wf(),
            consistent(final(self)@, *final(cache)),
            final(self)@.name == old(self)@.name,
            final(self)@.start == old(self)@.start,
            final(self)@.total == old(self)@.total,
            forall|origin: ChunkCache| #[trigger]
                within_run(old(self)@, origin, *old(cache)) ==> within_run(
                    final(self)@,
                    origin,
                    *final(cache),
                ),
            match reply {
                Ok(response) => match completion_of(response) {
                    Some(text) => {
                        &&& r is Ok
                        &&& stored(
                            *old(cache),
                            *final(cache),
                            sanitized(old(self)@.name),
                            old(self)@.start + old(self)@.pos,
                            normalized(text),
                        )
                        &&& final(self)@.pos == old(self)@.pos + 1
                        &&& final(self)@.results == old(self)@.results.push(normalized(text))
                        &&& final(self)@.failed == old(self)@.failed
                    },
                    None => {
                        &&& r matches Err(PipelineError::ExternalService(_))
                        &&& *final(cache) == *old(cache)
                        &&& final(self)@.pos == old(self)@.pos
                        &&& final(self)@.results == old(self)@.results
                        &&& final(self)@.failed
                    },
                },
                Err(e) => {
                    &&& r == Err::<(), PipelineError>(e)
                    &&& *final(cache) == *old(cache)
                    &&& final(self)@.pos == old(self)@.pos
                    &&& final(self)@.results == old(self)@.results
                    &&& final(self)@.failed
                },
            },
    {
        let response = match reply {
            Ok(v) => v,
            Err(e) => {
                self.failed = true;
                return Err(e);
            },
        };
        let text = match completion_text(&response) {
            Some(t) => t,
            None => {
                self.failed = true;
                return Err(PipelineError::ExternalService(String::from_str("missing content in response")));
            },
        };
        let value = normalize(text.as_str());
        let g = self.start + self.pos;
        cache.store(self.name.as_str(), g, value.clone());
        self.results.push(value);
        self.pos = self.pos + 1;
        proof {
            let p = sanitized(self.name@);
            assert forall|j: int| 0 <= j < self@.pos implies #[trigger] cache.entry(
                p,
                (self@.start + j) as nat,
            ) == Some(self@.results[j]) by {
                if j < old(self)@.pos {
                    assert(old(cache).entry(p, (self@.start + j) as nat) == Some(
                        old(self)@.results[j],
                    ));
                }
            }
        }
        Ok(())
    }

    /// Whether a reply has failed the run.
    pub fn has_failed(&self) -> (r: bool)
        ensures
            r == self@.failed,
    {
        self.failed
    }

    /// The results gathered so far, in chunk order.
    pub fn results(&self) -> (r: Vec<serde_json::Value>)
        ensures
            r@ == self@.results,
    {
        let mut out: Vec<serde_json::Value> = Vec::new();
        let mut i: usize = 0;
        while i < self.results.len()
            invariant
                i <= self.results@.len(),
                out@ == self.results@.take(i as int),
            decreases self.results.len() - i,
        {
            out.push(self.results[i].clone());
            assert(out@ =~= self.results@.take(i + 1));
            i = i + 1;
        }
        assert(out@ =~= self.results@);
        out
    }
}

} // verus!
