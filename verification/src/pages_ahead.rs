//! Ordered look-ahead pagination: a bounded sliding window of
//! speculative fetches, derived purely from the request chain, whose
//! results are handed out strictly in request order. The stream stops
//! for good once a response declares the end of the data, and the first
//! fetch error is terminal.

use vstd::prelude::*;

use crate::itertools::{sat_add, Chunks, ChunksExt, RequestIter};
use crate::model::result_matches_model;
use crate::{Limit, PageTurner, RequestAhead, TurnedPageResult};

verus! {

/// Counters tracing the scheduling activity of a look-ahead stream: how
/// many fetches have been started, and how many pages have been resolved
/// from them. The window invariant — never more outstanding fetches than
/// the configured window — is stated over these counts.
pub struct FuturesTracer {
    scheduled_requests_count: usize,
    succeeded_requests_count: usize,
}

impl FuturesTracer {
    /// How many fetches have been started.
    pub closed spec fn scheduled(&self) -> nat {
        self.scheduled_requests_count as nat
    }

    /// How many pages have been resolved.
    pub closed spec fn succeeded(&self) -> nat {
        self.succeeded_requests_count as nat
    }

    pub fn new() -> (t: Self)
        ensures
            t.scheduled() == 0,
            t.succeeded() == 0,
    {
        Self { scheduled_requests_count: 0, succeeded_requests_count: 0 }
    }

    /// Record that a whole batch of `chunk_size` fetches was started.
    pub fn schedule_chunk(&mut self, chunk_size: usize)
        ensures
            final(self).scheduled() == sat_add(old(self).scheduled(), chunk_size as nat),
            final(self).succeeded() == old(self).succeeded(),
    {
        if self.scheduled_requests_count <= usize::MAX - chunk_size {
            self.scheduled_requests_count = self.scheduled_requests_count + chunk_size;
        } else {
            self.scheduled_requests_count = usize::MAX;
        }
    }

    /// Record one sliding-window refill fetch.
    pub fn schedule_single(&mut self)
        ensures
            final(self).scheduled() == sat_add(old(self).scheduled(), 1),
            final(self).succeeded() == old(self).succeeded(),
    {
        if self.scheduled_requests_count < usize::MAX {
            self.scheduled_requests_count = self.scheduled_requests_count + 1;
        }
    }

    /// Record that the oldest outstanding fetch resolved to a page.
    pub fn complete_single(&mut self)
        ensures
            final(self).succeeded() == sat_add(old(self).succeeded(), 1),
            final(self).scheduled() == old(self).scheduled(),
    {
        if self.succeeded_requests_count < usize::MAX {
            self.succeeded_requests_count = self.succeeded_requests_count + 1;
        }
    }

    /// Marks the point where the stream observed its end; keeps no count.
    pub fn last_succeeded(&self) {
    }
}

/// The state of an ordered look-ahead page stream: the backend handle,
/// the chunked request generator, the FIFO of results of the fetches in
/// flight (oldest first), and the two terminal flags.
pub struct PagesAheadState<P, R> where P: PageTurner<R> {
    page_turner: P,
    req_chunks: Chunks<RequestIter<R>>,
    queue: Vec<TurnedPageResult<P, R>>,
    last_page_queried: bool,
    failed: bool,
    tracer: FuturesTracer,
}

impl<P, R> PagesAheadState<P, R> where P: PageTurner<R> {
    pub closed spec fn turner(&self) -> P {
        self.page_turner
    }

    /// The configured window: the most fetches ever outstanding at once.
    pub closed spec fn window(&self) -> nat {
        self.req_chunks.size()
    }

    pub closed spec fn generator(&self) -> RequestIter<R> {
        self.req_chunks.inner()
    }

    /// The results of the outstanding fetches, oldest request first.
    pub closed spec fn queue(&self) -> Seq<TurnedPageResult<P, R>> {
        self.queue@
    }

    /// Set once a response declared the end of the data: nothing is
    /// scheduled or emitted past this point.
    pub closed spec fn terminated(&self) -> bool {
        self.last_page_queried
    }

    /// Set once an error was reported: the stream only yields its end
    /// from then on.
    pub closed spec fn failed(&self) -> bool {
        self.failed
    }

    pub closed spec fn scheduled(&self) -> nat {
        self.tracer.scheduled()
    }

    pub closed spec fn succeeded(&self) -> nat {
        self.tracer.succeeded()
    }

    /// Internal consistency: the generator always holds a request, every
    /// request taken off the generator was scheduled, and never more
    /// fetches are outstanding than the window allows.
    pub open spec fn wf(&self) -> bool {
        &&& self.generator().well_formed()
        &&& self.scheduled() == self.generator().yielded()
        &&& self.queue().len() <= self.window()
    }

    pub fn new(page_turner: P, request: R, requests_ahead_count: usize, limit: Limit) -> (s:
        Self) where R: RequestAhead
        ensures
            s.wf(),
            s.turner() == page_turner,
            s.window() == requests_ahead_count,
            s.generator().limit() == limit,
            s.queue().len() == 0,
            !s.terminated(),
            !s.failed(),
            s.scheduled() == 0,
            s.succeeded() == 0,
    {
        let req_chunks = RequestIter::new(request, limit).chunks(requests_ahead_count);
        Self {
            page_turner,
            req_chunks,
            queue: Vec::new(),
            last_page_queried: false,
            failed: false,
            tracer: FuturesTracer::new(),
        }
    }

    /// Resolve the oldest outstanding fetch: a page hands out its items
    /// and, when it carries no next request, terminates the stream; an
    /// error is passed through and marks the stream failed.
    pub fn emit_head(&mut self) -> (r: Result<Option<P::PageItems>, P::PageError>)
        requires
            old(self).queue().len() > 0,
        ensures
            final(self).turner() == old(self).turner(),
            final(self).window() == old(self).window(),
            final(self).generator() == old(self).generator(),
            final(self).queue() == old(self).queue().drop_first(),
            final(self).scheduled() == old(self).scheduled(),
            old(self).queue()[0] matches Ok(tp) ==> {
                &&& r == Ok::<Option<P::PageItems>, P::PageError>(Some(tp.items))
                &&& final(self).terminated() == (tp.next_request is None)
                &&& final(self).failed() == old(self).failed()
                &&& final(self).succeeded() == sat_add(old(self).succeeded(), 1)
            },
            old(self).queue()[0] matches Err(e) ==> {
                &&& r == Err::<Option<P::PageItems>, P::PageError>(e)
                &&& final(self).failed()
                &&& final(self).terminated() == old(self).terminated()
                &&& final(self).succeeded() == old(self).succeeded()
            },
    {
        let head = self.queue.remove(0);
        proof {
            assert(self.queue@ =~= old(self).queue@.drop_first());
        }
        match head {
            Ok(tp) => {
                self.tracer.complete_single();
                self.last_page_queried = tp.next_request.is_none();
                Ok(Some(tp.items))
            },
            Err(e) => {
                self.failed = true;
                Err(e)
            },
        }
    }
}

/// The transition one pull of the ordered stream makes, given the
/// results `fetched` that its newly started fetches returned: the new
/// fetches go behind the queue in request order, and the oldest
/// outstanding result is resolved as [`PagesAheadState::emit_head`]
/// states. A full window is fetched when nothing was outstanding, one
/// refill otherwise, always within what the limit still allows.
pub open spec fn ordered_step<P: PageTurner<R>, R>(
    pre: PagesAheadState<P, R>,
    post: PagesAheadState<P, R>,
    fetched: Seq<TurnedPageResult<P, R>>,
    r: Result<Option<P::PageItems>, P::PageError>,
) -> bool {
    let filled = pre.queue() + fetched;
    &&& fetched.len() == (if pre.queue().len() == 0 {
        pre.generator().takeable(pre.window())
    } else {
        pre.generator().takeable(1)
    })
    &&& filled.len() > 0
    &&& post.turner() == pre.turner()
    &&& post.window() == pre.window()
    &&& post.generator().limit() == pre.generator().limit()
    &&& post.generator().well_formed() == pre.generator().well_formed()
    &&& post.scheduled() == sat_add(pre.scheduled(), fetched.len())
    &&& post.generator().yielded() == sat_add(pre.generator().yielded(), fetched.len())
    &&& post.queue() == filled.drop_first()
    &&& match filled[0] {
        Ok(tp) => {
            &&& r == Ok::<Option<P::PageItems>, P::PageError>(Some(tp.items))
            &&& post.terminated() == (tp.next_request is None)
            &&& post.failed() == pre.failed()
            &&& post.succeeded() == sat_add(pre.succeeded(), 1)
        },
        Err(e) => {
            &&& r == Err::<Option<P::PageItems>, P::PageError>(e)
            &&& post.failed()
            &&& post.terminated() == pre.terminated()
            &&& post.succeeded() == pre.succeeded()
        },
    }
}

/// Drive one step of the ordered look-ahead stream: schedule fetches to
/// keep the window full — a whole batch when nothing is outstanding, one
/// sliding-window refill otherwise — and resolve the oldest outstanding
/// fetch. Emits `Ok(None)` forever once the stream has terminated,
/// failed, or run out of requests; passes the first fetch error through
/// and fails the stream. The exact effect of each fetch outcome is
/// [`ordered_step`].
pub fn request_pages_ahead<P, R>(state: &mut PagesAheadState<P, R>) -> (r: Result<
    Option<P::PageItems>,
    P::PageError,
>) where P: PageTurner<R>, R: RequestAhead
    requires
        old(state).wf(),
    ensures
        final(state).wf(),
        final(state).turner() == old(state).turner(),
        final(state).window() == old(state).window(),
        final(state).generator().limit() == old(state).generator().limit(),
        (old(state).terminated() || old(state).failed()) ==> {
            &&& r == Ok::<Option<P::PageItems>, P::PageError>(None)
            &&& *final(state) == *old(state)
        },
        (!old(state).terminated() && !old(state).failed() && old(state).queue().len() == 0 && !(
        old(state).window() > 0 && old(state).generator().limit_allows())) ==> {
            &&& r == Ok::<Option<P::PageItems>, P::PageError>(None)
            &&& final(state).scheduled() == old(state).scheduled()
            &&& final(state).queue() == old(state).queue()
            &&& final(state).terminated() == old(state).terminated()
            &&& final(state).failed() == old(state).failed()
        },
        r is Err ==> final(state).failed(),
        (!old(state).terminated() && !old(state).failed() && (old(state).queue().len() > 0 || (
        old(state).window() > 0 && old(state).generator().limit_allows()))) ==> exists|
            fetched: Seq<TurnedPageResult<P, R>>,
        | ordered_step(*old(state), *final(state), fetched, r),
{
    if state.last_page_queried || state.failed {
        state.tracer.last_succeeded();
        return Ok(None);
    }
    let ghost pre = *state;
    if state.queue.len() == 0 {
        match state.req_chunks.next_chunk() {
            Some(mut chunk) => {
                let mut more = true;
                while more
                    invariant
                        state.page_turner == pre.page_turner,
                        state.req_chunks.size() == pre.req_chunks.size(),
                        state.req_chunks.size() > 0,
                        state.req_chunks.inner().well_formed(),
                        state.req_chunks.inner().limit() == pre.req_chunks.inner().limit(),
                        state.last_page_queried == pre.last_page_queried,
                        state.failed == pre.failed,
                        state.tracer == pre.tracer,
                        state.queue@.len() <= state.req_chunks.size(),
                        chunk.yielded() <= state.req_chunks.size(),
                        chunk.seed() is Some ==> {
                            &&& more
                            &&& chunk.yielded() == 0
                            &&& state.queue@.len() == 0
                            &&& state.req_chunks.inner().yielded() == sat_add(
                                pre.req_chunks.inner().yielded(),
                                1,
                            )
                        },
                        chunk.seed() is None && more ==> {
                            &&& chunk.yielded() == state.queue@.len()
                            &&& state.queue@.len() >= 1
                            &&& state.req_chunks.inner().yielded() == sat_add(
                                pre.req_chunks.inner().yielded(),
                                state.queue@.len() as nat,
                            )
                        },
                        match state.req_chunks.inner().limit() {
                            Limit::MaxPages(n) => {
                                &&& state.req_chunks.inner().yielded()
                                    == pre.req_chunks.inner().yielded() + (
                                if chunk.seed() is Some {
                                    1nat
                                } else {
                                    state.queue@.len() as nat
                                })
                                &&& state.req_chunks.inner().yielded() <= n
                            },
                            Limit::Unbounded => true,
                        },
                        !more ==> {
                            &&& chunk.seed() is None
                            &&& state.req_chunks.inner().yielded() == sat_add(
                                pre.req_chunks.inner().yielded(),
                                state.queue@.len() as nat,
                            )
                            &&& (state.queue@.len() == state.req_chunks.size()
                                || !state.req_chunks.inner().limit_allows())
                        },
                    decreases state.req_chunks.size() - chunk.yielded() + (if more {
                        1int
                    } else {
                        0int
                    }),
                {
                    match chunk.next(&mut state.req_chunks) {
                        Some(req) => {
                            let res = state.page_turner.turn_page(req);
                            state.queue.push(res);
                        },
                        None => {
                            more = false;
                        },
                    }
                }
                let fetched_now = state.queue.len();
                state.tracer.schedule_chunk(fetched_now);
            },
            None => {
                state.tracer.last_succeeded();
                return Ok(None);
            },
        }
    } else {
        if let Some(req) = state.req_chunks.next_item() {
            state.tracer.schedule_single();
            let res = state.page_turner.turn_page(req);
            state.queue.push(res);
        }
    }
    let ghost fetched = state.queue@.skip(pre.queue@.len() as int);
    proof {
        assert(state.queue@ =~= pre.queue@ + fetched);
    }
    let r = state.emit_head();
    proof {
        assert(ordered_step(pre, *state, fetched, r));
    }
    r
}

/// The invariant tying an ordered look-ahead stream to the model backend
/// it runs against: `emitted` is the sequence of pages handed out so
/// far, always a prefix of the model's content; every outstanding result
/// answers the next requests in order; and the stream is terminated
/// exactly when the whole content is out.
pub open spec fn pages_ahead_model_inv<P: PageTurner<R>, R>(
    s: PagesAheadState<P, R>,
    pages: Seq<P::PageItems>,
    emitted: Seq<P::PageItems>,
) -> bool {
    let e = emitted.len() as int;
    &&& s.wf()
    &&& !s.failed()
    &&& pages.len() >= 1
    &&& s.window() >= 1
    &&& pages.len() + s.window() <= usize::MAX
    &&& emitted.len() <= pages.len()
    &&& emitted == pages.take(e)
    &&& (s.terminated() <==> emitted.len() == pages.len())
    &&& forall|j: int|
        0 <= j < s.queue().len() ==> result_matches_model(pages, e + j, #[trigger] s.queue()[j])
    &&& s.scheduled() == e + s.queue().len()
    &&& s.queue().len() < s.window()
    &&& match s.generator().limit() {
        Limit::MaxPages(n) => s.scheduled() <= n,
        Limit::Unbounded => true,
    }
}

/// A fresh ordered stream satisfies the model invariant with nothing
/// emitted, for any model content that fits the machine.
pub proof fn lemma_pages_ahead_model_init<P: PageTurner<R>, R>(
    s: PagesAheadState<P, R>,
    pages: Seq<P::PageItems>,
)
    requires
        s.wf(),
        !s.terminated(),
        !s.failed(),
        s.queue().len() == 0,
        s.scheduled() == 0,
        s.window() >= 1,
        pages.len() >= 1,
        pages.len() + s.window() <= usize::MAX,
    ensures
        pages_ahead_model_inv(s, pages, Seq::<P::PageItems>::empty()),
{
    assert(Seq::<P::PageItems>::empty() =~= pages.take(0));
}

/// One pull of a not-yet-terminated ordered stream against the model
/// backend emits exactly the next page of the content, in order, and
/// preserves the invariant: speculative fetching never reorders, skips
/// or duplicates a page, and never surfaces a past-the-end artifact —
/// the pull that emits the last page terminates the stream before any
/// artifact behind it in the queue is resolved.
pub proof fn lemma_pages_ahead_model_step<P: PageTurner<R>, R>(
    pre: PagesAheadState<P, R>,
    post: PagesAheadState<P, R>,
    pages: Seq<P::PageItems>,
    emitted: Seq<P::PageItems>,
    fetched: Seq<TurnedPageResult<P, R>>,
    r: Result<Option<P::PageItems>, P::PageError>,
)
    requires
        pages_ahead_model_inv(pre, pages, emitted),
        !pre.terminated(),
        ordered_step(pre, post, fetched, r),
        forall|j: int|
            0 <= j < fetched.len() ==> result_matches_model(
                pages,
                pre.scheduled() + j,
                #[trigger] fetched[j],
            ),
    ensures
        r == Ok::<Option<P::PageItems>, P::PageError>(Some(pages[emitted.len() as int])),
        pages_ahead_model_inv(post, pages, emitted.push(pages[emitted.len() as int])),
{
    let e = emitted.len() as int;
    let filled = pre.queue() + fetched;
    assert(result_matches_model(pages, e, filled[0]));
    assert(forall|j: int|
        0 <= j < filled.len() ==> result_matches_model(pages, e + j, #[trigger] filled[j]));
    let emitted2 = emitted.push(pages[e]);
    assert(emitted2 =~= pages.take(e + 1));
    assert(forall|j: int|
        0 <= j < post.queue().len() ==> result_matches_model(
            pages,
            e + 1 + j,
            #[trigger] post.queue()[j],
        ));
}

/// At the end of a run against the model backend — the stream has
/// terminated, or nothing is outstanding and the limit allows no further
/// request — the ordered stream has emitted, in order, exactly what the
/// response-chained driver emits over the same content
/// ([`crate::pages::lemma_pages_model_step`]): the whole content, or its
/// first `n` pages when `Limit::MaxPages(n)` cut the request chain
/// short.
pub proof fn lemma_pages_ahead_model_terminal<P: PageTurner<R>, R>(
    s: PagesAheadState<P, R>,
    pages: Seq<P::PageItems>,
    emitted: Seq<P::PageItems>,
)
    requires
        pages_ahead_model_inv(s, pages, emitted),
        s.terminated() || (s.queue().len() == 0 && !s.generator().limit_allows()),
    ensures
        s.terminated() ==> emitted == pages,
        !s.terminated() ==> match s.generator().limit() {
            Limit::MaxPages(n) => n < pages.len() && emitted == pages.take(n as int),
            Limit::Unbounded => false,
        },
{
    if s.terminated() {
        assert(emitted =~= pages);
    }
}

} // verus!
