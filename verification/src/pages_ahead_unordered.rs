//! Unordered look-ahead pagination: the same bounded sliding window as
//! the ordered stream, but completions are handed out in the order they
//! arrive, and every scheduled request carries its sequence index so
//! that errors can be reconciled against the true end of the data.
//!
//! Speculative fetching may run past the last page; such requests fail
//! with errors that mean nothing. An error is therefore never surfaced
//! at once: it is retained — only the lowest-indexed one — until either
//! the end of the data is found among the outstanding fetches, proving
//! the error a past-the-end artifact to be discarded (when its index
//! lies past the end), or the outstanding fetches drain without finding
//! the end, making the retained error genuine and terminal.

use vstd::prelude::*;

use crate::itertools::{sat_add, Chunks, ChunksExt, RequestIter};
use crate::model::result_matches_model;
use crate::{Limit, PageTurner, RequestAhead, TurnedPage, TurnedPageResult};

verus! {

use vstd::multiset::Multiset;
use vstd::seq_lib::group_to_multiset_ensures;

/// Keep whichever of two errors comes from the earlier request: the
/// retained error, or a new one with index `num`.
pub open spec fn keep_lower_error<E>(
    retained: Option<(usize, E)>,
    num: usize,
    err: E,
) -> Option<(usize, E)> {
    match retained {
        Some(old_err) => if (num as nat) < old_err.0 {
            Some((num, err))
        } else {
            Some(old_err)
        },
        None => Some((num, err)),
    }
}

/// The state of an unordered look-ahead page stream: the backend
/// handle, the chunked request generator with the index of the next
/// request to schedule, the completions not yet resolved (each tagged
/// with its request's sequence index), the retained error, the index of
/// the request whose response declared the end of the data once known,
/// and the failure flag.
pub struct PagesAheadUnorderedState<P, R> where P: PageTurner<R> {
    page_turner: P,
    req_chunks: Chunks<RequestIter<R>>,
    next_index: usize,
    in_progress: Vec<(usize, TurnedPageResult<P, R>)>,
    first_error: Option<(usize, P::PageError)>,
    last_page: Option<usize>,
    failed: bool,
}

impl<P, R> PagesAheadUnorderedState<P, R> where P: PageTurner<R> {
    pub closed spec fn turner(&self) -> P {
        self.page_turner
    }

    /// The configured window: the most fetches ever outstanding at once.
    pub closed spec fn window(&self) -> nat {
        self.req_chunks.size()
    }

    pub closed spec fn generator(&self) -> RequestIter<R> {
        self.req_chunks.inner()
    }

    /// The completions not yet resolved, in arrival order, each tagged
    /// with the sequence index of its request.
    pub closed spec fn in_progress(&self) -> Seq<(usize, TurnedPageResult<P, R>)> {
        self.in_progress@
    }

    /// The retained error, if any: the lowest-indexed one observed.
    pub closed spec fn first_error(&self) -> Option<(usize, P::PageError)> {
        self.first_error
    }

    /// The index of the request whose response declared the end of the
    /// data, once known.
    pub closed spec fn last_page(&self) -> Option<usize> {
        self.last_page
    }

    /// Set once an error was surfaced: the stream only yields its end
    /// from then on.
    pub closed spec fn failed(&self) -> bool {
        self.failed
    }

    /// Internal consistency: the generator always holds a request,
    /// `next_index` is the sequence index of the request it will yield,
    /// and never more fetches are outstanding than the window allows.
    pub open spec fn wf(&self) -> bool {
        &&& self.generator().well_formed()
        &&& self.next_index() == self.generator().yielded()
        &&& self.in_progress().len() <= self.window()
    }

    /// The sequence index of the next request to schedule.
    pub closed spec fn next_index(&self) -> nat {
        self.next_index as nat
    }

    pub fn new(page_turner: P, request: R, requests_ahead_count: usize, limit: Limit) -> (s:
        Self) where R: RequestAhead
        ensures
            s.wf(),
            s.turner() == page_turner,
            s.window() == requests_ahead_count,
            s.generator().limit() == limit,
            s.generator().yielded() == 0,
            s.in_progress().len() == 0,
            s.first_error() is None,
            s.last_page() is None,
            !s.failed(),
    {
        let req_chunks = RequestIter::new(request, limit).chunks(requests_ahead_count);
        Self {
            page_turner,
            req_chunks,
            next_index: 0,
            in_progress: Vec::new(),
            first_error: None,
            last_page: None,
            failed: false,
        }
    }

    /// Retain the error with the lowest request index: a new error
    /// replaces the retained one only when it comes from an earlier
    /// request; later ones are discarded.
    pub fn update_err(&mut self, new_err_num: usize, new_err: P::PageError)
        ensures
            final(self).first_error() == keep_lower_error(
                old(self).first_error(),
                new_err_num,
                new_err,
            ),
            final(self).turner() == old(self).turner(),
            final(self).window() == old(self).window(),
            final(self).generator() == old(self).generator(),
            final(self).next_index() == old(self).next_index(),
            final(self).in_progress() == old(self).in_progress(),
            final(self).last_page() == old(self).last_page(),
            final(self).failed() == old(self).failed(),
    {
        match &self.first_error {
            Some(old_err) if new_err_num < old_err.0 => {
                self.first_error = Some((new_err_num, new_err));
            },
            Some(_) => {},
            None => {
                self.first_error = Some((new_err_num, new_err));
            },
        }
    }

    /// Resolve one completed fetch, identified by the sequence index of
    /// the request that produced it: a page is handed out at once and,
    /// when it declares the end of the data while no end is known yet,
    /// its index is recorded as the last page; an error is retained per
    /// [`PagesAheadUnorderedState::update_err`] and nothing is emitted.
    pub fn absorb(&mut self, num: usize, result: TurnedPageResult<P, R>) -> (emit: Option<
        P::PageItems,
    >)
        ensures
            final(self).turner() == old(self).turner(),
            final(self).window() == old(self).window(),
            final(self).generator() == old(self).generator(),
            final(self).next_index() == old(self).next_index(),
            final(self).in_progress() == old(self).in_progress(),
            final(self).failed() == old(self).failed(),
            result matches Ok(tp) ==> {
                &&& emit == Some(tp.items)
                &&& final(self).first_error() == old(self).first_error()
                &&& final(self).last_page() == (if old(self).last_page() is None
                    && tp.next_request is None {
                    Some(num)
                } else {
                    old(self).last_page()
                })
            },
            result matches Err(e) ==> {
                &&& emit is None
                &&& final(self).last_page() == old(self).last_page()
                &&& final(self).first_error() == keep_lower_error(
                    old(self).first_error(),
                    num,
                    e,
                )
            },
    {
        match result {
            Ok(tp) => {
                if self.last_page.is_none() && tp.next_request.is_none() {
                    self.last_page = Some(num);
                }
                Some(tp.items)
            },
            Err(e) => {
                self.update_err(num, e);
                None
            },
        }
    }

    /// Decide the stream's end once nothing is outstanding: an error
    /// retained at or before the known last page is genuine and
    /// terminal; one past the known last page is a past-the-end
    /// artifact and is discarded, the stream ending cleanly; with no
    /// last page known, the retained error is terminal.
    pub fn resolve_empty(&mut self) -> (r: Result<Option<P::PageItems>, P::PageError>)
        requires
            old(self).in_progress().len() == 0,
            old(self).last_page() is Some || old(self).first_error() is Some,
        ensures
            final(self).turner() == old(self).turner(),
            final(self).window() == old(self).window(),
            final(self).generator() == old(self).generator(),
            final(self).next_index() == old(self).next_index(),
            final(self).in_progress() == old(self).in_progress(),
            final(self).last_page() == old(self).last_page(),
            final(self).first_error() is None,
            match (old(self).last_page(), old(self).first_error()) {
                (Some(lp), Some(err)) => if err.0 <= lp {
                    r == Err::<Option<P::PageItems>, P::PageError>(err.1) && final(self).failed()
                } else {
                    r == Ok::<Option<P::PageItems>, P::PageError>(None) && final(self).failed()
                        == old(self).failed()
                },
                (Some(lp), None) => {
                    &&& r == Ok::<Option<P::PageItems>, P::PageError>(None)
                    &&& final(self).failed() == old(self).failed()
                },
                (None, Some(err)) => r == Err::<Option<P::PageItems>, P::PageError>(err.1)
                    && final(self).failed(),
                (None, None) => true,
            },
    {
        match self.first_error.take() {
            Some(err) => {
                match self.last_page {
                    Some(lp) => {
                        if err.0 <= lp {
                            self.failed = true;
                            Err(err.1)
                        } else {
                            Ok(None)
                        }
                    },
                    None => {
                        self.failed = true;
                        Err(err.1)
                    },
                }
            },
            None => Ok(None),
        }
    }
}

/// Whether every completion in `q` failed.
pub open spec fn all_failed<P: PageTurner<R>, R>(
    q: Seq<(usize, TurnedPageResult<P, R>)>,
) -> bool {
    forall|j: int| 0 <= j < q.len() ==> (#[trigger] q[j]).1 is Err
}

/// The retained error after resolving the completions of `q` in arrival
/// order: each error folded in per [`keep_lower_error`], pages changing
/// nothing.
pub open spec fn fold_errors<P: PageTurner<R>, R>(
    retained: Option<(usize, P::PageError)>,
    q: Seq<(usize, TurnedPageResult<P, R>)>,
) -> Option<(usize, P::PageError)>
    decreases q.len(),
{
    if q.len() == 0 {
        retained
    } else {
        match q.last().1 {
            Result::Err(e) => keep_lower_error(
                fold_errors::<P, R>(retained, q.drop_last()),
                q.last().0,
                e,
            ),
            Result::Ok(_) => fold_errors::<P, R>(retained, q.drop_last()),
        }
    }
}

proof fn lemma_fold_errors_none<P: PageTurner<R>, R>(
    retained: Option<(usize, P::PageError)>,
    q: Seq<(usize, TurnedPageResult<P, R>)>,
)
    ensures
        fold_errors::<P, R>(retained, q) is None <==> (retained is None && forall|j: int|
            0 <= j < q.len() ==> !((#[trigger] q[j]).1 is Err)),
    decreases q.len(),
{
    if q.len() > 0 {
        lemma_fold_errors_none::<P, R>(retained, q.drop_last());
        assert(forall|j: int|
            0 <= j < q.len() - 1 ==> q.drop_last()[j] == #[trigger] q[j]);
        assert(q[q.len() - 1] == q.last());
    }
}

/// The transition one pull of the unordered stream makes, given the
/// completions `fetched` of its newly started fetches and the number
/// `consumed` of outstanding completions it resolved, in arrival order.
/// Fetches are started only while no end is known and no error is
/// retained — a full window when nothing was outstanding, one refill
/// otherwise — and carry consecutive request indices. Every resolved
/// completion but possibly the last failed and was folded into the
/// retained error ([`keep_lower_error`]); the pull ends with a page
/// handed out by [`PagesAheadUnorderedState::absorb`], or with the
/// outstanding set drained and decided by
/// [`PagesAheadUnorderedState::resolve_empty`], or — when nothing was
/// outstanding and the limit allows no request — with a clean end and
/// nothing fetched.
pub open spec fn unordered_step<P: PageTurner<R>, R>(
    pre: PagesAheadUnorderedState<P, R>,
    post: PagesAheadUnorderedState<P, R>,
    fetched: Seq<(usize, TurnedPageResult<P, R>)>,
    consumed: int,
    r: Result<Option<P::PageItems>, P::PageError>,
) -> bool {
    let scheduling = pre.last_page() is None && pre.first_error() is None;
    let queue0 = pre.in_progress() + fetched;
    &&& fetched.len() == (if scheduling {
        if pre.in_progress().len() == 0 {
            pre.generator().takeable(pre.window())
        } else {
            pre.generator().takeable(1)
        }
    } else {
        0
    })
    &&& forall|j: int|
        0 <= j < fetched.len() ==> (#[trigger] fetched[j]).0 as nat == sat_add(
            pre.next_index(),
            j as nat,
        )
    &&& fetched.len() == 0 ==> post.generator() == pre.generator()
    &&& post.turner() == pre.turner()
    &&& post.window() == pre.window()
    &&& post.generator().limit() == pre.generator().limit()
    &&& post.next_index() == sat_add(pre.next_index(), fetched.len())
    &&& 0 <= consumed <= queue0.len()
    &&& post.in_progress() == queue0.skip(consumed)
    &&& forall|j: int| 0 <= j < consumed - 1 ==> (#[trigger] queue0[j]).1 is Err
    &&& match r {
        Result::Ok(Some(items)) => {
            &&& consumed >= 1
            &&& queue0[consumed - 1].1 matches Ok(tp) && {
                &&& items == tp.items
                &&& post.last_page() == (if pre.last_page() is None && tp.next_request
                    is None {
                    Some(queue0[consumed - 1].0)
                } else {
                    pre.last_page()
                })
            }
            &&& post.first_error() == fold_errors::<P, R>(
                pre.first_error(),
                queue0.take(consumed - 1),
            )
            &&& !post.failed()
        },
        Result::Ok(None) => {
            ||| {
                // nothing outstanding and no request allowed: a clean end
                // with nothing fetched and nothing touched
                &&& scheduling
                &&& queue0.len() == 0
                &&& consumed == 0
                &&& post.last_page() == pre.last_page()
                &&& post.first_error() == pre.first_error()
                &&& post.failed() == pre.failed()
            }
            ||| {
                // drained after the end was found: every remaining
                // completion failed, and the retained error, if any, came
                // from past the last page — an artifact, discarded
                &&& consumed == queue0.len()
                &&& all_failed::<P, R>(queue0)
                &&& pre.last_page() is Some
                &&& post.last_page() == pre.last_page()
                &&& post.first_error() is None
                &&& match fold_errors::<P, R>(pre.first_error(), queue0) {
                    Some(err) => err.0 > pre.last_page().unwrap(),
                    None => true,
                }
                &&& post.failed() == pre.failed()
            }
        },
        Result::Err(e) => {
            &&& consumed == queue0.len()
            &&& all_failed::<P, R>(queue0)
            &&& fold_errors::<P, R>(pre.first_error(), queue0) matches Some(err) && {
                &&& e == err.1
                &&& (pre.last_page() matches Some(lp) ==> err.0 <= lp)
            }
            &&& post.last_page() == pre.last_page()
            &&& post.first_error() is None
            &&& post.failed()
        },
    }
}

/// Drive one step of the unordered look-ahead stream. While no end is
/// known and no error is retained, fetches are scheduled to keep the
/// window full — a whole batch when nothing is outstanding, one
/// sliding-window refill otherwise. Completions are then resolved in
/// arrival order per [`PagesAheadUnorderedState::absorb`]: the first
/// page found is emitted at once, errors are retained without ending
/// the pull, and nothing further is scheduled meanwhile; when the
/// outstanding fetches drain instead,
/// [`PagesAheadUnorderedState::resolve_empty`] decides between a clean
/// end and the retained error. A surfaced error fails the stream, which
/// emits `Ok(None)` from then on. The exact effect of every pull on a
/// live stream is [`unordered_step`].
pub fn request_pages_ahead_unordered<P, R>(state: &mut PagesAheadUnorderedState<P, R>) -> (r:
    Result<Option<P::PageItems>, P::PageError>) where P: PageTurner<R>, R: RequestAhead
    requires
        old(state).wf(),
    ensures
        final(state).wf(),
        final(state).turner() == old(state).turner(),
        final(state).window() == old(state).window(),
        final(state).generator().limit() == old(state).generator().limit(),
        old(state).failed() ==> {
            &&& r == Ok::<Option<P::PageItems>, P::PageError>(None)
            &&& *final(state) == *old(state)
        },
        !old(state).failed() ==> exists|
            fetched: Seq<(usize, TurnedPageResult<P, R>)>,
            consumed: int,
        | unordered_step(*old(state), *final(state), fetched, consumed, r),
        r is Err ==> final(state).failed() && final(state).in_progress().len() == 0,
        // once the end is known or an error is retained, nothing more is
        // scheduled, and a known end stays what it is:
        (old(state).last_page() is Some || old(state).first_error() is Some) ==> {
            final(state).generator() == old(state).generator()
        },
        old(state).last_page() is Some ==> final(state).last_page() == old(state).last_page(),
        (!old(state).failed() && old(state).in_progress().len() == 0 && old(state).last_page()
            is None && old(state).first_error() is None && !(old(state).window() > 0 && old(
            state,
        ).generator().limit_allows())) ==> {
            &&& r == Ok::<Option<P::PageItems>, P::PageError>(None)
            &&& final(state).generator() == old(state).generator()
            &&& final(state).in_progress() == old(state).in_progress()
        },
{
    if state.failed {
        return Ok(None);
    }
    let ghost pre = *state;
    let ghost mut fetched: Seq<(usize, TurnedPageResult<P, R>)> = Seq::empty();
    if state.last_page.is_none() && state.first_error.is_none() {
        if state.in_progress.len() == 0 {
            match state.req_chunks.next_chunk() {
                Some(mut chunk) => {
                    let mut more = true;
                    while more
                        invariant
                            state.page_turner == pre.page_turner,
                            state.req_chunks.size() == pre.req_chunks.size(),
                            state.req_chunks.size() > 0,
                            state.req_chunks.inner().well_formed(),
                            state.req_chunks.inner().limit() == pre.req_chunks.inner().limit(),
                            state.last_page is None,
                            state.first_error is None,
                            !state.failed,
                            state.in_progress@ == fetched,
                            forall|j: int|
                                0 <= j < fetched.len() ==> (#[trigger] fetched[j]).0 as nat
                                    == sat_add(pre.next_index(), j as nat),
                            state.next_index as nat == sat_add(pre.next_index(), fetched.len()),
                            fetched.len() <= state.req_chunks.size(),
                            chunk.yielded() <= state.req_chunks.size(),
                            chunk.seed() is Some ==> {
                                &&& more
                                &&& chunk.yielded() == 0
                                &&& fetched.len() == 0
                                &&& state.req_chunks.inner().yielded() == sat_add(
                                    pre.req_chunks.inner().yielded(),
                                    1,
                                )
                            },
                            chunk.seed() is None && more ==> {
                                &&& chunk.yielded() == fetched.len()
                                &&& fetched.len() >= 1
                                &&& state.req_chunks.inner().yielded() == sat_add(
                                    pre.req_chunks.inner().yielded(),
                                    fetched.len(),
                                )
                            },
                            match state.req_chunks.inner().limit() {
                                Limit::MaxPages(n) => {
                                    &&& state.req_chunks.inner().yielded()
                                        == pre.req_chunks.inner().yielded() + (
                                    if chunk.seed() is Some {
                                        1nat
                                    } else {
                                        fetched.len()
                                    })
                                    &&& state.req_chunks.inner().yielded() <= n
                                },
                                Limit::Unbounded => true,
                            },
                            !more ==> {
                                &&& chunk.seed() is None
                                &&& state.req_chunks.inner().yielded() == sat_add(
                                    pre.req_chunks.inner().yielded(),
                                    fetched.len(),
                                )
                                &&& (fetched.len() == state.req_chunks.size()
                                    || !state.req_chunks.inner().limit_allows())
                            },
                        decreases state.req_chunks.size() - chunk.yielded() + (if more {
                            1int
                        } else {
                            0int
                        }),
                    {
                        match chunk.next(&mut state.req_chunks) {
                            Some(req) => {
                                let res = state.page_turner.turn_page(req);
                                let idx = state.next_index;
                                if state.next_index < usize::MAX {
                                    state.next_index = state.next_index + 1;
                                }
                                state.in_progress.push((idx, res));
                                proof {
                                    fetched = fetched.push((idx, res));
                                }
                            },
                            None => {
                                more = false;
                            },
                        }
                    }
                },
                None => {
                    proof {
                        assert((pre.in_progress@ + fetched).skip(0) =~= pre.in_progress@);
                        assert(unordered_step(
                            pre,
                            *state,
                            fetched,
                            0int,
                            Ok::<Option<P::PageItems>, P::PageError>(None),
                        ));
                    }
                    return Ok(None);
                },
            }
        } else {
            if let Some(req) = state.req_chunks.next_item() {
                let res = state.page_turner.turn_page(req);
                let idx = state.next_index;
                if state.next_index < usize::MAX {
                    state.next_index = state.next_index + 1;
                }
                state.in_progress.push((idx, res));
                proof {
                    fetched = fetched.push((idx, res));
                }
            }
        }
    }
    let ghost queue0 = pre.in_progress@ + fetched;
    let ghost mut consumed: int = 0;
    proof {
        assert(state.in_progress@ =~= queue0.skip(0));
    }
    loop
        invariant
            pre == *old(state),
            pre.wf(),
            !pre.failed,
            state.page_turner == pre.page_turner,
            state.req_chunks.size() == pre.req_chunks.size(),
            state.req_chunks.inner().well_formed(),
            state.req_chunks.inner().limit() == pre.req_chunks.inner().limit(),
            state.next_index as nat == state.req_chunks.inner().yielded(),
            state.next_index as nat == sat_add(pre.next_index(), fetched.len()),
            !state.failed,
            queue0 == pre.in_progress@ + fetched,
            fetched.len() == (if pre.last_page is None && pre.first_error is None {
                if pre.in_progress@.len() == 0 {
                    pre.generator().takeable(pre.window())
                } else {
                    pre.generator().takeable(1)
                }
            } else {
                0nat
            }),
            forall|j: int|
                0 <= j < fetched.len() ==> (#[trigger] fetched[j]).0 as nat == sat_add(
                    pre.next_index(),
                    j as nat,
                ),
            fetched.len() == 0 ==> state.req_chunks.inner() == pre.req_chunks.inner(),
            (pre.last_page is None && pre.first_error is None && pre.in_progress@.len() == 0)
                ==> (pre.window() > 0 && pre.generator().limit_allows()),
            0 <= consumed <= queue0.len(),
            state.in_progress@ == queue0.skip(consumed),
            forall|j: int| 0 <= j < consumed ==> (#[trigger] queue0[j]).1 is Err,
            state.first_error == fold_errors::<P, R>(pre.first_error, queue0.take(consumed)),
            state.last_page == pre.last_page,
        decreases state.in_progress@.len(),
    {
        if state.in_progress.len() == 0 {
            proof {
                assert(consumed == queue0.len());
                assert(queue0.take(consumed) =~= queue0);
                lemma_fold_errors_none::<P, R>(pre.first_error, queue0);
                if state.last_page is None && state.first_error is None {
                    // only possible before anything was ever scheduled,
                    // and that case returned at the empty batch above
                    assert(queue0.len() == 0);
                    assert(fetched.len() == 0);
                    assert(pre.in_progress@.len() == 0);
                    assert(false);
                }
            }
            let r = state.resolve_empty();
            proof {
                assert(unordered_step(pre, *state, fetched, consumed, r));
            }
            return r;
        }
        let completion = state.in_progress.remove(0);
        proof {
            assert(queue0.skip(consumed)[0] == queue0[consumed]);
            assert(state.in_progress@ =~= queue0.skip(consumed + 1));
            assert(queue0.take(consumed + 1).drop_last() =~= queue0.take(consumed));
            assert(queue0.take(consumed + 1).last() == queue0[consumed]);
        }
        let emit = state.absorb(completion.0, completion.1);
        proof {
            consumed = consumed + 1;
        }
        match emit {
            Some(items) => {
                let r = Ok::<Option<P::PageItems>, P::PageError>(Some(items));
                proof {
                    assert(unordered_step(pre, *state, fetched, consumed, r));
                }
                return r;
            },
            None => {},
        }
    }
}

/// Whether any outstanding completion in `q` is tagged with request
/// index `i`.
pub open spec fn contains_num<I, R, E>(
    q: Seq<(usize, Result<TurnedPage<I, R>, E>)>,
    i: int,
) -> bool {
    exists|j: int| 0 <= j < q.len() && (#[trigger] q[j]).0 == i
}

/// The pages of the model content that the outstanding completions in
/// `q` answer with: one copy of `pages[num]` for every entry tagged
/// with an in-range `num`; past-the-end entries contribute nothing.
pub open spec fn outstanding_pages<I, R, E>(
    pages: Seq<I>,
    q: Seq<(usize, Result<TurnedPage<I, R>, E>)>,
) -> Multiset<I>
    decreases q.len(),
{
    if q.len() == 0 {
        Multiset::empty()
    } else if q[0].0 < pages.len() {
        outstanding_pages(pages, q.drop_first()).insert(pages[q[0].0 as int])
    } else {
        outstanding_pages(pages, q.drop_first())
    }
}

/// The pages answered by the first `c` requests of the chain: the whole
/// content once `c` reaches its length.
pub open spec fn covered_pages<I>(pages: Seq<I>, c: int) -> Multiset<I> {
    pages.take(
        if c <= pages.len() {
            c
        } else {
            pages.len() as int
        },
    ).to_multiset()
}

proof fn lemma_outstanding_concat<I, R, E>(
    pages: Seq<I>,
    q1: Seq<(usize, Result<TurnedPage<I, R>, E>)>,
    q2: Seq<(usize, Result<TurnedPage<I, R>, E>)>,
)
    ensures
        outstanding_pages(pages, q1 + q2) == outstanding_pages(pages, q1).add(
            outstanding_pages(pages, q2),
        ),
    decreases q1.len(),
{
    if q1.len() == 0 {
        assert(q1 + q2 =~= q2);
        assert(outstanding_pages(pages, q1).add(outstanding_pages(pages, q2))
            =~= outstanding_pages(pages, q2));
    } else {
        assert((q1 + q2).drop_first() =~= q1.drop_first() + q2);
        lemma_outstanding_concat(pages, q1.drop_first(), q2);
        assert((q1 + q2)[0] == q1[0]);
        if q1[0].0 < pages.len() {
            assert(outstanding_pages(pages, q1.drop_first() + q2).insert(
                pages[q1[0].0 as int],
            ) =~= outstanding_pages(pages, q1).add(outstanding_pages(pages, q2)));
        }
    }
}

proof fn lemma_outstanding_remove<I, R, E>(
    pages: Seq<I>,
    q: Seq<(usize, Result<TurnedPage<I, R>, E>)>,
    j: int,
)
    requires
        0 <= j < q.len(),
    ensures
        q[j].0 < pages.len() ==> outstanding_pages(pages, q) == outstanding_pages(
            pages,
            q.remove(j),
        ).insert(pages[q[j].0 as int]),
        q[j].0 >= pages.len() ==> outstanding_pages(pages, q) == outstanding_pages(
            pages,
            q.remove(j),
        ),
    decreases q.len(),
{
    if j == 0 {
        assert(q.remove(0) =~= q.drop_first());
    } else {
        lemma_outstanding_remove(pages, q.drop_first(), j - 1);
        assert(q.remove(j).drop_first() =~= q.drop_first().remove(j - 1));
        assert(q.remove(j)[0] == q[0]);
        if q[0].0 < pages.len() && q[j].0 < pages.len() {
            assert(outstanding_pages(pages, q.drop_first().remove(j - 1)).insert(
                pages[q[j].0 as int],
            ).insert(pages[q[0].0 as int]) =~= outstanding_pages(
                pages,
                q.drop_first().remove(j - 1),
            ).insert(pages[q[0].0 as int]).insert(pages[q[j].0 as int]));
        }
    }
}

proof fn lemma_contains_num_remove<I, R, E>(
    q: Seq<(usize, Result<TurnedPage<I, R>, E>)>,
    j: int,
    i: int,
)
    requires
        0 <= j < q.len(),
        forall|j1: int, j2: int|
            0 <= j1 < j2 < q.len() ==> (#[trigger] q[j1]).0 != (#[trigger] q[j2]).0,
    ensures
        contains_num(q.remove(j), i) <==> (contains_num(q, i) && i != q[j].0),
{
    let q2 = q.remove(j);
    if contains_num(q2, i) {
        let w = choose|w: int| 0 <= w < q2.len() && (#[trigger] q2[w]).0 == i;
        let w0 = if w < j {
            w
        } else {
            w + 1
        };
        assert(q[w0].0 == i);
        assert(w0 != j);
        assert(i != q[j].0);
        assert(contains_num(q, i));
    }
    if contains_num(q, i) && i != q[j].0 {
        let w = choose|w: int| 0 <= w < q.len() && (#[trigger] q[w]).0 == i;
        assert(w != j);
        let w2 = if w < j {
            w
        } else {
            w - 1
        };
        assert(q2[w2].0 == i);
        assert(contains_num(q2, i));
    }
}

/// Scheduling the completions for requests `c, c + 1, ...` extends the
/// covered prefix of the content accordingly.
proof fn lemma_outstanding_schedule<I, R, E>(
    pages: Seq<I>,
    entries: Seq<(usize, Result<TurnedPage<I, R>, E>)>,
    c: int,
)
    requires
        0 <= c,
        c + entries.len() <= usize::MAX,
        forall|j: int| 0 <= j < entries.len() ==> (#[trigger] entries[j]).0 == c + j,
    ensures
        covered_pages(pages, c + entries.len()) == covered_pages(pages, c).add(
            outstanding_pages(pages, entries),
        ),
    decreases entries.len(),
{
    broadcast use group_to_multiset_ensures;

    if entries.len() == 0 {
        assert(covered_pages(pages, c).add(outstanding_pages(pages, entries)) =~= covered_pages(
            pages,
            c,
        ));
    } else {
        assert(entries[0].0 == c);
        lemma_outstanding_schedule(pages, entries.drop_first(), c + 1);
        assert(forall|j: int|
            0 <= j < entries.drop_first().len() ==> (#[trigger] entries.drop_first()[j]).0 == c
                + 1 + j);
        if c < pages.len() {
            let shorter = pages.take(c);
            let longer = pages.take(c + 1);
            assert(longer =~= shorter.push(pages[c]));
            assert(longer.to_multiset() =~= shorter.to_multiset().insert(pages[c]));
            assert(covered_pages(pages, c + entries.len()) =~= covered_pages(pages, c).add(
                outstanding_pages(pages, entries),
            ));
        } else {
            assert(covered_pages(pages, c + 1) =~= covered_pages(pages, c));
            assert(covered_pages(pages, c + entries.len()) =~= covered_pages(pages, c).add(
                outstanding_pages(pages, entries),
            ));
        }
    }
}

/// The invariant tying an unordered look-ahead stream to the model
/// backend it runs against: `emitted` is the multiset of pages handed
/// out so far. Every outstanding completion answers its request per the
/// model and no request is outstanding twice; together, the emitted and
/// the outstanding pages cover the scheduled prefix of the content
/// exactly once. A retained error always comes from a past-the-end
/// request, the end is known exactly when the last request's answer has
/// been resolved, and while no error is retained every past-the-end
/// answer is still outstanding.
pub open spec fn pages_ahead_unordered_model_inv<P: PageTurner<R>, R>(
    s: PagesAheadUnorderedState<P, R>,
    pages: Seq<P::PageItems>,
    emitted: Multiset<P::PageItems>,
) -> bool {
    let lll = pages.len() as int;
    let c = s.next_index() as int;
    let q = s.in_progress();
    &&& s.wf()
    &&& !s.failed()
    &&& pages.len() >= 1
    &&& s.window() >= 1
    &&& pages.len() + s.window() <= usize::MAX
    &&& forall|j: int|
        0 <= j < q.len() ==> result_matches_model(pages, (#[trigger] q[j]).0 as int, q[j].1)
    &&& forall|j: int| 0 <= j < q.len() ==> (#[trigger] q[j]).0 < c
    &&& forall|j1: int, j2: int|
        0 <= j1 < j2 < q.len() ==> (#[trigger] q[j1]).0 != (#[trigger] q[j2]).0
    &&& emitted.add(outstanding_pages(pages, q)) == covered_pages(pages, c)
    &&& match s.first_error() {
        Some(err) => lll <= err.0 < c,
        None => true,
    }
    &&& (s.last_page() matches Some(lp) ==> lp == lll - 1)
    &&& (s.last_page() is Some <==> (lll <= c && !contains_num(q, lll - 1)))
    &&& (s.first_error() is None ==> forall|i: int| lll <= i < c ==> contains_num(q, i))
    &&& match s.generator().limit() {
        Limit::MaxPages(n) => c <= n,
        Limit::Unbounded => true,
    }
}

/// A fresh unordered stream satisfies the model invariant with nothing
/// emitted, for any model content that fits the machine.
pub proof fn lemma_pages_ahead_unordered_model_init<P: PageTurner<R>, R>(
    s: PagesAheadUnorderedState<P, R>,
    pages: Seq<P::PageItems>,
)
    requires
        s.wf(),
        !s.failed(),
        s.in_progress().len() == 0,
        s.first_error() is None,
        s.last_page() is None,
        s.next_index() == 0,
        s.window() >= 1,
        pages.len() >= 1,
        pages.len() + s.window() <= usize::MAX,
    ensures
        pages_ahead_unordered_model_inv(s, pages, Multiset::<P::PageItems>::empty()),
{
    broadcast use group_to_multiset_ensures;

    assert(pages.take(0) =~= Seq::<P::PageItems>::empty());
    assert(Multiset::<P::PageItems>::empty().add(
        outstanding_pages(pages, s.in_progress()),
    ) =~= covered_pages(pages, 0));
}

/// Scheduling preserves the invariant: while no end is known and no
/// error is retained, the completions of the next requests of the chain
/// — each answering per the model — join the outstanding set, within
/// the window.
pub proof fn lemma_pages_ahead_unordered_model_schedule<P: PageTurner<R>, R>(
    pre: PagesAheadUnorderedState<P, R>,
    post: PagesAheadUnorderedState<P, R>,
    pages: Seq<P::PageItems>,
    emitted: Multiset<P::PageItems>,
    entries: Seq<(usize, TurnedPageResult<P, R>)>,
)
    requires
        pages_ahead_unordered_model_inv(pre, pages, emitted),
        pre.last_page() is None,
        pre.first_error() is None,
        pre.in_progress().len() + entries.len() <= pre.window(),
        forall|j: int| 0 <= j < entries.len() ==> (#[trigger] entries[j]).0 == pre.next_index() + j,
        forall|j: int|
            0 <= j < entries.len() ==> result_matches_model(
                pages,
                (#[trigger] entries[j]).0 as int,
                entries[j].1,
            ),
        post.in_progress() == pre.in_progress() + entries,
        post.next_index() == pre.next_index() + entries.len(),
        post.wf(),
        post.window() == pre.window(),
        !post.failed(),
        post.first_error() == pre.first_error(),
        post.last_page() == pre.last_page(),
        post.generator().limit() == pre.generator().limit(),
        match post.generator().limit() {
            Limit::MaxPages(n) => post.next_index() <= n,
            Limit::Unbounded => true,
        },
    ensures
        pages_ahead_unordered_model_inv(post, pages, emitted),
{
    let lll = pages.len() as int;
    let c = pre.next_index() as int;
    let q = pre.in_progress();
    let q2 = post.in_progress();
    let k = entries.len() as int;
    assert(forall|j: int| 0 <= j < q.len() ==> q2[j] == q[j]);
    assert(forall|j: int| 0 <= j < k ==> q2[q.len() + j] == entries[j]);
    lemma_outstanding_concat(pages, q, entries);
    lemma_outstanding_schedule(pages, entries, c);
    assert(emitted.add(outstanding_pages(pages, q2)) =~= covered_pages(pages, c + k));
    // the answer for the last request, when scheduled, is outstanding:
    if lll <= c + k {
        if lll <= c {
            assert(contains_num(q, lll - 1));
            let w = choose|w: int| 0 <= w < q.len() && (#[trigger] q[w]).0 == lll - 1;
            assert(q2[w].0 == lll - 1);
            assert(contains_num(q2, lll - 1));
        } else {
            let j = lll - 1 - c;
            assert(entries[j].0 == lll - 1);
            assert(q2[q.len() + j].0 == lll - 1);
            assert(contains_num(q2, lll - 1));
        }
    }
    // while no error is retained, every past-the-end answer is outstanding:
    assert forall|i: int| lll <= i < c + k implies contains_num(q2, i) by {
        if i < c {
            assert(contains_num(q, i));
            let w = choose|w: int| 0 <= w < q.len() && (#[trigger] q[w]).0 == i;
            assert(q2[w].0 == i);
        } else {
            let j = i - c;
            assert(entries[j].0 == i);
            assert(q2[q.len() + j].0 == i);
        }
    }
}

/// Resolving one outstanding completion — whichever arrived first —
/// preserves the invariant: a genuine answer is emitted and is exactly
/// the model's page for its request; a past-the-end artifact is
/// retained as an error (keeping the lowest index) and nothing is
/// emitted.
pub proof fn lemma_pages_ahead_unordered_model_absorb<P: PageTurner<R>, R>(
    pre: PagesAheadUnorderedState<P, R>,
    post: PagesAheadUnorderedState<P, R>,
    pages: Seq<P::PageItems>,
    emitted: Multiset<P::PageItems>,
    j: int,
    emit: Option<P::PageItems>,
)
    requires
        pages_ahead_unordered_model_inv(pre, pages, emitted),
        0 <= j < pre.in_progress().len(),
        post.in_progress() == pre.in_progress().remove(j),
        post.wf(),
        post.window() == pre.window(),
        !post.failed(),
        post.next_index() == pre.next_index(),
        post.generator().limit() == pre.generator().limit(),
        match pre.in_progress()[j].1 {
            Ok(tp) => {
                &&& emit == Some(tp.items)
                &&& post.first_error() == pre.first_error()
                &&& post.last_page() == (if pre.last_page() is None && tp.next_request is None {
                    Some(pre.in_progress()[j].0)
                } else {
                    pre.last_page()
                })
            },
            Err(e) => {
                &&& emit is None
                &&& post.last_page() == pre.last_page()
                &&& post.first_error() == keep_lower_error(
                    pre.first_error(),
                    pre.in_progress()[j].0,
                    e,
                )
            },
        },
    ensures
        match emit {
            Some(items) => {
                &&& pre.in_progress()[j].0 < pages.len()
                &&& items == pages[pre.in_progress()[j].0 as int]
                &&& pages_ahead_unordered_model_inv(post, pages, emitted.insert(items))
            },
            None => pages_ahead_unordered_model_inv(post, pages, emitted),
        },
{
    let lll = pages.len() as int;
    let c = pre.next_index() as int;
    let q = pre.in_progress();
    let q2 = post.in_progress();
    let num = q[j].0;
    assert(result_matches_model(pages, num as int, q[j].1));
    lemma_outstanding_remove(pages, q, j);
    assert(forall|w: int| 0 <= w < j ==> q2[w] == q[w]);
    assert(forall|w: int| j <= w < q2.len() ==> q2[w] == q[w + 1]);
    match q[j].1 {
        Ok(tp) => {
            assert(num < lll);
            assert(tp.items == pages[num as int]);
            assert(tp.next_request is None <==> num == lll - 1);
            let emitted2 = emitted.insert(tp.items);
            assert(emitted2.add(outstanding_pages(pages, q2)) =~= emitted.add(
                outstanding_pages(pages, q2).insert(pages[num as int]),
            ));
            assert(emitted2.add(outstanding_pages(pages, q2)) == covered_pages(pages, c));
            // the end is known exactly when the last answer is resolved:
            lemma_contains_num_remove(q, j, lll - 1);
            if num == lll - 1 {
                if pre.last_page() is Some {
                    assert(!contains_num(q, lll - 1));
                    assert(false);
                }
                assert(post.last_page() == Some(num));
            } else {
                assert(post.last_page() == pre.last_page());
            }
            // while no error is retained, past-the-end answers stay outstanding:
            if post.first_error() is None {
                assert forall|i: int| lll <= i < c implies contains_num(q2, i) by {
                    assert(contains_num(q, i));
                    lemma_contains_num_remove(q, j, i);
                }
            }
        },
        Err(e) => {
            assert(num >= lll);
            assert(emitted.add(outstanding_pages(pages, q2)) == covered_pages(pages, c));
            lemma_contains_num_remove(q, j, lll - 1);
            match post.first_error() {
                Some(err) => {
                    assert(lll <= err.0 < c);
                },
                None => {
                    assert(false);
                },
            }
        },
    }
}

/// The deferred-error law at the end of a drained run: once nothing is
/// outstanding and the end is known or an error is retained, the end is
/// in fact known, any retained error comes from past the last page — a
/// discarded artifact — and the stream ends cleanly having emitted, as
/// a multiset, exactly the model's content: the same pages the ordered
/// stream emits in a successful run
/// ([`crate::pages_ahead::lemma_pages_ahead_model_terminal`]), possibly
/// in another order.
pub proof fn lemma_pages_ahead_unordered_model_terminal<P: PageTurner<R>, R>(
    s: PagesAheadUnorderedState<P, R>,
    pages: Seq<P::PageItems>,
    emitted: Multiset<P::PageItems>,
)
    requires
        pages_ahead_unordered_model_inv(s, pages, emitted),
        s.in_progress().len() == 0,
        s.last_page() is Some || s.first_error() is Some,
    ensures
        s.last_page() is Some,
        match s.first_error() {
            Some(err) => err.0 > s.last_page()->0,
            None => true,
        },
        emitted == pages.to_multiset(),
{
    let lll = pages.len() as int;
    let c = s.next_index() as int;
    assert(!contains_num(s.in_progress(), lll - 1));
    if s.first_error() is Some {
        assert(lll <= c);
    }
    assert(s.last_page() is Some);
    assert(lll <= c);
    assert(pages.take(lll) =~= pages);
    assert(emitted.add(outstanding_pages(pages, s.in_progress())) =~= emitted);
    assert(emitted =~= pages.to_multiset());
}

proof fn lemma_outstanding_all_past_end<I, R, E>(
    pages: Seq<I>,
    q: Seq<(usize, Result<TurnedPage<I, R>, E>)>,
)
    requires
        forall|j: int| 0 <= j < q.len() ==> (#[trigger] q[j]).0 >= pages.len(),
    ensures
        outstanding_pages(pages, q) == Multiset::<I>::empty(),
    decreases q.len(),
{
    if q.len() > 0 {
        lemma_outstanding_all_past_end(pages, q.drop_first());
        assert(forall|j: int|
            0 <= j < q.drop_first().len() ==> q.drop_first()[j] == #[trigger] q[j + 1]);
    }
}

proof fn lemma_fold_errors_range<P: PageTurner<R>, R>(
    retained: Option<(usize, P::PageError)>,
    q: Seq<(usize, TurnedPageResult<P, R>)>,
    lo: int,
    hi: int,
)
    requires
        retained matches Some(err) ==> lo <= err.0 < hi,
        forall|j: int|
            0 <= j < q.len() && (#[trigger] q[j]).1 is Err ==> lo <= q[j].0 < hi,
    ensures
        fold_errors::<P, R>(retained, q) matches Some(err) ==> lo <= err.0 < hi,
    decreases q.len(),
{
    if q.len() > 0 {
        lemma_fold_errors_range::<P, R>(retained, q.drop_last(), lo, hi);
        assert(forall|j: int|
            0 <= j < q.len() - 1 ==> q.drop_last()[j] == #[trigger] q[j]);
        assert(q[q.len() - 1] == q.last());
    }
}

/// The deferred-error law attached to one pull of a live stream over the
/// model backend: the pull never surfaces an error — every error a
/// speculative fetch can produce here is a past-the-end artifact — a
/// handed-out page is exactly the model's page for the resolved request
/// and keeps the invariant, and a pull that ends the stream proves the
/// whole scheduled prefix of the content emitted, as a multiset: what
/// the ordered stream emits, in possibly another order.
#[verifier::rlimit(60)]
pub proof fn lemma_pages_ahead_unordered_model_pull<P: PageTurner<R>, R>(
    pre: PagesAheadUnorderedState<P, R>,
    post: PagesAheadUnorderedState<P, R>,
    pages: Seq<P::PageItems>,
    emitted: Multiset<P::PageItems>,
    fetched: Seq<(usize, TurnedPageResult<P, R>)>,
    consumed: int,
    r: Result<Option<P::PageItems>, P::PageError>,
)
    requires
        pages_ahead_unordered_model_inv(pre, pages, emitted),
        unordered_step(pre, post, fetched, consumed, r),
        post.wf(),
        pre.next_index() + fetched.len() <= usize::MAX,
        forall|j: int|
            0 <= j < fetched.len() ==> result_matches_model(
                pages,
                (#[trigger] fetched[j]).0 as int,
                fetched[j].1,
            ),
    ensures
        !(r is Err),
        r matches Ok(Some(items)) ==> {
            &&& items == pages[(pre.in_progress() + fetched)[consumed - 1].0 as int]
            &&& pages_ahead_unordered_model_inv(post, pages, emitted.insert(items))
        },
        r == Ok::<Option<P::PageItems>, P::PageError>(None) ==> emitted == covered_pages(
            pages,
            post.next_index() as int,
        ),
{
    let lll = pages.len() as int;
    let c = pre.next_index() as int;
    let k = fetched.len() as int;
    let c2 = c + k;
    let q = pre.in_progress();
    let queue0 = q + fetched;
    let rest = queue0.skip(consumed);
    assert(forall|j: int|
        0 <= j < k ==> (#[trigger] fetched[j]).0 == c + j);
    assert(post.next_index() == c2);
    // every entry of the filled queue answers its request per the model,
    // was scheduled once, and no request twice:
    assert(forall|j: int| 0 <= j < q.len() ==> queue0[j] == q[j]);
    assert(forall|j: int| 0 <= j < k ==> queue0[q.len() + j] == fetched[j]);
    assert(forall|j: int|
        0 <= j < queue0.len() ==> result_matches_model(
            pages,
            (#[trigger] queue0[j]).0 as int,
            queue0[j].1,
        ));
    assert(forall|j: int| 0 <= j < queue0.len() ==> (#[trigger] queue0[j]).0 < c2);
    assert(forall|j1: int, j2: int|
        0 <= j1 < j2 < queue0.len() ==> (#[trigger] queue0[j1]).0 != (#[trigger] queue0[j2]).0);
    // the filled queue accounts for the scheduled prefix:
    lemma_outstanding_concat(pages, q, fetched);
    lemma_outstanding_schedule(pages, fetched, c);
    assert(emitted.add(outstanding_pages(pages, queue0)) =~= covered_pages(pages, c2));
    let done = queue0.take(consumed);
    assert(queue0 =~= done + rest);
    lemma_outstanding_concat(pages, done, rest);
    assert(forall|j: int| 0 <= j < rest.len() ==> rest[j] == #[trigger] queue0[consumed + j]);
    match r {
        Result::Ok(opt) => {
            match opt {
                Some(items) => {
                    let entry = queue0[consumed - 1];
                    let num = entry.0 as int;
                    assert(result_matches_model(pages, num, entry.1));
                    assert(0 <= num < lll);
                    assert(items == pages[num]);
                    // the resolved prefix: failed artifacts, then the page
                    let prefix = queue0.take(consumed - 1);
                    assert(forall|j: int|
                        0 <= j < prefix.len() ==> (#[trigger] prefix[j]) == queue0[j]);
                    assert(forall|j: int|
                        0 <= j < prefix.len() ==> (#[trigger] prefix[j]).0 >= lll) by {
                        assert(forall|j: int|
                            0 <= j < prefix.len() ==> (#[trigger] prefix[j]).1 is Err);
                    }
                    lemma_outstanding_all_past_end(pages, prefix);
                    assert(done =~= prefix + seq![entry]);
                    lemma_outstanding_concat(pages, prefix, seq![entry]);
                    assert(seq![entry].drop_first() =~= Seq::<(
                        usize,
                        TurnedPageResult<P, R>,
                    )>::empty());
                    assert(outstanding_pages(
                        pages,
                        Seq::<(usize, TurnedPageResult<P, R>)>::empty(),
                    ) =~= Multiset::<P::PageItems>::empty());
                    assert(seq![entry].len() == 1);
                    assert(seq![entry][0] == entry);
                    assert(entry.0 < pages.len());
                    assert(outstanding_pages(pages, seq![entry]) =~= Multiset::<
                        P::PageItems,
                    >::empty().insert(pages[num]));
                    assert(outstanding_pages(pages, done) =~= Multiset::<
                        P::PageItems,
                    >::empty().insert(pages[num]));
                    let emitted2 = emitted.insert(pages[num]);
                    assert(emitted2.add(outstanding_pages(pages, rest)) =~= emitted.add(
                        outstanding_pages(pages, queue0),
                    ));
                    assert(emitted2.add(outstanding_pages(pages, rest)) == covered_pages(
                        pages,
                        c2,
                    ));
                    // the retained error stays a past-the-end artifact:
                    assert(post.first_error() == fold_errors::<P, R>(pre.first_error(), prefix));
                    lemma_fold_errors_range::<P, R>(pre.first_error(), prefix, lll, c2);
                    // the end is known exactly when the last answer is in:
                    assert(entry.1 matches Ok(tp) ==> (tp.next_request is None <==> num == lll
                        - 1));
                    if num == lll - 1 {
                        if pre.last_page() is Some {
                            assert(fetched.len() == 0);
                            assert(!contains_num(q, lll - 1));
                            assert(contains_num(q, lll - 1));
                        }
                        assert(post.last_page() == Some(entry.0));
                        assert(!contains_num(rest, lll - 1)) by {
                            if contains_num(rest, lll - 1) {
                                let w = choose|w: int|
                                    0 <= w < rest.len() && (#[trigger] rest[w]).0 == lll - 1;
                                assert(queue0[consumed + w].0 == queue0[consumed - 1].0);
                            }
                        }
                    } else {
                        assert(post.last_page() == pre.last_page());
                        if pre.last_page() is Some {
                            assert(fetched.len() == 0);
                            assert(queue0 =~= q);
                            assert(!contains_num(rest, lll - 1)) by {
                                if contains_num(rest, lll - 1) {
                                    let w = choose|w: int|
                                        0 <= w < rest.len() && (#[trigger] rest[w]).0 == lll - 1;
                                    assert(q[consumed + w].0 == lll - 1);
                                    assert(contains_num(q, lll - 1));
                                }
                            }
                            assert(lll <= c2);
                        } else {
                            // a pending last answer stays outstanding
                            if lll <= c2 {
                                assert(contains_num(rest, lll - 1)) by {
                                    if lll <= c {
                                        assert(contains_num(q, lll - 1));
                                        let w = choose|w: int|
                                            0 <= w < q.len() && (#[trigger] q[w]).0 == lll - 1;
                                        assert(queue0[w].0 == lll - 1);
                                        assert(w != consumed - 1);
                                        assert(w >= consumed) by {
                                            if w < consumed - 1 {
                                                assert(queue0[w].1 is Err);
                                                assert(result_matches_model(
                                                    pages,
                                                    lll - 1,
                                                    queue0[w].1,
                                                ));
                                            }
                                        }
                                        assert(rest[w - consumed].0 == lll - 1);
                                    } else {
                                        let w = q.len() + (lll - 1 - c);
                                        assert(queue0[w].0 == lll - 1);
                                        assert(w != consumed - 1);
                                        assert(w >= consumed) by {
                                            if w < consumed - 1 {
                                                assert(queue0[w].1 is Err);
                                                assert(result_matches_model(
                                                    pages,
                                                    lll - 1,
                                                    queue0[w].1,
                                                ));
                                            }
                                        }
                                        assert(rest[w - consumed].0 == lll - 1);
                                    }
                                }
                            }
                        }
                    }
                    // while no error is retained, every past-the-end
                    // answer is still outstanding:
                    if post.first_error() is None {
                        lemma_fold_errors_none::<P, R>(pre.first_error(), prefix);
                        assert(prefix.len() == 0);
                        assert(consumed == 1);
                        assert forall|i: int| lll <= i < c2 implies contains_num(rest, i) by {
                            if i < c {
                                assert(contains_num(q, i));
                                let w = choose|w: int|
                                    0 <= w < q.len() && (#[trigger] q[w]).0 == i;
                                assert(queue0[w].0 == i);
                                assert(w != 0) by {
                                    assert(queue0[consumed - 1].0 == num);
                                }
                                assert(rest[w - 1].0 == i);
                            } else {
                                let w = q.len() + (i - c);
                                assert(queue0[w].0 == i);
                                assert(w != 0) by {
                                    assert(queue0[consumed - 1].0 == num);
                                }
                                assert(rest[w - 1].0 == i);
                            }
                        }
                    }
                    // the limit still caps the scheduled prefix:
                    assert(match post.generator().limit() {
                        Limit::MaxPages(n) => c2 <= n,
                        Limit::Unbounded => true,
                    });
                    assert(pages_ahead_unordered_model_inv(post, pages, emitted.insert(items)));
                },
                None => {
                    if queue0.len() == 0 {
                        assert(rest.len() == 0);
                        assert(emitted.add(outstanding_pages(pages, queue0)) =~= emitted);
                        assert(emitted =~= covered_pages(pages, c2));
                    } else {
                        assert(consumed == queue0.len());
                        assert(forall|j: int|
                            0 <= j < queue0.len() ==> (#[trigger] queue0[j]).0 >= lll) by {
                            assert(all_failed::<P, R>(queue0));
                        }
                        lemma_outstanding_all_past_end(pages, queue0);
                        assert(emitted =~= covered_pages(pages, c2));
                    }
                },
            }
        },
        Result::Err(e) => {
            assert(consumed == queue0.len());
            assert(all_failed::<P, R>(queue0));
            if pre.last_page() is Some {
                // every error is past the end: none can be genuine
                assert(fetched.len() == 0);
                assert(queue0 =~= q);
                lemma_fold_errors_range::<P, R>(pre.first_error(), queue0, lll, if c2 > lll {
                    c2
                } else {
                    lll + 1
                });
                assert(pre.last_page().unwrap() == lll - 1);
                assert(false);
            } else {
                // the last answer is outstanding or not yet scheduled,
                // and either way not every completion can have failed
                if contains_num(q, lll - 1) {
                    let w = choose|w: int| 0 <= w < q.len() && (#[trigger] q[w]).0 == lll - 1;
                    assert(result_matches_model(pages, lll - 1, q[w].1));
                    assert(queue0[w].1 is Err);
                    assert(false);
                } else {
                    assert(lll > c);
                    if k > 0 {
                        assert(fetched[0].0 == c);
                        assert(result_matches_model(pages, c, fetched[0].1));
                        assert(queue0[q.len() as int].1 is Err);
                        assert(false);
                    } else {
                        lemma_fold_errors_none::<P, R>(pre.first_error(), queue0);
                        assert(forall|j: int|
                            0 <= j < q.len() ==> !((#[trigger] queue0[j]).1 is Err)) by {
                            assert(forall|j: int|
                                0 <= j < q.len() ==> (#[trigger] q[j]).0 < c);
                        }
                        assert(fold_errors::<P, R>(pre.first_error(), queue0) is None);
                        assert(false);
                    }
                }
            }
        },
    }
}

/// A run of the unordered stream that ends because the limit allows no
/// further request — nothing outstanding, no end known, no error
/// retained — has emitted exactly the first `n` pages of the content
/// under `Limit::MaxPages(n)`, as a multiset: again what the ordered
/// stream emits under the same limit.
pub proof fn lemma_pages_ahead_unordered_model_exhausted<P: PageTurner<R>, R>(
    s: PagesAheadUnorderedState<P, R>,
    pages: Seq<P::PageItems>,
    emitted: Multiset<P::PageItems>,
)
    requires
        pages_ahead_unordered_model_inv(s, pages, emitted),
        s.in_progress().len() == 0,
        s.last_page() is None,
        s.first_error() is None,
        !s.generator().limit_allows(),
    ensures
        match s.generator().limit() {
            Limit::MaxPages(n) => n < pages.len() && emitted == pages.take(
                n as int,
            ).to_multiset(),
            Limit::Unbounded => false,
        },
{
    let c = s.next_index() as int;
    assert(emitted.add(outstanding_pages(pages, s.in_progress())) =~= emitted);
}

} // verus!
