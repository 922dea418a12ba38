//! Response-chained pagination: one fetch at a time, each next request
//! taken from the previous response, ended by the first response that
//! carries no next request.

use vstd::prelude::*;

use crate::model::result_matches_model;
use crate::{PageTurner, TurnedPage, TurnedPageResult};

verus! {

/// The state of a response-chained page stream: the backend handle and
/// the request for the page to fetch next, if any. No pending request
/// means the stream is over.
pub struct PagesState<P, R> {
    pub page_turner: P,
    pub next_request: Option<R>,
}

impl<P, R> PagesState<P, R> {
    pub fn new(page_turner: P, request: R) -> (s: Self)
        ensures
            s.page_turner == page_turner,
            s.next_request == Some(request),
    {
        Self { page_turner, next_request: Some(request) }
    }
}

impl<P, R> PagesState<P, R> where P: PageTurner<R> {
    /// What one fetch outcome does to the stream: a fetched page hands
    /// out its items and leaves its own `next_request` pending; an error
    /// is passed through and leaves nothing pending, so the pull after a
    /// failure reports the end of the stream.
    pub fn apply_turn(&mut self, result: TurnedPageResult<P, R>) -> (r: Result<
        Option<P::PageItems>,
        P::PageError,
    >)
        ensures
            final(self).page_turner == old(self).page_turner,
            result matches Ok(tp) ==> {
                &&& r == Ok::<Option<P::PageItems>, P::PageError>(Some(tp.items))
                &&& final(self).next_request == tp.next_request
            },
            result matches Err(e) ==> {
                &&& r == Err::<Option<P::PageItems>, P::PageError>(e)
                &&& final(self).next_request is None
            },
    {
        match result {
            Ok(tp) => {
                self.next_request = tp.next_request;
                Ok(Some(tp.items))
            },
            Err(e) => {
                self.next_request = None;
                Err(e)
            },
        }
    }
}

/// Drive one step of response-chained pagination: fetch the page named
/// by the pending request and hand out its items, or report `Ok(None)`
/// when no request is pending. What each fetch outcome yields is stated
/// exactly on [`PagesState::apply_turn`], which this wraps around the
/// fetch; a fetch error is passed through and ends the stream.
pub fn request_next_page<P, R>(state: &mut PagesState<P, R>) -> (r: Result<
    Option<P::PageItems>,
    P::PageError,
>) where P: PageTurner<R>
    ensures
        final(state).page_turner == old(state).page_turner,
        old(state).next_request is None ==> {
            &&& r == Ok::<Option<P::PageItems>, P::PageError>(None)
            &&& final(state).next_request is None
        },
        old(state).next_request is Some ==> (r matches Ok(Some(_)) || r is Err),
        r is Err ==> final(state).next_request is None,
{
    let request = match state.next_request.take() {
        Some(req) => req,
        None => {
            return Ok(None);
        },
    };
    let result = state.page_turner.turn_page(request);
    state.apply_turn(result)
}

/// The response-chained stream over the model backend: when every fetch
/// answers per the model, the pull that fetches request `i` emits page
/// `i` and leaves a request pending exactly while pages remain, so the
/// whole stream emits `pages[0], pages[1], ..., pages[len - 1]` in order
/// and then ends.
pub proof fn lemma_pages_model_step<I, R, E>(
    pages: Seq<I>,
    i: int,
    result: Result<TurnedPage<I, R>, E>,
)
    requires
        0 <= i < pages.len(),
        result_matches_model(pages, i, result),
    ensures
        result matches Ok(tp) && tp.items == pages[i] && (tp.next_request is Some <==> i
            < pages.len() - 1),
{
}

} // verus!
