//! Pagination over request/response backends.
//!
//! A backend exposes one operation: fetch the page that a request names.
//! On top of that single capability this crate builds page streams in three
//! flavours, each a pull-driven state machine with a verified contract:
//!
//! - response-chained pagination ([`pages::PagesState`]): one fetch at a
//!   time, the next request taken from the previous response;
//! - ordered look-ahead ([`pages_ahead::PagesAheadState`]): a bounded
//!   window of speculative fetches whose results come back in request
//!   order;
//! - unordered look-ahead
//!   ([`pages_ahead_unordered::PagesAheadUnorderedState`]): the same
//!   window, results in completion order, with errors from speculative
//!   fetches past the true end of the data reconciled before anything is
//!   reported.
//!
//! The fetch itself is the caller's: a [`PageTurner`] implementation. The
//! state machines decide what to fetch and what to emit; an embedding that
//! wants real concurrency performs the fetches it is told to and feeds the
//! completions back.

use vstd::prelude::*;

pub mod itertools;
pub mod model;
pub mod pages;
pub mod pages_ahead;
pub mod pages_ahead_unordered;

verus! {

/// One fetched page: the items the page holds, and the request that names
/// the next page when one exists. `next_request == None` marks the last
/// page of the data set.
pub struct TurnedPage<I, R> {
    pub items: I,
    pub next_request: Option<R>,
}

impl<I, R> TurnedPage<I, R> {
    pub fn new(items: I, next_request: Option<R>) -> (page: Self)
        ensures
            page.items == items,
            page.next_request == next_request,
    {
        Self { items, next_request }
    }

    /// A page that is followed by another one, queried by `next_request`.
    pub fn next(items: I, next_request: R) -> (page: Self)
        ensures
            page.items == items,
            page.next_request == Some(next_request),
    {
        Self { items, next_request: Some(next_request) }
    }

    /// The last page of the data set.
    pub fn last(items: I) -> (page: Self)
        ensures
            page.items == items,
            page.next_request is None,
    {
        Self { items, next_request: None }
    }
}

/// A request whose successor can be computed without any fetching: page 7
/// knows that page 8 comes next. Look-ahead pagination needs this to issue
/// requests before their predecessors have answered.
///
/// `next_request` must be pure and must chain the same way the backend
/// does: the request it derives has to query the same data as the
/// `next_request` field of the fetched page. The state machines cannot
/// check this; a divergent chain silently yields a different result set
/// than response-chained pagination would.
pub trait RequestAhead: Sized {
    fn next_request(&self) -> Self;
}

/// A request that names its page by a settable key, for backends whose
/// responses carry the key of the next page rather than a whole request.
pub trait PageQuery: Clone {
    type PageKey;

    /// Replace the page key, turning this request into the one that
    /// queries the next page.
    fn set_page_key(&mut self, next_key: Self::PageKey);
}

/// Caps how many requests a look-ahead stream may issue, independent of
/// what any response says. A caller who knows the true page count can
/// suppress speculative fetching past the end entirely.
#[derive(Debug, Clone, Copy, PartialEq, Eq, Structural, Default)]
pub enum Limit {
    #[default]
    Unbounded,
    MaxPages(usize),
}

/// The fetch capability: how to query one page. Implemented by the caller
/// for a backend; everything else in this crate is built on it.
///
/// The implementation may be queried with several outstanding requests at
/// once by a concurrent embedding, so it takes `&self`.
pub trait PageTurner<R>: Sized {
    type PageItems;
    type PageError;

    /// Fetch the page that `request` names.
    fn turn_page(&self, request: R) -> Result<TurnedPage<Self::PageItems, R>, Self::PageError>;
}

/// A borrowed backend handle is a backend too: a caller can keep the
/// client and hand a stream a reference to it.
impl<P, R> PageTurner<R> for &P where P: PageTurner<R> {
    type PageItems = P::PageItems;

    type PageError = P::PageError;

    fn turn_page(&self, request: R) -> Result<TurnedPage<Self::PageItems, R>, Self::PageError> {
        (*self).turn_page(request)
    }
}

/// The items of a page fetched by `P` for requests `R`.
pub type PageItems<P, R> = <P as PageTurner<R>>::PageItems;

/// The error `P` reports for a failed fetch of a request `R`.
pub type PageError<P, R> = <P as PageTurner<R>>::PageError;

/// What one fetch returns: a page, or the backend's error.
pub type TurnedPageResult<P, R> = Result<TurnedPage<PageItems<P, R>, R>, PageError<P, R>>;

} // verus!
