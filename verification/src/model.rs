//! A ghost model of a paginated backend, used to state the laws the page
//! streams obey.
//!
//! The model backend holds a fixed sequence of pages. The request with
//! sequence index `i` answers with page `i`; exactly the last page comes
//! without a next request; a fetch past the end fails — the past-the-end
//! artifact that speculative look-ahead scheduling has to cope with.

use vstd::prelude::*;

use crate::TurnedPage;

verus! {

/// Whether one fetch outcome is the model backend's answer for the
/// request with sequence index `i` over the content `pages`.
pub open spec fn result_matches_model<I, R, E>(
    pages: Seq<I>,
    i: int,
    result: Result<TurnedPage<I, R>, E>,
) -> bool {
    if 0 <= i < pages.len() {
        match result {
            Ok(tp) => tp.items == pages[i] && (tp.next_request is None <==> i == pages.len()
                - 1),
            Err(_) => false,
        }
    } else {
        result is Err
    }
}

} // verus!
