use std::cell::RefCell;
use std::rc::Rc;

use page_turner::pages_ahead::{request_pages_ahead, PagesAheadState};
use page_turner::pages_ahead_unordered::{
    request_pages_ahead_unordered, PagesAheadUnorderedState,
};
use page_turner::{Limit, PageTurner, RequestAhead, TurnedPage};

#[derive(Debug, Clone, Copy, PartialEq, Eq, PartialOrd, Ord)]
struct BlogRecord(usize);

#[derive(Debug, Clone)]
struct GetContentRequest {
    page: usize,
}

impl RequestAhead for GetContentRequest {
    fn next_request(&self) -> Self {
        Self { page: self.page + 1 }
    }
}

struct BlogClient {
    content: Vec<Result<BlogRecord, String>>,
    requested: Rc<RefCell<Vec<usize>>>,
}

impl BlogClient {
    fn new(amount: usize) -> Self {
        Self {
            content: (0..amount).map(|i| Ok(BlogRecord(i))).collect(),
            requested: Rc::new(RefCell::new(Vec::new())),
        }
    }

    fn set_error(&mut self, pos: usize) {
        self.set_error_with_msg(pos, "Custom error");
    }

    fn set_error_with_msg(&mut self, pos: usize, msg: &'static str) {
        self.content[pos] = Err(msg.into());
    }

    fn request_log(&self) -> Rc<RefCell<Vec<usize>>> {
        Rc::clone(&self.requested)
    }
}

impl PageTurner<GetContentRequest> for BlogClient {
    type PageItems = Vec<BlogRecord>;
    type PageError = String;

    fn turn_page(
        &self,
        req: GetContentRequest,
    ) -> Result<TurnedPage<Vec<BlogRecord>, GetContentRequest>, String> {
        self.requested.borrow_mut().push(req.page);

        let record = self
            .content
            .get(req.page)
            .ok_or("The page is out of bound")?
            .clone()?;

        if req.page + 1 < self.content.len() {
            Ok(TurnedPage::next(
                vec![record],
                GetContentRequest { page: req.page + 1 },
            ))
        } else {
            Ok(TurnedPage::last(vec![record]))
        }
    }
}

fn collect_unordered(
    state: &mut PagesAheadUnorderedState<BlogClient, GetContentRequest>,
) -> Result<Vec<BlogRecord>, String> {
    let mut records = Vec::new();
    loop {
        match request_pages_ahead_unordered(state) {
            Ok(Some(items)) => records.extend(items),
            Ok(None) => return Ok(records),
            Err(e) => return Err(e),
        }
    }
}

#[test]
fn pages_ahead_unordered_yields_all_pages() {
    let blog = BlogClient::new(33);
    let mut state =
        PagesAheadUnorderedState::new(blog, GetContentRequest { page: 0 }, 5, Limit::Unbounded);

    let results = collect_unordered(&mut state).unwrap();

    assert_eq!(results.len(), 33);
    for (ix, res) in results.into_iter().enumerate() {
        assert_eq!(res.0, ix);
    }
}

#[test]
fn pages_ahead_unordered_respects_limit() {
    let blog = BlogClient::new(33);
    let mut state = PagesAheadUnorderedState::new(
        blog,
        GetContentRequest { page: 0 },
        11,
        Limit::MaxPages(22),
    );

    let results = collect_unordered(&mut state).unwrap();

    assert_eq!(results.len(), 22);
    assert_eq!(results.last().unwrap(), &BlogRecord(21));
}

#[test]
fn pages_ahead_unordered_zero_window_is_empty() {
    let blog = BlogClient::new(33);
    let log = blog.request_log();
    let mut state =
        PagesAheadUnorderedState::new(blog, GetContentRequest { page: 0 }, 0, Limit::Unbounded);

    let results = collect_unordered(&mut state).unwrap();

    assert_eq!(results.len(), 0);
    assert!(log.borrow().is_empty(), "a zero window must not fetch");
}

#[test]
fn pages_ahead_unordered_zero_limit_is_empty_without_fetching() {
    let blog = BlogClient::new(33);
    let log = blog.request_log();
    let mut state = PagesAheadUnorderedState::new(
        blog,
        GetContentRequest { page: 0 },
        5,
        Limit::MaxPages(0),
    );

    assert_eq!(request_pages_ahead_unordered(&mut state), Ok(None));
    assert_eq!(request_pages_ahead_unordered(&mut state), Ok(None));
    assert!(log.borrow().is_empty(), "a zero limit must not fetch");
}

#[test]
fn pages_ahead_unordered_reconciles_errors() {
    let mut blog = BlogClient::new(33);
    blog.set_error_with_msg(1, "1");
    blog.set_error_with_msg(2, "2");
    blog.set_error_with_msg(3, "3");

    let mut state =
        PagesAheadUnorderedState::new(blog, GetContentRequest { page: 0 }, 5, Limit::Unbounded);

    let item = request_pages_ahead_unordered(&mut state);
    assert_eq!(item, Ok(Some(vec![BlogRecord(0)])));

    let item = request_pages_ahead_unordered(&mut state);
    assert_eq!(item, Ok(Some(vec![BlogRecord(4)])));

    // This comes from a sliding window shift!
    let item = request_pages_ahead_unordered(&mut state);
    assert_eq!(item, Ok(Some(vec![BlogRecord(5)])));

    let item = request_pages_ahead_unordered(&mut state);
    assert_eq!(item, Err("1".to_owned()));

    let item = request_pages_ahead_unordered(&mut state);
    assert_eq!(
        item,
        Ok(None),
        "pages_ahead_unordered stream must end after an error"
    );
}

#[test]
fn pages_ahead_unordered_drains_the_wave_before_failing() {
    let mut blog = BlogClient::new(33);
    blog.set_error(1);

    let mut state =
        PagesAheadUnorderedState::new(blog, GetContentRequest { page: 0 }, 4, Limit::Unbounded);

    // The first batch covers requests 0..4 and one sliding-window refill
    // adds request 4; the failure of request 1 is retained while every
    // remaining success of the wave is still handed out.
    let item = request_pages_ahead_unordered(&mut state);
    assert_eq!(item, Ok(Some(vec![BlogRecord(0)])));

    let item = request_pages_ahead_unordered(&mut state);
    assert_eq!(item, Ok(Some(vec![BlogRecord(2)])));

    let item = request_pages_ahead_unordered(&mut state);
    assert_eq!(item, Ok(Some(vec![BlogRecord(3)])));

    let item = request_pages_ahead_unordered(&mut state);
    assert_eq!(item, Ok(Some(vec![BlogRecord(4)])));

    let item = request_pages_ahead_unordered(&mut state);
    assert_eq!(item, Err("Custom error".to_owned()));

    let item = request_pages_ahead_unordered(&mut state);
    assert_eq!(item, Ok(None));
}

#[test]
fn pages_ahead_unordered_discards_past_the_end_errors() {
    // With 3 pages and a window of 8, requests 3..8 are speculative and
    // fail; the end found at request 2 proves them artifacts.
    let blog = BlogClient::new(3);
    let mut state =
        PagesAheadUnorderedState::new(blog, GetContentRequest { page: 0 }, 8, Limit::Unbounded);

    let results = collect_unordered(&mut state).unwrap();
    assert_eq!(
        results,
        vec![BlogRecord(0), BlogRecord(1), BlogRecord(2)]
    );
}

#[test]
fn absorb_handles_out_of_order_completions() {
    let blog = BlogClient::new(3);
    let mut state =
        PagesAheadUnorderedState::new(blog, GetContentRequest { page: 0 }, 4, Limit::Unbounded);

    // Completions arriving out of order: the last page answers first.
    assert_eq!(
        state.absorb(2, Ok(TurnedPage::last(vec![BlogRecord(2)]))),
        Some(vec![BlogRecord(2)])
    );
    assert_eq!(
        state.absorb(
            0,
            Ok(TurnedPage::next(
                vec![BlogRecord(0)],
                GetContentRequest { page: 1 }
            ))
        ),
        Some(vec![BlogRecord(0)])
    );
    // A speculative fetch past the end fails; the error is retained,
    // nothing is emitted.
    assert_eq!(
        state.absorb(3, Err("The page is out of bound".to_owned())),
        None
    );
    assert_eq!(
        state.absorb(
            1,
            Ok(TurnedPage::next(
                vec![BlogRecord(1)],
                GetContentRequest { page: 2 }
            ))
        ),
        Some(vec![BlogRecord(1)])
    );
    // The retained error came from past the known last page: an
    // artifact, discarded; the stream ends cleanly.
    assert_eq!(state.resolve_empty(), Ok(None));
}

#[test]
fn update_err_keeps_the_lowest_index() {
    let blog = BlogClient::new(3);
    let mut state =
        PagesAheadUnorderedState::new(blog, GetContentRequest { page: 0 }, 4, Limit::Unbounded);

    state.update_err(5, "five".to_owned());
    state.update_err(3, "three".to_owned());
    state.update_err(7, "seven".to_owned());

    // With no last page known, the retained error is terminal: the
    // lowest-indexed one wins.
    assert_eq!(state.resolve_empty(), Err("three".to_owned()));
}

#[test]
fn pages_ahead_unordered_matches_ordered_as_multiset() {
    for window in [1usize, 3, 5, 33, 40] {
        let mut ordered = PagesAheadState::new(
            BlogClient::new(33),
            GetContentRequest { page: 0 },
            window,
            Limit::Unbounded,
        );
        let mut expected = Vec::new();
        loop {
            match request_pages_ahead(&mut ordered) {
                Ok(Some(items)) => expected.extend(items),
                Ok(None) => break,
                Err(e) => panic!("unexpected error: {e}"),
            }
        }

        let mut unordered = PagesAheadUnorderedState::new(
            BlogClient::new(33),
            GetContentRequest { page: 0 },
            window,
            Limit::Unbounded,
        );
        let mut results = collect_unordered(&mut unordered).unwrap();

        results.sort();
        expected.sort();
        assert_eq!(results, expected, "window {window}");
    }
}
