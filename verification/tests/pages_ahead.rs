use std::cell::RefCell;
use std::rc::Rc;

use page_turner::pages::{request_next_page, PagesState};
use page_turner::pages_ahead::{request_pages_ahead, PagesAheadState};
use page_turner::{Limit, PageTurner, RequestAhead, TurnedPage};

#[derive(Debug, Clone, Copy, PartialEq, Eq, PartialOrd, Ord)]
struct BlogRecord(usize);

#[derive(Debug, Clone)]
struct GetContentRequest {
    page: usize,
}

impl RequestAhead for GetContentRequest {
    fn next_request(&self) -> Self {
        Self { page: self.page + 1 }
    }
}

struct BlogClient {
    content: Vec<Result<BlogRecord, String>>,
    requested: Rc<RefCell<Vec<usize>>>,
}

impl BlogClient {
    fn new(amount: usize) -> Self {
        Self {
            content: (0..amount).map(|i| Ok(BlogRecord(i))).collect(),
            requested: Rc::new(RefCell::new(Vec::new())),
        }
    }

    fn set_error(&mut self, pos: usize) {
        self.content[pos] = Err("Custom error".into());
    }

    fn request_log(&self) -> Rc<RefCell<Vec<usize>>> {
        Rc::clone(&self.requested)
    }
}

impl PageTurner<GetContentRequest> for BlogClient {
    type PageItems = Vec<BlogRecord>;
    type PageError = String;

    fn turn_page(
        &self,
        req: GetContentRequest,
    ) -> Result<TurnedPage<Vec<BlogRecord>, GetContentRequest>, String> {
        self.requested.borrow_mut().push(req.page);

        let record = self
            .content
            .get(req.page)
            .ok_or("The page is out of bound")?
            .clone()?;

        if req.page + 1 < self.content.len() {
            Ok(TurnedPage::next(
                vec![record],
                GetContentRequest { page: req.page + 1 },
            ))
        } else {
            Ok(TurnedPage::last(vec![record]))
        }
    }
}

fn collect_ahead(
    state: &mut PagesAheadState<BlogClient, GetContentRequest>,
) -> Result<Vec<BlogRecord>, String> {
    let mut records = Vec::new();
    loop {
        match request_pages_ahead(state) {
            Ok(Some(items)) => records.extend(items),
            Ok(None) => return Ok(records),
            Err(e) => return Err(e),
        }
    }
}

#[test]
fn pages_ahead_yields_all_pages_in_order() {
    let blog = BlogClient::new(33);
    let mut state = PagesAheadState::new(blog, GetContentRequest { page: 0 }, 5, Limit::Unbounded);

    let results = collect_ahead(&mut state).unwrap();

    assert_eq!(results.len(), 33);
    for (ix, res) in results.into_iter().enumerate() {
        assert_eq!(res.0, ix);
    }
}

#[test]
fn pages_ahead_respects_limit() {
    let blog = BlogClient::new(33);
    let mut state =
        PagesAheadState::new(blog, GetContentRequest { page: 0 }, 11, Limit::MaxPages(22));

    let results = collect_ahead(&mut state).unwrap();

    assert_eq!(results.len(), 22);
    assert_eq!(results.last().unwrap(), &BlogRecord(21));
}

#[test]
fn pages_ahead_limit_never_requests_past_it() {
    let blog = BlogClient::new(22);
    let log = blog.request_log();
    let mut state =
        PagesAheadState::new(blog, GetContentRequest { page: 0 }, 11, Limit::MaxPages(22));

    let results = collect_ahead(&mut state).unwrap();

    assert_eq!(results.len(), 22);
    assert_eq!(results.last().unwrap(), &BlogRecord(21));
    assert_eq!(log.borrow().iter().copied().max(), Some(21));
    assert_eq!(log.borrow().len(), 22);
}

#[test]
fn pages_ahead_zero_window_is_empty() {
    let blog = BlogClient::new(33);
    let log = blog.request_log();
    let mut state = PagesAheadState::new(blog, GetContentRequest { page: 0 }, 0, Limit::Unbounded);

    let results = collect_ahead(&mut state).unwrap();

    assert_eq!(results.len(), 0);
    assert!(log.borrow().is_empty(), "a zero window must not fetch");
}

#[test]
fn pages_ahead_zero_limit_is_empty_without_fetching() {
    let blog = BlogClient::new(33);
    let log = blog.request_log();
    let mut state =
        PagesAheadState::new(blog, GetContentRequest { page: 0 }, 5, Limit::MaxPages(0));

    assert_eq!(request_pages_ahead(&mut state), Ok(None));
    assert_eq!(request_pages_ahead(&mut state), Ok(None));
    assert!(log.borrow().is_empty(), "a zero limit must not fetch");
}

#[test]
fn pages_ahead_ends_after_error() {
    let mut blog = BlogClient::new(33);
    blog.set_error(1);

    let mut state = PagesAheadState::new(blog, GetContentRequest { page: 0 }, 4, Limit::Unbounded);

    let item = request_pages_ahead(&mut state);
    assert_eq!(item, Ok(Some(vec![BlogRecord(0)])));

    let item = request_pages_ahead(&mut state);
    assert_eq!(item, Err("Custom error".to_owned()));

    let item = request_pages_ahead(&mut state);
    assert_eq!(item, Ok(None), "pages_ahead stream must end after an error");
}

#[test]
fn pages_ahead_matches_response_chained_driver() {
    for window in [1usize, 2, 5, 33, 40] {
        let mut sequential = PagesState::new(BlogClient::new(33), GetContentRequest { page: 0 });
        let mut expected = Vec::new();
        loop {
            match request_next_page(&mut sequential) {
                Ok(Some(items)) => expected.extend(items),
                Ok(None) => break,
                Err(e) => panic!("unexpected error: {e}"),
            }
        }

        let mut ahead = PagesAheadState::new(
            BlogClient::new(33),
            GetContentRequest { page: 0 },
            window,
            Limit::Unbounded,
        );
        let results = collect_ahead(&mut ahead).unwrap();

        assert_eq!(results, expected, "window {window}");
    }
}
