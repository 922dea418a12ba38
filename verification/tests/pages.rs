use page_turner::pages::{request_next_page, PagesState};
use page_turner::{PageQuery, PageTurner, TurnedPage};

struct NumbersClient {
    numbers: Vec<usize>,
    page_size: usize,
}

#[derive(Default, Clone)]
struct GetNumbersQuery {
    key: usize,
}

impl NumbersClient {
    fn new(last_number: usize, page_size: usize) -> Self {
        NumbersClient { numbers: (1..=last_number).collect(), page_size }
    }
}

impl PageTurner<GetNumbersQuery> for NumbersClient {
    type PageItems = Vec<usize>;
    type PageError = ();

    fn turn_page(
        &self,
        request: GetNumbersQuery,
    ) -> Result<TurnedPage<Vec<usize>, GetNumbersQuery>, ()> {
        let index = request.key;

        let response: Vec<_> = self.numbers[index..]
            .iter()
            .copied()
            .take(self.page_size)
            .collect();

        if index + self.page_size < self.numbers.len() {
            Ok(TurnedPage::next(
                response,
                GetNumbersQuery { key: index + self.page_size },
            ))
        } else {
            Ok(TurnedPage::last(response))
        }
    }
}

fn collect_number_pages(client: NumbersClient) -> Vec<Vec<usize>> {
    let mut state = PagesState::new(client, GetNumbersQuery::default());
    let mut pages = Vec::new();
    loop {
        match request_next_page(&mut state) {
            Ok(Some(items)) => pages.push(items),
            Ok(None) => break,
            Err(()) => panic!("the numbers client never fails"),
        }
    }
    pages
}

#[test]
fn pages_single_page() {
    let pages = collect_number_pages(NumbersClient::new(30, 30));

    assert_eq!(pages.len(), 1, "There should be only one page");
    assert_eq!(pages[0].len(), 30, "The page must contain 30 items");

    let expected: Vec<_> = (1..=30).collect();
    let output: Vec<_> = pages.into_iter().flatten().collect();
    assert_eq!(output, expected, "After paginated query with page_size = 30");
}

#[test]
fn pages_three_pages() {
    let pages = collect_number_pages(NumbersClient::new(30, 10));

    assert_eq!(pages.len(), 3, "There should be 3 pages");
    for page in &pages {
        assert_eq!(page.len(), 10, "Each page must contain 10 elements");
    }

    let expected: Vec<_> = (1..=30).collect();
    let output: Vec<_> = pages.into_iter().flatten().collect();
    assert_eq!(output, expected, "After paginated query with page_size = 10");
}

#[test]
fn pages_uneven_split() {
    let pages = collect_number_pages(NumbersClient::new(30, 19));

    assert_eq!(pages.len(), 2, "There should be 2 pages");
    assert_eq!(pages[0].len(), 19, "The first page must contain 19 items");
    assert_eq!(pages[1].len(), 11, "The second page must contain 11 items");

    let expected: Vec<_> = (1..=30).collect();
    let output: Vec<_> = pages.into_iter().flatten().collect();
    assert_eq!(output, expected, "After paginated query with page_size = 19");
}

#[test]
fn pages_consumed_client() {
    let pages = collect_number_pages(NumbersClient::new(48, 13));
    assert_eq!(pages.len(), 4, "Consumed numbers client must produce 4 pages");
}

impl PageQuery for GetNumbersQuery {
    type PageKey = usize;

    fn set_page_key(&mut self, next_key: usize) {
        self.key = next_key;
    }
}

#[test]
fn turned_page_constructors() {
    let page = TurnedPage::new(vec![1usize], Some(GetNumbersQuery { key: 10 }));
    assert!(page.next_request.is_some());
    assert_eq!(page.items, vec![1]);

    let page = TurnedPage::next(vec![2usize], GetNumbersQuery { key: 10 });
    assert_eq!(page.next_request.map(|req| req.key), Some(10));
    assert_eq!(page.items, vec![2]);

    let page: TurnedPage<Vec<usize>, GetNumbersQuery> = TurnedPage::last(vec![3]);
    assert!(page.next_request.is_none());
    assert_eq!(page.items, vec![3]);
}

#[test]
fn page_query_updates_the_key() {
    let mut query = GetNumbersQuery { key: 0 };
    query.set_page_key(7);
    assert_eq!(query.key, 7);
}

#[test]
fn pages_with_borrowed_client() {
    let client = NumbersClient::new(30, 10);

    let mut state = PagesState::new(&client, GetNumbersQuery::default());
    let mut pages = Vec::new();
    loop {
        match request_next_page(&mut state) {
            Ok(Some(items)) => pages.push(items),
            Ok(None) => break,
            Err(()) => panic!("the numbers client never fails"),
        }
    }

    assert_eq!(pages.len(), 3);
    assert_eq!(client.page_size, 10, "the borrowed client stays usable");
}

struct FailingClient;

#[derive(Clone)]
struct FailingQuery;

impl PageTurner<FailingQuery> for FailingClient {
    type PageItems = Vec<usize>;
    type PageError = String;

    fn turn_page(
        &self,
        _request: FailingQuery,
    ) -> Result<TurnedPage<Vec<usize>, FailingQuery>, String> {
        Err("Custom error".to_owned())
    }
}

#[test]
fn pages_end_after_error() {
    let mut state = PagesState::new(FailingClient, FailingQuery);

    let item = request_next_page(&mut state);
    assert!(matches!(item, Err(ref e) if e == "Custom error"));

    let item = request_next_page(&mut state);
    assert!(
        matches!(item, Ok(None)),
        "pages stream must end after an error"
    );
}
