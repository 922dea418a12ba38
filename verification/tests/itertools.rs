use page_turner::itertools::{Chunk, Chunks, ChunksExt, RequestIter};
use page_turner::{Limit, RequestAhead};

struct DumbRequest {
    page: usize,
}

impl Default for DumbRequest {
    fn default() -> Self {
        Self { page: 1 }
    }
}

impl RequestAhead for DumbRequest {
    fn next_request(&self) -> Self {
        Self { page: self.page + 1 }
    }
}

fn take_last(mut iter: RequestIter<DumbRequest>, pulls: usize) -> Option<DumbRequest> {
    let mut last = None;
    for _ in 0..pulls {
        match iter.next() {
            Some(req) => last = Some(req),
            None => break,
        }
    }
    last
}

fn collect_chunk(
    mut chunk: Chunk<DumbRequest>,
    chunks: &mut Chunks<RequestIter<DumbRequest>>,
) -> Vec<DumbRequest> {
    let mut requests = Vec::new();
    while let Some(req) = chunk.next(chunks) {
        requests.push(req);
    }
    requests
}

#[test]
fn itertools_request_iter() {
    let last = take_last(RequestIter::new(DumbRequest::default(), Limit::Unbounded), 20);

    assert_eq!(last.map(|req| req.page), Some(20));

    let last = take_last(RequestIter::new(DumbRequest::default(), Limit::MaxPages(8)), 20);

    assert_eq!(last.map(|req| req.page), Some(8));

    let last = take_last(RequestIter::new(DumbRequest::default(), Limit::MaxPages(0)), 20);

    assert_eq!(last.map(|req| req.page), None);
}

#[test]
fn itertools_chunks_ext() {
    let mut chunks = RequestIter::new(DumbRequest::default(), Limit::MaxPages(20)).chunks(4);
    let mut chunks_count = 0;
    while let Some(chunk) = chunks.next_chunk() {
        let requests = collect_chunk(chunk, &mut chunks);

        assert_eq!(requests.len(), 4);
        assert_eq!(requests.last().unwrap().page % 4, 0);

        chunks_count += 1;
    }

    assert_eq!(chunks_count, 5);

    let mut chunks = RequestIter::new(DumbRequest::default(), Limit::MaxPages(13)).chunks(4);

    let mut chunks_count = 0;
    while let Some(chunk) = chunks.next_chunk() {
        let requests = collect_chunk(chunk, &mut chunks);

        if chunks_count != 3 {
            assert_eq!(requests.len(), 4);
            assert_eq!(requests.last().unwrap().page % 4, 0);
        } else {
            assert_eq!(requests.len(), 1);
            assert_eq!(requests.last().unwrap().page, 13);
        }

        chunks_count += 1;
    }

    assert_eq!(chunks_count, 4);

    let mut chunks = RequestIter::new(DumbRequest::default(), Limit::MaxPages(20)).chunks(1);
    let mut chunks_count = 0;
    while let Some(chunk) = chunks.next_chunk() {
        let requests = collect_chunk(chunk, &mut chunks);

        assert_eq!(requests.len(), 1);
        assert_eq!(requests.last().unwrap().page - 1, chunks_count);

        chunks_count += 1;
    }

    assert_eq!(chunks_count, 20);

    let mut chunks = RequestIter::new(DumbRequest::default(), Limit::Unbounded).chunks(0);
    assert!(chunks.next_chunk().is_none())
}

#[test]
fn mod_request_iter() {
    let last = take_last(RequestIter::new(DumbRequest::default(), Limit::Unbounded), 20);

    assert_eq!(last.map(|req| req.page), Some(20));

    let last = take_last(RequestIter::new(DumbRequest::default(), Limit::MaxPages(8)), 20);

    assert_eq!(last.map(|req| req.page), Some(8));
}

#[test]
fn mod_chunks_ext() {
    let mut chunks = RequestIter::new(DumbRequest::default(), Limit::MaxPages(20)).chunks(4);
    let mut chunks_count = 0;
    while let Some(chunk) = chunks.next_chunk() {
        let requests = collect_chunk(chunk, &mut chunks);

        assert_eq!(requests.len(), 4);
        assert_eq!(requests.last().unwrap().page % 4, 0);

        chunks_count += 1;
    }

    assert_eq!(chunks_count, 5);

    let mut chunks = RequestIter::new(DumbRequest::default(), Limit::MaxPages(13)).chunks(4);

    let mut chunks_count = 0;
    while let Some(chunk) = chunks.next_chunk() {
        let requests = collect_chunk(chunk, &mut chunks);

        if chunks_count != 3 {
            assert_eq!(requests.len(), 4);
            assert_eq!(requests.last().unwrap().page % 4, 0);
        } else {
            assert_eq!(requests.len(), 1);
            assert_eq!(requests.last().unwrap().page, 13);
        }

        chunks_count += 1;
    }

    assert_eq!(chunks_count, 4);

    let mut chunks = RequestIter::new(DumbRequest::default(), Limit::Unbounded).chunks(0);
    assert!(chunks.next_chunk().is_none())
}

#[test]
fn chunk_count_is_the_rounded_up_quotient() {
    // ceil(m / k) chunks: all of size k but the last, which gets m % k
    // (or k when k divides m).
    for (m, k, expected_chunks, expected_last) in
        [(20, 4, 5, 4), (13, 4, 4, 1), (10, 3, 4, 1), (9, 3, 3, 3), (1, 7, 1, 1)]
    {
        let mut chunks = RequestIter::new(DumbRequest::default(), Limit::MaxPages(m)).chunks(k);
        let mut sizes = Vec::new();
        while let Some(chunk) = chunks.next_chunk() {
            sizes.push(collect_chunk(chunk, &mut chunks).len());
        }

        assert_eq!(sizes.len(), expected_chunks, "m = {m}, k = {k}");
        for size in &sizes[..sizes.len() - 1] {
            assert_eq!(*size, k, "m = {m}, k = {k}");
        }
        assert_eq!(*sizes.last().unwrap(), expected_last, "m = {m}, k = {k}");
    }
}

#[test]
fn chunk_pulls_on_demand() {
    let mut chunks = RequestIter::new(DumbRequest::default(), Limit::MaxPages(10)).chunks(4);

    // Opening a batch consumes only its seed, and each element past the
    // seed is pulled only when asked for...
    let mut chunk = chunks.next_chunk().unwrap();
    assert_eq!(chunk.next(&mut chunks).map(|req| req.page), Some(1));
    assert_eq!(chunk.next(&mut chunks).map(|req| req.page), Some(2));
    drop(chunk);

    // ...so whatever a half-consumed batch never pulled stays in the
    // sequence for later refills and batches.
    assert_eq!(chunks.next_item().map(|req| req.page), Some(3));

    let chunk = chunks.next_chunk().unwrap();
    let requests = collect_chunk(chunk, &mut chunks);
    assert_eq!(requests.first().map(|req| req.page), Some(4));
    assert_eq!(requests.last().map(|req| req.page), Some(7));
}

#[test]
fn next_item_bypasses_chunk_boundaries() {
    let mut chunks = RequestIter::new(DumbRequest::default(), Limit::MaxPages(3)).chunks(2);

    assert_eq!(chunks.next_item().map(|req| req.page), Some(1));
    assert_eq!(chunks.next_item().map(|req| req.page), Some(2));
    assert_eq!(chunks.next_item().map(|req| req.page), Some(3));
    assert_eq!(chunks.next_item().map(|req| req.page), None);
}
