//! The request-sequence generator and the chunker that groups its output
//! into batches for the look-ahead state machines.

use vstd::prelude::*;

use crate::{Limit, RequestAhead};

verus! {

use vstd::arithmetic::div_mod::{
    lemma_fundamental_div_mod,
    lemma_fundamental_div_mod_converse,
    lemma_mod_pos_bound,
};

/// `min(a + b, usize::MAX)`: the generator's position counter saturates
/// instead of wrapping, so the generator stays total on endless chains.
pub open spec fn sat_add(a: nat, b: nat) -> nat {
    if a + b <= usize::MAX {
        a + b
    } else {
        usize::MAX as nat
    }
}

/// Generates the chain of requests for a look-ahead stream: the starting
/// request, then whatever `next_request` derives from it, and so on, capped
/// by a [`Limit`]. Performs no fetching. Single-pass: a fresh generator is
/// built for every stream.
pub struct RequestIter<R> {
    cur_request: Option<R>,
    limit: Limit,
    counter: usize,
}

impl<R> RequestIter<R> {
    /// How many requests have been yielded so far; equally, the index of
    /// the request that the next successful [`RequestIter::next`] yields.
    pub closed spec fn yielded(&self) -> nat {
        self.counter as nat
    }

    pub closed spec fn limit(&self) -> Limit {
        self.limit
    }

    /// The request the generator would yield next.
    pub closed spec fn current(&self) -> Option<R> {
        self.cur_request
    }

    /// The generator always holds a request to yield: established by the
    /// constructor and preserved by `next`, which derives a successor for
    /// every request it gives out.
    pub open spec fn well_formed(&self) -> bool {
        self.current() is Some
    }

    /// Whether the limit still allows a request to be yielded.
    pub open spec fn limit_allows(&self) -> bool {
        match self.limit() {
            Limit::Unbounded => true,
            Limit::MaxPages(n) => self.yielded() < n,
        }
    }

    /// How many of the next `k` pulls would yield a request.
    pub open spec fn takeable(&self, k: nat) -> nat {
        match self.limit() {
            Limit::Unbounded => k,
            Limit::MaxPages(n) => {
                if self.yielded() + k <= n {
                    k
                } else if self.yielded() < n {
                    (n - self.yielded()) as nat
                } else {
                    0
                }
            },
        }
    }

    pub fn new(req: R, limit: Limit) -> (it: Self)
        ensures
            it.well_formed(),
            it.yielded() == 0,
            it.limit() == limit,
            it.current() == Some(req),
    {
        Self { cur_request: Some(req), limit, counter: 0 }
    }
}

impl<R: RequestAhead> RequestIter<R> {
    /// Yield the next request of the chain, or `None` once the limit is
    /// reached.
    ///
    /// Under `Limit::MaxPages(n)` a request comes out only while fewer
    /// than `n` have been yielded, and every yield raises that count by
    /// one — so at most `n` requests are ever produced; and because a
    /// well-formed generator always holds a request, a yield happens
    /// whenever the count is below `n` — so exactly `n` are produced when
    /// the caller keeps pulling.
    pub fn next(&mut self) -> (r: Option<R>)
        requires
            old(self).well_formed(),
        ensures
            final(self).well_formed(),
            final(self).limit() == old(self).limit(),
            r is Some <==> old(self).limit_allows(),
            old(self).limit_allows() ==> {
                &&& r == old(self).current()
                &&& final(self).yielded() == sat_add(old(self).yielded(), 1)
            },
            !old(self).limit_allows() ==> *final(self) == *old(self),
    {
        if let Limit::MaxPages(pages) = self.limit {
            if self.counter >= pages {
                return None;
            }
        }

        let next_request = match &self.cur_request {
            Some(cur) => Some(cur.next_request()),
            None => None,
        };

        let request_to_ret = self.cur_request.take();

        self.cur_request = next_request;
        if self.counter < usize::MAX {
            self.counter = self.counter + 1;
        }

        request_to_ret
    }
}

/// Extension that wraps a request generator into a [`Chunks`] of a fixed
/// batch size.
pub trait ChunksExt: Sized {
    fn chunks(self, chunk_size: usize) -> (c: Chunks<Self>)
        ensures
            c.size() == chunk_size as nat,
            c.inner() == self,
    ;
}

impl<R: RequestAhead> ChunksExt for RequestIter<R> {
    fn chunks(self, chunk_size: usize) -> (c: Chunks<Self>) {
        Chunks::new(self, chunk_size)
    }
}

/// Groups the output of a request generator into batches of a fixed size.
/// A look-ahead stream takes one full batch to fill its window and then
/// single requests ([`Chunks::next_item`]) to slide it.
pub struct Chunks<I> {
    iter: I,
    chunk_size: usize,
}

impl<I> Chunks<I> {
    /// The configured batch size.
    pub closed spec fn size(&self) -> nat {
        self.chunk_size as nat
    }

    /// The wrapped generator.
    pub closed spec fn inner(&self) -> I {
        self.iter
    }

    pub fn new(iter: I, chunk_size: usize) -> (c: Self)
        ensures
            c.size() == chunk_size as nat,
            c.inner() == iter,
    {
        Self { iter, chunk_size }
    }
}

impl<R: RequestAhead> Chunks<RequestIter<R>> {
    /// Open the next batch: pull one request off the generator to seed a
    /// [`Chunk`], or return `None` when the batch size is zero or the
    /// generator is exhausted. The chunk pulls its other requests from
    /// this chunker on demand, so nothing beyond the seed is consumed
    /// here.
    pub fn next_chunk(&mut self) -> (c: Option<Chunk<R>>)
        requires
            old(self).inner().well_formed(),
        ensures
            final(self).size() == old(self).size(),
            final(self).inner().well_formed(),
            final(self).inner().limit() == old(self).inner().limit(),
            c is Some <==> (old(self).size() > 0 && old(self).inner().limit_allows()),
            c matches Some(chunk) ==> {
                &&& chunk.seed() == old(self).inner().current()
                &&& chunk.yielded() == 0
                &&& final(self).inner().yielded() == sat_add(old(self).inner().yielded(), 1)
            },
            c is None ==> final(self).inner() == old(self).inner(),
    {
        if self.chunk_size == 0 {
            return None;
        }
        match self.iter.next() {
            Some(first) => Some(Chunk::new(first)),
            None => None,
        }
    }

    /// Pull a single request straight off the generator, bypassing batch
    /// boundaries: the sliding-window refill of the look-ahead streams.
    pub fn next_item(&mut self) -> (r: Option<R>)
        requires
            old(self).inner().well_formed(),
        ensures
            final(self).size() == old(self).size(),
            final(self).inner().well_formed(),
            final(self).inner().limit() == old(self).inner().limit(),
            r is Some <==> old(self).inner().limit_allows(),
            r is Some ==> {
                &&& r == old(self).inner().current()
                &&& final(self).inner().yielded() == sat_add(old(self).inner().yielded(), 1)
            },
            r is None ==> final(self).inner() == old(self).inner(),
    {
        self.iter.next()
    }
}

/// One batch in progress: the seed request that opened it and a count of
/// the requests handed out so far. Requests beyond the seed are pulled
/// from the chunker on demand, one per [`Chunk::next`] call, so whatever
/// the chunk does not hand out stays in the generator for later batches
/// and refills.
pub struct Chunk<R> {
    first: Option<R>,
    yielded_count: usize,
}

impl<R> Chunk<R> {
    /// The seed request, until it has been handed out.
    pub closed spec fn seed(&self) -> Option<R> {
        self.first
    }

    /// How many requests this chunk has handed out.
    pub closed spec fn yielded(&self) -> nat {
        self.yielded_count as nat
    }

    pub fn new(first: R) -> (c: Self)
        ensures
            c.seed() == Some(first),
            c.yielded() == 0,
    {
        Self { first: Some(first), yielded_count: 0 }
    }
}

impl<R: RequestAhead> Chunk<R> {
    /// Hand out the next request of the batch: the seed first, then one
    /// request pulled from `chunks` on demand per call, up to the batch
    /// size in total. Requests never pulled remain in the generator.
    pub fn next(&mut self, chunks: &mut Chunks<RequestIter<R>>) -> (r: Option<R>)
        requires
            old(chunks).inner().well_formed(),
        ensures
            final(chunks).size() == old(chunks).size(),
            final(chunks).inner().well_formed(),
            final(chunks).inner().limit() == old(chunks).inner().limit(),
            old(self).yielded() >= old(chunks).size() ==> {
                &&& r is None
                &&& *final(self) == *old(self)
                &&& *final(chunks) == *old(chunks)
            },
            (old(self).yielded() < old(chunks).size() && old(self).seed() is Some) ==> {
                &&& r == old(self).seed()
                &&& final(self).seed() is None
                &&& final(self).yielded() == old(self).yielded() + 1
                &&& *final(chunks) == *old(chunks)
            },
            (old(self).yielded() < old(chunks).size() && old(self).seed() is None) ==> {
                &&& final(self).seed() is None
                &&& final(self).yielded() == old(self).yielded() + 1
                &&& (r is Some <==> old(chunks).inner().limit_allows())
                &&& r is Some ==> {
                    &&& r == old(chunks).inner().current()
                    &&& final(chunks).inner().yielded() == sat_add(
                        old(chunks).inner().yielded(),
                        1,
                    )
                }
                &&& r is None ==> final(chunks).inner() == old(chunks).inner()
            },
    {
        if self.yielded_count < chunks.chunk_size {
            self.yielded_count = self.yielded_count + 1;
            match self.first.take() {
                Some(first) => Some(first),
                None => chunks.next_item(),
            }
        } else {
            None
        }
    }
}

/// The sizes of the successive batches a chunker of size `k` cuts a
/// supply of `m` requests into: full batches of `k`, and a final shorter
/// one when `k` does not divide `m`. A batch size of zero cuts nothing.
pub open spec fn chunk_sizes(m: nat, k: nat) -> Seq<nat>
    decreases m,
{
    if k == 0 || m == 0 {
        Seq::empty()
    } else if m <= k {
        seq![m]
    } else {
        seq![k] + chunk_sizes((m - k) as nat, k)
    }
}

/// A chunker of size `k >= 1` over a supply of `m` requests yields
/// `ceil(m / k)` batches; each holds `k` requests except possibly the
/// last, which holds `m % k` (or `k`, when `k` divides `m`). Each batch
/// matches one `next_chunk` call: a call with `n - yielded() == m`
/// returns a chunk of `takeable(k) == chunk_sizes(m, k)[0]` requests.
pub proof fn lemma_chunk_sizes(m: nat, k: nat)
    requires
        1 <= k,
    ensures
        chunk_sizes(m, k).len() == (m + k - 1) / (k as int),
        forall|i: int|
            0 <= i < chunk_sizes(m, k).len() - 1 ==> chunk_sizes(m, k)[i] == k,
        m > 0 ==> chunk_sizes(m, k).last() == (if m as int % (k as int) == 0 {
            k as int
        } else {
            m as int % (k as int)
        }),
    decreases m,
{
    if m == 0 {
        lemma_fundamental_div_mod_converse((k - 1) as int, k as int, 0, (k - 1) as int);
    } else if m <= k {
        lemma_fundamental_div_mod_converse((m + k - 1) as int, k as int, 1, (m - 1) as int);
        lemma_fundamental_div_mod_converse(m as int, k as int, if m == k {
            1int
        } else {
            0int
        }, if m == k {
            0int
        } else {
            m as int
        });
    } else {
        let m2 = (m - k) as nat;
        lemma_chunk_sizes(m2, k);
        lemma_fundamental_div_mod((m2 + k - 1) as int, k as int);
        lemma_mod_pos_bound((m2 + k - 1) as int, k as int);
        let q = (m2 + k - 1) as int / k as int;
        let r = (m2 + k - 1) as int % k as int;
        assert((m + k - 1) as int == (q + 1) * (k as int) + r) by (nonlinear_arith)
            requires
                (m2 + k - 1) as int == (k as int) * q + r,
                m == m2 + k,
        ;
        lemma_fundamental_div_mod_converse((m + k - 1) as int, k as int, q + 1, r);
        lemma_fundamental_div_mod(m2 as int, k as int);
        lemma_mod_pos_bound(m2 as int, k as int);
        let q2 = m2 as int / k as int;
        let r2 = m2 as int % k as int;
        assert(m as int == (q2 + 1) * (k as int) + r2) by (nonlinear_arith)
            requires
                m2 as int == (k as int) * q2 + r2,
                m == m2 + k,
        ;
        lemma_fundamental_div_mod_converse(m as int, k as int, q2 + 1, r2);
    }
}

} // verus!
