//! The rate-limiting decision engine: reads a key's counter, increments it,
//! persists the new count, and admits or rejects the request.

use vstd::prelude::*;

use crate::decimal::dec_seq;
use crate::decimal::push_decimal;
use crate::stores::Record;
use crate::stores::Store;
use crate::stores::StoreError;
use crate::stores::live;
use crate::stores::read_result;
use crate::stores::written;

verus! {

/// Configuration of a rate limiter: at most `max` admitted requests per
/// window of `window_seconds` seconds. Immutable once a limiter is built.
#[derive(Debug, Clone, Copy, PartialEq, Eq, Structural)]
pub struct Options {
    pub max: usize,
    pub window_seconds: usize,
}

/// The outcome of one rate-limit check. An admitted request reports the
/// post-increment count; a rejected one reports the configured quota, for
/// the "too many requests" response.
#[derive(Debug, Clone, Copy, PartialEq, Eq, Structural)]
pub enum Decision {
    Admit { current: usize },
    Reject { max: usize, window_seconds: usize },
}

/// The incremented count a request is charged: one more than the live
/// counter, or one for an absent counter.
pub open spec fn next_count(current: Option<usize>) -> int {
    match current {
        Some(c) => c + 1,
        None => 1,
    }
}

/// The decision for a request charged count `latest` under `options`.
pub open spec fn decision_of(options: Options, latest: usize) -> Decision {
    if latest > options.max {
        Decision::Reject { max: options.max, window_seconds: options.window_seconds }
    } else {
        Decision::Admit { current: latest }
    }
}

/// The store contents after one full check of key `k` at time `now`: the
/// key's counter reads `latest`; a live record keeps its window start, an
/// absent or expired one starts a new window at `now`.
pub open spec fn step_contents(
    m: Map<Seq<char>, Record>,
    k: Seq<char>,
    now: u64,
    window: nat,
    latest: usize,
) -> Map<Seq<char>, Record> {
    m.insert(
        k,
        Record {
            value: latest,
            window_start: if live(m, k, now, window) {
                m[k].window_start
            } else {
                now
            },
        },
    )
}

/// The decision one full check of key `k` at time `now` produces.
pub open spec fn step_decision(
    m: Map<Seq<char>, Record>,
    k: Seq<char>,
    now: u64,
    window: nat,
    options: Options,
) -> Decision {
    decision_of(options, next_count(read_result(m, k, now, window)) as usize)
}

/// Charge one request against the counter it read: compute the incremented
/// count and admit it while the count stays within `options.max`.
pub fn decide(options: &Options, current: Option<usize>) -> (r: (usize, Decision))
    requires
        current matches Some(c) ==> c < usize::MAX,
    ensures
        r.0 == next_count(current),
        r.1 == decision_of(*options, r.0),
{
    let latest: usize = match current {
        Some(c) => c + 1,
        None => 1,
    };
    if latest > options.max {
        (latest, Decision::Reject { max: options.max, window_seconds: options.window_seconds })
    } else {
        (latest, Decision::Admit { current: latest })
    }
}

/// A rate limiter: a quota and the counter store it charges requests to.
pub struct RateLimiter<T: Store> {
    pub options: Options,
    pub store: T,
}

impl<T: Store> RateLimiter<T> {
    /// The limiter is built over a well-formed store whose expiry window is
    /// the configured one.
    pub open spec fn wf(&self) -> bool {
        &&& self.store.inv()
        &&& self.store.window() == self.options.window_seconds as nat
    }

    pub fn new(options: Options, store: T) -> (r: Self)
        requires
            store.inv(),
            store.window() == options.window_seconds as nat,
        ensures
            r.wf(),
            r.options == options,
            r.store == store,
    {
        RateLimiter { options, store }
    }

    /// One rate-limit check: read the key's live counter, charge this
    /// request, persist the new count whatever the outcome, and decide.
    /// A `StoreError` from either store call aborts the check and is
    /// handed to the caller (no retry, no silent default).
    pub fn check(&mut self, key: &str, now: u64) -> (r: Result<Decision, StoreError>)
        requires
            old(self).wf(),
            live(old(self).store.contents(), key@, now, old(self).store.window())
                ==> old(self).store.contents()[key@].value < usize::MAX,
        ensures
            final(self).wf(),
            final(self).options == old(self).options,
            r matches Ok(d) ==> ({
                let m = old(self).store.contents();
                let w = old(self).store.window();
                &&& d == step_decision(m, key@, now, w, old(self).options)
                &&& final(self).store.contents() == step_contents(
                    m,
                    key@,
                    now,
                    w,
                    next_count(read_result(m, key@, now, w)) as usize,
                )
            }),
    {
        let ghost m = old(self).store.contents();
        let ghost w = old(self).store.window();
        let current = match self.store.get(key, now) {
            Ok(v) => v,
            Err(e) => {
                return Err(e);
            },
        };
        let (latest, decision) = decide(&self.options, current);
        match self.store.update(key, latest, now) {
            Ok(u) => (),
            Err(e) => {
                return Err(e);
            },
        };
        proof {
            let after_get = crate::stores::after_read(m, key@, now, w);
            assert(self.store.contents() == written(after_get, key@, latest, now));
            assert(self.store.contents() =~= step_contents(m, key@, now, w, latest));
        }
        Ok(decision)
    }
}

/// The body of the "too many requests" rejection: the configured quota and
/// window, rendered as `"{max} max requests per {window_seconds}"`.
pub fn rejection_body(max: usize, window_seconds: usize) -> (r: String)
    ensures
        r@ == dec_seq(max as nat) + " max requests per "@ + dec_seq(window_seconds as nat),
{
    let mut s = String::new();
    push_decimal(&mut s, max);
    s.append(" max requests per ");
    push_decimal(&mut s, window_seconds);
    proof {
        assert(s@ =~= dec_seq(max as nat) + " max requests per "@ + dec_seq(
            window_seconds as nat,
        ));
    }
    s
}

} // verus!
