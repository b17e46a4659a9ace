//! Laws of the rate limiter over whole request sequences: what a run of
//! checks against one key decides, and what it leaves in the store.

use vstd::prelude::*;

use crate::limiter::Decision;
use crate::limiter::Options;
use crate::limiter::decision_of;
use crate::limiter::next_count;
use crate::limiter::step_contents;
use crate::limiter::step_decision;
use crate::stores::Record;
use crate::stores::read_result;

verus! {

/// The count one check of key `k` at time `now` charges against contents `m`.
pub open spec fn step_count(m: Map<Seq<char>, Record>, k: Seq<char>, now: u64, window: nat) -> int {
    next_count(read_result(m, k, now, window))
}

/// The store contents after checking key `k` once at each time in `times`,
/// in order, starting from contents `m`.
pub open spec fn run_contents(
    m: Map<Seq<char>, Record>,
    k: Seq<char>,
    times: Seq<u64>,
    window: nat,
) -> Map<Seq<char>, Record>
    decreases times.len(),
{
    if times.len() == 0 {
        m
    } else {
        run_contents(
            step_contents(m, k, times[0], window, step_count(m, k, times[0], window) as usize),
            k,
            times.drop_first(),
            window,
        )
    }
}

/// The decisions a run of checks of key `k` at the times in `times` produces.
pub open spec fn run_decisions(
    m: Map<Seq<char>, Record>,
    k: Seq<char>,
    times: Seq<u64>,
    window: nat,
    options: Options,
) -> Seq<Decision>
    decreases times.len(),
{
    if times.len() == 0 {
        Seq::empty()
    } else {
        seq![step_decision(m, k, times[0], window, options)] + run_decisions(
            step_contents(m, k, times[0], window, step_count(m, k, times[0], window) as usize),
            k,
            times.drop_first(),
            window,
            options,
        )
    }
}

/// A run of in-window checks against a live record counts every request:
/// starting from count `c` begun at `t0`, the record's count grows by one
/// per request, its window start never moves, other keys are untouched, and
/// the `i`th request is decided on count `c + i + 1`.
proof fn lemma_run_in_window(
    m: Map<Seq<char>, Record>,
    k: Seq<char>,
    times: Seq<u64>,
    window: nat,
    options: Options,
    c: usize,
    t0: u64,
)
    requires
        m.contains_key(k),
        m[k].value == c,
        m[k].window_start == t0,
        c + times.len() <= usize::MAX,
        forall|i: int| 0 <= i < times.len() ==> times[i] as int <= t0 + window,
    ensures
        run_contents(m, k, times, window).contains_key(k),
        run_contents(m, k, times, window)[k].value == c + times.len(),
        run_contents(m, k, times, window)[k].window_start == t0,
        forall|k2: Seq<char>|
            k2 != k ==> run_contents(m, k, times, window).contains_key(k2) == m.contains_key(k2),
        forall|k2: Seq<char>|
            k2 != k && m.contains_key(k2) ==> run_contents(m, k, times, window)[k2] == m[k2],
        run_decisions(m, k, times, window, options).len() == times.len(),
        forall|i: int|
            0 <= i < times.len() ==> run_decisions(m, k, times, window, options)[i] == decision_of(
                options,
                (c + i + 1) as usize,
            ),
    decreases times.len(),
{
    if times.len() > 0 {
        let now = times[0];
        assert(crate::stores::live(m, k, now, window));
        let latest = step_count(m, k, now, window) as usize;
        assert(latest == c + 1);
        let m1 = step_contents(m, k, now, window, latest);
        let rest = times.drop_first();
        assert forall|i: int| 0 <= i < rest.len() implies rest[i] as int <= t0 + window by {
            assert(rest[i] == times[i + 1]);
        }
        lemma_run_in_window(m1, k, rest, window, options, latest, t0);
        assert forall|k2: Seq<char>| k2 != k implies run_contents(m, k, times, window).contains_key(
            k2,
        ) == m.contains_key(k2) by {
            assert(m1.contains_key(k2) == m.contains_key(k2));
        }
        assert forall|k2: Seq<char>| k2 != k && m.contains_key(k2) implies run_contents(
            m,
            k,
            times,
            window,
        )[k2] == m[k2] by {
            assert(m1.contains_key(k2));
            assert(m1[k2] == m[k2]);
        }
        let d0 = step_decision(m, k, now, window, options);
        assert(d0 == decision_of(options, (c + 1) as usize));
        let ds = run_decisions(m, k, times, window, options);
        let ds1 = run_decisions(m1, k, rest, window, options);
        assert(ds == seq![d0] + ds1);
        assert forall|i: int| 0 <= i < times.len() implies ds[i] == decision_of(
            options,
            (c + i + 1) as usize,
        ) by {
            if i == 0 {
                assert(ds[0] == d0);
            } else {
                assert(ds[i] == ds1[i - 1]);
            }
        }
    }
}

/// Requests within one window are decided on counts 1, 2, 3, ...: starting
/// with no record for `k`, the `i`th of a run of checks all made within
/// `window` seconds of the first is admitted with count `i + 1` while that
/// stays within the quota, and rejected with the configured quota once it
/// does not. The record's count afterwards is the full number of requests.
pub proof fn lemma_run_counts_every_request(
    m: Map<Seq<char>, Record>,
    k: Seq<char>,
    times: Seq<u64>,
    window: nat,
    options: Options,
)
    requires
        !m.contains_key(k),
        1 <= times.len() <= usize::MAX,
        forall|i: int| 0 <= i < times.len() ==> times[0] <= #[trigger] times[i] && times[i] as int <= times[0] + window,
    ensures
        run_decisions(m, k, times, window, options).len() == times.len(),
        forall|i: int|
            0 <= i < times.len() ==> run_decisions(m, k, times, window, options)[i] == (if i + 1
                <= options.max {
                (Decision::Admit { current: (i + 1) as usize })
            } else {
                (Decision::Reject { max: options.max, window_seconds: options.window_seconds })
            }),
        run_contents(m, k, times, window).contains_key(k),
        run_contents(m, k, times, window)[k].value == times.len(),
        run_contents(m, k, times, window)[k].window_start == times[0],
        forall|k2: Seq<char>|
            k2 != k ==> run_contents(m, k, times, window).contains_key(k2) == m.contains_key(k2),
        forall|k2: Seq<char>|
            k2 != k && m.contains_key(k2) ==> run_contents(m, k, times, window)[k2] == m[k2],
    decreases times.len(),
{
    let now = times[0];
    assert(!crate::stores::live(m, k, now, window));
    let latest = step_count(m, k, now, window) as usize;
    assert(latest == 1);
    let m1 = step_contents(m, k, now, window, latest);
    assert(m1[k] == Record { value: 1usize, window_start: now });
    let rest = times.drop_first();
    assert forall|i: int| 0 <= i < rest.len() implies rest[i] as int <= now + window by {
        assert(rest[i] == times[i + 1]);
    }
    lemma_run_in_window(m1, k, rest, window, options, 1, now);
    assert forall|k2: Seq<char>| k2 != k implies run_contents(m, k, times, window).contains_key(k2)
        == m.contains_key(k2) by {
        assert(m1.contains_key(k2) == m.contains_key(k2));
    }
    assert forall|k2: Seq<char>| k2 != k && m.contains_key(k2) implies run_contents(
        m,
        k,
        times,
        window,
    )[k2] == m[k2] by {
        assert(m1.contains_key(k2));
        assert(m1[k2] == m[k2]);
    }
    let d0 = step_decision(m, k, now, window, options);
    let ds = run_decisions(m, k, times, window, options);
    let ds1 = run_decisions(m1, k, rest, window, options);
    assert(ds == seq![d0] + ds1);
    assert forall|i: int| 0 <= i < times.len() implies ds[i] == (if i + 1 <= options.max {
        (Decision::Admit { current: (i + 1) as usize })
    } else {
        (Decision::Reject { max: options.max, window_seconds: options.window_seconds })
    }) by {
        if i == 0 {
            assert(ds[0] == d0);
            assert(d0 == decision_of(options, 1usize));
        } else {
            assert(ds[i] == ds1[i - 1]);
            assert(ds1[i - 1] == decision_of(options, (i + 1) as usize));
        }
    }
}

/// While a run stays within the quota, every request is admitted and the
/// `i`th admitted decision reports count `i + 1`.
pub proof fn lemma_within_quota_all_admitted(
    m: Map<Seq<char>, Record>,
    k: Seq<char>,
    times: Seq<u64>,
    window: nat,
    options: Options,
)
    requires
        !m.contains_key(k),
        1 <= times.len() <= options.max,
        forall|i: int| 0 <= i < times.len() ==> times[0] <= #[trigger] times[i] && times[i] as int <= times[0] + window,
    ensures
        run_decisions(m, k, times, window, options).len() == times.len(),
        forall|i: int|
            0 <= i < times.len() ==> run_decisions(m, k, times, window, options)[i] == (
            Decision::Admit { current: (i + 1) as usize }),
        run_decisions(m, k, times, window, options).last() == (Decision::Admit {
            current: times.len() as usize,
        }),
{
    lemma_run_counts_every_request(m, k, times, window, options);
}

/// Once the count passes the quota within one window, that request and
/// every later in-window request is rejected, reporting the exact
/// configured quota and window.
pub proof fn lemma_over_quota_rejected(
    m: Map<Seq<char>, Record>,
    k: Seq<char>,
    times: Seq<u64>,
    window: nat,
    options: Options,
)
    requires
        !m.contains_key(k),
        1 <= times.len() <= usize::MAX,
        forall|i: int| 0 <= i < times.len() ==> times[0] <= #[trigger] times[i] && times[i] as int <= times[0] + window,
    ensures
        run_decisions(m, k, times, window, options).len() == times.len(),
        forall|i: int|
            options.max <= i < times.len() ==> run_decisions(m, k, times, window, options)[i] == (
            Decision::Reject { max: options.max, window_seconds: options.window_seconds }),
{
    lemma_run_counts_every_request(m, k, times, window, options);
}

/// One check of key `k` never touches another key's counter.
pub proof fn lemma_distinct_keys_unaffected(
    m: Map<Seq<char>, Record>,
    k: Seq<char>,
    now: u64,
    window: nat,
    latest: usize,
    k2: Seq<char>,
)
    requires
        k2 != k,
    ensures
        step_contents(m, k, now, window, latest).contains_key(k2) == m.contains_key(k2),
        m.contains_key(k2) ==> step_contents(m, k, now, window, latest)[k2] == m[k2],
{
}

/// Once `window` seconds have elapsed since a record's window began, a
/// check treats the key as fresh again, however high the count was: the
/// request is charged count 1, admitted under any positive quota, and the
/// record restarts at `now` with count 1.
pub proof fn lemma_expired_window_resets(
    m: Map<Seq<char>, Record>,
    k: Seq<char>,
    now: u64,
    window: nat,
    options: Options,
)
    requires
        m.contains_key(k),
        now > m[k].window_start + window,
    ensures
        read_result(m, k, now, window) is None,
        step_count(m, k, now, window) == 1,
        options.max >= 1 ==> step_decision(m, k, now, window, options) == (Decision::Admit {
            current: 1usize,
        }),
        step_contents(m, k, now, window, 1)[k] == (Record { value: 1usize, window_start: now }),
{
}

} // verus!
