//! Sliding windower: assigns wall-clock-timed items to zero or more windows,
//! tracks open windows, reports late arrivals against a watermark, drains
//! closed windows, and snapshots its registry.
//!
//! Windows are indexed by a signed key `k`; window `k` opens at
//! `align_to + offset * k` (inclusive) and closes `length` later (exclusive).
//! Key zero is the window that opens at the alignment instant; negative keys
//! lie before it. `offset == length` tiles time without overlap,
//! `offset < length` overlaps, and `offset > length` leaves gaps.

use vstd::prelude::*;

use crate::math::ceil_div;
use crate::math::div_ceil_i64;
use crate::math::div_floor_i64;
use crate::math::floor_div;
use crate::math::lemma_ceil_div_bounds;
use crate::math::lemma_ceil_div_from_floor;
use crate::math::lemma_floor_div_bounds;
use crate::errors::ConfigError;
use crate::MAX_TIME_MILLIS;

verus! {

/// Instants and durations the windowing arithmetic accepts: bounded so that
/// window boundaries can be computed in `i64` without overflow.
pub open spec fn valid_time(t: int) -> bool {
    -MAX_TIME_MILLIS <= t <= MAX_TIME_MILLIS
}

/// Signed index of a window relative to the alignment instant.
#[derive(Clone, Copy, Debug, PartialEq, Eq, Structural)]
pub struct WindowKey(pub i64);

/// Open (inclusive) and close (exclusive) instants of a window, in
/// milliseconds.
#[derive(Clone, Copy, Debug, PartialEq, Eq, Structural)]
pub struct WindowMetadata {
    pub open_time: i64,
    pub close_time: i64,
}

/// Outcome of routing an item to a window that the watermark has already
/// passed: the item is late for that window.
#[derive(Clone, Copy, Debug, PartialEq, Eq, Structural)]
pub enum InsertError {
    Late(WindowKey),
}

/// Shape of the window lattice: window length, stride between adjacent
/// window starts, and the instant window zero opens at.
#[derive(Clone, Copy, Debug, PartialEq, Eq, Structural)]
pub struct SlidingConfig {
    pub length_millis: i64,
    pub offset_millis: i64,
    pub align_to_millis: i64,
}

impl SlidingConfig {
    /// Positive durations, and everything inside the supported time range.
    pub open spec fn wf(self) -> bool {
        &&& 0 < self.length_millis <= MAX_TIME_MILLIS
        &&& 0 < self.offset_millis <= MAX_TIME_MILLIS
        &&& valid_time(self.align_to_millis as int)
    }

    /// Instant at which window `k` opens (inclusive).
    pub open spec fn open_time_of(self, k: int) -> int {
        self.align_to_millis + self.offset_millis * k
    }

    /// Instant at which window `k` closes (exclusive).
    pub open spec fn close_time_of(self, k: int) -> int {
        self.open_time_of(k) + self.length_millis
    }

    /// Window `k` contains instant `t`: inclusive of its open time,
    /// exclusive of its close time.
    pub open spec fn window_hits(self, k: int, t: int) -> bool {
        self.open_time_of(k) <= t < self.close_time_of(k)
    }

    /// Index of the earliest window whose close time lies after `t`.
    pub open spec fn first_candidate(self, t: int) -> int {
        floor_div(t - self.align_to_millis - self.length_millis, self.offset_millis as int) + 1
    }

    /// Number of consecutive window indices that can contain any one
    /// instant.
    pub open spec fn candidate_count(self) -> int {
        ceil_div(self.length_millis as int, self.offset_millis as int)
    }
}

/// Window opens are monotone in the key.
pub proof fn lemma_open_time_monotone(cfg: SlidingConfig, k1: int, k2: int)
    requires
        cfg.wf(),
        k1 <= k2,
    ensures
        cfg.open_time_of(k1) <= cfg.open_time_of(k2),
{
    assert(cfg.offset_millis * k1 <= cfg.offset_millis * k2) by (nonlinear_arith)
        requires
            cfg.offset_millis > 0,
            k1 <= k2,
    ;
}

/// Windows before the first candidate have already closed at `t`.
pub proof fn lemma_before_candidates_closed(cfg: SlidingConfig, t: int, k: int)
    requires
        cfg.wf(),
        k < cfg.first_candidate(t),
    ensures
        cfg.close_time_of(k) <= t,
{
    let x = t - cfg.align_to_millis - cfg.length_millis;
    let d = cfg.offset_millis as int;
    let fd = floor_div(x, d);
    lemma_floor_div_bounds(x, d);
    assert(d * k <= d * fd) by (nonlinear_arith)
        requires
            d > 0,
            k <= fd,
    ;
    assert(cfg.offset_millis * k == d * k);
}

/// Windows at or after the first candidate close strictly after `t`.
pub proof fn lemma_candidates_close_after(cfg: SlidingConfig, t: int, k: int)
    requires
        cfg.wf(),
        k >= cfg.first_candidate(t),
    ensures
        cfg.close_time_of(k) > t,
{
    let x = t - cfg.align_to_millis - cfg.length_millis;
    let d = cfg.offset_millis as int;
    let fd = floor_div(x, d);
    lemma_floor_div_bounds(x, d);
    assert(d * (fd + 1) <= d * k) by (nonlinear_arith)
        requires
            d > 0,
            fd + 1 <= k,
    ;
    assert(d * (fd + 1) == d * fd + d) by (nonlinear_arith);
    assert(cfg.offset_millis * k == d * k);
}

/// Windows past the candidate range open strictly after `t`.
pub proof fn lemma_past_candidates_open_late(cfg: SlidingConfig, t: int, k: int)
    requires
        cfg.wf(),
        k >= cfg.first_candidate(t) + cfg.candidate_count(),
    ensures
        cfg.open_time_of(k) > t,
{
    let x = t - cfg.align_to_millis - cfg.length_millis;
    let d = cfg.offset_millis as int;
    let n = cfg.length_millis as int;
    let fd = floor_div(x, d);
    let num = ceil_div(n, d);
    lemma_floor_div_bounds(x, d);
    lemma_ceil_div_bounds(n, d);
    assert(d * (fd + 1 + num) == d * fd + d + d * num) by (nonlinear_arith);
    assert(d * (fd + 1 + num) <= d * k) by (nonlinear_arith)
        requires
            d > 0,
            fd + 1 + num <= k,
    ;
    assert(cfg.offset_millis * k == d * k);
}

/// Two distinct windows can contain the same instant only when adjacent
/// window starts lie closer together than a window is long.
pub proof fn lemma_two_hits_need_overlap(cfg: SlidingConfig, t: int, k1: int, k2: int)
    requires
        cfg.wf(),
        k1 < k2,
        cfg.window_hits(k1, t),
        cfg.window_hits(k2, t),
    ensures
        cfg.offset_millis < cfg.length_millis,
{
    let d = cfg.offset_millis as int;
    assert(d * k2 - d * k1 >= d) by (nonlinear_arith)
        requires
            d > 0,
            k1 < k2,
    ;
}

/// When strides are no longer than windows, every instant lies in at least
/// one window: the first candidate.
pub proof fn lemma_no_gaps(cfg: SlidingConfig, t: int)
    requires
        cfg.wf(),
        cfg.offset_millis <= cfg.length_millis,
    ensures
        cfg.window_hits(cfg.first_candidate(t), t),
{
    let x = t - cfg.align_to_millis - cfg.length_millis;
    let d = cfg.offset_millis as int;
    let fd = floor_div(x, d);
    lemma_floor_div_bounds(x, d);
    assert(d * (fd + 1) == d * fd + d) by (nonlinear_arith);
    lemma_candidates_close_after(cfg, t, fd + 1);
}

/// When the stride divides the window length evenly, every candidate window
/// contains the instant.
pub proof fn lemma_divisible_all_hit(cfg: SlidingConfig, t: int, k: int)
    requires
        cfg.wf(),
        cfg.length_millis as int % cfg.offset_millis as int == 0,
        cfg.first_candidate(t) <= k < cfg.first_candidate(t) + cfg.candidate_count(),
    ensures
        cfg.window_hits(k, t),
{
    let x = t - cfg.align_to_millis - cfg.length_millis;
    let d = cfg.offset_millis as int;
    let n = cfg.length_millis as int;
    let fd = floor_div(x, d);
    let num = ceil_div(n, d);
    lemma_floor_div_bounds(x, d);
    lemma_ceil_div_from_floor(n, d);
    vstd::arithmetic::div_mod::lemma_fundamental_div_mod(n, d);
    // With d dividing n, the candidates span exactly one window length.
    assert(num == floor_div(n, d));
    assert(d * num == n);
    assert(d * (fd + num) == d * fd + d * num) by (nonlinear_arith);
    assert(d * k <= d * (fd + num)) by (nonlinear_arith)
        requires
            d > 0,
            k <= fd + num,
    ;
    assert(cfg.offset_millis * k == d * k);
    lemma_candidates_close_after(cfg, t, k);
}

/// Bounds on every candidate window's open time, tight enough to rule out
/// `i64` overflow while enumerating candidates.
pub proof fn lemma_candidate_open_range(cfg: SlidingConfig, t: int, k: int)
    requires
        cfg.wf(),
        valid_time(t),
        cfg.first_candidate(t) <= k <= cfg.first_candidate(t) + cfg.candidate_count(),
    ensures
        t - cfg.length_millis < cfg.open_time_of(k),
        cfg.open_time_of(k) <= t + 2 * cfg.offset_millis,
{
    let x = t - cfg.align_to_millis - cfg.length_millis;
    let d = cfg.offset_millis as int;
    let n = cfg.length_millis as int;
    let fd = floor_div(x, d);
    let num = ceil_div(n, d);
    lemma_floor_div_bounds(x, d);
    lemma_ceil_div_bounds(n, d);
    lemma_open_time_monotone(cfg, fd + 1, k);
    lemma_open_time_monotone(cfg, k, fd + 1 + num);
    assert(d * (fd + 1) == d * fd + d) by (nonlinear_arith);
    assert(d * (fd + 1 + num) == d * fd + d + d * num) by (nonlinear_arith);
}

/// Bounds on the first candidate index and the candidate count themselves,
/// so they can be computed in `i64`.
pub proof fn lemma_candidate_index_bounds(cfg: SlidingConfig, t: int)
    requires
        cfg.wf(),
        valid_time(t),
    ensures
        -4 * MAX_TIME_MILLIS <= cfg.first_candidate(t) <= 3 * MAX_TIME_MILLIS + 1,
        1 <= cfg.candidate_count() <= 2 * MAX_TIME_MILLIS,
{
    let x = t - cfg.align_to_millis - cfg.length_millis;
    let d = cfg.offset_millis as int;
    let n = cfg.length_millis as int;
    let fd = floor_div(x, d);
    let num = ceil_div(n, d);
    lemma_floor_div_bounds(x, d);
    lemma_ceil_div_bounds(n, d);
    assert(-4 * MAX_TIME_MILLIS <= fd <= 3 * MAX_TIME_MILLIS) by (nonlinear_arith)
        requires
            1 <= d,
            d * fd <= x < d * fd + d,
            -3 * MAX_TIME_MILLIS <= x <= 3 * MAX_TIME_MILLIS,
            d <= MAX_TIME_MILLIS,
    ;
    assert(1 <= num <= 2 * MAX_TIME_MILLIS) by (nonlinear_arith)
        requires
            1 <= d <= MAX_TIME_MILLIS,
            1 <= n <= MAX_TIME_MILLIS,
            n <= d * num < n + d,
    ;
}

/// A window key appears among the yielded triples.
pub open spec fn yields_key(s: Seq<(WindowKey, i64, i64)>, k: int) -> bool {
    exists|i: int| 0 <= i < s.len() && #[trigger] s[i].0.0 == k
}

/// Tracked windows: each key maps to fixed open and close instants.
#[derive(Debug)]
pub struct SlidingWindower {
    pub config: SlidingConfig,
    pub close_times: Vec<(WindowKey, WindowMetadata)>,
}

/// The registry of open windows is sorted by strictly increasing key, every
/// entry carries exactly the boundaries the configuration dictates for its
/// key, and those boundaries stay within the range that items with valid
/// times can ever open (so the registry can be re-validated in `i64`
/// arithmetic after a restore).
pub open spec fn entries_wf(cfg: SlidingConfig, s: Seq<(WindowKey, WindowMetadata)>) -> bool {
    &&& forall|i: int, j: int|
        0 <= i < j < s.len() ==> (#[trigger] s[i]).0.0 < (#[trigger] s[j]).0.0
    &&& forall|i: int|
        0 <= i < s.len() ==> {
            &&& (#[trigger] s[i]).1.open_time == cfg.open_time_of(s[i].0.0 as int)
            &&& s[i].1.close_time == cfg.close_time_of(s[i].0.0 as int)
            &&& -4 * MAX_TIME_MILLIS <= s[i].1.open_time <= 4 * MAX_TIME_MILLIS
        }
}

/// A window key has an entry in the registry.
pub open spec fn tracks_key(s: Seq<(WindowKey, WindowMetadata)>, k: int) -> bool {
    exists|i: int| 0 <= i < s.len() && #[trigger] s[i].0.0 == k
}

impl SlidingWindower {
    pub open spec fn wf(self) -> bool {
        &&& self.config.wf()
        &&& entries_wf(self.config, self.close_times@)
    }

    /// All windows that contain `time`, yielded as `(key, open, close)` in
    /// strictly increasing key order. Close times are exclusive.
    pub fn intersects(&self, time: i64) -> (result: Vec<(WindowKey, i64, i64)>)
        requires
            self.config.wf(),
            valid_time(time as int),
        ensures
            forall|i: int|
                0 <= i < result@.len() ==> {
                    &&& (#[trigger] result@[i]).1 == self.config.open_time_of(result@[i].0.0 as int)
                    &&& result@[i].2 == self.config.close_time_of(result@[i].0.0 as int)
                    &&& self.config.window_hits(result@[i].0.0 as int, time as int)
                },
            forall|i: int, j: int|
                0 <= i < j < result@.len() ==> (#[trigger] result@[i]).0.0 < (#[trigger] result@[j]).0.0,
            forall|k: int|
                #[trigger] self.config.window_hits(k, time as int) ==> yields_key(result@, k),
            result@.len() <= self.config.candidate_count(),
            self.config.offset_millis <= self.config.length_millis ==> result@.len() >= 1,
            self.config.offset_millis >= self.config.length_millis ==> result@.len() <= 1,
            self.config.length_millis as int % self.config.offset_millis as int == 0
                ==> result@.len() == self.config.candidate_count(),
    {
        let cfg = self.config;
        let ghost t = time as int;
        proof {
            lemma_candidate_index_bounds(cfg, t);
        }
        let since_close_of_first = time - cfg.align_to_millis - cfg.length_millis;
        let first_idx = div_floor_i64(since_close_of_first, cfg.offset_millis) + 1;
        let num = div_ceil_i64(cfg.length_millis, cfg.offset_millis);
        assert(first_idx == cfg.first_candidate(t));
        assert(num == cfg.candidate_count());

        proof {
            lemma_candidate_open_range(cfg, t, first_idx as int);
        }
        let mut open = match cfg.offset_millis.checked_mul(first_idx) {
            Some(p) => cfg.align_to_millis + p,
            None => 0,
        };
        assert(open == cfg.open_time_of(first_idx as int));

        let mut result: Vec<(WindowKey, i64, i64)> = Vec::new();
        let mut i: i64 = 0;
        while i < num
            invariant
                cfg.wf(),
                valid_time(t),
                t == time as int,
                0 <= i <= num,
                first_idx == cfg.first_candidate(t),
                num == cfg.candidate_count(),
                -4 * MAX_TIME_MILLIS <= first_idx <= 3 * MAX_TIME_MILLIS + 1,
                1 <= num <= 2 * MAX_TIME_MILLIS,
                open == cfg.open_time_of(first_idx + i),
                forall|j: int|
                    0 <= j < result@.len() ==> {
                        &&& (#[trigger] result@[j]).1 == cfg.open_time_of(result@[j].0.0 as int)
                        &&& result@[j].2 == cfg.close_time_of(result@[j].0.0 as int)
                        &&& cfg.window_hits(result@[j].0.0 as int, t)
                        &&& first_idx <= result@[j].0.0 < first_idx + i
                    },
                forall|j1: int, j2: int|
                    0 <= j1 < j2 < result@.len()
                        ==> (#[trigger] result@[j1]).0.0 < (#[trigger] result@[j2]).0.0,
                forall|k: int|
                    first_idx <= k < first_idx + i && #[trigger] cfg.open_time_of(k) <= t
                        ==> yields_key(result@, k),
                result@.len() <= i,
                cfg.length_millis as int % cfg.offset_millis as int == 0 ==> result@.len() == i,
                i > 0 && cfg.offset_millis <= cfg.length_millis ==> result@.len() >= 1,
            decreases num - i,
        {
            proof {
                lemma_candidate_open_range(cfg, t, first_idx + i);
                lemma_candidate_open_range(cfg, t, first_idx + i + 1);
            }
            let key_idx = first_idx + i;
            if open <= time {
                let close = open + cfg.length_millis;
                proof {
                    lemma_candidates_close_after(cfg, t, key_idx as int);
                }
                let ghost prev = result@;
                result.push((WindowKey(key_idx), open, close));
                proof {
                    assert(result@ == prev.push((WindowKey(key_idx), open, close)));
                    assert(forall|j: int| 0 <= j < prev.len() ==> result@[j] == prev[j]);
                    assert(result@[prev.len() as int] == (WindowKey(key_idx), open, close));
                    assert forall|k: int|
                        first_idx <= k < first_idx + i + 1 && #[trigger] cfg.open_time_of(k)
                            <= t implies yields_key(result@, k) by {
                        if k < first_idx + i {
                            let w = choose|w: int|
                                0 <= w < prev.len() && #[trigger] prev[w].0.0 == k;
                            assert(result@[w].0.0 == k);
                        } else {
                            assert(result@[prev.len() as int].0.0 == k);
                        }
                    }
                }
            } else {
                proof {
                    if cfg.length_millis as int % cfg.offset_millis as int == 0 {
                        lemma_divisible_all_hit(cfg, t, key_idx as int);
                        assert(false);
                    }
                    if i == 0 && cfg.offset_millis <= cfg.length_millis {
                        lemma_no_gaps(cfg, t);
                        assert(false);
                    }
                }
            }
            proof {
                assert(cfg.offset_millis * (first_idx + i + 1) == cfg.offset_millis * (first_idx
                    + i) + cfg.offset_millis) by (nonlinear_arith);
            }
            open = open + cfg.offset_millis;
            i = i + 1;
        }

        proof {
            // Completeness: every window containing `t` is a candidate whose
            // open time has passed, so the loop yielded it.
            assert forall|k: int| #[trigger] cfg.window_hits(k, t) implies yields_key(
                result@,
                k,
            ) by {
                if k < first_idx {
                    lemma_before_candidates_closed(cfg, t, k);
                }
                if k >= first_idx + num {
                    lemma_past_candidates_open_late(cfg, t, k);
                }
            }
            // With strides at least as long as windows, no two candidates hit.
            if cfg.offset_millis >= cfg.length_millis && result@.len() > 1 {
                lemma_two_hits_need_overlap(
                    cfg,
                    t,
                    result@[0].0.0 as int,
                    result@[1].0.0 as int,
                );
                assert(false);
            }
        }
        result
    }
}

/// Full registry contents of a windower: its serialized form for recovery.
#[derive(Debug)]
pub struct WindowerSnapshot {
    pub entries: Vec<(WindowKey, WindowMetadata)>,
}

/// Key carried by one element of `insert`'s result, whether the window was
/// on time or late.
pub open spec fn routed_key(r: Result<WindowKey, InsertError>) -> int {
    match r {
        Ok(k) => k.0 as int,
        Err(InsertError::Late(k)) => k.0 as int,
    }
}

impl SlidingWindower {
    /// An empty windower over validated durations and alignment.
    pub fn new(length_millis: i64, offset_millis: i64, align_to_millis: i64) -> (r: Result<
        SlidingWindower,
        ConfigError,
    >)
        ensures
            ({
                let cfg = SlidingConfig { length_millis, offset_millis, align_to_millis };
                match r {
                    Ok(w) => cfg.wf() && w.config == cfg && w.close_times@.len() == 0 && w.wf(),
                    Err(ConfigError::NonPositiveDuration) => length_millis <= 0 || offset_millis
                        <= 0,
                    Err(ConfigError::TimeOutOfRange) => length_millis > 0 && offset_millis > 0
                        && !cfg.wf(),
                }
            }),
    {
        if length_millis <= 0 || offset_millis <= 0 {
            Err(ConfigError::NonPositiveDuration)
        } else if length_millis > MAX_TIME_MILLIS || offset_millis > MAX_TIME_MILLIS
            || align_to_millis > MAX_TIME_MILLIS || align_to_millis < -MAX_TIME_MILLIS {
            Err(ConfigError::TimeOutOfRange)
        } else {
            Ok(
                SlidingWindower {
                    config: SlidingConfig { length_millis, offset_millis, align_to_millis },
                    close_times: Vec::new(),
                },
            )
        }
    }

    /// Record that window `key` is open. Well-formedness pins the boundaries
    /// of an already-tracked key, so re-inserting it cannot disagree.
    fn insert_window(&mut self, key: WindowKey, open_time: i64, close_time: i64)
        requires
            old(self).wf(),
            open_time == old(self).config.open_time_of(key.0 as int),
            close_time == old(self).config.close_time_of(key.0 as int),
            -4 * MAX_TIME_MILLIS <= open_time <= 4 * MAX_TIME_MILLIS,
        ensures
            final(self).wf(),
            final(self).config == old(self).config,
            forall|k: int|
                #![trigger tracks_key(final(self).close_times@, k)]
                #![trigger tracks_key(old(self).close_times@, k)]
                tracks_key(final(self).close_times@, k) <==> (tracks_key(
                    old(self).close_times@,
                    k,
                ) || k == key.0 as int),
    {
        let len = self.close_times.len();
        let mut j: usize = 0;
        while j < len && self.close_times[j].0.0 < key.0
            invariant
                *self == *old(self),
                len == self.close_times@.len(),
                0 <= j <= len,
                forall|m: int| 0 <= m < j ==> (#[trigger] self.close_times@[m]).0.0 < key.0,
            decreases len - j,
        {
            j = j + 1;
        }
        if j < len {
            let e = self.close_times[j];
            if e.0.0 == key.0 {
                proof {
                    assert(tracks_key(self.close_times@, key.0 as int));
                }
                return ;
            }
        }
        let ghost prev = self.close_times@;
        self.close_times.insert(j, (key, WindowMetadata { open_time, close_time }));
        proof {
            let s = self.close_times@;
            assert(s == prev.insert(j as int, (key, WindowMetadata { open_time, close_time })));
            assert(forall|m: int| 0 <= m < j ==> s[m] == prev[m]);
            assert(forall|m: int| j < m < s.len() ==> s[m] == prev[m - 1]);
            assert(s[j as int] == (key, WindowMetadata { open_time, close_time }));
            // Entries at or past the insertion point have strictly larger keys.
            assert(forall|m: int| j <= m < prev.len() ==> (#[trigger] prev[m]).0.0 > key.0);
            assert(entries_wf(self.config, s));
            assert forall|k: int| tracks_key(s, k) implies (tracks_key(prev, k) || k
                == key.0 as int) by {
                let w = choose|w: int| 0 <= w < s.len() && #[trigger] s[w].0.0 == k;
                if w < j {
                    assert(prev[w].0.0 == k);
                } else if w > j {
                    assert(prev[w - 1].0.0 == k);
                }
            }
            assert forall|k: int| tracks_key(prev, k) implies tracks_key(s, k) by {
                let w = choose|w: int| 0 <= w < prev.len() && #[trigger] prev[w].0.0 == k;
                if w < j {
                    assert(s[w].0.0 == k);
                } else {
                    assert(s[w + 1].0.0 == k);
                }
            }
            assert(tracks_key(s, key.0 as int));
        }
    }

    /// Route an item at `item_time` to every window containing it, in
    /// increasing key order. A window that the watermark has already closed
    /// is reported late; every other hit window is recorded as open.
    pub fn insert(&mut self, watermark: i64, item_time: i64) -> (out: Vec<
        Result<WindowKey, InsertError>,
    >)
        requires
            old(self).wf(),
            valid_time(item_time as int),
        ensures
            final(self).wf(),
            final(self).config == old(self).config,
            forall|i: int|
                0 <= i < out@.len() ==> {
                    let k = routed_key(#[trigger] out@[i]);
                    &&& old(self).config.window_hits(k, item_time as int)
                    &&& (out@[i] matches Err(InsertError::Late(wk)) ==> wk.0 == k
                        && old(self).config.close_time_of(k) < watermark)
                    &&& (out@[i] matches Ok(wk) ==> wk.0 == k && old(self).config.close_time_of(k)
                        >= watermark)
                },
            forall|i: int, j: int|
                0 <= i < j < out@.len() ==> routed_key(#[trigger] out@[i]) < routed_key(
                    #[trigger] out@[j],
                ),
            forall|k: int|
                #[trigger] old(self).config.window_hits(k, item_time as int) ==> exists|i: int|
                    0 <= i < out@.len() && routed_key(#[trigger] out@[i]) == k,
            forall|k: int|
                #![trigger tracks_key(final(self).close_times@, k)]
                #![trigger tracks_key(old(self).close_times@, k)]
                tracks_key(final(self).close_times@, k) <==> (tracks_key(
                    old(self).close_times@,
                    k,
                ) || (old(self).config.window_hits(k, item_time as int)
                    && old(self).config.close_time_of(k) >= watermark)),
    {
        let hits = self.intersects(item_time);
        let ghost cfg = self.config;
        let ghost t = item_time as int;
        let ghost entry_state = self.close_times@;
        let mut out: Vec<Result<WindowKey, InsertError>> = Vec::new();
        let mut n: usize = 0;
        while n < hits.len()
            invariant
                self.wf(),
                self.config == cfg,
                cfg.wf(),
                valid_time(t),
                t == item_time as int,
                0 <= n <= hits@.len(),
                out@.len() == n,
                entries_wf(cfg, entry_state),
                // What `intersects` guarantees about `hits`.
                forall|j: int|
                    0 <= j < hits@.len() ==> {
                        &&& (#[trigger] hits@[j]).1 == cfg.open_time_of(hits@[j].0.0 as int)
                        &&& hits@[j].2 == cfg.close_time_of(hits@[j].0.0 as int)
                        &&& cfg.window_hits(hits@[j].0.0 as int, t)
                    },
                forall|j1: int, j2: int|
                    0 <= j1 < j2 < hits@.len() ==> (#[trigger] hits@[j1]).0.0 < (
                    #[trigger] hits@[j2]).0.0,
                forall|k: int| #[trigger] cfg.window_hits(k, t) ==> yields_key(hits@, k),
                // The output mirrors the processed prefix of `hits`.
                forall|j: int|
                    0 <= j < n ==> #[trigger] out@[j] == (if hits@[j].2 < watermark {
                        Err::<WindowKey, InsertError>(InsertError::Late(hits@[j].0))
                    } else {
                        Ok::<WindowKey, InsertError>(hits@[j].0)
                    }),
                // Tracked keys grow by exactly the on-time processed hits.
                forall|k: int|
                    #![trigger tracks_key(self.close_times@, k)]
                    #![trigger tracks_key(entry_state, k)]
                    tracks_key(self.close_times@, k) <==> (tracks_key(entry_state, k) || exists|
                        j: int,
                    |
                        0 <= j < n && (#[trigger] hits@[j]).0.0 == k && hits@[j].2 >= watermark),
            decreases hits@.len() - n,
        {
            let (key, open_t, close_t) = hits[n];
            if close_t < watermark {
                out.push(Err(InsertError::Late(key)));
            } else {
                proof {
                    // A hit window opens at most at `t` and closes after it,
                    // which bounds its open time.
                    assert(hits@[n as int].1 == cfg.open_time_of(hits@[n as int].0.0 as int));
                    assert(cfg.window_hits(key.0 as int, t));
                    assert(t - cfg.length_millis < open_t <= t);
                }
                self.insert_window(key, open_t, close_t);
                out.push(Ok(key));
            }
            n = n + 1;
        }
        proof {
            assert forall|k: int| #[trigger] cfg.window_hits(k, t) implies exists|i: int|
                0 <= i < out@.len() && routed_key(#[trigger] out@[i]) == k by {
                let w = choose|w: int| 0 <= w < hits@.len() && #[trigger] hits@[w].0.0 == k;
                assert(routed_key(out@[w]) == k);
            }
            assert forall|k: int|
                tracks_key(self.close_times@, k) <==> (tracks_key(entry_state, k) || (
                cfg.window_hits(k, t) && cfg.close_time_of(k) >= watermark)) by {
                if cfg.window_hits(k, t) && cfg.close_time_of(k) >= watermark {
                    let w = choose|w: int| 0 <= w < hits@.len() && #[trigger] hits@[w].0.0 == k;
                    assert(hits@[w].2 >= watermark);
                }
                if exists|j: int|
                    0 <= j < hits@.len() && (#[trigger] hits@[j]).0.0 == k && hits@[j].2
                        >= watermark {
                    let j = choose|j: int|
                        0 <= j < hits@.len() && (#[trigger] hits@[j]).0.0 == k && hits@[j].2
                            >= watermark;
                    assert(cfg.window_hits(k, t));
                }
            }
        }
        out
    }

    /// The open and close instants of window `key`, if it is tracked.
    pub fn get_metadata(&self, key: WindowKey) -> (r: Option<WindowMetadata>)
        requires
            self.wf(),
        ensures
            match r {
                Some(m) => tracks_key(self.close_times@, key.0 as int) && m.open_time
                    == self.config.open_time_of(key.0 as int) && m.close_time
                    == self.config.close_time_of(key.0 as int),
                None => !tracks_key(self.close_times@, key.0 as int),
            },
    {
        let len = self.close_times.len();
        let mut j: usize = 0;
        while j < len
            invariant
                self.wf(),
                len == self.close_times@.len(),
                0 <= j <= len,
                forall|m: int| 0 <= m < j ==> (#[trigger] self.close_times@[m]).0.0 != key.0,
            decreases len - j,
        {
            let e = self.close_times[j];
            if e.0.0 == key.0 {
                proof {
                    assert(tracks_key(self.close_times@, key.0 as int));
                }
                return Some(e.1);
            }
            j = j + 1;
        }
        proof {
            if tracks_key(self.close_times@, key.0 as int) {
                let w = choose|w: int|
                    0 <= w < self.close_times@.len() && #[trigger] self.close_times@[w].0.0
                        == key.0;
                assert(false);
            }
        }
        None
    }

    /// Split off every tracked window the watermark has passed, in
    /// increasing key order; keep the rest.
    pub fn drain_closed(&mut self, watermark: i64) -> (closed: Vec<(WindowKey, WindowMetadata)>)
        requires
            old(self).wf(),
        ensures
            final(self).wf(),
            final(self).config == old(self).config,
            entries_wf(old(self).config, closed@),
            forall|k: int|
                #![trigger tracks_key(final(self).close_times@, k)]
                #![trigger tracks_key(old(self).close_times@, k)]
                tracks_key(final(self).close_times@, k) <==> (tracks_key(
                    old(self).close_times@,
                    k,
                ) && old(self).config.close_time_of(k) >= watermark),
            forall|k: int|
                #[trigger] tracks_key(closed@, k) <==> (tracks_key(old(self).close_times@, k)
                    && old(self).config.close_time_of(k) < watermark),
    {
        let ghost cfg = self.config;
        let ghost orig = self.close_times@;
        let len = self.close_times.len();
        let mut kept: Vec<(WindowKey, WindowMetadata)> = Vec::new();
        let mut closed: Vec<(WindowKey, WindowMetadata)> = Vec::new();
        let mut idx: usize = 0;
        while idx < len
            invariant
                *self == *old(self),
                cfg == self.config,
                self.wf(),
                orig == self.close_times@,
                len == orig.len(),
                0 <= idx <= len,
                entries_wf(cfg, kept@),
                entries_wf(cfg, closed@),
                // Every output entry is a processed registry entry on the
                // right side of the watermark.
                forall|k: int|
                    #[trigger] tracks_key(kept@, k) ==> exists|m: int|
                        0 <= m < idx && (#[trigger] orig[m]).0.0 == k && orig[m].1.close_time
                            >= watermark,
                forall|k: int|
                    #[trigger] tracks_key(closed@, k) ==> exists|m: int|
                        0 <= m < idx && (#[trigger] orig[m]).0.0 == k && orig[m].1.close_time
                            < watermark,
                // Every processed registry entry landed on one side.
                forall|m: int|
                    0 <= m < idx && (#[trigger] orig[m]).1.close_time >= watermark ==> tracks_key(
                        kept@,
                        orig[m].0.0 as int,
                    ),
                forall|m: int|
                    0 <= m < idx && (#[trigger] orig[m]).1.close_time < watermark ==> tracks_key(
                        closed@,
                        orig[m].0.0 as int,
                    ),
                // The most recent key on each side, for sortedness.
                kept@.len() > 0 ==> exists|m: int|
                    0 <= m < idx && (#[trigger] orig[m]).0.0 == kept@[kept@.len() - 1].0.0,
                closed@.len() > 0 ==> exists|m: int|
                    0 <= m < idx && (#[trigger] orig[m]).0.0 == closed@[closed@.len() - 1].0.0,
            decreases len - idx,
        {
            let e = self.close_times[idx];
            proof {
                assert(orig[idx as int] == e);
            }
            if e.1.close_time < watermark {
                let ghost prevc = closed@;
                closed.push(e);
                proof {
                    assert(closed@ == prevc.push(e));
                    assert(forall|m: int| 0 <= m < prevc.len() ==> closed@[m] == prevc[m]);
                    assert(closed@[prevc.len() as int] == e);
                    assert forall|k: int| #[trigger] tracks_key(closed@, k) implies exists|m: int|
                        0 <= m < idx + 1 && (#[trigger] orig[m]).0.0 == k && orig[m].1.close_time
                            < watermark by {
                        let w = choose|w: int|
                            0 <= w < closed@.len() && #[trigger] closed@[w].0.0 == k;
                        if w < prevc.len() {
                            assert(prevc[w].0.0 == k);
                            assert(tracks_key(prevc, k));
                            let m = choose|m: int|
                                0 <= m < idx && (#[trigger] orig[m]).0.0 == k
                                    && orig[m].1.close_time < watermark;
                            assert(0 <= m < idx + 1 && orig[m].0.0 == k && orig[m].1.close_time
                                < watermark);
                        } else {
                            assert(k == e.0.0 as int);
                            assert(orig[idx as int].0.0 == k && orig[idx as int].1.close_time
                                < watermark);
                        }
                    }
                    assert forall|k: int| tracks_key(prevc, k) implies tracks_key(closed@, k) by {
                        let w = choose|w: int| 0 <= w < prevc.len() && #[trigger] prevc[w].0.0 == k;
                        assert(closed@[w].0.0 == k);
                    }
                    assert(tracks_key(closed@, e.0.0 as int));
                }
            } else {
                let ghost prevk = kept@;
                kept.push(e);
                proof {
                    assert(kept@ == prevk.push(e));
                    assert(forall|m: int| 0 <= m < prevk.len() ==> kept@[m] == prevk[m]);
                    assert(kept@[prevk.len() as int] == e);
                    assert forall|k: int| #[trigger] tracks_key(kept@, k) implies exists|m: int|
                        0 <= m < idx + 1 && (#[trigger] orig[m]).0.0 == k && orig[m].1.close_time
                            >= watermark by {
                        let w = choose|w: int| 0 <= w < kept@.len() && #[trigger] kept@[w].0.0 == k;
                        if w < prevk.len() {
                            assert(prevk[w].0.0 == k);
                            assert(tracks_key(prevk, k));
                            let m = choose|m: int|
                                0 <= m < idx && (#[trigger] orig[m]).0.0 == k
                                    && orig[m].1.close_time >= watermark;
                            assert(0 <= m < idx + 1 && orig[m].0.0 == k && orig[m].1.close_time
                                >= watermark);
                        } else {
                            assert(k == e.0.0 as int);
                            assert(orig[idx as int].0.0 == k && orig[idx as int].1.close_time
                                >= watermark);
                        }
                    }
                    assert forall|k: int| tracks_key(prevk, k) implies tracks_key(kept@, k) by {
                        let w = choose|w: int| 0 <= w < prevk.len() && #[trigger] prevk[w].0.0 == k;
                        assert(kept@[w].0.0 == k);
                    }
                    assert(tracks_key(kept@, e.0.0 as int));
                }
            }
            idx = idx + 1;
        }
        self.close_times = kept;
        proof {
            assert forall|k: int|
                tracks_key(self.close_times@, k) <==> (tracks_key(orig, k) && cfg.close_time_of(k)
                    >= watermark) by {
                if tracks_key(orig, k) && cfg.close_time_of(k) >= watermark {
                    let w = choose|w: int| 0 <= w < orig.len() && #[trigger] orig[w].0.0 == k;
                    assert(orig[w].1.close_time >= watermark);
                }
            }
            assert forall|k: int|
                tracks_key(closed@, k) <==> (tracks_key(orig, k) && cfg.close_time_of(k)
                    < watermark) by {
                if tracks_key(orig, k) && cfg.close_time_of(k) < watermark {
                    let w = choose|w: int| 0 <= w < orig.len() && #[trigger] orig[w].0.0 == k;
                    assert(orig[w].1.close_time < watermark);
                }
            }
        }
        closed
    }

    /// No windows are tracked.
    pub fn is_empty(&self) -> (r: bool)
        ensures
            r == (self.close_times@.len() == 0),
    {
        self.close_times.len() == 0
    }

    /// Earliest close time among the tracked windows, if any.
    pub fn next_close(&self) -> (r: Option<i64>)
        requires
            self.wf(),
        ensures
            match r {
                None => self.close_times@.len() == 0,
                Some(c) => (exists|i: int|
                    0 <= i < self.close_times@.len() && (#[trigger] self.close_times@[i]).1.close_time
                        == c) && (forall|i: int|
                    0 <= i < self.close_times@.len()
                        ==> (#[trigger] self.close_times@[i]).1.close_time >= c),
            },
    {
        let len = self.close_times.len();
        if len == 0 {
            return None;
        }
        let mut best = self.close_times[0].1.close_time;
        let mut i: usize = 1;
        while i < len
            invariant
                self.wf(),
                len == self.close_times@.len(),
                1 <= i <= len,
                exists|m: int|
                    0 <= m < i && (#[trigger] self.close_times@[m]).1.close_time == best,
                forall|m: int|
                    0 <= m < i ==> (#[trigger] self.close_times@[m]).1.close_time >= best,
            decreases len - i,
        {
            let c = self.close_times[i].1.close_time;
            if c < best {
                best = c;
            }
            i = i + 1;
        }
        Some(best)
    }

    /// The registry in its serialized form, for recovery.
    pub fn snapshot(&self) -> (snap: WindowerSnapshot)
        ensures
            snap.entries@ == self.close_times@,
    {
        let len = self.close_times.len();
        let mut entries: Vec<(WindowKey, WindowMetadata)> = Vec::new();
        let mut i: usize = 0;
        while i < len
            invariant
                len == self.close_times@.len(),
                0 <= i <= len,
                entries@ == self.close_times@.take(i as int),
            decreases len - i,
        {
            let e = self.close_times[i];
            entries.push(e);
            proof {
                assert(entries@ == self.close_times@.take(i + 1));
            }
            i = i + 1;
        }
        proof {
            assert(self.close_times@.take(len as int) == self.close_times@);
        }
        WindowerSnapshot { entries }
    }

    /// Rebuild a windower from a snapshot taken by a windower with the same
    /// configuration; the registry is adopted verbatim.
    pub fn restore(config: SlidingConfig, snap: WindowerSnapshot) -> (w: SlidingWindower)
        requires
            config.wf(),
            entries_wf(config, snap.entries@),
        ensures
            w.wf(),
            w.config == config,
            w.close_times@ == snap.entries@,
    {
        SlidingWindower { config, close_times: snap.entries }
    }

    /// Whether a snapshot's registry is one this configuration could have
    /// produced: callers that hold an unvalidated snapshot check this before
    /// `restore`.
    pub fn snapshot_matches(config: &SlidingConfig, snap: &WindowerSnapshot) -> (r: bool)
        requires
            config.wf(),
        ensures
            r == entries_wf(*config, snap.entries@),
    {
        let len = snap.entries.len();
        let mut i: usize = 0;
        while i < len
            invariant
                config.wf(),
                len == snap.entries@.len(),
                0 <= i <= len,
                forall|m1: int, m2: int|
                    0 <= m1 < m2 < i ==> (#[trigger] snap.entries@[m1]).0.0 < (
                    #[trigger] snap.entries@[m2]).0.0,
                forall|m: int|
                    0 <= m < i ==> {
                        &&& (#[trigger] snap.entries@[m]).1.open_time == config.open_time_of(
                            snap.entries@[m].0.0 as int,
                        )
                        &&& snap.entries@[m].1.close_time == config.close_time_of(
                            snap.entries@[m].0.0 as int,
                        )
                        &&& -4 * MAX_TIME_MILLIS <= snap.entries@[m].1.open_time <= 4
                            * MAX_TIME_MILLIS
                    },
            decreases len - i,
        {
            let (key, meta) = snap.entries[i];
            if i > 0 && snap.entries[i - 1].0.0 >= key.0 {
                return false;
            }
            if meta.open_time < -4 * MAX_TIME_MILLIS || meta.open_time > 4 * MAX_TIME_MILLIS {
                return false;
            }
            // The open time must be `align_to + offset * key` exactly.
            let diff = meta.open_time - config.align_to_millis;
            let q = div_floor_i64(diff, config.offset_millis);
            let rem = match diff.checked_rem_euclid(config.offset_millis) {
                Some(x) => x,
                None => 0,
            };
            proof {
                vstd::arithmetic::div_mod::lemma_fundamental_div_mod(
                    diff as int,
                    config.offset_millis as int,
                );
            }
            if rem != 0 || q != key.0 {
                proof {
                    if meta.open_time == config.open_time_of(key.0 as int) {
                        assert(diff == config.offset_millis * key.0);
                        vstd::arithmetic::div_mod::lemma_fundamental_div_mod_converse(
                            diff as int,
                            config.offset_millis as int,
                            key.0 as int,
                            0,
                        );
                        assert(false);
                    }
                }
                return false;
            }
            proof {
                assert(diff == config.offset_millis as int * q + 0);
                assert(meta.open_time == config.open_time_of(key.0 as int));
            }
            if meta.close_time != meta.open_time + config.length_millis {
                return false;
            }
            i = i + 1;
        }
        true
    }
}

/// An item exactly at a window's open time falls in that window: window
/// starts are inclusive.
pub proof fn lemma_open_time_is_inclusive(cfg: SlidingConfig, k: int)
    requires
        cfg.wf(),
    ensures
        cfg.window_hits(k, cfg.open_time_of(k)),
{
}

/// An item exactly at a window's close time does not fall in that window:
/// window ends are exclusive.
pub proof fn lemma_close_time_is_exclusive(cfg: SlidingConfig, k: int)
    requires
        cfg.wf(),
    ensures
        !cfg.window_hits(k, cfg.close_time_of(k)),
{
}

/// Restoring from a snapshot reproduces the tracked windows exactly: the
/// pre-state of `snapshot` and the result of `restore` agree on registry
/// and configuration.
pub proof fn lemma_snapshot_restore_round_trip(
    w: SlidingWindower,
    snap: WindowerSnapshot,
    restored: SlidingWindower,
)
    requires
        w.wf(),
        snap.entries@ == w.close_times@,
        restored.config == w.config,
        restored.close_times@ == snap.entries@,
    ensures
        restored.wf(),
        restored.close_times@ == w.close_times@,
{
}

/// Draining at a watermark leaves nothing that a second drain at the same
/// watermark could return: what the first drain's post-state tracks closes
/// at or after the watermark, so the second drain's output has no keys, and
/// being duplicate-free it is empty.
pub proof fn lemma_drain_closed_twice_empty(
    after_first: SlidingWindower,
    watermark: int,
    second_out: Seq<(WindowKey, WindowMetadata)>,
)
    requires
        after_first.wf(),
        forall|k: int|
            #[trigger] tracks_key(after_first.close_times@, k)
                ==> after_first.config.close_time_of(k) >= watermark,
        forall|k: int|
            #[trigger] tracks_key(second_out, k) ==> (tracks_key(after_first.close_times@, k)
                && after_first.config.close_time_of(k) < watermark),
    ensures
        second_out.len() == 0,
{
    if second_out.len() > 0 {
        assert(tracks_key(second_out, second_out[0].0.0 as int));
    }
}

} // verus!
