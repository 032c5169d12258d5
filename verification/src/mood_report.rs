//! Mood aggregates over a sequence of decoded entries.
//!
//! Every aggregate is a pure function of the entries, the tag filter and an
//! injected "now"; re-running one with the same arguments yields the same
//! output.  An entry counts toward an aggregate only if the filter set is a
//! subset of its tag set.
use vstd::prelude::*;

use crate::civil::CivilDateTime;
use crate::daily_score::DailyScore;
use crate::text::contains_bytes_exec;

verus! {

pub const WEEK_SECONDS: i64 = 604800;

pub const THIRTY_DAY_SECONDS: i64 = 2592000;

/// Aggregated mood reports over borrowed entries, restricted by a tag filter
/// (an empty filter admits every entry).
pub struct MoodReport<'a> {
    pub daily_scores: &'a Vec<DailyScore>,
    pub tags: &'a Vec<Vec<u8>>,
}

/// The entry carries tag `t`.
pub open spec fn entry_has_tag(e: DailyScore, t: Seq<u8>) -> bool {
    e.tags.deep_view().contains(t)
}

/// The filter admits the entry: every required tag is present (AND
/// semantics; the empty filter admits everything).
pub open spec fn passes_filter(e: DailyScore, filter: Seq<Seq<u8>>) -> bool {
    forall|k: int| 0 <= k < filter.len() ==> entry_has_tag(e, #[trigger] filter[k])
}

/// Every entry has valid calendar fields and duplicate-free tags.
pub open spec fn entries_wf(entries: Seq<DailyScore>) -> bool {
    forall|i: int| 0 <= i < entries.len() ==> (#[trigger] entries[i]).wf()
}

/// Sum of scores of admitted entries whose local calendar date is on or
/// after day number `min_day`.
pub open spec fn window_score_sum(
    entries: Seq<DailyScore>,
    filter: Seq<Seq<u8>>,
    min_day: int,
) -> int
    decreases entries.len(),
{
    if entries.len() == 0 {
        0
    } else {
        let e = entries.last();
        window_score_sum(entries.drop_last(), filter, min_day) + if passes_filter(e, filter)
            && e.datetime.spec_day_number() >= min_day {
            e.score as int
        } else {
            0
        }
    }
}

/// Sum of scores of admitted entries whose local calendar date lies in
/// `[lo_day, hi_day]`.
pub open spec fn frame_score_sum(
    entries: Seq<DailyScore>,
    filter: Seq<Seq<u8>>,
    lo_day: int,
    hi_day: int,
) -> int
    decreases entries.len(),
{
    if entries.len() == 0 {
        0
    } else {
        let e = entries.last();
        frame_score_sum(entries.drop_last(), filter, lo_day, hi_day) + if passes_filter(e, filter)
            && lo_day <= e.datetime.spec_day_number() <= hi_day {
            e.score as int
        } else {
            0
        }
    }
}

pub proof fn lemma_window_score_sum_bound(
    entries: Seq<DailyScore>,
    filter: Seq<Seq<u8>>,
    min_day: int,
)
    ensures
        -128 * entries.len() <= window_score_sum(entries, filter, min_day) <= 128 * entries.len(),
    decreases entries.len(),
{
    if entries.len() > 0 {
        lemma_window_score_sum_bound(entries.drop_last(), filter, min_day);
    }
}

pub proof fn lemma_frame_score_sum_bound(
    entries: Seq<DailyScore>,
    filter: Seq<Seq<u8>>,
    lo_day: int,
    hi_day: int,
)
    ensures
        -128 * entries.len() <= frame_score_sum(entries, filter, lo_day, hi_day) <= 128
            * entries.len(),
    decreases entries.len(),
{
    if entries.len() > 0 {
        lemma_frame_score_sum_bound(entries.drop_last(), filter, lo_day, hi_day);
    }
}

/// Does the filter admit this entry?
pub fn passes_filter_exec(e: &DailyScore, filter: &Vec<Vec<u8>>) -> (r: bool)
    ensures
        r == passes_filter(*e, filter.deep_view()),
{
    let mut k: usize = 0;
    while k < filter.len()
        invariant
            0 <= k <= filter@.len(),
            forall|j: int| 0 <= j < k ==> entry_has_tag(*e, #[trigger] filter.deep_view()[j]),
        decreases filter@.len() - k,
    {
        let ok = contains_bytes_exec(&e.tags, filter[k].as_slice());
        proof {
            assert(filter.deep_view()[k as int] =~= filter@[k as int]@);
        }
        if !ok {
            proof {
                assert(!entry_has_tag(*e, filter.deep_view()[k as int]));
            }
            return false;
        }
        k = k + 1;
    }
    true
}

impl<'a> MoodReport<'a> {
    /// Entries are well-formed and few enough that no score sum can leave
    /// `i32`.
    pub open spec fn wf(self) -> bool {
        &&& entries_wf(self.daily_scores@)
        &&& self.daily_scores@.len() <= 16_000_000
    }

    /// Number of entries the report ranges over.
    pub fn len(&self) -> (r: usize)
        ensures
            r == self.daily_scores@.len(),
    {
        self.daily_scores.len()
    }

    /// Filtered score sum over entries dated `min_day` or later.
    fn filter_mood_sum_from(&self, min_day: i64) -> (r: i32)
        requires
            self.wf(),
        ensures
            r as int == window_score_sum(self.daily_scores@, self.tags.deep_view(), min_day as int),
    {
        let ghost entries = self.daily_scores@;
        let ghost filter = self.tags.deep_view();
        let mut acc: i32 = 0;
        let mut i: usize = 0;
        while i < self.daily_scores.len()
            invariant
                self.wf(),
                entries == self.daily_scores@,
                filter == self.tags.deep_view(),
                0 <= i <= entries.len(),
                acc as int == window_score_sum(entries.take(i as int), filter, min_day as int),
                -128 * i <= acc as int <= 128 * i,
            decreases entries.len() - i,
        {
            let e = &self.daily_scores[i];
            proof {
                assert(entries[i as int].wf());
                lemma_window_score_sum_bound(entries.take(i as int), filter, min_day as int);
            }
            let admitted = passes_filter_exec(e, self.tags) && e.datetime.day_number() >= min_day;
            proof {
                assert(entries.take(i + 1).drop_last() =~= entries.take(i as int));
                assert(entries.take(i + 1).last() == entries[i as int]);
            }
            if admitted {
                acc = acc + e.score as i32;
            }
            i = i + 1;
        }
        proof {
            assert(entries.take(entries.len() as int) =~= entries);
        }
        acc
    }

    /// Filtered score sum over entries dated within `[lo_day, hi_day]`.
    fn filter_mood_sum_between(&self, lo_day: i64, hi_day: i64) -> (r: i32)
        requires
            self.wf(),
        ensures
            r as int == frame_score_sum(
                self.daily_scores@,
                self.tags.deep_view(),
                lo_day as int,
                hi_day as int,
            ),
    {
        let ghost entries = self.daily_scores@;
        let ghost filter = self.tags.deep_view();
        let mut acc: i32 = 0;
        let mut i: usize = 0;
        while i < self.daily_scores.len()
            invariant
                self.wf(),
                entries == self.daily_scores@,
                filter == self.tags.deep_view(),
                0 <= i <= entries.len(),
                acc as int == frame_score_sum(
                    entries.take(i as int),
                    filter,
                    lo_day as int,
                    hi_day as int,
                ),
                -128 * i <= acc as int <= 128 * i,
            decreases entries.len() - i,
        {
            let e = &self.daily_scores[i];
            proof {
                assert(entries[i as int].wf());
                lemma_frame_score_sum_bound(
                    entries.take(i as int),
                    filter,
                    lo_day as int,
                    hi_day as int,
                );
            }
            let dn = e.datetime.day_number();
            let admitted = passes_filter_exec(e, self.tags) && lo_day <= dn && dn <= hi_day;
            proof {
                assert(entries.take(i + 1).drop_last() =~= entries.take(i as int));
                assert(entries.take(i + 1).last() == entries[i as int]);
            }
            if admitted {
                acc = acc + e.score as i32;
            }
            i = i + 1;
        }
        proof {
            assert(entries.take(entries.len() as int) =~= entries);
        }
        acc
    }

    /// Sum of filtered scores over the 30 calendar dates ending today.
    pub fn thirty_days_mood(&self, now: CivilDateTime) -> (r: i32)
        requires
            self.wf(),
            now.valid(),
        ensures
            r as int == window_score_sum(
                self.daily_scores@,
                self.tags.deep_view(),
                now.spec_day_number() - 29,
            ),
    {
        let today = now.day_number();
        self.filter_mood_sum_from(today - 29)
    }

    /// Sum of filtered scores over the 365 calendar dates ending today.
    pub fn yearly_mood(&self, now: CivilDateTime) -> (r: i32)
        requires
            self.wf(),
            now.valid(),
        ensures
            r as int == window_score_sum(
                self.daily_scores@,
                self.tags.deep_view(),
                now.spec_day_number() - 364,
            ),
    {
        let today = now.day_number();
        self.filter_mood_sum_from(today - 364)
    }

    /// One `(frame_end_timestamp, sum)` pair per day, for frame ends from
    /// `starts_at_days_ago` down to `ends_at_days_ago` before now, in
    /// chronological order; each frame spans `frame_size` days back from its
    /// end, by calendar date.
    pub fn timeframed_moving_mood_report(
        &self,
        now: CivilDateTime,
        starts_at_days_ago: u32,
        ends_at_days_ago: u32,
        frame_size: u32,
    ) -> (hist: Vec<(i64, i32)>)
        requires
            self.wf(),
            now.valid(),
            ends_at_days_ago <= starts_at_days_ago,
            starts_at_days_ago - ends_at_days_ago < u32::MAX,
        ensures
            hist@.len() == starts_at_days_ago - ends_at_days_ago + 1,
            forall|k: int|
                0 <= k < hist@.len() ==> {
                    let days_ago = starts_at_days_ago - k;
                    &&& (#[trigger] hist@[k]).0 as int == now.spec_timestamp() - days_ago * 86400
                    &&& hist@[k].1 as int == frame_score_sum(
                        self.daily_scores@,
                        self.tags.deep_view(),
                        now.spec_day_number() - days_ago - frame_size,
                        now.spec_day_number() - days_ago,
                    )
                },
    {
        let now_ts = now.timestamp();
        let today = now.day_number();
        let count: usize = (starts_at_days_ago - ends_at_days_ago) as usize + 1;
        let mut hist: Vec<(i64, i32)> = Vec::new();
        let mut k: usize = 0;
        while k < count
            invariant
                self.wf(),
                now.valid(),
                ends_at_days_ago <= starts_at_days_ago,
                count == starts_at_days_ago - ends_at_days_ago + 1,
                now_ts == now.spec_timestamp(),
                -100_000_000_000 <= now_ts <= 300_000_000_000,
                today == now.spec_day_number(),
                0 <= today <= 3_700_000,
                0 <= k <= count,
                hist@.len() == k,
                forall|j: int|
                    0 <= j < k ==> {
                        let days_ago = starts_at_days_ago - j;
                        &&& (#[trigger] hist@[j]).0 as int == now.spec_timestamp() - days_ago
                            * 86400
                        &&& hist@[j].1 as int == frame_score_sum(
                            self.daily_scores@,
                            self.tags.deep_view(),
                            now.spec_day_number() - days_ago - frame_size,
                            now.spec_day_number() - days_ago,
                        )
                    },
            decreases count - k,
        {
            let days_ago: i64 = starts_at_days_ago as i64 - k as i64;
            let frame_end_ts: i64 = now_ts - days_ago * 86400;
            let lo: i64 = today - days_ago - frame_size as i64;
            let hi: i64 = today - days_ago;
            let sum = self.filter_mood_sum_between(lo, hi);
            hist.push((frame_end_ts, sum));
            k = k + 1;
        }
        hist
    }

    /// The default moving histogram: 30 frames, each 29 days wide (30
    /// calendar dates), most recent frame last.
    pub fn thirty_days_moving_mood(&self, now: CivilDateTime) -> (hist: Vec<(i64, i32)>)
        requires
            self.wf(),
            now.valid(),
        ensures
            hist@.len() == 30,
            forall|k: int|
                0 <= k < 30 ==> {
                    let days_ago = 29 - k;
                    &&& (#[trigger] hist@[k]).0 as int == now.spec_timestamp() - days_ago * 86400
                    &&& hist@[k].1 as int == frame_score_sum(
                        self.daily_scores@,
                        self.tags.deep_view(),
                        now.spec_day_number() - days_ago - 29,
                        now.spec_day_number() - days_ago,
                    )
                },
    {
        self.timeframed_moving_mood_report(now, 29, 0, 29)
    }
}


/// The mathematical values of a vector of `(timestamp, sum)` pairs.
pub open spec fn pair_views(s: Seq<(i64, i32)>) -> Seq<(int, int)> {
    Seq::new(s.len(), |i: int| (s[i].0 as int, s[i].1 as int))
}

/// One step of the constant-period bucketing fold.
///
/// An admitted entry strictly before the report end lands in bucket
/// `(elapsed - 1) / period` (the subtraction attributes an entry sitting
/// exactly on a period boundary to the earlier period).  Growing the bucket
/// array back-fills `(report_end - k*period, 0)` pairs, and the hit bucket's
/// timestamp is refined to `entry + (elapsed % period)`, the end of the
/// period that contains the entry.
pub open spec fn icp_step(
    acc: Seq<(int, int)>,
    e: DailyScore,
    filter: Seq<Seq<u8>>,
    end_ts: int,
    period: int,
) -> Seq<(int, int)> {
    if !(passes_filter(e, filter) && e.datetime.spec_timestamp() < end_ts) {
        acc
    } else {
        let elapsed = end_ts - e.datetime.spec_timestamp();
        let idx = (elapsed - 1) / period;
        if idx > usize::MAX as int {
            acc
        } else {
            let grown = if idx >= acc.len() {
                acc + Seq::new(
                    (idx + 1 - acc.len()) as nat,
                    |k: int| (end_ts - (acc.len() + k) * period, 0),
                )
            } else {
                acc
            };
            grown.update(
                idx,
                (
                    e.datetime.spec_timestamp() + elapsed % period,
                    grown[idx].1 + e.score as int,
                ),
            )
        }
    }
}

/// Constant-period buckets accumulated over the entries in order, most
/// recent period first.
pub open spec fn icp_buckets(
    entries: Seq<DailyScore>,
    filter: Seq<Seq<u8>>,
    end_ts: int,
    period: int,
) -> Seq<(int, int)>
    decreases entries.len(),
{
    if entries.len() == 0 {
        Seq::<(int, int)>::empty()
    } else {
        icp_step(
            icp_buckets(entries.drop_last(), filter, end_ts, period),
            entries.last(),
            filter,
            end_ts,
            period,
        )
    }
}

pub proof fn lemma_icp_buckets_sum_bound(
    entries: Seq<DailyScore>,
    filter: Seq<Seq<u8>>,
    end_ts: int,
    period: int,
)
    requires
        period >= 1,
    ensures
        forall|j: int|
            0 <= j < icp_buckets(entries, filter, end_ts, period).len() ==> -128 * entries.len()
                <= (#[trigger] icp_buckets(entries, filter, end_ts, period)[j]).1 <= 128
                * entries.len(),
    decreases entries.len(),
{
    if entries.len() > 0 {
        let prev = icp_buckets(entries.drop_last(), filter, end_ts, period);
        lemma_icp_buckets_sum_bound(entries.drop_last(), filter, end_ts, period);
        let e = entries.last();
        let cur = icp_buckets(entries, filter, end_ts, period);
        let m = entries.len() - 1;
        assert(entries.drop_last().len() == m);
        if passes_filter(e, filter) && e.datetime.spec_timestamp() < end_ts {
            let elapsed = end_ts - e.datetime.spec_timestamp();
            let idx = (elapsed - 1) / period;
            if idx <= usize::MAX as int {
                let grown = if idx >= prev.len() {
                    prev + Seq::new(
                        (idx + 1 - prev.len()) as nat,
                        |k: int| (end_ts - (prev.len() + k) * period, 0),
                    )
                } else {
                    prev
                };
                assert forall|j: int| 0 <= j < grown.len() implies -128 * m <= (
                #[trigger] grown[j]).1 <= 128 * m by {
                    if j < prev.len() {
                        assert(grown[j] == prev[j]);
                    }
                }
                assert forall|j: int| 0 <= j < cur.len() implies -128 * entries.len() <= (
                #[trigger] cur[j]).1 <= 128 * entries.len() by {
                    if j != idx {
                        assert(cur[j] == grown[j]);
                    }
                }
            }
        }
    }
}

/// Reverse a vector of pairs.
fn reverse_pairs(v: Vec<(i64, i32)>) -> (r: Vec<(i64, i32)>)
    ensures
        r@ == v@.reverse(),
{
    let mut r: Vec<(i64, i32)> = Vec::new();
    let mut k: usize = 0;
    while k < v.len()
        invariant
            0 <= k <= v@.len(),
            r@.len() == k,
            forall|j: int| 0 <= j < k ==> r@[j] == v@[v@.len() - 1 - j],
        decreases v@.len() - k,
    {
        r.push(v[v.len() - 1 - k]);
        k = k + 1;
    }
    proof {
        assert(r@ =~= v@.reverse());
    }
    r
}

/// Days since the most recent Monday (0 on a Monday), for a day number of
/// the proleptic Gregorian calendar.
pub open spec fn days_from_monday(dn: int) -> int {
    (dn + 5) % 7
}

/// Local midnight of the most recent Monday, as a Unix timestamp.
pub open spec fn weekly_anchor_ts(now: CivilDateTime) -> int {
    (now.spec_day_number() - days_from_monday(now.spec_day_number()) - 719528) * 86400
        - now.offset_seconds
}

/// Local midnight of the next calendar day, as a Unix timestamp.
pub open spec fn next_day_anchor_ts(now: CivilDateTime) -> int {
    (now.spec_day_number() + 1 - 719528) * 86400 - now.offset_seconds
}

impl<'a> MoodReport<'a> {
    /// Bucket admitted entries into back-to-back periods of `period` seconds
    /// ending at `report_ends_at_ts`, oldest period first.
    fn iterative_const_period_report(&self, report_ends_at_ts: i64, period: i64) -> (data: Vec<
        (i64, i32),
    >)
        requires
            self.wf(),
            1 <= period,
            -400_000_000_000 <= report_ends_at_ts <= 400_000_000_000,
        ensures
            pair_views(data@) == icp_buckets(
                self.daily_scores@,
                self.tags.deep_view(),
                report_ends_at_ts as int,
                period as int,
            ).reverse(),
    {
        let ghost entries = self.daily_scores@;
        let ghost filter = self.tags.deep_view();
        let ghost end_i = report_ends_at_ts as int;
        let ghost per_i = period as int;
        let mut data: Vec<(i64, i32)> = Vec::new();
        let mut n: usize = 0;
        proof {
            assert(entries.take(0) =~= Seq::<DailyScore>::empty());
            assert(pair_views(data@) =~= icp_buckets(entries.take(0), filter, end_i, per_i));
        }
        while n < self.daily_scores.len()
            invariant
                self.wf(),
                entries == self.daily_scores@,
                filter == self.tags.deep_view(),
                end_i == report_ends_at_ts as int,
                per_i == period as int,
                1 <= period,
                -400_000_000_000 <= report_ends_at_ts <= 400_000_000_000,
                0 <= n <= entries.len(),
                pair_views(data@) == icp_buckets(entries.take(n as int), filter, end_i, per_i),
            decreases entries.len() - n,
        {
            let ghost acc = icp_buckets(entries.take(n as int), filter, end_i, per_i);
            proof {
                assert(entries.take(n + 1).drop_last() =~= entries.take(n as int));
                assert(entries.take(n + 1).last() == entries[n as int]);
                assert(entries[n as int].wf());
                lemma_icp_buckets_sum_bound(entries.take(n as int), filter, end_i, per_i);
                assert(entries.take(n as int).len() == n);
            }
            let e = &self.daily_scores[n];
            let admitted = passes_filter_exec(e, self.tags);
            let ts = e.datetime.timestamp();
            if admitted && ts < report_ends_at_ts {
                let elapsed: i64 = report_ends_at_ts - ts;
                let idx64: u64 = ((elapsed - 1) as u64) / (period as u64);
                proof {
                    assert(idx64 as int == (elapsed - 1) as int / per_i);
                    vstd::arithmetic::div_mod::lemma_fundamental_div_mod(
                        (elapsed - 1) as int,
                        per_i,
                    );
                    vstd::arithmetic::mul::lemma_mul_nonnegative(idx64 as int, per_i - 1);
                    assert(idx64 as int * (per_i - 1) == idx64 as int * per_i - idx64 as int)
                        by (nonlinear_arith);
                    assert(idx64 as int <= elapsed - 1);
                }
                if idx64 <= (usize::MAX as u64) {
                    let idx: usize = idx64 as usize;
                    let ghost alen = acc.len();
                    let ghost grown = if idx64 as int >= acc.len() {
                        acc + Seq::new(
                            (idx64 as int + 1 - acc.len()) as nat,
                            |k: int| (end_i - (acc.len() + k) * per_i, 0),
                        )
                    } else {
                        acc
                    };
                    while data.len() <= idx
                        invariant
                            0 <= alen <= data@.len(),
                            data@.len() <= idx + 1 || data@.len() == alen,
                            idx == idx64,
                            0 <= idx64 <= 800_000_000_000,
                            per_i == period,
                            1 <= period,
                            end_i == report_ends_at_ts,
                            -400_000_000_000 <= report_ends_at_ts <= 400_000_000_000,
                            idx64 as int * per_i <= elapsed - 1,
                            1 <= elapsed <= 800_000_000_000,
                            alen == acc.len(),
                            pair_views(data@) == acc + Seq::new(
                                (data@.len() - alen) as nat,
                                |k: int| (end_i - (alen + k) * per_i, 0),
                            ),
                        decreases idx + 1 - data@.len(),
                    {
                        let j = data.len();
                        proof {
                            vstd::arithmetic::mul::lemma_mul_inequality(
                                j as int,
                                idx64 as int,
                                per_i,
                            );
                            vstd::arithmetic::mul::lemma_mul_nonnegative(j as int, per_i);
                        }
                        let ghost prev_pairs = pair_views(data@);
                        data.push((report_ends_at_ts - (j as i64) * period, 0));
                        proof {
                            assert(pair_views(data@) =~= acc + Seq::new(
                                (data@.len() - alen) as nat,
                                |k: int| (end_i - (alen + k) * per_i, 0),
                            )) by {
                                assert forall|m2: int| 0 <= m2 < data@.len() implies pair_views(
                                    data@,
                                )[m2] == (acc + Seq::new(
                                    (data@.len() - alen) as nat,
                                    |k: int| (end_i - (alen + k) * per_i, 0),
                                ))[m2] by {
                                    if m2 < j {
                                        assert(pair_views(data@)[m2] == prev_pairs[m2]);
                                    }
                                }
                            }
                        }
                    }
                    proof {
                        if alen <= idx as int {
                            assert(data@.len() == idx + 1);
                            assert(pair_views(data@) =~= grown);
                        } else {
                            assert(data@.len() == alen);
                            assert(Seq::new(
                                (data@.len() - alen) as nat,
                                |k: int| (end_i - (alen + k) * per_i, 0),
                            ) =~= Seq::<(int, int)>::empty());
                            assert(pair_views(data@) =~= grown);
                        }
                        assert(idx < data@.len());
                        assert((pair_views(data@)[idx as int]).1 == grown[idx as int].1);
                        if (idx as int) < alen {
                            assert(grown[idx as int] == acc[idx as int]);
                        } else {
                            assert(grown[idx as int].1 == 0);
                        }
                    }
                    let rem_u: u64 = (elapsed as u64) % (period as u64);
                    proof {
                        assert(rem_u as int == elapsed as int % per_i);
                        vstd::arithmetic::div_mod::lemma_fundamental_div_mod(
                            elapsed as int,
                            per_i,
                        );
                        vstd::arithmetic::mul::lemma_mul_nonnegative(
                            elapsed as int / per_i,
                            per_i,
                        );
                    }
                    let rem: i64 = rem_u as i64;
                    let old_pair = data[idx];
                    let new_pair: (i64, i32) = (ts + rem, old_pair.1 + e.score as i32);
                    data[idx] = new_pair;
                    proof {
                        assert(pair_views(data@) =~= grown.update(
                            idx as int,
                            (
                                e.datetime.spec_timestamp() + (end_i
                                    - e.datetime.spec_timestamp()) % per_i,
                                grown[idx as int].1 + e.score as int,
                            ),
                        )) by {
                            assert forall|m2: int| 0 <= m2 < data@.len() implies pair_views(
                                data@,
                            )[m2] == grown.update(
                                idx as int,
                                (
                                    e.datetime.spec_timestamp() + (end_i
                                        - e.datetime.spec_timestamp()) % per_i,
                                    grown[idx as int].1 + e.score as int,
                                ),
                            )[m2] by {}
                        }
                        assert(pair_views(data@) == icp_buckets(
                            entries.take(n + 1),
                            filter,
                            end_i,
                            per_i,
                        ));
                    }
                } else {
                    proof {
                        assert(pair_views(data@) == icp_buckets(
                            entries.take(n + 1),
                            filter,
                            end_i,
                            per_i,
                        ));
                    }
                }
            } else {
                proof {
                    assert(pair_views(data@) == icp_buckets(
                        entries.take(n + 1),
                        filter,
                        end_i,
                        per_i,
                    ));
                }
            }
            n = n + 1;
        }
        proof {
            assert(entries.take(entries.len() as int) =~= entries);
        }
        let out = reverse_pairs(data);
        proof {
            assert(pair_views(out@) =~= pair_views(data@).reverse());
        }
        out
    }

    /// Weekly buckets anchored at the most recent Monday's local midnight,
    /// oldest week first.
    pub fn iterative_weekly_mood(&self, now: CivilDateTime) -> (data: Vec<(i64, i32)>)
        requires
            self.wf(),
            now.valid(),
        ensures
            pair_views(data@) == icp_buckets(
                self.daily_scores@,
                self.tags.deep_view(),
                weekly_anchor_ts(now),
                WEEK_SECONDS as int,
            ).reverse(),
    {
        let dn = now.day_number();
        let wd: i64 = (dn + 5) % 7;
        let anchor: i64 = (dn - wd - crate::civil::EPOCH_DAY_NUMBER) * crate::civil::DAY_SECONDS
            - now.offset_seconds as i64;
        self.iterative_const_period_report(anchor, WEEK_SECONDS)
    }

    /// Seven-day buckets anchored at the start of the next calendar day,
    /// oldest first.
    pub fn iterative_seven_days_mood(&self, now: CivilDateTime) -> (data: Vec<(i64, i32)>)
        requires
            self.wf(),
            now.valid(),
        ensures
            pair_views(data@) == icp_buckets(
                self.daily_scores@,
                self.tags.deep_view(),
                next_day_anchor_ts(now),
                WEEK_SECONDS as int,
            ).reverse(),
    {
        let dn = now.day_number();
        let anchor: i64 = (dn + 1 - crate::civil::EPOCH_DAY_NUMBER) * crate::civil::DAY_SECONDS
            - now.offset_seconds as i64;
        self.iterative_const_period_report(anchor, WEEK_SECONDS)
    }

    /// Thirty-day buckets anchored at the start of the next calendar day,
    /// oldest first.
    pub fn iterative_thirty_days_mood(&self, now: CivilDateTime) -> (data: Vec<(i64, i32)>)
        requires
            self.wf(),
            now.valid(),
        ensures
            pair_views(data@) == icp_buckets(
                self.daily_scores@,
                self.tags.deep_view(),
                next_day_anchor_ts(now),
                THIRTY_DAY_SECONDS as int,
            ).reverse(),
    {
        let dn = now.day_number();
        let anchor: i64 = (dn + 1 - crate::civil::EPOCH_DAY_NUMBER) * crate::civil::DAY_SECONDS
            - now.offset_seconds as i64;
        self.iterative_const_period_report(anchor, THIRTY_DAY_SECONDS)
    }
}


/// Linear month index: January of year 0 is 0, each later month adds 1.
pub open spec fn month_index_of(y: int, m: int) -> int {
    y * 12 + (m - 1)
}

pub open spec fn month_year(mi: int) -> int {
    mi / 12
}

pub open spec fn month_in_year(mi: int) -> int {
    mi % 12 + 1
}

/// Local midnight of the first day of month `mi`, in the given offset, as a
/// Unix timestamp.
pub open spec fn month_start_ts(mi: int, offset: int) -> int {
    (crate::civil::day_number(month_year(mi), month_in_year(mi), 1) - 719528) * 86400 - offset
}

/// The month key of a civil value: the start of its own calendar month, in
/// its own offset.
pub open spec fn month_key_of(dt: CivilDateTime) -> int {
    month_start_ts(month_index_of(dt.year as int, dt.month as int), dt.offset_seconds as int)
}

/// Sum of scores of admitted entries before `cutoff_ts` whose month key is
/// `key`.
pub open spec fn monthly_key_sum(
    entries: Seq<DailyScore>,
    filter: Seq<Seq<u8>>,
    cutoff_ts: int,
    key: int,
) -> int
    decreases entries.len(),
{
    if entries.len() == 0 {
        0
    } else {
        let e = entries.last();
        monthly_key_sum(entries.drop_last(), filter, cutoff_ts, key) + if passes_filter(e, filter)
            && e.datetime.spec_timestamp() < cutoff_ts && month_key_of(e.datetime) == key {
            e.score as int
        } else {
            0
        }
    }
}

pub proof fn lemma_monthly_key_sum_bound(
    entries: Seq<DailyScore>,
    filter: Seq<Seq<u8>>,
    cutoff_ts: int,
    key: int,
)
    ensures
        -128 * entries.len() <= monthly_key_sum(entries, filter, cutoff_ts, key) <= 128
            * entries.len(),
    decreases entries.len(),
{
    if entries.len() > 0 {
        lemma_monthly_key_sum_bound(entries.drop_last(), filter, cutoff_ts, key);
    }
}

/// The datetime of the first admitted entry before `cutoff_ts` that attains
/// the minimal instant, starting from `acc` (ties keep the earlier winner).
pub open spec fn earliest_included(
    entries: Seq<DailyScore>,
    filter: Seq<Seq<u8>>,
    cutoff_ts: int,
    acc: CivilDateTime,
) -> CivilDateTime
    decreases entries.len(),
{
    if entries.len() == 0 {
        acc
    } else {
        let e = entries[0];
        let acc2 = if passes_filter(e, filter) && e.datetime.spec_timestamp() < cutoff_ts
            && e.datetime.spec_timestamp() < acc.spec_timestamp() {
            e.datetime
        } else {
            acc
        };
        earliest_included(entries.subrange(1, entries.len() as int), filter, cutoff_ts, acc2)
    }
}

pub proof fn lemma_earliest_included_valid(
    entries: Seq<DailyScore>,
    filter: Seq<Seq<u8>>,
    cutoff_ts: int,
    acc: CivilDateTime,
)
    requires
        entries_wf(entries),
        acc.valid(),
    ensures
        earliest_included(entries, filter, cutoff_ts, acc).valid(),
    decreases entries.len(),
{
    if entries.len() > 0 {
        let e = entries[0];
        assert(e.wf());
        let acc2 = if passes_filter(e, filter) && e.datetime.spec_timestamp() < cutoff_ts
            && e.datetime.spec_timestamp() < acc.spec_timestamp() {
            e.datetime
        } else {
            acc
        };
        let rest = entries.subrange(1, entries.len() as int);
        assert(entries_wf(rest)) by {
            assert(forall|i: int| 0 <= i < rest.len() ==> rest[i] == entries[i + 1]);
        }
        lemma_earliest_included_valid(rest, filter, cutoff_ts, acc2);
    }
}

/// Walking backward one month at a time from month `mi` while the month
/// start stays after `stop_ts`: each step records the month start and the
/// previous month's key sum, most recent month first.
pub open spec fn monthly_walk(
    mi: int,
    stop_ts: int,
    offset: int,
    entries: Seq<DailyScore>,
    filter: Seq<Seq<u8>>,
    cutoff_ts: int,
) -> Seq<(int, int)>
    decreases mi + 13,
{
    if mi < -12 || month_start_ts(mi, offset) <= stop_ts {
        Seq::<(int, int)>::empty()
    } else {
        seq![
            (
                month_start_ts(mi, offset),
                monthly_key_sum(entries, filter, cutoff_ts, month_start_ts(mi - 1, offset)),
            ),
        ] + monthly_walk(mi - 1, stop_ts, offset, entries, filter, cutoff_ts)
    }
}

/// The monthly report: bucket admitted entries of closed months by their own
/// calendar month, walk back from the current month's start to the earliest
/// admitted entry's month, and list each closed month's sum at the boundary
/// where it ended, oldest first.
pub open spec fn monthly_report(
    entries: Seq<DailyScore>,
    filter: Seq<Seq<u8>>,
    now: CivilDateTime,
) -> Seq<(int, int)> {
    let mi_now = month_index_of(now.year as int, now.month as int);
    let cutoff = month_start_ts(mi_now, now.offset_seconds as int);
    let earliest = earliest_included(entries, filter, cutoff, now);
    monthly_walk(
        mi_now,
        month_key_of(earliest),
        now.offset_seconds as int,
        entries,
        filter,
        cutoff,
    ).reverse()
}

/// Month starts strictly increase with the month index.
pub proof fn lemma_month_start_step(mi: int, offset: int)
    ensures
        month_start_ts(mi, offset) < month_start_ts(mi + 1, offset),
{
    let q = mi / 12;
    let r = mi % 12;
    vstd::arithmetic::div_mod::lemma_fundamental_div_mod(mi, 12);
    if r == 11 {
        vstd::arithmetic::div_mod::lemma_fundamental_div_mod_converse(mi + 1, 12, q + 1, 0);
        assert(month_year(mi + 1) == q + 1 && month_in_year(mi + 1) == 1);
        assert(crate::civil::days_before_year(q + 1) == crate::civil::days_before_year(q)
            + crate::civil::days_in_year(q));
        assert(crate::civil::days_before_month(q + 1, 1) == 0);
        assert(crate::civil::days_before_month(q, 13) == crate::civil::days_in_year(q)) by {
            reveal_with_fuel(crate::civil::days_before_month, 13);
        }
        assert(crate::civil::day_number(q, 12, 1) < crate::civil::day_number(q + 1, 1, 1)) by {
            reveal_with_fuel(crate::civil::days_before_month, 13);
        }
    } else {
        vstd::arithmetic::div_mod::lemma_fundamental_div_mod_converse(mi + 1, 12, q, r + 1);
        assert(month_year(mi + 1) == q && month_in_year(mi + 1) == r + 2);
        assert(crate::civil::days_before_month(q, r + 2) == crate::civil::days_before_month(
            q,
            r + 1,
        ) + crate::civil::days_in_month(q, r + 1));
    }
}

pub proof fn lemma_month_start_monotone(a: int, b: int, offset: int)
    requires
        a <= b,
    ensures
        month_start_ts(a, offset) <= month_start_ts(b, offset),
    decreases b - a,
{
    if a < b {
        lemma_month_start_monotone(a, b - 1, offset);
        lemma_month_start_step(b - 1, offset);
    }
}

/// Compute a month start timestamp, for month indexes the walk can reach.
fn month_start_ts_exec(mi: i64, offset: i32) -> (r: i64)
    requires
        -12 <= mi <= 119_999,
        -86340 <= offset <= 86340,
    ensures
        r as int == month_start_ts(mi as int, offset as int),
        -100_000_000_000 <= r <= 300_000_000_000,
{
    let (y, m): (i64, u8) = if mi >= 0 {
        let yq: i64 = (mi as u64 / 12) as i64;
        let mr: u8 = (mi as u64 % 12) as u8 + 1;
        proof {
            assert(yq as int == month_year(mi as int));
            assert(mr as int == month_in_year(mi as int));
        }
        (yq, mr)
    } else {
        proof {
            vstd::arithmetic::div_mod::lemma_fundamental_div_mod_converse(
                mi as int,
                12,
                -1,
                mi as int + 12,
            );
        }
        (-1, (mi + 13) as u8)
    };
    let dby = crate::civil::days_before_year_wide_exec(y);
    let dbm = crate::civil::days_before_month_wide_exec(y, m);
    (dby + dbm - crate::civil::EPOCH_DAY_NUMBER) * crate::civil::DAY_SECONDS - offset as i64
}

impl<'a> MoodReport<'a> {
    /// Filtered score sum of closed-month entries carrying this month key.
    fn monthly_key_sum_exec(&self, cutoff_ts: i64, key: i64) -> (r: i32)
        requires
            self.wf(),
        ensures
            r as int == monthly_key_sum(
                self.daily_scores@,
                self.tags.deep_view(),
                cutoff_ts as int,
                key as int,
            ),
    {
        let ghost entries = self.daily_scores@;
        let ghost filter = self.tags.deep_view();
        let mut acc: i32 = 0;
        let mut i: usize = 0;
        while i < self.daily_scores.len()
            invariant
                self.wf(),
                entries == self.daily_scores@,
                filter == self.tags.deep_view(),
                0 <= i <= entries.len(),
                acc as int == monthly_key_sum(
                    entries.take(i as int),
                    filter,
                    cutoff_ts as int,
                    key as int,
                ),
                -128 * i <= acc as int <= 128 * i,
            decreases entries.len() - i,
        {
            let e = &self.daily_scores[i];
            proof {
                assert(entries[i as int].wf());
                lemma_monthly_key_sum_bound(
                    entries.take(i as int),
                    filter,
                    cutoff_ts as int,
                    key as int,
                );
            }
            let ts = e.datetime.timestamp();
            let e_mi: i64 = e.datetime.year as i64 * 12 + (e.datetime.month as i64 - 1);
            let e_key = month_start_ts_exec(e_mi, e.datetime.offset_seconds);
            let admitted = passes_filter_exec(e, self.tags) && ts < cutoff_ts && e_key == key;
            proof {
                assert(entries.take(i + 1).drop_last() =~= entries.take(i as int));
                assert(entries.take(i + 1).last() == entries[i as int]);
                assert(e_mi as int == month_index_of(
                    e.datetime.year as int,
                    e.datetime.month as int,
                ));
                assert(e_key as int == month_key_of(e.datetime));
            }
            if admitted {
                acc = acc + e.score as i32;
            }
            i = i + 1;
        }
        proof {
            assert(entries.take(entries.len() as int) =~= entries);
        }
        acc
    }

    /// Calendar-month buckets of admitted entries, oldest month first: one
    /// `(month_start, previous_month_sum)` pair per month from the month
    /// after the earliest admitted entry's month up to the current month's
    /// start; the still-open current month is never included.
    pub fn iterative_monthly_mood(&self, now: CivilDateTime) -> (data: Vec<(i64, i32)>)
        requires
            self.wf(),
            now.valid(),
        ensures
            pair_views(data@) == monthly_report(self.daily_scores@, self.tags.deep_view(), now),
    {
        let ghost entries = self.daily_scores@;
        let ghost filter = self.tags.deep_view();
        let mi_now: i64 = now.year as i64 * 12 + (now.month as i64 - 1);
        proof {
            assert(mi_now as int == month_index_of(now.year as int, now.month as int));
        }
        let cutoff = month_start_ts_exec(mi_now, now.offset_seconds);
        // The earliest admitted entry before the current month's start.
        let mut earliest: CivilDateTime = now;
        let mut i: usize = 0;
        proof {
            assert(entries.subrange(0, entries.len() as int) =~= entries);
        }
        while i < self.daily_scores.len()
            invariant
                self.wf(),
                now.valid(),
                entries == self.daily_scores@,
                filter == self.tags.deep_view(),
                0 <= i <= entries.len(),
                earliest.valid(),
                earliest_included(entries, filter, cutoff as int, now) == earliest_included(
                    entries.subrange(i as int, entries.len() as int),
                    filter,
                    cutoff as int,
                    earliest,
                ),
            decreases entries.len() - i,
        {
            let e = &self.daily_scores[i];
            proof {
                assert(entries[i as int].wf());
                let sub = entries.subrange(i as int, entries.len() as int);
                assert(sub[0] == entries[i as int]);
                assert(sub.subrange(1, sub.len() as int) =~= entries.subrange(
                    i + 1,
                    entries.len() as int,
                ));
            }
            let ts = e.datetime.timestamp();
            let admitted = passes_filter_exec(e, self.tags) && ts < cutoff && ts
                < earliest.timestamp();
            if admitted {
                earliest = e.datetime;
            }
            i = i + 1;
        }
        proof {
            assert(entries.subrange(entries.len() as int, entries.len() as int)
                =~= Seq::<DailyScore>::empty());
            lemma_earliest_included_valid(entries, filter, cutoff as int, now);
            assert(earliest == earliest_included(entries, filter, cutoff as int, now));
        }
        let e_mi: i64 = earliest.year as i64 * 12 + (earliest.month as i64 - 1);
        let stop = month_start_ts_exec(e_mi, earliest.offset_seconds);
        proof {
            assert(stop as int == month_key_of(earliest));
        }
        // Walk back one month at a time while the month start is after the
        // earliest admitted month's start.
        let ghost stop_i = stop as int;
        let ghost cutoff_i = cutoff as int;
        let ghost off_i = now.offset_seconds as int;
        let mut data: Vec<(i64, i32)> = Vec::new();
        let mut mi: i64 = mi_now;
        let mut cur_ts: i64 = cutoff;
        while cur_ts > stop
            invariant
                self.wf(),
                now.valid(),
                entries == self.daily_scores@,
                filter == self.tags.deep_view(),
                stop_i == stop as int,
                cutoff_i == cutoff as int,
                off_i == now.offset_seconds as int,
                -86340 <= now.offset_seconds <= 86340,
                earliest.valid(),
                stop_i == month_key_of(earliest),
                -1 <= mi <= mi_now <= 119_999,
                cur_ts as int == month_start_ts(mi as int, off_i),
                monthly_walk(mi_now as int, stop_i, off_i, entries, filter, cutoff_i)
                    == pair_views(data@) + monthly_walk(
                    mi as int,
                    stop_i,
                    off_i,
                    entries,
                    filter,
                    cutoff_i,
                ),
            decreases mi + 13,
        {
            proof {
                // The walk can never descend past December of year -1: the
                // earliest month key belongs to a year of the calendar range.
                let e_mi_g = month_index_of(earliest.year as int, earliest.month as int);
                assert(e_mi_g >= 0);
                lemma_month_start_monotone(0, e_mi_g, earliest.offset_seconds as int);
                if mi as int <= -1 {
                    assert(crate::civil::days_before_year(0) == 0);
                    assert(!crate::civil::is_leap_year(-1));
                    assert(crate::civil::days_before_year(-1) == -365);
                    assert(crate::civil::days_before_month(-1, 12) == 334) by {
                        reveal_with_fuel(crate::civil::days_before_month, 13);
                    }
                    vstd::arithmetic::div_mod::lemma_fundamental_div_mod_converse(-1, 12, -1, 11);
                    lemma_month_start_monotone(mi as int, -1, off_i);
                    assert(crate::civil::days_before_month(0, 1) == 0);
                    vstd::arithmetic::div_mod::lemma_fundamental_div_mod_converse(0, 12, 0, 0);
                    assert(month_start_ts(0, earliest.offset_seconds as int) <= stop_i);
                    assert(month_start_ts(-1, off_i) <= (-31 - 719528) * 86400 + 86340);
                    assert(month_start_ts(0, earliest.offset_seconds as int) >= (0 - 719528)
                        * 86400 - 86340);
                    assert(false);
                }
            }
            let prev_mi = mi - 1;
            let prev_ts = month_start_ts_exec(prev_mi, now.offset_seconds);
            let sum = self.monthly_key_sum_exec(cutoff, prev_ts);
            let ghost prev_pairs = pair_views(data@);
            data.push((cur_ts, sum));
            proof {
                let walk_mi = monthly_walk(mi as int, stop_i, off_i, entries, filter, cutoff_i);
                assert(walk_mi == seq![
                    (
                        month_start_ts(mi as int, off_i),
                        monthly_key_sum(
                            entries,
                            filter,
                            cutoff_i,
                            month_start_ts(mi as int - 1, off_i),
                        ),
                    ),
                ] + monthly_walk(mi as int - 1, stop_i, off_i, entries, filter, cutoff_i));
                assert(pair_views(data@) =~= prev_pairs.push(
                    (cur_ts as int, sum as int),
                )) by {
                    assert forall|j: int| 0 <= j < data@.len() implies pair_views(data@)[j]
                        == prev_pairs.push((cur_ts as int, sum as int))[j] by {
                        if j < prev_pairs.len() {
                            assert(data@[j] == data@[j]);
                        }
                    }
                }
                assert(monthly_walk(mi_now as int, stop_i, off_i, entries, filter, cutoff_i)
                    =~= pair_views(data@) + monthly_walk(
                    prev_mi as int,
                    stop_i,
                    off_i,
                    entries,
                    filter,
                    cutoff_i,
                ));
            }
            mi = prev_mi;
            cur_ts = prev_ts;
        }
        proof {
            assert(monthly_walk(mi as int, stop_i, off_i, entries, filter, cutoff_i)
                =~= Seq::<(int, int)>::empty());
            assert(pair_views(data@) + Seq::<(int, int)>::empty() =~= pair_views(data@));
            assert(pair_views(data@) == monthly_walk(
                mi_now as int,
                stop_i,
                off_i,
                entries,
                filter,
                cutoff_i,
            ));
        }
        let out = reverse_pairs(data);
        proof {
            assert(pair_views(out@) =~= pair_views(data@).reverse());
        }
        out
    }
}


/// Law: the filter admits an entry exactly when the filter set is a subset
/// of the entry's tag set.
pub proof fn lemma_filter_subset_semantics(e: DailyScore, filter: Seq<Seq<u8>>)
    ensures
        passes_filter(e, filter) <==> filter.to_set().subset_of(e.spec_tag_set()),
{
    if passes_filter(e, filter) {
        assert forall|t: Seq<u8>| filter.to_set().contains(t) implies e.spec_tag_set().contains(
            t,
        ) by {
            let k = choose|k: int| 0 <= k < filter.len() && filter[k] == t;
            assert(entry_has_tag(e, filter[k]));
        }
    }
    if filter.to_set().subset_of(e.spec_tag_set()) {
        assert forall|k: int| 0 <= k < filter.len() implies entry_has_tag(
            e,
            #[trigger] filter[k],
        ) by {
            assert(filter.to_set().contains(filter[k]));
            assert(e.spec_tag_set().contains(filter[k]));
        }
    }
}

/// Law: the fixed window has an inclusive boundary.  An admitted entry dated
/// exactly `days_back - 1` days before today contributes its score to the
/// `days_back`-day window sum; one dated a day further back contributes
/// nothing.
pub proof fn lemma_fixed_window_boundary(
    entries: Seq<DailyScore>,
    filter: Seq<Seq<u8>>,
    e: DailyScore,
    today: int,
    days_back: int,
)
    requires
        passes_filter(e, filter),
        days_back >= 1,
    ensures
        e.datetime.spec_day_number() == today - (days_back - 1) ==> window_score_sum(
            entries.push(e),
            filter,
            today - (days_back - 1),
        ) == window_score_sum(entries, filter, today - (days_back - 1)) + e.score,
        e.datetime.spec_day_number() == today - days_back ==> window_score_sum(
            entries.push(e),
            filter,
            today - (days_back - 1),
        ) == window_score_sum(entries, filter, today - (days_back - 1)),
{
    let r = entries.push(e);
    assert(r.drop_last() =~= entries);
    assert(r.last() == e);
}

/// Law: every aggregate is deterministic in the entries, the filter and the
/// injected "now".  Each aggregate's postcondition pins its result to a
/// function of exactly those inputs, so two results obtained for the same
/// inputs are equal: here stated for the fixed-window sums, the moving
/// frame sums, the constant-period reports and the monthly report.
pub proof fn lemma_reports_deterministic(
    entries: Seq<DailyScore>,
    filter: Seq<Seq<u8>>,
    now: CivilDateTime,
    sum_a: int,
    sum_b: int,
    min_day: int,
    frame_a: int,
    frame_b: int,
    lo_day: int,
    hi_day: int,
    series_a: Seq<(int, int)>,
    series_b: Seq<(int, int)>,
    end_ts: int,
    period: int,
    months_a: Seq<(int, int)>,
    months_b: Seq<(int, int)>,
)
    requires
        sum_a == window_score_sum(entries, filter, min_day),
        sum_b == window_score_sum(entries, filter, min_day),
        frame_a == frame_score_sum(entries, filter, lo_day, hi_day),
        frame_b == frame_score_sum(entries, filter, lo_day, hi_day),
        series_a == icp_buckets(entries, filter, end_ts, period).reverse(),
        series_b == icp_buckets(entries, filter, end_ts, period).reverse(),
        months_a == monthly_report(entries, filter, now),
        months_b == monthly_report(entries, filter, now),
    ensures
        sum_a == sum_b,
        frame_a == frame_b,
        series_a == series_b,
        months_a == months_b,
{
}

} // verus!
