//! Retransmission timers and the smoothed round-trip-time estimate.
//!
//! One [`SendTimer`] entry is kept per in-flight segment, keyed by the
//! segment's first sequence number and holding the monotonic send time in
//! milliseconds. Entries are kept sorted by their wrap-aware distance from
//! `SND.UNA`, so the front entry is always the oldest outstanding send.
//!
//! The round-trip estimate `srtt` is held in milliseconds and updated as
//! `srtt <- (4*srtt + sample) / 5`, the integer form of the classical
//! exponentially-weighted average with weight 0.8. A retransmitted
//! segment's entry is marked and its sample is never used (Karn's rule).
use crate::wrap::wrap_sub;
use vstd::prelude::*;

verus! {

/// Initial round-trip estimate: one minute, in milliseconds.
pub const INITIAL_SRTT_MS: u64 = 60_000;

/// The send record of one in-flight segment.
#[derive(Clone, Copy, PartialEq, Eq, Structural, Debug)]
pub struct SendTimer {
    /// First sequence number of the segment.
    pub seq: u32,
    /// Monotonic send time (first use / last retransmit), in milliseconds.
    pub sent_at: u64,
    /// Whether the segment has ever been retransmitted.
    pub retransmitted: bool,
}

/// Per-connection timer state.
pub struct Timers {
    /// In-flight send records, sorted by wrap-aware distance from `SND.UNA`.
    pub send_times: Vec<SendTimer>,
    /// Smoothed round-trip estimate, in milliseconds.
    pub srtt: u64,
}

/// `now - at`, clamped at zero.
pub open spec fn spec_elapsed(now: u64, at: u64) -> u64 {
    if now >= at {
        (now - at) as u64
    } else {
        0u64
    }
}

/// One SRTT update from one sample, in milliseconds.
pub open spec fn srtt_after_sample(srtt: u64, sample: u64) -> u64 {
    ((4 * srtt + sample) / 5) as u64
}

/// The SRTT update of one send record: a retransmitted segment's sample is
/// never used (Karn's rule).
pub open spec fn srtt_step(srtt: u64, e: SendTimer, now: u64) -> u64 {
    if e.retransmitted {
        srtt
    } else {
        srtt_after_sample(srtt, spec_elapsed(now, e.sent_at))
    }
}

/// The SRTT after the records of `s` are acknowledged in order at `now`.
pub open spec fn srtt_fold(srtt: u64, s: Seq<SendTimer>, now: u64) -> u64
    decreases s.len(),
{
    if s.len() == 0 {
        srtt
    } else {
        srtt_fold(srtt_step(srtt, s[0], now), s.drop_first(), now)
    }
}

/// Some record of `s` is keyed by `q`.
pub open spec fn has_seq(s: Seq<SendTimer>, q: u32) -> bool {
    exists|i: int| 0 <= i < s.len() && s[i].seq == q
}

/// The record of `s` keyed by `q` (meaningful only under [`has_seq`] and
/// uniqueness of keys).
pub open spec fn entry_of(s: Seq<SendTimer>, q: u32) -> SendTimer {
    s[choose|i: int| 0 <= i < s.len() && s[i].seq == q]
}

/// Records are strictly sorted by wrap-aware distance from `una` (which
/// also makes their keys unique).
pub open spec fn sorted_by_dist(s: Seq<SendTimer>, una: u32) -> bool {
    forall|i: int, j: int|
        #![trigger s[i], s[j]]
        0 <= i < j < s.len() ==> wrap_sub(s[i].seq, una) < wrap_sub(s[j].seq, una)
}

/// How many leading records of `s` lie at distance below `k` from `una`.
/// Under [`sorted_by_dist`] these are exactly the records below `k`.
pub open spec fn cut_len(s: Seq<SendTimer>, una: u32, k: u32) -> int
    decreases s.len(),
{
    if s.len() == 0 {
        0
    } else if wrap_sub(s[0].seq, una) < k {
        1 + cut_len(s.drop_first(), una, k)
    } else {
        0
    }
}

/// How one (re)send of the segment at `seq` at time `now` changes the set
/// of send records: the record for `seq` is fresh and marked retransmitted
/// exactly when the key was already present; all other records are kept
/// as they were, and no key appears or disappears besides `seq`.
pub open spec fn recorded(old_s: Seq<SendTimer>, new_s: Seq<SendTimer>, seq: u32, now: u64) -> bool {
    &&& has_seq(new_s, seq)
    &&& entry_of(new_s, seq).seq == seq
    &&& entry_of(new_s, seq).sent_at == now
    &&& entry_of(new_s, seq).retransmitted == has_seq(old_s, seq)
    &&& forall|q: u32| #[trigger] has_seq(new_s, q) <==> (has_seq(old_s, q) || q == seq)
    &&& forall|q: u32|
        q != seq && #[trigger] has_seq(old_s, q) ==> entry_of(new_s, q) == entry_of(old_s, q)
}

impl Timers {
    pub open spec fn inv(self, una: u32) -> bool {
        sorted_by_dist(self.send_times@, una)
    }

    /// Fresh timer state: no outstanding sends, initial SRTT.
    pub fn new() -> (r: Timers)
        ensures
            r.send_times@.len() == 0,
            r.srtt == INITIAL_SRTT_MS,
            forall|una: u32| r.inv(una),
    {
        Timers { send_times: Vec::new(), srtt: INITIAL_SRTT_MS }
    }

    /// Record a (re)send of the segment starting at `seq` at time `now`.
    /// A key seen before marks its record as retransmitted and refreshes
    /// its send time; a new key is inserted in distance order.
    pub fn record_send(&mut self, seq: u32, now: u64, una: u32)
        requires
            old(self).inv(una),
        ensures
            final(self).inv(una),
            final(self).srtt == old(self).srtt,
            recorded(old(self).send_times@, final(self).send_times@, seq, now),
    {
        let k = seq.wrapping_sub(una);
        let mut i: usize = 0;
        while i < self.send_times.len() && self.send_times[i].seq.wrapping_sub(una) < k
            invariant
                0 <= i <= self.send_times@.len(),
                self.send_times == old(self).send_times,
                forall|j: int|
                    0 <= j < i ==> wrap_sub(#[trigger] self.send_times@[j].seq, una) < k,
            decreases self.send_times@.len() - i,
        {
            i += 1;
        }
        let ghost olds = self.send_times@;
        proof {
            assert(i == olds.len() || wrap_sub(olds[i as int].seq, una) >= k);
        }
        if i < self.send_times.len() && self.send_times[i].seq == seq {
            self.send_times[i] = SendTimer { seq, sent_at: now, retransmitted: true };
            proof {
                assert(olds[i as int].seq == seq);
                assert(has_seq(olds, seq));
                lemma_sorted_key_unique(olds, una, seq, i as int);
                assert forall|q: u32| q != seq && has_seq(olds, q) implies entry_of(
                    self.send_times@,
                    q,
                ) == entry_of(olds, q) by {
                    let oi = choose|j: int| 0 <= j < olds.len() && olds[j].seq == q;
                    assert(self.send_times@[oi].seq == q);
                    lemma_sorted_key_unique(self.send_times@, una, q, oi);
                    lemma_sorted_key_unique(olds, una, q, oi);
                }
                lemma_sorted_key_unique(self.send_times@, una, seq, i as int);
                assert forall|q: u32| #[trigger]
                    has_seq(self.send_times@, q) == (has_seq(olds, q) || q == seq) by {
                    let news = self.send_times@;
                    if has_seq(news, q) {
                        let j = choose|j: int| 0 <= j < news.len() && news[j].seq == q;
                        if j != i {
                            assert(olds[j].seq == q);
                            assert(has_seq(olds, q));
                        }
                    }
                    if has_seq(olds, q) {
                        let j = choose|j: int| 0 <= j < olds.len() && olds[j].seq == q;
                        if j != i {
                            assert(news[j].seq == q);
                            assert(has_seq(news, q));
                        }
                    }
                }
            }
        } else {
            self.send_times.insert(i, SendTimer { seq, sent_at: now, retransmitted: false });
            proof {
                let news = self.send_times@;
                assert(news[i as int].seq == seq);
                assert(has_seq(news, seq));
                assert(!has_seq(olds, seq)) by {
                    if has_seq(olds, seq) {
                        let j = choose|j: int| 0 <= j < olds.len() && olds[j].seq == seq;
                        if j < i {
                            assert(wrap_sub(olds[j].seq, una) < k);
                        } else {
                            assert(wrap_sub(olds[i as int].seq, una) >= k || olds[i as int].seq
                                != seq);
                            if j > i {
                                assert(wrap_sub(olds[i as int].seq, una) < wrap_sub(
                                    olds[j].seq,
                                    una,
                                ));
                            }
                        }
                    }
                }
                assert(sorted_by_dist(news, una)) by {
                    assert forall|a: int, b: int|
                        #![trigger news[a], news[b]]
                        0 <= a < b < news.len() implies wrap_sub(news[a].seq, una) < wrap_sub(
                        news[b].seq,
                        una,
                    ) by {
                        if b > i {
                            assert(news[b] == olds[b - 1]);
                            assert(wrap_sub(olds[b - 1].seq, una) >= k) by {
                                if b - 1 > i {
                                    assert(wrap_sub(olds[i as int].seq, una) < wrap_sub(
                                        olds[b - 1].seq,
                                        una,
                                    ));
                                }
                            }
                            if wrap_sub(olds[b - 1].seq, una) == k {
                                assert(olds[b - 1].seq == seq);
                                assert(has_seq(olds, seq));
                            }
                        }
                        if a < i {
                            assert(news[a] == olds[a]);
                        } else if a > i {
                            assert(news[a] == olds[a - 1]);
                        }
                    }
                }
                lemma_sorted_key_unique(news, una, seq, i as int);
                assert forall|q: u32| q != seq && has_seq(olds, q) implies has_seq(news, q)
                    && entry_of(news, q) == entry_of(olds, q) by {
                    let oi = choose|j: int| 0 <= j < olds.len() && olds[j].seq == q;
                    let ni: int = if oi < i {
                        oi
                    } else {
                        oi + 1
                    };
                    assert(news[ni].seq == q);
                    lemma_sorted_key_unique(news, una, q, ni);
                    lemma_sorted_key_unique(olds, una, q, oi);
                }
                assert forall|q: u32| q != seq && has_seq(news, q) implies has_seq(olds, q) by {
                    let ni = choose|j: int| 0 <= j < news.len() && news[j].seq == q;
                    if ni < i {
                        assert(olds[ni].seq == q);
                    } else {
                        assert(ni > i);
                        assert(olds[ni - 1].seq == q);
                    }
                }
                assert forall|q: u32| #[trigger]
                    has_seq(news, q) == (has_seq(olds, q) || q == seq) by {
                    if q != seq && has_seq(news, q) {
                        assert(has_seq(olds, q));
                    }
                    if has_seq(olds, q) {
                        assert(q != seq);
                        assert(has_seq(news, q));
                    }
                }
            }
        }
    }

    /// Acknowledge everything below `ackn`: drop the leading records at
    /// wrap-aware distance below `ackn - una` from `una` and fold their
    /// samples into the SRTT, skipping retransmitted records.
    pub fn on_ack(&mut self, una: u32, ackn: u32, now: u64)
        requires
            old(self).inv(una),
        ensures
            final(self).inv(una),
            final(self).inv(ackn),
            final(self).send_times@ == old(self).send_times@.skip(
                cut_len(old(self).send_times@, una, wrap_sub(ackn, una)),
            ),
            final(self).srtt == srtt_fold(
                old(self).srtt,
                old(self).send_times@.take(cut_len(old(self).send_times@, una, wrap_sub(ackn, una))),
                now,
            ),
            forall|i: int|
                0 <= i < final(self).send_times@.len() ==> wrap_sub(
                    #[trigger] final(self).send_times@[i].seq,
                    una,
                ) >= wrap_sub(ackn, una),
    {
        let k = ackn.wrapping_sub(una);
        let ghost olds = self.send_times@;
        let ghost n = cut_len(olds, una, k);
        proof {
            lemma_cut_len_bounds(olds, una, k);
        }
        let mut removed: usize = 0;
        while removed < self.send_times.len() && self.send_times[removed].seq.wrapping_sub(una) < k
            invariant
                0 <= removed <= self.send_times@.len(),
                self.send_times@ == olds,
                forall|j: int| 0 <= j < removed ==> wrap_sub(#[trigger] olds[j].seq, una) < k,
            decreases self.send_times@.len() - removed,
        {
            removed += 1;
        }
        proof {
            lemma_cut_len_exact(olds, una, k, removed as int);
            assert(removed == n);
        }
        let mut j: usize = 0;
        while j < removed
            invariant
                0 <= j <= removed,
                removed <= self.send_times@.len(),
                self.send_times@ == olds,
                self.srtt == srtt_fold(old(self).srtt, olds.take(j as int), now),
                old(self).srtt == old(self).srtt,
            decreases removed - j,
        {
            let e = self.send_times[j];
            if !e.retransmitted {
                let sample: u64 = if now >= e.sent_at {
                    now - e.sent_at
                } else {
                    0
                };
                let wide: u128 = (4 * (self.srtt as u128) + (sample as u128)) / 5;
                proof {
                    lemma_srtt_fold_snoc(old(self).srtt, olds, j as int, now);
                    assert(wide == srtt_after_sample(self.srtt, sample));
                }
                self.srtt = wide as u64;
            } else {
                proof {
                    lemma_srtt_fold_snoc(old(self).srtt, olds, j as int, now);
                }
            }
            j += 1;
        }
        let ghost mid = self.send_times@;
        let mut kept: Vec<SendTimer> = Vec::new();
        let mut p: usize = removed;
        while p < self.send_times.len()
            invariant
                removed <= p <= self.send_times@.len(),
                self.send_times@ == olds,
                kept@ == olds.subrange(removed as int, p as int),
            decreases self.send_times@.len() - p,
        {
            let e = self.send_times[p];
            kept.push(e);
            proof {
                assert(kept@ =~= olds.subrange(removed as int, p as int + 1));
            }
            p += 1;
        }
        self.send_times = kept;
        proof {
            assert(self.send_times@ =~= olds.skip(n));
            assert(olds.take(removed as int) == olds.take(n));
            assert forall|i: int| 0 <= i < self.send_times@.len() implies wrap_sub(
                #[trigger] self.send_times@[i].seq,
                una,
            ) >= k by {
                assert(self.send_times@[i] == olds[i + n]);
                lemma_cut_len_stops(olds, una, k);
                if i + n > n {
                    assert(wrap_sub(olds[n].seq, una) < wrap_sub(olds[i + n].seq, una));
                }
            }
            assert forall|a: int, b: int|
                #![trigger self.send_times@[a], self.send_times@[b]]
                0 <= a < b < self.send_times@.len() implies wrap_sub(self.send_times@[a].seq, una)
                < wrap_sub(self.send_times@[b].seq, una) by {
                assert(self.send_times@[a] == olds[a + n]);
                assert(self.send_times@[b] == olds[b + n]);
            }
            assert forall|a: int, b: int|
                #![trigger self.send_times@[a], self.send_times@[b]]
                0 <= a < b < self.send_times@.len() implies wrap_sub(self.send_times@[a].seq, ackn)
                < wrap_sub(self.send_times@[b].seq, ackn) by {
                assert(self.send_times@[a] == olds[a + n]);
                assert(self.send_times@[b] == olds[b + n]);
                assert(wrap_sub(olds[a + n].seq, una) >= k) by {
                    if n < olds.len() {
                        lemma_cut_len_stops(olds, una, k);
                        if a + n > n {
                            assert(wrap_sub(olds[n].seq, una) < wrap_sub(olds[a + n].seq, una));
                        }
                    }
                }
                assert(wrap_sub(olds[b + n].seq, una) >= k) by {
                    lemma_cut_len_stops(olds, una, k);
                    if b + n > n {
                        assert(wrap_sub(olds[n].seq, una) < wrap_sub(olds[b + n].seq, una));
                    }
                }
            }
        }
    }
}

/// Under strict sorting, a key occurs at one index only.
pub proof fn lemma_sorted_key_unique(s: Seq<SendTimer>, una: u32, q: u32, i: int)
    requires
        sorted_by_dist(s, una),
        0 <= i < s.len(),
        s[i].seq == q,
    ensures
        forall|j: int| 0 <= j < s.len() && s[j].seq == q ==> j == i,
        entry_of(s, q) == s[i],
{
    assert forall|j: int| 0 <= j < s.len() && s[j].seq == q implies j == i by {
        if j < i {
            assert(wrap_sub(s[j].seq, una) < wrap_sub(s[i].seq, una));
        }
        if j > i {
            assert(wrap_sub(s[i].seq, una) < wrap_sub(s[j].seq, una));
        }
    }
}

pub proof fn lemma_cut_len_bounds(s: Seq<SendTimer>, una: u32, k: u32)
    ensures
        0 <= cut_len(s, una, k) <= s.len(),
    decreases s.len(),
{
    if s.len() > 0 {
        lemma_cut_len_bounds(s.drop_first(), una, k);
    }
}

/// The first `m` records (for `m` up to the cut) all lie below `k`.
proof fn lemma_cut_len_prefix(s: Seq<SendTimer>, una: u32, k: u32, m: int)
    requires
        forall|j: int| 0 <= j < m ==> wrap_sub(#[trigger] s[j].seq, una) < k,
        0 <= m <= s.len(),
    ensures
        cut_len(s, una, k) >= m,
    decreases s.len(),
{
    lemma_cut_len_bounds(s, una, k);
    if m > 0 && s.len() > 0 {
        assert(wrap_sub(s[0].seq, una) < k);
        assert forall|j: int| 0 <= j < m - 1 implies wrap_sub(
            #[trigger] s.drop_first()[j].seq,
            una,
        ) < k by {
            assert(s.drop_first()[j] == s[j + 1]);
        }
        lemma_cut_len_prefix(s.drop_first(), una, k, m - 1);
    }
}

/// A run of records below `k` that ends at the end of the sequence or at
/// a record at or above `k` is exactly the cut.
proof fn lemma_cut_len_exact(s: Seq<SendTimer>, una: u32, k: u32, m: int)
    requires
        forall|j: int| 0 <= j < m ==> wrap_sub(#[trigger] s[j].seq, una) < k,
        0 <= m <= s.len(),
        m == s.len() || wrap_sub(s[m].seq, una) >= k,
    ensures
        cut_len(s, una, k) == m,
    decreases s.len(),
{
    if m > 0 && s.len() > 0 {
        assert forall|j: int| 0 <= j < m - 1 implies wrap_sub(
            #[trigger] s.drop_first()[j].seq,
            una,
        ) < k by {
            assert(s.drop_first()[j] == s[j + 1]);
        }
        if m < s.len() {
            assert(s.drop_first()[m - 1] == s[m]);
        }
        lemma_cut_len_exact(s.drop_first(), una, k, m - 1);
        assert(wrap_sub(s[0].seq, una) < k);
    } else if m == 0 && s.len() > 0 {
        assert(wrap_sub(s[0].seq, una) >= k);
    }
}

/// The record at the cut (when there is one) lies at or above `k`.
proof fn lemma_cut_len_stops(s: Seq<SendTimer>, una: u32, k: u32)
    ensures
        cut_len(s, una, k) < s.len() ==> wrap_sub(s[cut_len(s, una, k)].seq, una) >= k,
    decreases s.len(),
{
    lemma_cut_len_bounds(s, una, k);
    if s.len() > 0 && wrap_sub(s[0].seq, una) < k {
        lemma_cut_len_stops(s.drop_first(), una, k);
        lemma_cut_len_bounds(s.drop_first(), una, k);
    }
}

/// Folding one more record: `fold(take(j + 1)) == step(fold(take(j)))`.
proof fn lemma_srtt_fold_snoc(srtt: u64, s: Seq<SendTimer>, j: int, now: u64)
    requires
        0 <= j < s.len(),
    ensures
        srtt_fold(srtt, s.take(j + 1), now) == srtt_step(srtt_fold(srtt, s.take(j), now), s[j], now),
    decreases j,
{
    if j == 0 {
        assert(s.take(1).drop_first() =~= s.take(0));
        assert(s.take(0).len() == 0);
        assert(s.take(1)[0] == s[0]);
        assert(srtt_fold(srtt_step(srtt, s[0], now), s.take(0), now) == srtt_step(srtt, s[0], now));
        assert(srtt_fold(srtt, s.take(0), now) == srtt);
        assert(srtt_fold(srtt, s.take(1), now) == srtt_fold(
            srtt_step(srtt, s[0], now),
            s.take(0),
            now,
        ));
    } else {
        assert(s.take(j + 1)[0] == s[0]);
        assert(s.take(j)[0] == s[0]);
        assert(s.take(j + 1).drop_first() =~= s.drop_first().take(j));
        assert(s.take(j).drop_first() =~= s.drop_first().take(j - 1));
        lemma_srtt_fold_snoc(srtt_step(srtt, s[0], now), s.drop_first(), j - 1, now);
        assert(s.drop_first()[j - 1] == s[j]);
        assert(srtt_fold(srtt, s.take(j + 1), now) == srtt_fold(
            srtt_step(srtt, s[0], now),
            s.drop_first().take(j),
            now,
        ));
        assert(srtt_fold(srtt, s.take(j), now) == srtt_fold(
            srtt_step(srtt, s[0], now),
            s.drop_first().take(j - 1),
            now,
        ));
    }
}

/// Karn's rule, as a law: when every acknowledged record had been
/// retransmitted, the SRTT estimate does not move.
pub proof fn lemma_srtt_ignores_retransmitted(srtt: u64, s: Seq<SendTimer>, now: u64)
    requires
        forall|i: int| 0 <= i < s.len() ==> s[i].retransmitted,
    ensures
        srtt_fold(srtt, s, now) == srtt,
    decreases s.len(),
{
    if s.len() > 0 {
        lemma_srtt_ignores_retransmitted(srtt, s.drop_first(), now);
    }
}

} // verus!
