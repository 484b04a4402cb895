//! Nearest-point locator: map a normalized cursor position over the sorted
//! timestamp axis to the closest observed value per URL, via binary search
//! on the axis and a stable nearest scan per series.
use vstd::prelude::*;
use vstd::arithmetic::div_mod::{lemma_basic_div, lemma_hoist_over_denominator};

use crate::DolusError;
use crate::series::TimeSeriesSet;
use crate::ts::{Timestamp, minute_label, sorted_ts, ts_le};

verus! {

/// Distance between two timestamps in whole seconds.
pub open spec fn sec_dist(a: Timestamp, b: Timestamp) -> int {
    if a.secs >= b.secs {
        a.secs - b.secs
    } else {
        b.secs - a.secs
    }
}

/// The first index of `s` whose timestamp minimizes the distance to `rt`.
pub open spec fn min_dist_idx(s: Seq<(Timestamp, u64)>, rt: Timestamp) -> int
    decreases s.len(),
{
    if s.len() <= 1 {
        0
    } else {
        let rest = 1 + min_dist_idx(s.drop_first(), rt);
        if sec_dist(s[0].0, rt) <= sec_dist(s[rest].0, rt) {
            0
        } else {
            rest
        }
    }
}

pub proof fn lemma_min_dist_idx(s: Seq<(Timestamp, u64)>, rt: Timestamp)
    requires
        s.len() > 0,
    ensures
        0 <= min_dist_idx(s, rt) < s.len(),
        forall|k: int|
            0 <= k < s.len() ==> sec_dist(s[min_dist_idx(s, rt)].0, rt) <= sec_dist(
                (#[trigger] s[k]).0,
                rt,
            ),
        forall|k: int|
            0 <= k < min_dist_idx(s, rt) ==> sec_dist((#[trigger] s[k]).0, rt) > sec_dist(
                s[min_dist_idx(s, rt)].0,
                rt,
            ),
    decreases s.len(),
{
    if s.len() > 1 {
        lemma_min_dist_idx(s.drop_first(), rt);
        assert forall|k: int| 1 <= k < s.len() implies s.drop_first()[k - 1] == s[k] by {}
    }
}

/// The first axis index whose seconds reach `x`, or the axis length.
pub open spec fn lower_bound(axis: Seq<Timestamp>, x: int) -> int
    decreases axis.len(),
{
    if axis.len() == 0 {
        0
    } else if axis[0].secs >= x {
        0
    } else {
        1 + lower_bound(axis.drop_first(), x)
    }
}

pub proof fn lemma_lower_bound(axis: Seq<Timestamp>, x: int)
    ensures
        0 <= lower_bound(axis, x) <= axis.len(),
        forall|k: int| 0 <= k < lower_bound(axis, x) ==> (#[trigger] axis[k]).secs < x,
        lower_bound(axis, x) < axis.len() ==> axis[lower_bound(axis, x)].secs >= x,
    decreases axis.len(),
{
    if axis.len() > 0 && axis[0].secs < x {
        lemma_lower_bound(axis.drop_first(), x);
        assert forall|k: int| 1 <= k < lower_bound(axis, x) implies (#[trigger] axis[k]).secs
            < x by {
            assert(axis.drop_first()[k - 1] == axis[k]);
        }
        if lower_bound(axis, x) < axis.len() {
            assert(axis.drop_first()[lower_bound(axis, x) - 1] == axis[lower_bound(axis, x)]);
        }
    }
}

/// The queried instant: the left axis edge plus the cursor's share of the
/// span, rounded half-up. The cursor is the rational `num / den`.
pub open spec fn target_secs(axis: Seq<Timestamp>, num: int, den: int) -> int {
    let lo = axis.first().secs;
    let hi = axis.last().secs;
    lo + ((hi - lo) * num + den / 2) / den
}

/// The axis index the cursor resolves to: the first entry at or after the
/// queried instant, clamped to the last entry when the instant lies beyond
/// the right edge.
pub open spec fn resolved_idx(axis: Seq<Timestamp>, num: int, den: int) -> int {
    let i = lower_bound(axis, target_secs(axis, num, den));
    if i >= axis.len() {
        axis.len() - 1
    } else {
        i
    }
}

pub open spec fn resolved_at(axis: Seq<Timestamp>, num: int, den: int) -> Timestamp {
    axis[resolved_idx(axis, num, den)]
}

/// One nearest entry per URL with a non-empty series, in series order: the
/// first point of the URL's series minimizing the distance to `rt`.
pub open spec fn closest_list(s: Seq<(String, Vec<(Timestamp, u64)>)>, rt: Timestamp) -> Seq<
    (Seq<char>, Timestamp, u64),
>
    decreases s.len(),
{
    if s.len() == 0 {
        Seq::empty()
    } else {
        let prev = closest_list(s.drop_last(), rt);
        let e = s.last();
        if e.1@.len() == 0 {
            prev
        } else {
            let pt = e.1@[min_dist_idx(e.1@, rt)];
            prev.push((e.0@, pt.0, pt.1))
        }
    }
}

fn sec_dist_exec(a: &Timestamp, b: &Timestamp) -> (d: i64)
    requires
        a.valid(),
        b.valid(),
    ensures
        d as int == sec_dist(*a, *b),
{
    if a.secs >= b.secs {
        a.secs - b.secs
    } else {
        b.secs - a.secs
    }
}

impl TimeSeriesSet {
    /// The axis entry a cursor position resolves to.
    fn resolve(&self, x_num: u64, x_den: u64) -> (rt: Timestamp)
        requires
            self.wf(),
            self.axis@.len() >= 1,
            0 < x_den,
        ensures
            rt == resolved_at(self.axis@, x_num as int, x_den as int),
            rt.valid(),
    {
        let axis_len = self.axis.len();
        let lo = self.axis[0].secs;
        let hi = self.axis[axis_len - 1].secs;
        proof {
            assert(self.axis@[0].valid());
            assert(self.axis@[axis_len - 1].valid());
            assert(ts_le(self.axis@[0], self.axis@[axis_len - 1]));
        }
        let d: i64 = hi - lo;
        let du = d as u128;
        let num = x_num as u128;
        let den = x_den as u128;
        proof {
            assert((du * num) <= 0x2000_0000_0000u128 * 0x1_0000_0000_0000_0000u128)
                by (nonlinear_arith)
                requires
                    du <= 0x2000_0000_0000u128,
                    num <= 0xffff_ffff_ffff_ffffu128,
            ;
        }
        let off: u128 = (du * num + den / 2) / den;
        let ghost target = target_secs(self.axis@, x_num as int, x_den as int);
        proof {
            assert(off as int == ((hi - lo) * (x_num as int) + (x_den as int) / 2) / (
            x_den as int));
        }
        if off > du {
            // the instant lies beyond the right edge: clamp to the last entry
            proof {
                assert(target > hi as int);
                lemma_lower_bound(self.axis@, target);
                let lb = lower_bound(self.axis@, target);
                if lb < self.axis@.len() {
                    assert(ts_le(self.axis@[lb], self.axis@[axis_len - 1]));
                    assert(false);
                }
            }
            return self.axis[axis_len - 1];
        }
        let target_e: i64 = lo + off as i64;
        let mut l: usize = 0;
        let mut h: usize = axis_len;
        while l < h
            invariant
                l <= h <= self.axis@.len(),
                self.wf(),
                forall|k: int| 0 <= k < l ==> (#[trigger] self.axis@[k]).secs < target_e,
                forall|k: int|
                    h <= k < self.axis@.len() ==> (#[trigger] self.axis@[k]).secs >= target_e,
            decreases h - l,
        {
            let mid = l + (h - l) / 2;
            if self.axis[mid].secs < target_e {
                proof {
                    assert forall|k: int| 0 <= k <= mid implies (#[trigger] self.axis@[k]).secs
                        < target_e by {
                        assert(ts_le(self.axis@[k], self.axis@[mid as int]));
                    }
                }
                l = mid + 1;
            } else {
                proof {
                    assert forall|k: int|
                        mid <= k < self.axis@.len() implies (#[trigger] self.axis@[k]).secs
                        >= target_e by {
                        assert(ts_le(self.axis@[mid as int], self.axis@[k]));
                    }
                }
                h = mid;
            }
        }
        proof {
            assert(target_e as int == target);
            lemma_lower_bound(self.axis@, target);
            let lb = lower_bound(self.axis@, target);
            if (l as int) < lb {
                assert(self.axis@[l as int].secs < target);
            }
            if lb < l as int {
                assert(self.axis@[lb].secs < target);
            }
            assert(l as int == lb);
        }
        let idx = if l >= axis_len {
            axis_len - 1
        } else {
            l
        };
        self.axis[idx]
    }

    /// For each URL with data, the observation closest to where the cursor
    /// `x_num / x_den` falls on the axis (at least two axis entries needed).
    ///
    /// The cursor is clamped to the right axis edge when it lies beyond 1.
    /// Per URL the scan keeps the first of equally close observations.
    pub fn get_closest(&self, x_num: u64, x_den: u64) -> (r: Result<
        Vec<(String, Timestamp, u64)>,
        DolusError,
    >)
        requires
            self.wf(),
            0 < x_den,
        ensures
            r is Ok <==> self.axis@.len() >= 2,
            r matches Err(e) ==> e == DolusError::InsufficientData,
            r matches Ok(v) ==> v@.map_values(|p: (String, Timestamp, u64)| (p.0@, p.1, p.2))
                == closest_list(
                self.count.by_url@,
                resolved_at(self.axis@, x_num as int, x_den as int),
            ),
    {
        if self.axis.len() < 2 {
            return Err(DolusError::InsufficientData);
        }
        let rt = self.resolve(x_num, x_den);
        let mut res: Vec<(String, Timestamp, u64)> = Vec::new();
        let mut j: usize = 0;
        proof {
            assert(self.count.by_url@.take(0) =~= Seq::<(String, Vec<(Timestamp, u64)>)>::empty());
            assert(res@.map_values(|p: (String, Timestamp, u64)| (p.0@, p.1, p.2)) =~= closest_list(
                self.count.by_url@.take(0),
                rt,
            ));
        }
        while j < self.count.by_url.len()
            invariant
                j <= self.count.by_url@.len(),
                self.wf(),
                rt.valid(),
                res@.map_values(|p: (String, Timestamp, u64)| (p.0@, p.1, p.2)) == closest_list(
                    self.count.by_url@.take(j as int),
                    rt,
                ),
            decreases self.count.by_url@.len() - j,
        {
            let entry = &self.count.by_url[j];
            let ghost pre_res = res@;
            if entry.1.len() > 0 {
                let mut m: usize = 0;
                let mut q: usize = 1;
                while q < entry.1.len()
                    invariant
                        m < q <= entry.1@.len(),
                        entry == self.count.by_url@[j as int],
                        j < self.count.by_url@.len(),
                        self.wf(),
                        rt.valid(),
                        forall|p: int|
                            0 <= p < q ==> sec_dist(entry.1@[m as int].0, rt) <= sec_dist(
                                (#[trigger] entry.1@[p]).0,
                                rt,
                            ),
                        forall|p: int|
                            0 <= p < m ==> sec_dist((#[trigger] entry.1@[p]).0, rt) > sec_dist(
                                entry.1@[m as int].0,
                                rt,
                            ),
                    decreases entry.1@.len() - q,
                {
                    proof {
                        assert(entry.1@[m as int].0.valid());
                        assert(entry.1@[q as int].0.valid());
                    }
                    let dm = sec_dist_exec(&entry.1[m].0, &rt);
                    let dq = sec_dist_exec(&entry.1[q].0, &rt);
                    if dq < dm {
                        m = q;
                    }
                    q += 1;
                }
                proof {
                    lemma_min_dist_idx(entry.1@, rt);
                    let mi = min_dist_idx(entry.1@, rt);
                    if (m as int) < mi {
                        assert(sec_dist(entry.1@[m as int].0, rt) > sec_dist(entry.1@[mi].0, rt));
                        assert(sec_dist(entry.1@[m as int].0, rt) <= sec_dist(entry.1@[mi].0, rt));
                    }
                    if mi < m as int {
                        assert(sec_dist(entry.1@[mi].0, rt) > sec_dist(entry.1@[m as int].0, rt));
                        assert(sec_dist(entry.1@[mi].0, rt) <= sec_dist(entry.1@[m as int].0, rt));
                    }
                    assert(m as int == mi);
                }
                res.push((entry.0.clone(), entry.1[m].0, entry.1[m].1));
            }
            proof {
                let tk1 = self.count.by_url@.take(j + 1);
                assert(tk1.drop_last() =~= self.count.by_url@.take(j as int));
                assert(tk1.last() == self.count.by_url@[j as int]);
                assert(res@.map_values(|p: (String, Timestamp, u64)| (p.0@, p.1, p.2))
                    =~= closest_list(tk1, rt));
            }
            j += 1;
        }
        proof {
            assert(self.count.by_url@.take(self.count.by_url@.len() as int)
                =~= self.count.by_url@);
        }
        Ok(res)
    }
}


impl TimeSeriesSet {
    /// Like `get_closest`, with each entry's timestamp rendered to the
    /// fixed minute pattern "YYYY-MM-DD HH:MM".
    pub fn get_closest_formatted(&self, x_num: u64, x_den: u64) -> (r: Result<
        Vec<(String, String, u64)>,
        DolusError,
    >)
        requires
            self.wf(),
            0 < x_den,
        ensures
            r is Ok <==> self.axis@.len() >= 2,
            r matches Err(e) ==> e == DolusError::InsufficientData,
            r matches Ok(v) ==> ({
                let cl = closest_list(
                    self.count.by_url@,
                    resolved_at(self.axis@, x_num as int, x_den as int),
                );
                &&& v@.len() == cl.len()
                &&& forall|q: int|
                    0 <= q < v@.len() ==> (#[trigger] v@[q]).0@ == cl[q].0 && v@[q].1@
                        == minute_label(cl[q].1.secs as int) && v@[q].2 == cl[q].2
            }),
    {
        let base = match self.get_closest(x_num, x_den) {
            Err(e) => {
                return Err(e);
            },
            Ok(v) => v,
        };
        let ghost cl = closest_list(
            self.count.by_url@,
            resolved_at(self.axis@, x_num as int, x_den as int),
        );
        proof {
            assert(base@.map_values(|p: (String, Timestamp, u64)| (p.0@, p.1, p.2)) == cl);
        }
        let mut out: Vec<(String, String, u64)> = Vec::new();
        let mut q: usize = 0;
        while q < base.len()
            invariant
                q <= base@.len(),
                base@.map_values(|p: (String, Timestamp, u64)| (p.0@, p.1, p.2)) == cl,
                base@.len() == cl.len(),
                out@.len() == q,
                forall|t: int|
                    0 <= t < q ==> (#[trigger] out@[t]).0@ == cl[t].0 && out@[t].1@
                        == minute_label(cl[t].1.secs as int) && out@[t].2 == cl[t].2,
            decreases base@.len() - q,
        {
            let e = &base[q];
            proof {
                assert(cl[q as int] == (e.0@, e.1, e.2));
            }
            out.push((e.0.clone(), e.1.minute_string(), e.2));
            q += 1;
        }
        Ok(out)
    }
}

/// At the left edge (cursor 0) the query resolves to the first, minimal
/// axis entry.
pub proof fn lemma_resolved_left(axis: Seq<Timestamp>, den: int)
    requires
        sorted_ts(axis),
        axis.len() >= 1,
        den > 0,
    ensures
        resolved_at(axis, 0, den) == axis[0],
{
    let lo = axis.first().secs as int;
    let hi = axis.last().secs as int;
    assert(ts_le(axis[0], axis[axis.len() - 1]));
    lemma_basic_div(den / 2, den);
    assert(target_secs(axis, 0, den) == lo);
    assert(lower_bound(axis, lo) == 0);
}

/// At the right edge (cursor 1) the query resolves to an entry carrying the
/// maximal second of the axis.
pub proof fn lemma_resolved_right(axis: Seq<Timestamp>, den: int)
    requires
        sorted_ts(axis),
        axis.len() >= 1,
        den > 0,
    ensures
        resolved_at(axis, den, den).secs == axis.last().secs,
{
    let lo = axis.first().secs as int;
    let hi = axis.last().secs as int;
    assert(ts_le(axis[0], axis[axis.len() - 1]));
    let d = hi - lo;
    assert((d * den + den / 2) / den == d) by {
        lemma_hoist_over_denominator(den / 2, d, den as nat);
        lemma_basic_div(den / 2, den);
        assert(den / 2 + d * den == d * den + den / 2);
    }
    assert(target_secs(axis, den, den) == hi);
    lemma_lower_bound(axis, hi);
    let lb = lower_bound(axis, hi);
    assert(lb < axis.len()) by {
        if lb == axis.len() {
            assert(axis[axis.len() - 1].secs < hi);
        }
    }
    assert(axis[lb].secs >= hi);
    assert(ts_le(axis[lb], axis[axis.len() - 1]));
}

} // verus!
