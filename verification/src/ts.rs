//! Timestamps as plain values: epoch seconds plus sub-second microseconds,
//! with parsing and display delegated to chrono behind trusted wrappers.
use vstd::prelude::*;
use vstd::multiset::Multiset;
use vstd::seq_lib::group_to_multiset_ensures;

verus! {

/// A point in time with microsecond precision, held as plain integers so
/// the engine's logic can be verified over it.
#[derive(Clone, Copy, Debug, PartialEq, Eq, Structural)]
pub struct Timestamp {
    pub secs: i64,
    pub micros: u32,
}

impl Timestamp {
    /// A timestamp that chrono can produce: its datetimes span about
    /// +/-262000 years, so the seconds stay well under 2^43 in magnitude,
    /// and the sub-second part stays under two million microseconds (the
    /// excess over 999999 encodes a leap second).
    pub open spec fn valid(self) -> bool {
        -0x800_0000_0000 < self.secs < 0x800_0000_0000 && self.micros < 2_000_000
    }
}

/// Total order on timestamps: by whole seconds, then by the sub-second part.
pub open spec fn ts_le(a: Timestamp, b: Timestamp) -> bool {
    a.secs < b.secs || (a.secs == b.secs && a.micros <= b.micros)
}

pub uninterp spec fn parsed_time(s: Seq<char>) -> Option<(int, int)>;

/// Relies on chrono::NaiveDateTime::parse_from_str with the fixed pattern
/// "%Y-%m-%dT%H:%M:%S.%fZ": whether parsing succeeds, and the instant it
/// yields (epoch seconds, sub-second microseconds), depend on the characters
/// of `s` alone. chrono's datetimes span about +/-262000 years, so the
/// seconds fit strictly within 2^43, and `timestamp_subsec_micros` stays
/// under 2_000_000 (at most 1_999_999, on a leap second).
#[verifier::external_body]
fn parse_timestamp_raw(s: &str) -> (r: Option<(i64, u32)>)
    ensures
        r is Some <==> parsed_time(s@) is Some,
        r matches Some(p) ==> parsed_time(s@) == Some((p.0 as int, p.1 as int)),
        r matches Some(p) ==> -0x800_0000_0000 < p.0 < 0x800_0000_0000 && p.1 < 2_000_000,
{
    match chrono::NaiveDateTime::parse_from_str(s, "%Y-%m-%dT%H:%M:%S.%fZ") {
        Ok(t) => Some((t.and_utc().timestamp(), t.and_utc().timestamp_subsec_micros())),
        Err(_) => None,
    }
}

pub uninterp spec fn minute_label(secs: int) -> Seq<char>;

/// Relies on chrono::DateTime::from_timestamp and chrono's formatting with
/// the fixed pattern "%Y-%m-%d %H:%M": the text depends on `secs` alone
/// (the pattern holds no locale- or zone-dependent item). Seconds outside
/// chrono's range fall back to the empty string, again a function of `secs`
/// alone.
#[verifier::external_body]
fn format_minute_raw(secs: i64) -> (r: String)
    ensures
        r@ == minute_label(secs as int),
{
    match chrono::DateTime::from_timestamp(secs, 0) {
        Some(t) => t.naive_utc().format("%Y-%m-%d %H:%M").to_string(),
        None => String::new(),
    }
}

impl Timestamp {
    /// Parse an ISO-8601-like timestamp string with fractional seconds,
    /// such as "2021-05-01T10:00:00.000000Z".
    pub fn parse(s: &str) -> (r: Option<Timestamp>)
        ensures
            r is Some <==> parsed_time(s@) is Some,
            r matches Some(t) ==> t.valid() && parsed_time(s@) == Some(
                (t.secs as int, t.micros as int),
            ),
    {
        match parse_timestamp_raw(s) {
            Some(p) => Some(Timestamp { secs: p.0, micros: p.1 }),
            None => None,
        }
    }

    pub fn le(&self, other: &Timestamp) -> (r: bool)
        ensures
            r == ts_le(*self, *other),
    {
        self.secs < other.secs || (self.secs == other.secs && self.micros <= other.micros)
    }

    /// The timestamp rendered to whole-minute precision, "YYYY-MM-DD HH:MM".
    pub fn minute_string(&self) -> (r: String)
        ensures
            r@ == minute_label(self.secs as int),
    {
        format_minute_raw(self.secs)
    }
}

/// Non-decreasing under the timestamp order.
pub open spec fn sorted_ts(s: Seq<Timestamp>) -> bool {
    forall|i: int, j: int| 0 <= i <= j < s.len() ==> ts_le(s[i], s[j])
}

/// Two sequences with equal multisets hold the same elements.
pub proof fn lemma_multiset_same_elements<A>(a: Seq<A>, b: Seq<A>)
    requires
        a.to_multiset() == b.to_multiset(),
    ensures
        forall|x: A| a.contains(x) <==> b.contains(x),
        a.len() == b.len(),
{
    a.to_multiset_ensures();
    b.to_multiset_ensures();
    assert forall|x: A| a.contains(x) <==> b.contains(x) by {
        assert(a.contains(x) <==> a.to_multiset().count(x) > 0);
        assert(b.contains(x) <==> b.to_multiset().count(x) > 0);
    }
}

/// Sort a timestamp vector ascending, keeping exactly the same entries.
pub fn sort_timestamps(v: &mut Vec<Timestamp>)
    ensures
        final(v)@.to_multiset() == old(v)@.to_multiset(),
        final(v)@.len() == old(v)@.len(),
        sorted_ts(final(v)@),
{
    broadcast use group_to_multiset_ensures;

    let ghost orig = v@;
    let mut out: Vec<Timestamp> = Vec::new();
    while v.len() > 0
        invariant
            out@.to_multiset().add(v@.to_multiset()) =~= orig.to_multiset(),
            out@.len() + v@.len() == orig.len(),
            sorted_ts(out@),
            forall|i: int, j: int|
                0 <= i < out@.len() && 0 <= j < v@.len() ==> ts_le(out@[i], v@[j]),
        decreases v.len(),
    {
        let mut m: usize = 0;
        let mut k: usize = 1;
        while k < v.len()
            invariant
                m < k <= v@.len(),
                forall|t: int| 0 <= t < k ==> ts_le(v@[m as int], v@[t]),
            decreases v@.len() - k,
        {
            if !v[m].le(&v[k]) {
                m = k;
            }
            k += 1;
        }
        let ghost pre = v@;
        let ghost pre_out = out@;
        let x = v.remove(m);
        out.push(x);
        proof {
            pre_out.to_multiset_ensures();
            pre.to_multiset_ensures();
            assert(out@.to_multiset() =~= pre_out.to_multiset().insert(x));
            assert(v@.to_multiset() =~= pre.to_multiset().remove(x));
            assert(out@.to_multiset().add(v@.to_multiset()) =~= orig.to_multiset());
            assert forall|i: int, j: int|
                0 <= i < out@.len() && 0 <= j < v@.len() implies ts_le(out@[i], v@[j]) by {
                let jj = if j < m { j } else { j + 1 };
                assert(v@[j] == pre[jj]);
            }
            assert forall|i: int, j: int|
                0 <= i <= j < out@.len() implies ts_le(out@[i], out@[j]) by {
                if j == out@.len() - 1 && i < j {
                    assert(ts_le(out@[i], x));
                }
            }
        }
    }
    proof {
        assert(v@.to_multiset() =~= Multiset::empty());
        assert(out@.to_multiset() =~= orig.to_multiset());
    }
    *v = out;
}

} // verus!
