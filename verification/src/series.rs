//! Series builder: folds a flat stream of single-word observations into a
//! shared, sorted timestamp axis and per-URL (timestamp, value) series,
//! tracking the running maximum value for axis scaling.
use vstd::prelude::*;

use crate::DolusError;
use crate::keys::{assoc, distinct_keys, find_key, has_key, key_views};
use crate::keys::{lemma_assoc_absent, lemma_assoc_at, lemma_assoc_push, lemma_assoc_update,
    lemma_has_key_views};
use crate::ts::{Timestamp, lemma_multiset_same_elements, parsed_time, sort_timestamps, sorted_ts};

verus! {

/// One observation of a single word: "at time `created` (an unparsed
/// ISO-8601-like string), URL `url` reported `count` occurrences".
#[derive(Debug)]
pub struct WordRecord {
    pub created: String,
    pub url: String,
    pub count: u64,
}

/// The mathematical content of a `WordRecord`.
pub struct WordRecV {
    pub created: Seq<char>,
    pub url: Seq<char>,
    pub count: u64,
}

impl View for WordRecord {
    type V = WordRecV;

    open spec fn view(&self) -> WordRecV {
        WordRecV { created: self.created@, url: self.url@, count: self.count }
    }
}

pub open spec fn rec_views(s: Seq<WordRecord>) -> Seq<WordRecV> {
    s.map_values(|r: WordRecord| r@)
}

/// Every record's timestamp string parses.
pub open spec fn all_parse(rs: Seq<WordRecV>) -> bool {
    forall|i: int| 0 <= i < rs.len() ==> parsed_time(#[trigger] rs[i].created) is Some
}

/// The timestamp a record's string parses to (meaningful when it parses).
pub open spec fn rec_ts(r: WordRecV) -> Timestamp {
    let p = parsed_time(r.created)->Some_0;
    Timestamp { secs: p.0 as i64, micros: p.1 as u32 }
}

/// One axis entry per record, in input order.
pub open spec fn times_of(rs: Seq<WordRecV>) -> Seq<Timestamp> {
    rs.map_values(|r: WordRecV| rec_ts(r))
}

/// The (timestamp, value) series a URL accumulates, in input order.
pub open spec fn url_series(rs: Seq<WordRecV>, u: Seq<char>) -> Seq<(Timestamp, u64)>
    decreases rs.len(),
{
    if rs.len() == 0 {
        Seq::empty()
    } else {
        let prev = url_series(rs.drop_last(), u);
        if rs.last().url == u {
            prev.push((rec_ts(rs.last()), rs.last().count))
        } else {
            prev
        }
    }
}

/// The distinct URLs of the stream, in first-seen order.
pub open spec fn seen_urls(rs: Seq<WordRecV>) -> Seq<Seq<char>>
    decreases rs.len(),
{
    if rs.len() == 0 {
        Seq::empty()
    } else {
        let prev = seen_urls(rs.drop_last());
        if prev.contains(rs.last().url) {
            prev
        } else {
            prev.push(rs.last().url)
        }
    }
}

/// The maximum value across the stream, 0 when it is empty.
pub open spec fn max_count(rs: Seq<WordRecV>) -> int
    decreases rs.len(),
{
    if rs.len() == 0 {
        0
    } else {
        let prev = max_count(rs.drop_last());
        if rs.last().count > prev {
            rs.last().count as int
        } else {
            prev
        }
    }
}

/// Per-URL series with their running maximum value.
#[derive(Debug)]
pub struct CountByUrl {
    pub max_value: u64,
    pub by_url: Vec<(String, Vec<(Timestamp, u64)>)>,
}

impl CountByUrl {
    pub open spec fn wf(self) -> bool {
        &&& distinct_keys(self.by_url@)
        &&& forall|i: int, j: int|
            0 <= i < self.by_url@.len() && 0 <= j < self.by_url@[i].1@.len() ==> (
            #[trigger] self.by_url@[i].1@[j]).0.valid()
    }

    /// The URLs with a series, in first-seen order.
    pub open spec fn urls(self) -> Seq<Seq<char>> {
        key_views(self.by_url@)
    }

    /// The series stored for `u`; empty when the URL is unknown.
    pub open spec fn series(self, u: Seq<char>) -> Seq<(Timestamp, u64)> {
        match assoc(self.by_url@, u) {
            Some(v) => v@,
            None => Seq::empty(),
        }
    }

    pub fn new() -> (r: CountByUrl)
        ensures
            r.wf(),
            r.max_value == 0,
            r.by_url@.len() == 0,
    {
        CountByUrl { max_value: 0, by_url: Vec::new() }
    }

    /// Fold one observation in: append `(t, count)` to `url`'s series,
    /// creating the series on first reference, and raise the running maximum.
    pub fn ingest(&mut self, url: &String, t: Timestamp, count: u64)
        requires
            old(self).wf(),
            t.valid(),
        ensures
            final(self).wf(),
            final(self).max_value == if count > old(self).max_value {
                count
            } else {
                old(self).max_value
            },
            final(self).urls() == if has_key(old(self).by_url@, url@) {
                old(self).urls()
            } else {
                old(self).urls().push(url@)
            },
            forall|u: Seq<char>|
                u != url@ ==> #[trigger] final(self).series(u) == old(self).series(u),
            final(self).series(url@) == old(self).series(url@).push((t, count)),
    {
        if count > self.max_value {
            self.max_value = count;
        }
        let ghost pre = self.by_url@;
        match find_key(&self.by_url, url) {
            Some(j) => {
                let mut entry = self.by_url.remove(j);
                entry.1.push((t, count));
                self.by_url.insert(j, entry);
                proof {
                    let e = self.by_url@[j as int];
                    assert(self.by_url@ =~= pre.update(j as int, e));
                    assert(e.0 == pre[j as int].0);
                    assert(e.1@ == pre[j as int].1@.push((t, count)));
                    lemma_assoc_at(pre, url@, j as int);
                    assert forall|u: Seq<char>| u != url@ implies #[trigger] self.series(u)
                        == old(self).series(u) by {
                        lemma_assoc_update(pre, j as int, e, u);
                    }
                    lemma_assoc_update(pre, j as int, e, url@);
                    assert(key_views(self.by_url@) =~= key_views(pre));
                    assert(has_key(pre, url@));
                }
            },
            None => {
                let mut series: Vec<(Timestamp, u64)> = Vec::new();
                series.push((t, count));
                self.by_url.push((url.clone(), series));
                proof {
                    let e = self.by_url@.last();
                    assert(self.by_url@ =~= pre.push(e));
                    assert(e.0@ == url@);
                    assert(!has_key(pre, e.0@));
                    assert forall|u: Seq<char>| u != url@ implies #[trigger] self.series(u)
                        == old(self).series(u) by {
                        lemma_assoc_push(pre, e, u);
                    }
                    lemma_assoc_push(pre, e, url@);
                    lemma_assoc_absent(pre, url@);
                    assert(old(self).series(url@) =~= Seq::<(Timestamp, u64)>::empty());
                    assert(self.series(url@) =~= e.1@);
                    assert(e.1@ =~= Seq::<(Timestamp, u64)>::empty().push((t, count)));
                    assert(key_views(self.by_url@) =~= key_views(pre).push(url@));
                }
            },
        }
    }
}

/// A single word's chart data: the shared sorted axis, the per-URL series,
/// and the maximum observed value.
#[derive(Debug)]
pub struct TimeSeriesSet {
    pub word: String,
    pub axis: Vec<Timestamp>,
    pub count: CountByUrl,
}

impl TimeSeriesSet {
    pub open spec fn wf(self) -> bool {
        &&& sorted_ts(self.axis@)
        &&& forall|i: int| 0 <= i < self.axis@.len() ==> (#[trigger] self.axis@[i]).valid()
        &&& self.count.wf()
    }
}

/// Build the chart data for one word from a flat stream of observations.
///
/// Each record contributes one axis entry and one point to its URL's series,
/// in input order; the axis is sorted ascending afterwards, the per-URL
/// series stay in ingestion order. The first record whose timestamp string
/// does not parse aborts the batch with a parse error naming its position.
pub fn build_series(word: String, records: &Vec<WordRecord>) -> (r: Result<
    TimeSeriesSet,
    DolusError,
>)
    ensures
        r is Ok <==> all_parse(rec_views(records@)),
        r matches Err(e) ==> ({
            let rv = rec_views(records@);
            e matches DolusError::Parse { index } && 0 <= (index as int) < rv.len()
                && parsed_time(rv[index as int].created) is None && all_parse(
                rv.take(index as int),
            )
        }),
        r matches Ok(s) ==> ({
            let rv = rec_views(records@);
            &&& s.wf()
            &&& s.word == word
            &&& s.axis@.len() == rv.len()
            &&& s.axis@.to_multiset() == times_of(rv).to_multiset()
            &&& s.count.urls() == seen_urls(rv)
            &&& forall|u: Seq<char>| #[trigger] s.count.series(u) == url_series(rv, u)
            &&& s.count.max_value as int == max_count(rv)
        }),
{
    let ghost rv = rec_views(records@);
    let mut axis: Vec<Timestamp> = Vec::new();
    let mut count = CountByUrl::new();
    let mut i: usize = 0;
    proof {
        assert(rv.take(0) =~= Seq::<WordRecV>::empty());
        assert(axis@ =~= times_of(rv.take(0)));
        assert(count.urls() =~= seen_urls(rv.take(0)));
        assert forall|u: Seq<char>| #[trigger] count.series(u) == url_series(rv.take(0), u) by {
            assert(count.series(u) =~= Seq::<(Timestamp, u64)>::empty());
        }
    }
    while i < records.len()
        invariant
            i <= records@.len(),
            rv == rec_views(records@),
            rv.len() == records@.len(),
            all_parse(rv.take(i as int)),
            axis@ == times_of(rv.take(i as int)),
            forall|k: int| 0 <= k < axis@.len() ==> (#[trigger] axis@[k]).valid(),
            count.wf(),
            count.urls() == seen_urls(rv.take(i as int)),
            forall|u: Seq<char>| #[trigger] count.series(u) == url_series(rv.take(i as int), u),
            count.max_value as int == max_count(rv.take(i as int)),
        decreases records@.len() - i,
    {
        let rec = &records[i];
        proof {
            assert(rv[i as int] == records@[i as int]@);
        }
        match Timestamp::parse(rec.created.as_str()) {
            None => {
                proof {
                    assert(parsed_time(rv[i as int].created) is None);
                }
                return Err(DolusError::Parse { index: i });
            },
            Some(t) => {
                axis.push(t);
                let ghost pre_count = count;
                count.ingest(&rec.url, t, rec.count);
                proof {
                    let tk = rv.take(i as int);
                    let tk1 = rv.take(i + 1);
                    assert(tk1.drop_last() =~= tk);
                    assert(tk1.last() == rv[i as int]);
                    assert(rec_ts(rv[i as int]) == t);
                    assert(all_parse(tk1)) by {
                        assert forall|k: int|
                            0 <= k < tk1.len() implies parsed_time(
                            #[trigger] tk1[k].created,
                        ) is Some by {
                            if k < i as int {
                                assert(tk1[k] == tk[k]);
                            }
                        }
                    }
                    assert(axis@ =~= times_of(tk1));
                    lemma_has_key_views(pre_count.by_url@, rv[i as int].url);
                    assert(count.urls() == seen_urls(tk1));
                    assert forall|u: Seq<char>| #[trigger] count.series(u) == url_series(tk1, u) by {
                        if u == rv[i as int].url {
                            assert(count.series(u) == url_series(tk, u).push(
                                (t, rv[i as int].count),
                            ));
                        }
                    }
                }
                i += 1;
            },
        }
    }
    proof {
        assert(rv.take(rv.len() as int) =~= rv);
    }
    let ghost unsorted = axis@;
    sort_timestamps(&mut axis);
    proof {
        lemma_multiset_same_elements(axis@, unsorted);
        assert forall|k: int| 0 <= k < axis@.len() implies (#[trigger] axis@[k]).valid() by {
            assert(axis@.contains(axis@[k]));
            assert(unsorted.contains(axis@[k]));
            let w = choose|w: int| 0 <= w < unsorted.len() && unsorted[w] == axis@[k];
            assert(unsorted[w].valid());
        }
    }
    Ok(TimeSeriesSet { word, axis, count })
}


/// The number of points across all series of an association list.
pub open spec fn total_points(s: Seq<(String, Vec<(Timestamp, u64)>)>) -> int
    decreases s.len(),
{
    if s.len() == 0 {
        0
    } else {
        total_points(s.drop_last()) + s.last().1@.len()
    }
}

pub proof fn lemma_total_points_take(s: Seq<(String, Vec<(Timestamp, u64)>)>, q: int)
    requires
        0 <= q <= s.len(),
    ensures
        0 <= total_points(s.take(q)) <= total_points(s),
    decreases s.len() - q,
{
    if q == s.len() {
        assert(s.take(q) =~= s);
        lemma_total_points_nonneg(s);
    } else {
        assert(s.take(q + 1).drop_last() =~= s.take(q));
        assert(s.take(q + 1).last() == s[q]);
        lemma_total_points_take(s, q + 1);
        lemma_total_points_nonneg(s.take(q));
    }
}

proof fn lemma_total_points_nonneg(s: Seq<(String, Vec<(Timestamp, u64)>)>)
    ensures
        total_points(s) >= 0,
    decreases s.len(),
{
    if s.len() > 0 {
        lemma_total_points_nonneg(s.drop_last());
    }
}

impl TimeSeriesSet {
    /// The word this set charts.
    pub fn word(&self) -> (r: String)
        ensures
            r@ == self.word@,
    {
        self.word.clone()
    }

    /// The number of (timestamp, value) points across all URL series.
    pub fn number_of_items(&self) -> (r: usize)
        requires
            total_points(self.count.by_url@) <= usize::MAX,
        ensures
            r as int == total_points(self.count.by_url@),
    {
        let ghost s = self.count.by_url@;
        let mut sum: usize = 0;
        let mut q: usize = 0;
        proof {
            assert(s.take(0) =~= Seq::<(String, Vec<(Timestamp, u64)>)>::empty());
        }
        while q < self.count.by_url.len()
            invariant
                q <= s.len(),
                s == self.count.by_url@,
                total_points(s) <= usize::MAX,
                sum as int == total_points(s.take(q as int)),
            decreases s.len() - q,
        {
            proof {
                assert(s.take(q + 1).drop_last() =~= s.take(q as int));
                assert(s.take(q + 1).last() == s[q as int]);
                lemma_total_points_take(s, q + 1);
            }
            sum = sum + self.count.by_url[q].1.len();
            q += 1;
        }
        proof {
            assert(s.take(s.len() as int) =~= s);
        }
        sum
    }
}

/// The running maximum is the true maximum over all emitted series points:
/// no point's value exceeds it, and when any record exists, some point
/// attains it.
pub proof fn lemma_max_count_is_max(rs: Seq<WordRecV>)
    ensures
        forall|u: Seq<char>, k: int|
            0 <= k < url_series(rs, u).len() ==> (#[trigger] url_series(rs, u)[k]).1 <= max_count(
                rs,
            ),
        rs.len() > 0 ==> exists|u: Seq<char>, k: int|
            0 <= k < url_series(rs, u).len() && (#[trigger] url_series(rs, u)[k]).1 == max_count(
                rs,
            ),
    decreases rs.len(),
{
    if rs.len() > 0 {
        let dl = rs.drop_last();
        let r = rs.last();
        lemma_max_count_is_max(dl);
        assert forall|u: Seq<char>, k: int|
            0 <= k < url_series(rs, u).len() implies (#[trigger] url_series(rs, u)[k]).1
            <= max_count(rs) by {
            if u == r.url {
                if k < url_series(dl, u).len() {
                    assert(url_series(rs, u)[k] == url_series(dl, u)[k]);
                }
            } else {
                assert(url_series(rs, u) == url_series(dl, u));
            }
        }
        if r.count as int > max_count(dl) {
            let uw = r.url;
            let kw = url_series(rs, uw).len() - 1;
            assert(url_series(rs, uw)[kw].1 == max_count(rs));
        } else {
            if dl.len() == 0 {
                assert(max_count(dl) == 0);
                assert(r.count == 0);
                let uw = r.url;
                let kw = url_series(rs, uw).len() - 1;
                assert(url_series(rs, uw)[kw].1 == max_count(rs));
            } else {
                let (uw, kw): (Seq<char>, int) = choose|u: Seq<char>, k: int|
                    0 <= k < url_series(dl, u).len() && (#[trigger] url_series(dl, u)[k]).1
                        == max_count(dl);
                if uw == r.url {
                    assert(url_series(rs, uw)[kw] == url_series(dl, uw)[kw]);
                } else {
                    assert(url_series(rs, uw) == url_series(dl, uw));
                }
                assert(url_series(rs, uw)[kw].1 == max_count(rs));
            }
        }
    }
}

} // verus!
