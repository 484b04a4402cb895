//! Multi-word series builder: fans each snapshot record out into one
//! sub-series per word it mentions, keyed by word and then by URL, with a
//! shared timestamp axis and a per-word running maximum.
use vstd::prelude::*;

use crate::DolusError;
use crate::keys::{assoc, distinct_keys, find_key, has_key, key_views};
use crate::keys::{lemma_assoc_absent, lemma_assoc_at, lemma_assoc_push, lemma_assoc_update,
    lemma_has_key_views, lemma_push_contains};
use crate::series::CountByUrl;
use crate::ts::{Timestamp, lemma_multiset_same_elements, parsed_time, sort_timestamps, sorted_ts};

verus! {

/// One snapshot record: "at time `created` (an unparsed ISO-8601-like
/// string), URL `url` reported the word counts `counts`".
#[derive(Debug)]
pub struct SnapshotRecord {
    pub created: String,
    pub url: String,
    pub counts: Vec<(String, u64)>,
}

/// The mathematical content of a `SnapshotRecord`.
pub struct SnapRecV {
    pub created: Seq<char>,
    pub url: Seq<char>,
    pub counts: Seq<(Seq<char>, u64)>,
}

impl View for SnapshotRecord {
    type V = SnapRecV;

    open spec fn view(&self) -> SnapRecV {
        SnapRecV {
            created: self.created@,
            url: self.url@,
            counts: self.counts@.map_values(|p: (String, u64)| (p.0@, p.1)),
        }
    }
}

pub open spec fn snap_views(s: Seq<SnapshotRecord>) -> Seq<SnapRecV> {
    s.map_values(|r: SnapshotRecord| r@)
}

/// Every record's timestamp string parses.
pub open spec fn all_parse_snap(rs: Seq<SnapRecV>) -> bool {
    forall|i: int| 0 <= i < rs.len() ==> parsed_time(#[trigger] rs[i].created) is Some
}

/// The timestamp a record's string parses to (meaningful when it parses).
pub open spec fn snap_ts(r: SnapRecV) -> Timestamp {
    let p = parsed_time(r.created)->Some_0;
    Timestamp { secs: p.0 as i64, micros: p.1 as u32 }
}

/// One axis entry per record, in input order.
pub open spec fn snap_times(rs: Seq<SnapRecV>) -> Seq<Timestamp> {
    rs.map_values(|r: SnapRecV| snap_ts(r))
}

/// Fold one record's word list into a first-seen word listing.
pub open spec fn add_words(acc: Seq<Seq<char>>, ws: Seq<(Seq<char>, u64)>) -> Seq<Seq<char>>
    decreases ws.len(),
{
    if ws.len() == 0 {
        acc
    } else {
        let prev = add_words(acc, ws.drop_last());
        if prev.contains(ws.last().0) {
            prev
        } else {
            prev.push(ws.last().0)
        }
    }
}

/// The distinct words of the stream, in first-seen order.
pub open spec fn seen_words(rs: Seq<SnapRecV>) -> Seq<Seq<char>>
    decreases rs.len(),
{
    if rs.len() == 0 {
        Seq::empty()
    } else {
        add_words(seen_words(rs.drop_last()), rs.last().counts)
    }
}

/// Some pair of the record mentions the word.
pub open spec fn rec_has_word(ws: Seq<(Seq<char>, u64)>, w: Seq<char>) -> bool {
    exists|k: int| 0 <= k < ws.len() && ws[k].0 == w
}

/// The points one record contributes to word `w`, in pair order.
pub open spec fn rec_points(ws: Seq<(Seq<char>, u64)>, w: Seq<char>, t: Timestamp) -> Seq<
    (Timestamp, u64),
>
    decreases ws.len(),
{
    if ws.len() == 0 {
        Seq::empty()
    } else {
        let prev = rec_points(ws.drop_last(), w, t);
        if ws.last().0 == w {
            prev.push((t, ws.last().1))
        } else {
            prev
        }
    }
}

/// The series word `w` accumulates for URL `u`, in input order.
pub open spec fn word_url_series(rs: Seq<SnapRecV>, w: Seq<char>, u: Seq<char>) -> Seq<
    (Timestamp, u64),
>
    decreases rs.len(),
{
    if rs.len() == 0 {
        Seq::empty()
    } else {
        let prev = word_url_series(rs.drop_last(), w, u);
        let r = rs.last();
        if r.url == u {
            prev + rec_points(r.counts, w, snap_ts(r))
        } else {
            prev
        }
    }
}

/// The URLs that mention word `w`, in first-seen order.
pub open spec fn word_urls(rs: Seq<SnapRecV>, w: Seq<char>) -> Seq<Seq<char>>
    decreases rs.len(),
{
    if rs.len() == 0 {
        Seq::empty()
    } else {
        let prev = word_urls(rs.drop_last(), w);
        let r = rs.last();
        if rec_has_word(r.counts, w) && !prev.contains(r.url) {
            prev.push(r.url)
        } else {
            prev
        }
    }
}

/// The largest count one record reports for word `w`, 0 when absent.
pub open spec fn rec_word_max(ws: Seq<(Seq<char>, u64)>, w: Seq<char>) -> int
    decreases ws.len(),
{
    if ws.len() == 0 {
        0
    } else {
        let prev = rec_word_max(ws.drop_last(), w);
        if ws.last().0 == w && ws.last().1 > prev {
            ws.last().1 as int
        } else {
            prev
        }
    }
}

/// The largest count the stream reports for word `w`, 0 when absent.
pub open spec fn word_max(rs: Seq<SnapRecV>, w: Seq<char>) -> int
    decreases rs.len(),
{
    if rs.len() == 0 {
        0
    } else {
        let prev = word_max(rs.drop_last(), w);
        let m = rec_word_max(rs.last().counts, w);
        if m > prev {
            m
        } else {
            prev
        }
    }
}

pub proof fn lemma_add_words_contains(acc: Seq<Seq<char>>, ws: Seq<(Seq<char>, u64)>, x: Seq<char>)
    ensures
        add_words(acc, ws).contains(x) <==> acc.contains(x) || rec_has_word(ws, x),
    decreases ws.len(),
{
    if ws.len() > 0 {
        lemma_add_words_contains(acc, ws.drop_last(), x);
        let prev = add_words(acc, ws.drop_last());
        if !prev.contains(ws.last().0) {
            lemma_push_contains(prev, ws.last().0, x);
        }
        assert(rec_has_word(ws, x) <==> rec_has_word(ws.drop_last(), x) || ws.last().0 == x) by {
            if rec_has_word(ws, x) {
                let k = choose|k: int| 0 <= k < ws.len() && ws[k].0 == x;
                if k < ws.len() - 1 {
                    assert(ws.drop_last()[k].0 == x);
                }
            }
            if rec_has_word(ws.drop_last(), x) {
                let k = choose|k: int| 0 <= k < ws.drop_last().len() && ws.drop_last()[k].0 == x;
                assert(ws[k].0 == x);
            }
            assert(ws[ws.len() - 1] == ws.last());
        }
    }
}

/// A record without word `w` contributes neither points nor a maximum.
pub proof fn lemma_rec_absent(ws: Seq<(Seq<char>, u64)>, w: Seq<char>, t: Timestamp)
    requires
        !rec_has_word(ws, w),
    ensures
        rec_points(ws, w, t) == Seq::<(Timestamp, u64)>::empty(),
        rec_word_max(ws, w) == 0,
    decreases ws.len(),
{
    if ws.len() > 0 {
        assert(ws[ws.len() - 1] == ws.last());
        assert(!rec_has_word(ws.drop_last(), w)) by {
            if rec_has_word(ws.drop_last(), w) {
                let k = choose|k: int| 0 <= k < ws.drop_last().len() && ws.drop_last()[k].0 == w;
                assert(ws[k].0 == w);
            }
        }
        lemma_rec_absent(ws.drop_last(), w, t);
    }
}

/// A word never seen in the stream has no URLs, no series and no maximum.
pub proof fn lemma_unseen_word(rs: Seq<SnapRecV>, w: Seq<char>)
    requires
        !seen_words(rs).contains(w),
    ensures
        word_urls(rs, w) == Seq::<Seq<char>>::empty(),
        word_max(rs, w) == 0,
        forall|u: Seq<char>| #[trigger] word_url_series(rs, w, u) == Seq::<(Timestamp, u64)>::empty(),
    decreases rs.len(),
{
    if rs.len() > 0 {
        let dl = rs.drop_last();
        lemma_add_words_contains(seen_words(dl), rs.last().counts, w);
        lemma_unseen_word(dl, w);
        lemma_rec_absent(rs.last().counts, w, snap_ts(rs.last()));
        assert forall|u: Seq<char>| #[trigger] word_url_series(rs, w, u) == Seq::<
            (Timestamp, u64),
        >::empty() by {
            assert(word_url_series(dl, w, u) == Seq::<(Timestamp, u64)>::empty());
            if rs.last().url == u {
                assert(word_url_series(rs, w, u) =~= Seq::<(Timestamp, u64)>::empty());
            }
        }
    }
}

/// All words' chart data from one batch of snapshot records: the shared
/// sorted axis and, per word, the per-URL series with their maximum.
#[derive(Debug)]
pub struct DolusCounts {
    pub labels: Vec<Timestamp>,
    pub count_by_word: Vec<(String, CountByUrl)>,
}

impl DolusCounts {
    pub open spec fn wf(self) -> bool {
        &&& sorted_ts(self.labels@)
        &&& forall|i: int| 0 <= i < self.labels@.len() ==> (#[trigger] self.labels@[i]).valid()
        &&& distinct_keys(self.count_by_word@)
        &&& forall|i: int|
            0 <= i < self.count_by_word@.len() ==> (#[trigger] self.count_by_word@[i].1).wf()
    }

    /// The words with chart data, in first-seen order.
    pub open spec fn words(self) -> Seq<Seq<char>> {
        key_views(self.count_by_word@)
    }

    /// The per-URL data stored for a word.
    pub open spec fn word_data(self, w: Seq<char>) -> Option<CountByUrl> {
        assoc(self.count_by_word@, w)
    }
}

/// Build every word's chart data from a batch of snapshot records.
///
/// Each record contributes one axis entry, and one point per word it
/// mentions to that word's series for the record's URL, in input order; the
/// axis is sorted ascending afterwards, the series stay in ingestion order.
/// The first record whose timestamp string does not parse aborts the batch
/// with a parse error naming its position.
pub fn build_counts(records: &Vec<SnapshotRecord>) -> (r: Result<DolusCounts, DolusError>)
    ensures
        r is Ok <==> all_parse_snap(snap_views(records@)),
        r matches Err(e) ==> ({
            let rv = snap_views(records@);
            e matches DolusError::Parse { index } && 0 <= (index as int) < rv.len()
                && parsed_time(rv[index as int].created) is None && all_parse_snap(
                rv.take(index as int),
            )
        }),
        r matches Ok(dc) ==> ({
            let rv = snap_views(records@);
            &&& dc.wf()
            &&& dc.labels@.len() == rv.len()
            &&& dc.labels@.to_multiset() == snap_times(rv).to_multiset()
            &&& dc.words() == seen_words(rv)
            &&& forall|w: Seq<char>|
                #[trigger] dc.word_data(w) is Some ==> ({
                    let cb = dc.word_data(w)->Some_0;
                    &&& cb.urls() == word_urls(rv, w)
                    &&& forall|u: Seq<char>| #[trigger] cb.series(u) == word_url_series(rv, w, u)
                    &&& cb.max_value as int == word_max(rv, w)
                })
        }),
{
    let ghost rv = snap_views(records@);
    let mut labels: Vec<Timestamp> = Vec::new();
    let mut cbw: Vec<(String, CountByUrl)> = Vec::new();
    let mut i: usize = 0;
    proof {
        assert(rv.take(0) =~= Seq::<SnapRecV>::empty());
        assert(labels@ =~= snap_times(rv.take(0)));
        assert(key_views(cbw@) =~= seen_words(rv.take(0)));
    }
    while i < records.len()
        invariant
            i <= records@.len(),
            rv == snap_views(records@),
            rv.len() == records@.len(),
            all_parse_snap(rv.take(i as int)),
            labels@ == snap_times(rv.take(i as int)),
            forall|k: int| 0 <= k < labels@.len() ==> (#[trigger] labels@[k]).valid(),
            distinct_keys(cbw@),
            forall|k: int| 0 <= k < cbw@.len() ==> (#[trigger] cbw@[k].1).wf(),
            key_views(cbw@) == seen_words(rv.take(i as int)),
            forall|w: Seq<char>|
                #[trigger] assoc(cbw@, w) is Some ==> ({
                    let cb = assoc(cbw@, w)->Some_0;
                    &&& cb.urls() == word_urls(rv.take(i as int), w)
                    &&& forall|u: Seq<char>|
                        #[trigger] cb.series(u) == word_url_series(rv.take(i as int), w, u)
                    &&& cb.max_value as int == word_max(rv.take(i as int), w)
                }),
        decreases records@.len() - i,
    {
        let rec = &records[i];
        proof {
            assert(rv[i as int] == records@[i as int]@);
        }
        let t = match Timestamp::parse(rec.created.as_str()) {
            None => {
                proof {
                    assert(parsed_time(rv[i as int].created) is None);
                }
                return Err(DolusError::Parse { index: i });
            },
            Some(t) => t,
        };
        labels.push(t);
        let ghost tk = rv.take(i as int);
        let ghost pv = rv[i as int].counts;
        let ghost u_rec = rv[i as int].url;
        let mut k: usize = 0;
        proof {
            assert(pv.take(0) =~= Seq::<(Seq<char>, u64)>::empty());
            assert(add_words(seen_words(tk), pv.take(0)) == seen_words(tk));
            assert forall|w: Seq<char>|
                #[trigger] assoc(cbw@, w) is Some implies ({
                let cb = assoc(cbw@, w)->Some_0;
                &&& cb.urls() == mid_urls(tk, pv.take(0), w, u_rec)
                &&& forall|u: Seq<char>|
                    #[trigger] cb.series(u) == mid_series(tk, pv.take(0), w, u, u_rec, t)
                &&& cb.max_value as int == mid_max(tk, pv.take(0), w)
            }) by {
                if assoc(cbw@, w) is Some {
                    let cb = assoc(cbw@, w)->Some_0;
                    assert(!rec_has_word(pv.take(0), w));
                    lemma_rec_absent(pv.take(0), w, t);
                    assert forall|u: Seq<char>|
                        #[trigger] cb.series(u) == mid_series(tk, pv.take(0), w, u, u_rec, t) by {
                        assert(cb.series(u) == word_url_series(tk, w, u));
                        assert(mid_series(tk, pv.take(0), w, u, u_rec, t) =~= word_url_series(
                            tk,
                            w,
                            u,
                        ));
                    }
                }
            }
        }
        while k < rec.counts.len()
            invariant
                k <= rec.counts@.len(),
                pv == rv[i as int].counts,
                u_rec == rv[i as int].url,
                u_rec == rec.url@,
                pv.len() == rec.counts@.len(),
                forall|p: int| 0 <= p < pv.len() ==> pv[p] == (rec.counts@[p].0@, rec.counts@[p].1),
                t.valid(),
                distinct_keys(cbw@),
                forall|q: int| 0 <= q < cbw@.len() ==> (#[trigger] cbw@[q].1).wf(),
                key_views(cbw@) == add_words(seen_words(tk), pv.take(k as int)),
                forall|w: Seq<char>|
                    #[trigger] assoc(cbw@, w) is Some ==> ({
                        let cb = assoc(cbw@, w)->Some_0;
                        &&& cb.urls() == mid_urls(tk, pv.take(k as int), w, u_rec)
                        &&& forall|u: Seq<char>|
                            #[trigger] cb.series(u) == mid_series(tk, pv.take(k as int), w, u, u_rec, t)
                        &&& cb.max_value as int == mid_max(tk, pv.take(k as int), w)
                    }),
            decreases rec.counts@.len() - k,
        {
            let word = &rec.counts[k].0;
            let value = rec.counts[k].1;
            let ghost wv = word@;
            let ghost ptk = pv.take(k as int);
            let ghost ptk1 = pv.take(k + 1);
            let ghost pre = cbw@;
            proof {
                assert(ptk1.drop_last() =~= ptk);
                assert(ptk1.last() == pv[k as int]);
                assert(pv[k as int].0 == wv && pv[k as int].1 == value);
                assert(rec_has_word(ptk1, wv)) by {
                    assert(ptk1[k as int].0 == wv);
                }
            }
            match find_key(&cbw, word) {
                Some(j) => {
                    let mut entry = cbw.remove(j);
                    let ghost pre_cb = entry.1;
                    entry.1.ingest(&rec.url, t, value);
                    cbw.insert(j, entry);
                    proof {
                        let e = cbw@[j as int];
                        let cb2 = e.1;
                        assert(cbw@ =~= pre.update(j as int, e));
                        assert(e.0 == pre[j as int].0);
                        lemma_assoc_at(pre, wv, j as int);
                        assert(key_views(cbw@) =~= key_views(pre));
                        lemma_step_known(tk, ptk, pv[k as int], wv, u_rec, t, pre_cb, cb2);
                        assert forall|w: Seq<char>|
                            #[trigger] assoc(cbw@, w) is Some implies ({
                            let cb = assoc(cbw@, w)->Some_0;
                            &&& cb.urls() == mid_urls(tk, ptk1, w, u_rec)
                            &&& forall|u: Seq<char>|
                                #[trigger] cb.series(u) == mid_series(tk, ptk1, w, u, u_rec, t)
                            &&& cb.max_value as int == mid_max(tk, ptk1, w)
                        }) by {
                            lemma_assoc_update(pre, j as int, e, w);
                            if w != wv && assoc(pre, w) is Some {
                                let cb = assoc(pre, w)->Some_0;
                                lemma_step_other(tk, ptk, pv[k as int], w, u_rec, t, cb);
                            }
                        }
                        assert(has_key(pre, wv)) by {
                            assert(pre[j as int].0@ == wv);
                        }
                        lemma_has_key_views(pre, wv);
                        assert(add_words(seen_words(tk), ptk1) =~= add_words(seen_words(tk), ptk));
                    }
                },
                None => {
                    let mut cb = CountByUrl::new();
                    let ghost cb0 = cb;
                    cb.ingest(&rec.url, t, value);
                    cbw.push((word.clone(), cb));
                    proof {
                        assert(cb0.urls() =~= Seq::<Seq<char>>::empty());
                        assert forall|u: Seq<char>| #[trigger] cb0.series(u) == Seq::<
                            (Timestamp, u64),
                        >::empty() by {
                            lemma_assoc_absent(cb0.by_url@, u);
                        }
                        let e = cbw@.last();
                        assert(cbw@ =~= pre.push(e));
                        assert(e.0@ == wv);
                        assert(!has_key(pre, wv));
                        lemma_has_key_views(pre, wv);
                        lemma_add_words_contains(seen_words(tk), ptk, wv);
                        lemma_unseen_word(tk, wv);
                        lemma_rec_absent(ptk, wv, t);
                        lemma_step_fresh(tk, ptk, pv[k as int], wv, u_rec, t, e.1);
                        assert forall|w: Seq<char>|
                            #[trigger] assoc(cbw@, w) is Some implies ({
                            let cb2 = assoc(cbw@, w)->Some_0;
                            &&& cb2.urls() == mid_urls(tk, ptk1, w, u_rec)
                            &&& forall|u: Seq<char>|
                                #[trigger] cb2.series(u) == mid_series(tk, ptk1, w, u, u_rec, t)
                            &&& cb2.max_value as int == mid_max(tk, ptk1, w)
                        }) by {
                            lemma_assoc_push(pre, e, w);
                            if w != wv && assoc(pre, w) is Some {
                                let cb2 = assoc(pre, w)->Some_0;
                                lemma_step_other(tk, ptk, pv[k as int], w, u_rec, t, cb2);
                            }
                        }
                        assert(add_words(seen_words(tk), ptk1) =~= add_words(
                            seen_words(tk),
                            ptk,
                        ).push(wv));
                        assert(key_views(cbw@) =~= key_views(pre).push(wv));
                    }
                },
            }
            k += 1;
        }
        proof {
            let tk1 = rv.take(i + 1);
            assert(tk1.drop_last() =~= tk);
            assert(tk1.last() == rv[i as int]);
            assert(pv.take(k as int) =~= pv);
            assert(snap_ts(rv[i as int]) == t);
            assert(all_parse_snap(tk1)) by {
                assert forall|p: int|
                    0 <= p < tk1.len() implies parsed_time(#[trigger] tk1[p].created) is Some by {
                    if p < i as int {
                        assert(tk1[p] == tk[p]);
                    }
                }
            }
            assert(labels@ =~= snap_times(tk1));
            assert(seen_words(tk1) == add_words(seen_words(tk), pv));
            assert forall|w: Seq<char>|
                #[trigger] assoc(cbw@, w) is Some implies ({
                let cb = assoc(cbw@, w)->Some_0;
                &&& cb.urls() == word_urls(tk1, w)
                &&& forall|u: Seq<char>| #[trigger] cb.series(u) == word_url_series(tk1, w, u)
                &&& cb.max_value as int == word_max(tk1, w)
            }) by {
                if assoc(cbw@, w) is Some {
                    let cb = assoc(cbw@, w)->Some_0;
                    assert(cb.urls() == mid_urls(tk, pv, w, u_rec));
                    assert(word_urls(tk1, w) == mid_urls(tk, pv, w, u_rec));
                    assert forall|u: Seq<char>|
                        #[trigger] cb.series(u) == word_url_series(tk1, w, u) by {
                        assert(cb.series(u) == mid_series(tk, pv, w, u, u_rec, t));
                        if u_rec == u {
                            assert(word_url_series(tk1, w, u) == word_url_series(tk, w, u)
                                + rec_points(pv, w, t));
                        } else {
                            assert(word_url_series(tk1, w, u) =~= word_url_series(tk, w, u)
                                + Seq::<(Timestamp, u64)>::empty());
                        }
                    }
                    assert(word_max(tk1, w) == mid_max(tk, pv, w));
                }
            }
        }
        i += 1;
    }
    proof {
        assert(rv.take(rv.len() as int) =~= rv);
    }
    let ghost unsorted = labels@;
    sort_timestamps(&mut labels);
    proof {
        lemma_multiset_same_elements(labels@, unsorted);
        assert forall|k: int| 0 <= k < labels@.len() implies (#[trigger] labels@[k]).valid() by {
            assert(labels@.contains(labels@[k]));
            assert(unsorted.contains(labels@[k]));
            let w = choose|w: int| 0 <= w < unsorted.len() && unsorted[w] == labels@[k];
            assert(unsorted[w].valid());
        }
    }
    Ok(DolusCounts { labels, count_by_word: cbw })
}

/// Mid-record word listing: the words after folding a prefix of one
/// record's pairs on top of a fully folded stream prefix.
spec fn mid_urls(tk: Seq<SnapRecV>, ptk: Seq<(Seq<char>, u64)>, w: Seq<char>, u_rec: Seq<char>)
    -> Seq<Seq<char>> {
    let base = word_urls(tk, w);
    if rec_has_word(ptk, w) && !base.contains(u_rec) {
        base.push(u_rec)
    } else {
        base
    }
}

spec fn mid_series(
    tk: Seq<SnapRecV>,
    ptk: Seq<(Seq<char>, u64)>,
    w: Seq<char>,
    u: Seq<char>,
    u_rec: Seq<char>,
    t: Timestamp,
) -> Seq<(Timestamp, u64)> {
    word_url_series(tk, w, u) + if u == u_rec {
        rec_points(ptk, w, t)
    } else {
        Seq::<(Timestamp, u64)>::empty()
    }
}

spec fn mid_max(tk: Seq<SnapRecV>, ptk: Seq<(Seq<char>, u64)>, w: Seq<char>) -> int {
    let base = word_max(tk, w);
    let m = rec_word_max(ptk, w);
    if m > base {
        m
    } else {
        base
    }
}

/// Folding one more pair of the current record for a word it does not
/// mention leaves that word's mid-record state unchanged.
proof fn lemma_step_other(
    tk: Seq<SnapRecV>,
    ptk: Seq<(Seq<char>, u64)>,
    pair: (Seq<char>, u64),
    w: Seq<char>,
    u_rec: Seq<char>,
    t: Timestamp,
    cb: CountByUrl,
)
    requires
        pair.0 != w,
        cb.urls() == mid_urls(tk, ptk, w, u_rec),
        forall|u: Seq<char>| #[trigger] cb.series(u) == mid_series(tk, ptk, w, u, u_rec, t),
        cb.max_value as int == mid_max(tk, ptk, w),
    ensures
        cb.urls() == mid_urls(tk, ptk.push(pair), w, u_rec),
        forall|u: Seq<char>| #[trigger] cb.series(u) == mid_series(tk, ptk.push(pair), w, u, u_rec, t),
        cb.max_value as int == mid_max(tk, ptk.push(pair), w),
{
    let p1 = ptk.push(pair);
    assert(p1.drop_last() =~= ptk);
    assert(p1.last() == pair);
    assert(rec_has_word(p1, w) <==> rec_has_word(ptk, w)) by {
        if rec_has_word(p1, w) {
            let q = choose|q: int| 0 <= q < p1.len() && p1[q].0 == w;
            assert(q < ptk.len());
            assert(ptk[q].0 == w);
        }
        if rec_has_word(ptk, w) {
            let q = choose|q: int| 0 <= q < ptk.len() && ptk[q].0 == w;
            assert(p1[q].0 == w);
        }
    }
    assert(rec_points(p1, w, t) == rec_points(ptk, w, t));
    assert(rec_word_max(p1, w) == rec_word_max(ptk, w));
}

/// Folding the pair `(w, v)` into an existing entry for `w` advances that
/// word's mid-record state by one pair.
proof fn lemma_step_known(
    tk: Seq<SnapRecV>,
    ptk: Seq<(Seq<char>, u64)>,
    pair: (Seq<char>, u64),
    w: Seq<char>,
    u_rec: Seq<char>,
    t: Timestamp,
    pre_cb: CountByUrl,
    cb: CountByUrl,
)
    requires
        pair.0 == w,
        pre_cb.urls() == mid_urls(tk, ptk, w, u_rec),
        forall|u: Seq<char>| #[trigger] pre_cb.series(u) == mid_series(tk, ptk, w, u, u_rec, t),
        pre_cb.max_value as int == mid_max(tk, ptk, w),
        cb.max_value == if pair.1 > pre_cb.max_value {
            pair.1
        } else {
            pre_cb.max_value
        },
        cb.urls() == if has_key(pre_cb.by_url@, u_rec) {
            pre_cb.urls()
        } else {
            pre_cb.urls().push(u_rec)
        },
        forall|u: Seq<char>| u != u_rec ==> #[trigger] cb.series(u) == pre_cb.series(u),
        cb.series(u_rec) == pre_cb.series(u_rec).push((t, pair.1)),
    ensures
        cb.urls() == mid_urls(tk, ptk.push(pair), w, u_rec),
        forall|u: Seq<char>| #[trigger] cb.series(u) == mid_series(tk, ptk.push(pair), w, u, u_rec, t),
        cb.max_value as int == mid_max(tk, ptk.push(pair), w),
{
    let p1 = ptk.push(pair);
    assert(p1.drop_last() =~= ptk);
    assert(p1.last() == pair);
    assert(rec_has_word(p1, w)) by {
        assert(p1[p1.len() - 1].0 == w);
    }
    lemma_has_key_views(pre_cb.by_url@, u_rec);
    let base = word_urls(tk, w);
    if rec_has_word(ptk, w) {
        // the record already touched this word, so its URL is already listed
        assert(mid_urls(tk, ptk, w, u_rec).contains(u_rec)) by {
            if !base.contains(u_rec) {
                lemma_push_contains(base, u_rec, u_rec);
            }
        }
        assert(cb.urls() == pre_cb.urls());
        assert(mid_urls(tk, p1, w, u_rec) == mid_urls(tk, ptk, w, u_rec));
    } else {
        if base.contains(u_rec) {
            assert(mid_urls(tk, p1, w, u_rec) == base);
            assert(cb.urls() == pre_cb.urls());
        } else {
            assert(!pre_cb.urls().contains(u_rec));
            assert(mid_urls(tk, p1, w, u_rec) == base.push(u_rec));
        }
    }
    assert forall|u: Seq<char>|
        #[trigger] cb.series(u) == mid_series(tk, p1, w, u, u_rec, t) by {
        if u == u_rec {
            assert(rec_points(p1, w, t) == rec_points(ptk, w, t).push((t, pair.1)));
            assert((word_url_series(tk, w, u) + rec_points(ptk, w, t)).push((t, pair.1))
                =~= word_url_series(tk, w, u) + rec_points(ptk, w, t).push((t, pair.1)));
        } else {
            assert(rec_points(p1, w, t) == rec_points(ptk, w, t).push((t, pair.1)));
        }
    }
    assert(rec_word_max(p1, w) == if pair.1 > rec_word_max(ptk, w) {
        pair.1 as int
    } else {
        rec_word_max(ptk, w)
    });
}

/// Folding the pair `(w, v)` as a word's very first occurrence yields the
/// mid-record state of a one-pair prefix.
proof fn lemma_step_fresh(
    tk: Seq<SnapRecV>,
    ptk: Seq<(Seq<char>, u64)>,
    pair: (Seq<char>, u64),
    w: Seq<char>,
    u_rec: Seq<char>,
    t: Timestamp,
    cb: CountByUrl,
)
    requires
        pair.0 == w,
        !rec_has_word(ptk, w),
        word_urls(tk, w) == Seq::<Seq<char>>::empty(),
        word_max(tk, w) == 0,
        forall|u: Seq<char>| #[trigger] word_url_series(tk, w, u) == Seq::<(Timestamp, u64)>::empty(),
        cb.max_value == pair.1,
        cb.urls() == Seq::<Seq<char>>::empty().push(u_rec),
        forall|u: Seq<char>|
            u != u_rec ==> #[trigger] cb.series(u) == Seq::<(Timestamp, u64)>::empty(),
        cb.series(u_rec) == Seq::<(Timestamp, u64)>::empty().push((t, pair.1)),
    ensures
        cb.urls() == mid_urls(tk, ptk.push(pair), w, u_rec),
        forall|u: Seq<char>| #[trigger] cb.series(u) == mid_series(tk, ptk.push(pair), w, u, u_rec, t),
        cb.max_value as int == mid_max(tk, ptk.push(pair), w),
{
    let p1 = ptk.push(pair);
    assert(p1.drop_last() =~= ptk);
    assert(p1.last() == pair);
    assert(rec_has_word(p1, w)) by {
        assert(p1[p1.len() - 1].0 == w);
    }
    lemma_rec_absent(ptk, w, t);
    assert(rec_points(p1, w, t) =~= Seq::<(Timestamp, u64)>::empty().push((t, pair.1)));
    assert(rec_word_max(p1, w) == pair.1 as int);
    assert forall|u: Seq<char>|
        #[trigger] cb.series(u) == mid_series(tk, p1, w, u, u_rec, t) by {
        if u == u_rec {
            assert(mid_series(tk, p1, w, u, u_rec, t) =~= Seq::<(Timestamp, u64)>::empty().push(
                (t, pair.1),
            ));
        } else {
            assert(mid_series(tk, p1, w, u, u_rec, t) =~= Seq::<(Timestamp, u64)>::empty());
        }
    }
}


impl DolusCounts {
    /// The words that have chart data, in first-seen order.
    pub fn get_words(&self) -> (r: Vec<String>)
        ensures
            r@.map_values(|s: String| s@) == self.words(),
    {
        let mut r: Vec<String> = Vec::new();
        let mut q: usize = 0;
        while q < self.count_by_word.len()
            invariant
                q <= self.count_by_word@.len(),
                r@.len() == q,
                forall|t: int| 0 <= t < q ==> (#[trigger] r@[t]) == self.count_by_word@[t].0,
            decreases self.count_by_word@.len() - q,
        {
            r.push(self.count_by_word[q].0.clone());
            q += 1;
        }
        proof {
            assert(r@.map_values(|s: String| s@) =~= self.words());
        }
        r
    }
}

} // verus!
