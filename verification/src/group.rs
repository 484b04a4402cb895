//! Backend grouping: reduce crawl rows to one series per URL for a chosen
//! word, keeping row order within each URL, and strip absent entries from a
//! word listing.
use vstd::prelude::*;

use crate::keys::{assoc, distinct_keys, find_key, has_key, key_views};
use crate::keys::{lemma_assoc_absent, lemma_assoc_at, lemma_assoc_push, lemma_assoc_update,
    lemma_has_key_views};
use crate::ts::Timestamp;

verus! {

/// One crawl row: when it was crawled, for which URL, and the word counts
/// its stored JSON carried — `None` where a count was not numeric.
#[derive(Debug)]
pub struct CrawlRow {
    pub created: Timestamp,
    pub url: String,
    pub counts: Vec<(String, Option<u64>)>,
}

/// The mathematical content of a `CrawlRow`.
pub struct CrawlRowV {
    pub created: Timestamp,
    pub url: Seq<char>,
    pub counts: Seq<(Seq<char>, Option<u64>)>,
}

impl View for CrawlRow {
    type V = CrawlRowV;

    open spec fn view(&self) -> CrawlRowV {
        CrawlRowV {
            created: self.created,
            url: self.url@,
            counts: self.counts@.map_values(|p: (String, Option<u64>)| (p.0@, p.1)),
        }
    }
}

pub open spec fn row_views(s: Seq<CrawlRow>) -> Seq<CrawlRowV> {
    s.map_values(|r: CrawlRow| r@)
}

/// The first count stored under `w`, if any pair carries that word.
pub open spec fn pair_lookup(ws: Seq<(Seq<char>, Option<u64>)>, w: Seq<char>) -> Option<
    Option<u64>,
>
    decreases ws.len(),
{
    if ws.len() == 0 {
        None
    } else if ws[0].0 == w {
        Some(ws[0].1)
    } else {
        pair_lookup(ws.drop_first(), w)
    }
}

/// A row counts for word `w` when its counts carry a numeric value for it.
pub open spec fn row_count(r: CrawlRowV, w: Seq<char>) -> Option<u64> {
    match pair_lookup(r.counts, w) {
        Some(c) => c,
        None => None,
    }
}

/// The (timestamp, count) series URL `u` accumulates for word `w`, in row
/// order, over the rows that carry a numeric count for the word.
pub open spec fn grouped(rs: Seq<CrawlRowV>, w: Seq<char>, u: Seq<char>) -> Seq<(Timestamp, u64)>
    decreases rs.len(),
{
    if rs.len() == 0 {
        Seq::empty()
    } else {
        let prev = grouped(rs.drop_last(), w, u);
        let r = rs.last();
        if r.url == u && row_count(r, w) is Some {
            prev.push((r.created, row_count(r, w)->Some_0))
        } else {
            prev
        }
    }
}

/// The URLs with at least one counted row for `w`, in first-seen order.
pub open spec fn grouped_urls(rs: Seq<CrawlRowV>, w: Seq<char>) -> Seq<Seq<char>>
    decreases rs.len(),
{
    if rs.len() == 0 {
        Seq::empty()
    } else {
        let prev = grouped_urls(rs.drop_last(), w);
        let r = rs.last();
        if row_count(r, w) is Some && !prev.contains(r.url) {
            prev.push(r.url)
        } else {
            prev
        }
    }
}

/// A URL outside the grouped listing accumulates no series.
pub proof fn lemma_ungrouped(rs: Seq<CrawlRowV>, w: Seq<char>, u: Seq<char>)
    requires
        !grouped_urls(rs, w).contains(u),
    ensures
        grouped(rs, w, u) == Seq::<(Timestamp, u64)>::empty(),
    decreases rs.len(),
{
    if rs.len() > 0 {
        let dl = rs.drop_last();
        let prev = grouped_urls(dl, w);
        let r = rs.last();
        if row_count(r, w) is Some && !prev.contains(r.url) {
            crate::keys::lemma_push_contains(prev, r.url, u);
        }
        lemma_ungrouped(dl, w, u);
        assert(r.url != u || row_count(r, w) is None);
    }
}

/// The first count a row's pairs store under `w`, if any.
fn lookup_count(counts: &Vec<(String, Option<u64>)>, w: &String) -> (r: Option<Option<u64>>)
    ensures
        r == pair_lookup(counts@.map_values(|p: (String, Option<u64>)| (p.0@, p.1)), w@),
{
    let ghost cv = counts@.map_values(|p: (String, Option<u64>)| (p.0@, p.1));
    let mut k: usize = 0;
    proof {
        assert(cv.skip(0) =~= cv);
    }
    while k < counts.len()
        invariant
            k <= counts@.len(),
            cv == counts@.map_values(|p: (String, Option<u64>)| (p.0@, p.1)),
            cv.len() == counts@.len(),
            pair_lookup(cv, w@) == pair_lookup(cv.skip(k as int), w@),
        decreases counts@.len() - k,
    {
        proof {
            assert(cv.skip(k as int)[0] == cv[k as int]);
            assert(cv.skip(k as int).drop_first() =~= cv.skip(k + 1));
        }
        if counts[k].0 == *w {
            return Some(counts[k].1);
        }
        k += 1;
    }
    proof {
        assert(cv.skip(k as int).len() == 0);
    }
    None
}

/// Group the rows that carry a numeric count for `word` by URL, keeping
/// row order within each URL and first-seen order across URLs.
pub fn group_by_word(rows: &Vec<CrawlRow>, word: &String) -> (r: Vec<
    (String, Vec<(Timestamp, u64)>),
>)
    ensures
        distinct_keys(r@),
        key_views(r@) == grouped_urls(row_views(rows@), word@),
        forall|u: Seq<char>|
            #[trigger] assoc(r@, u) matches Some(v) ==> v@ == grouped(row_views(rows@), word@, u),
        forall|u: Seq<char>|
            assoc(r@, u) is None ==> grouped(row_views(rows@), word@, u) == Seq::<
                (Timestamp, u64),
            >::empty(),
{
    broadcast use vstd::seq_lib::group_seq_properties;

    let ghost rv = row_views(rows@);
    let mut out: Vec<(String, Vec<(Timestamp, u64)>)> = Vec::new();
    let mut i: usize = 0;
    proof {
        assert(rv.take(0) =~= Seq::<CrawlRowV>::empty());
        assert(key_views(out@) =~= grouped_urls(rv.take(0), word@));
        assert forall|u: Seq<char>| assoc(out@, u) is None by {
            lemma_assoc_absent(out@, u);
        }
    }
    while i < rows.len()
        invariant
            i <= rows@.len(),
            rv == row_views(rows@),
            rv.len() == rows@.len(),
            distinct_keys(out@),
            key_views(out@) == grouped_urls(rv.take(i as int), word@),
            forall|u: Seq<char>|
                #[trigger] assoc(out@, u) matches Some(v) ==> v@ == grouped(
                    rv.take(i as int),
                    word@,
                    u,
                ),
        decreases rows@.len() - i,
    {
        let row = &rows[i];
        proof {
            assert(rv[i as int] == rows@[i as int]@);
        }
        let c = lookup_count(&row.counts, word);
        let ghost tk = rv.take(i as int);
        let ghost tk1 = rv.take(i + 1);
        proof {
            assert(tk1.drop_last() =~= tk);
            assert(tk1.last() == rv[i as int]);
        }
        match c {
            Some(Some(v)) => {
                let ghost pre = out@;
                proof {
                    assert(row_count(rv[i as int], word@) == Some(v));
                }
                match find_key(&out, &row.url) {
                    Some(j) => {
                        let mut entry = out.remove(j);
                        entry.1.push((row.created, v));
                        out.insert(j, entry);
                        proof {
                            let e = out@[j as int];
                            assert(out@ =~= pre.update(j as int, e));
                            assert(e.0 == pre[j as int].0);
                            assert(e.1@ == pre[j as int].1@.push((row.created, v)));
                            lemma_assoc_at(pre, row.url@, j as int);
                            assert forall|u: Seq<char>|
                                #[trigger] assoc(out@, u) is Some implies assoc(out@, u)->Some_0@
                                == grouped(tk1, word@, u) by {
                                lemma_assoc_update(pre, j as int, e, u);
                            }
                            assert(has_key(pre, row.url@)) by {
                                assert(pre[j as int].0@ == row.url@);
                            }
                            lemma_has_key_views(pre, row.url@);
                            assert(key_views(out@) =~= key_views(pre));
                        }
                    },
                    None => {
                        let mut series: Vec<(Timestamp, u64)> = Vec::new();
                        series.push((row.created, v));
                        out.push((row.url.clone(), series));
                        proof {
                            let e = out@.last();
                            assert(out@ =~= pre.push(e));
                            assert(e.0@ == row.url@);
                            assert(!has_key(pre, e.0@));
                            lemma_has_key_views(pre, row.url@);
                            lemma_assoc_absent(pre, row.url@);
                            assert(e.1@ =~= Seq::<(Timestamp, u64)>::empty().push(
                                (row.created, v),
                            ));
                            assert forall|u: Seq<char>|
                                #[trigger] assoc(out@, u) is Some implies assoc(out@, u)->Some_0@
                                == grouped(tk1, word@, u) by {
                                lemma_assoc_push(pre, e, u);
                                if u == row.url@ {
                                    crate::keys::lemma_assoc_is_has_key(pre, u);
                                    lemma_ungrouped(tk, word@, u);
                                }
                            }
                            assert(key_views(out@) =~= key_views(pre).push(row.url@));
                        }
                    },
                }
            },
            _ => {
                proof {
                    assert(row_count(rv[i as int], word@) is None);
                    assert forall|u: Seq<char>| #[trigger] grouped(tk1, word@, u) == grouped(
                        tk,
                        word@,
                        u,
                    ) by {}
                }
            },
        }
        i += 1;
    }
    proof {
        assert(rv.take(rv.len() as int) =~= rv);
        assert forall|u: Seq<char>|
            assoc(out@, u) is None implies grouped(rv, word@, u) == Seq::<
            (Timestamp, u64),
        >::empty() by {
            crate::keys::lemma_assoc_is_has_key(out@, u);
            lemma_has_key_views(out@, u);
            lemma_ungrouped(rv, word@, u);
        }
    }
    out
}

/// Keep the present values of a listing, in order — the shape a distinct
/// key query hands back, with its SQL `NULL`s dropped.
pub open spec fn present_of(s: Seq<Option<String>>) -> Seq<Seq<char>>
    decreases s.len(),
{
    if s.len() == 0 {
        Seq::empty()
    } else {
        let prev = present_of(s.drop_last());
        match s.last() {
            Some(w) => prev.push(w@),
            None => prev,
        }
    }
}

pub fn present_values(keys: Vec<Option<String>>) -> (r: Vec<String>)
    ensures
        r@.map_values(|s: String| s@) == present_of(keys@),
{
    let mut r: Vec<String> = Vec::new();
    let mut i: usize = 0;
    proof {
        assert(keys@.take(0) =~= Seq::<Option<String>>::empty());
        assert(r@.map_values(|s: String| s@) =~= present_of(keys@.take(0)));
    }
    while i < keys.len()
        invariant
            i <= keys@.len(),
            r@.map_values(|s: String| s@) == present_of(keys@.take(i as int)),
        decreases keys@.len() - i,
    {
        proof {
            assert(keys@.take(i + 1).drop_last() =~= keys@.take(i as int));
            assert(keys@.take(i + 1).last() == keys@[i as int]);
        }
        match &keys[i] {
            Some(w) => {
                r.push(w.clone());
            },
            None => {},
        }
        proof {
            assert(r@.map_values(|s: String| s@) =~= present_of(keys@.take(i + 1)));
        }
        i += 1;
    }
    proof {
        assert(keys@.take(keys@.len() as int) =~= keys@);
    }
    r
}

} // verus!
