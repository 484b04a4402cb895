//! Histogram builder: reduce the latest snapshot per URL to a per-word
//! distribution across URLs, with a total per word and an "active words"
//! listing ordered by descending total, ties broken alphabetically.
use vstd::prelude::*;
use vstd::multiset::Multiset;

use crate::DolusError;
use crate::keys::{assoc, distinct_keys, find_key, has_key, key_views, lex_lt, str_lex_lt};
use crate::keys::{lemma_assoc_absent, lemma_assoc_at, lemma_assoc_is_has_key, lemma_assoc_push,
    lemma_assoc_update, lemma_has_key_views, lemma_lex_total, lemma_lex_trans,
    lemma_push_contains};

verus! {

/// One word's distribution across URLs: (url, count) pairs — `None` when a
/// URL's latest snapshot gave the word no numeric count — and the sum of
/// the present counts.
#[derive(Debug)]
pub struct HistogramEntry {
    pub counts: Vec<(String, Option<i64>)>,
    pub total: i64,
}

impl HistogramEntry {
    pub open spec fn counts_view(self) -> Seq<(Seq<char>, Option<i64>)> {
        self.counts@.map_values(|p: (String, Option<i64>)| (p.0@, p.1))
    }
}

/// The per-word histogram of the latest snapshot per URL.
#[derive(Debug)]
pub struct Histogram {
    pub data: Vec<(String, HistogramEntry)>,
}

/// The mathematical content of the histogram input: per URL, its latest
/// word counts.
pub open spec fn url_counts_views(s: Seq<(String, Vec<(String, Option<i64>)>)>) -> Seq<
    (Seq<char>, Seq<(Seq<char>, Option<i64>)>),
> {
    s.map_values(
        |p: (String, Vec<(String, Option<i64>)>)|
            (p.0@, p.1@.map_values(|q: (String, Option<i64>)| (q.0@, q.1))),
    )
}

/// Every present count is non-negative.
pub open spec fn counts_nonneg(iv: Seq<(Seq<char>, Seq<(Seq<char>, Option<i64>)>)>) -> bool {
    forall|i: int, k: int|
        0 <= i < iv.len() && 0 <= k < iv[i].1.len() ==> ((#[trigger] iv[i].1[k]).1 is Some
            ==> iv[i].1[k].1->Some_0 >= 0)
}

/// Fold one URL's word list into a first-seen word listing.
pub open spec fn add_hwords(acc: Seq<Seq<char>>, ws: Seq<(Seq<char>, Option<i64>)>) -> Seq<
    Seq<char>,
>
    decreases ws.len(),
{
    if ws.len() == 0 {
        acc
    } else {
        let prev = add_hwords(acc, ws.drop_last());
        if prev.contains(ws.last().0) {
            prev
        } else {
            prev.push(ws.last().0)
        }
    }
}

/// The distinct words of the input, in first-seen order.
pub open spec fn hist_words(iv: Seq<(Seq<char>, Seq<(Seq<char>, Option<i64>)>)>) -> Seq<Seq<char>>
    decreases iv.len(),
{
    if iv.len() == 0 {
        Seq::empty()
    } else {
        add_hwords(hist_words(iv.drop_last()), iv.last().1)
    }
}

/// Some pair of the URL's counts mentions the word.
pub open spec fn rec_has_hword(ws: Seq<(Seq<char>, Option<i64>)>, w: Seq<char>) -> bool {
    exists|k: int| 0 <= k < ws.len() && ws[k].0 == w
}

/// The (url, count) pairs one URL contributes to word `w`, in pair order.
pub open spec fn rec_hentries(ws: Seq<(Seq<char>, Option<i64>)>, w: Seq<char>, u: Seq<char>) -> Seq<
    (Seq<char>, Option<i64>),
>
    decreases ws.len(),
{
    if ws.len() == 0 {
        Seq::empty()
    } else {
        let prev = rec_hentries(ws.drop_last(), w, u);
        if ws.last().0 == w {
            prev.push((u, ws.last().1))
        } else {
            prev
        }
    }
}

/// The (url, count) pairs word `w` accumulates over the input, in order.
pub open spec fn word_entries(iv: Seq<(Seq<char>, Seq<(Seq<char>, Option<i64>)>)>, w: Seq<char>)
    -> Seq<(Seq<char>, Option<i64>)>
    decreases iv.len(),
{
    if iv.len() == 0 {
        Seq::empty()
    } else {
        word_entries(iv.drop_last(), w) + rec_hentries(iv.last().1, w, iv.last().0)
    }
}

/// The sum of the present counts.
pub open spec fn sum_present(s: Seq<(Seq<char>, Option<i64>)>) -> int
    decreases s.len(),
{
    if s.len() == 0 {
        0
    } else {
        sum_present(s.drop_last()) + if s.last().1 is Some {
            s.last().1->Some_0 as int
        } else {
            0
        }
    }
}

/// Every present count of the entry list is non-negative.
pub open spec fn entries_nonneg(s: Seq<(Seq<char>, Option<i64>)>) -> bool {
    forall|k: int| 0 <= k < s.len() ==> ((#[trigger] s[k]).1 is Some ==> s[k].1->Some_0 >= 0)
}

pub proof fn lemma_sum_take_le(s: Seq<(Seq<char>, Option<i64>)>, q: int)
    requires
        entries_nonneg(s),
        0 <= q <= s.len(),
    ensures
        0 <= sum_present(s.take(q)) <= sum_present(s),
    decreases s.len() - q,
{
    if q == s.len() {
        assert(s.take(q) =~= s);
        lemma_sum_nonneg(s);
    } else {
        assert(s.take(q + 1).drop_last() =~= s.take(q));
        assert(s.take(q + 1).last() == s[q]);
        assert(s[q].1 is Some ==> s[q].1->Some_0 >= 0);
        lemma_sum_take_le(s, q + 1);
        assert(entries_nonneg(s.take(q))) by {
            assert forall|k: int| 0 <= k < s.take(q).len() implies ((#[trigger] s.take(
                q,
            )[k]).1 is Some ==> s.take(q)[k].1->Some_0 >= 0) by {
                assert(s.take(q)[k] == s[k]);
            }
        }
        lemma_sum_nonneg(s.take(q));
    }
}

pub proof fn lemma_sum_nonneg(s: Seq<(Seq<char>, Option<i64>)>)
    requires
        entries_nonneg(s),
    ensures
        sum_present(s) >= 0,
    decreases s.len(),
{
    if s.len() > 0 {
        assert(s[s.len() - 1] == s.last());
        assert(entries_nonneg(s.drop_last())) by {
            assert forall|k: int| 0 <= k < s.drop_last().len() implies ((
            #[trigger] s.drop_last()[k]).1 is Some ==> s.drop_last()[k].1->Some_0 >= 0) by {
                assert(s.drop_last()[k] == s[k]);
            }
        }
        lemma_sum_nonneg(s.drop_last());
    }
}

pub proof fn lemma_add_hwords_contains(
    acc: Seq<Seq<char>>,
    ws: Seq<(Seq<char>, Option<i64>)>,
    x: Seq<char>,
)
    ensures
        add_hwords(acc, ws).contains(x) <==> acc.contains(x) || rec_has_hword(ws, x),
    decreases ws.len(),
{
    if ws.len() > 0 {
        lemma_add_hwords_contains(acc, ws.drop_last(), x);
        let prev = add_hwords(acc, ws.drop_last());
        if !prev.contains(ws.last().0) {
            lemma_push_contains(prev, ws.last().0, x);
        }
        assert(rec_has_hword(ws, x) <==> rec_has_hword(ws.drop_last(), x) || ws.last().0 == x) by {
            if rec_has_hword(ws, x) {
                let k = choose|k: int| 0 <= k < ws.len() && ws[k].0 == x;
                if k < ws.len() - 1 {
                    assert(ws.drop_last()[k].0 == x);
                }
            }
            if rec_has_hword(ws.drop_last(), x) {
                let k = choose|k: int| 0 <= k < ws.drop_last().len() && ws.drop_last()[k].0 == x;
                assert(ws[k].0 == x);
            }
            assert(ws[ws.len() - 1] == ws.last());
        }
    }
}

/// A URL's counts without word `w` contribute no pairs to it.
pub proof fn lemma_rec_hentries_absent(ws: Seq<(Seq<char>, Option<i64>)>, w: Seq<char>, u: Seq<char>)
    requires
        !rec_has_hword(ws, w),
    ensures
        rec_hentries(ws, w, u) == Seq::<(Seq<char>, Option<i64>)>::empty(),
    decreases ws.len(),
{
    if ws.len() > 0 {
        assert(ws[ws.len() - 1] == ws.last());
        assert(!rec_has_hword(ws.drop_last(), w)) by {
            if rec_has_hword(ws.drop_last(), w) {
                let k = choose|k: int| 0 <= k < ws.drop_last().len() && ws.drop_last()[k].0 == w;
                assert(ws[k].0 == w);
            }
        }
        lemma_rec_hentries_absent(ws.drop_last(), w, u);
    }
}

/// A word never seen in the input accumulates no pairs.
pub proof fn lemma_hist_unseen(iv: Seq<(Seq<char>, Seq<(Seq<char>, Option<i64>)>)>, w: Seq<char>)
    requires
        !hist_words(iv).contains(w),
    ensures
        word_entries(iv, w) == Seq::<(Seq<char>, Option<i64>)>::empty(),
    decreases iv.len(),
{
    if iv.len() > 0 {
        let dl = iv.drop_last();
        lemma_add_hwords_contains(hist_words(dl), iv.last().1, w);
        lemma_hist_unseen(dl, w);
        lemma_rec_hentries_absent(iv.last().1, w, iv.last().0);
        assert(word_entries(iv, w) =~= Seq::<(Seq<char>, Option<i64>)>::empty());
    }
}

impl Histogram {
    pub open spec fn wf(self) -> bool {
        distinct_keys(self.data@)
    }

    /// The words with an entry, in first-seen order.
    pub open spec fn word_list(self) -> Seq<Seq<char>> {
        key_views(self.data@)
    }

    /// The entry stored for a word.
    pub open spec fn entry(self, w: Seq<char>) -> Option<HistogramEntry> {
        assoc(self.data@, w)
    }
}

/// A word's total in the histogram, 0 when it has no entry.
pub open spec fn total_of(data: Seq<(String, HistogramEntry)>, w: Seq<char>) -> int {
    match assoc(data, w) {
        Some(e) => e.total as int,
        None => 0,
    }
}

/// The display order of active words: larger totals first, ties broken by
/// the natural string order of the word.
pub open spec fn hist_word_lt(data: Seq<(String, HistogramEntry)>, a: Seq<char>, b: Seq<char>)
    -> bool {
    total_of(data, a) > total_of(data, b) || (total_of(data, a) == total_of(data, b) && lex_lt(
        a,
        b,
    ))
}

/// A word with a positive total somewhere in the histogram.
pub open spec fn has_pos_word(data: Seq<(String, HistogramEntry)>, w: Seq<char>) -> bool {
    exists|i: int| 0 <= i < data.len() && data[i].0@ == w && data[i].1.total > 0
}

/// The (word, total) pairs with a positive total, in entry order.
pub open spec fn pos_pairs(data: Seq<(String, HistogramEntry)>) -> Seq<(String, i64)>
    decreases data.len(),
{
    if data.len() == 0 {
        Seq::empty()
    } else {
        let prev = pos_pairs(data.drop_last());
        if data.last().1.total > 0 {
            prev.push((data.last().0, data.last().1.total))
        } else {
            prev
        }
    }
}

/// Candidate-order on (word, total) pairs: larger totals first, then words
/// alphabetically; reflexive on equal views.
pub open spec fn hist_pair_le(a: (String, i64), b: (String, i64)) -> bool {
    a.1 > b.1 || (a.1 == b.1 && (lex_lt(a.0@, b.0@) || a.0@ == b.0@))
}

pub proof fn lemma_pos_pairs(data: Seq<(String, HistogramEntry)>)
    requires
        distinct_keys(data),
    ensures
        forall|i: int, j: int| 0 <= i < j < pos_pairs(data).len() ==> (#[trigger] pos_pairs(
            data,
        )[i]).0@ != (#[trigger] pos_pairs(data)[j]).0@,
        forall|i: int|
            0 <= i < pos_pairs(data).len() ==> (#[trigger] pos_pairs(data)[i]).1 as int == total_of(
                data,
                pos_pairs(data)[i].0@,
            ) && pos_pairs(data)[i].1 > 0,
        forall|w: Seq<char>|
            (exists|i: int| 0 <= i < pos_pairs(data).len() && (#[trigger] pos_pairs(data)[i]).0@
                == w) <==> has_pos_word(data, w),
    decreases data.len(),
{
    if data.len() > 0 {
        let dl = data.drop_last();
        assert(distinct_keys(dl)) by {
            assert forall|i: int, j: int| 0 <= i < j < dl.len() implies (#[trigger] dl[i]).0@ != (
            #[trigger] dl[j]).0@ by {
                assert(dl[i] == data[i] && dl[j] == data[j]);
            }
        }
        lemma_pos_pairs(dl);
        assert(data[data.len() - 1] == data.last());
        let pp = pos_pairs(data);
        let prev = pos_pairs(dl);
        // every pair of the prefix listing names a key of the shorter histogram
        assert forall|i: int| 0 <= i < prev.len() implies exists|q: int|
            0 <= q < dl.len() && (#[trigger] prev[i]).0@ == dl[q].0@ && dl[q].1.total > 0 by {
            let w = prev[i].0@;
            assert(has_pos_word(dl, w)) by {
                assert(exists|z: int| 0 <= z < prev.len() && (#[trigger] prev[z]).0@ == w) by {
                    assert(prev[i].0@ == w);
                }
            }
            let q = choose|q: int| 0 <= q < dl.len() && dl[q].0@ == w && dl[q].1.total > 0;
            assert(prev[i].0@ == dl[q].0@ && dl[q].1.total > 0);
        }
        assert forall|i: int|
            0 <= i < pp.len() implies (#[trigger] pp[i]).1 as int == total_of(data, pp[i].0@)
            && pp[i].1 > 0 by {
            if i < prev.len() {
                assert(pp[i] == prev[i]);
                let q = choose|q: int|
                    0 <= q < dl.len() && prev[i].0@ == dl[q].0@ && dl[q].1.total > 0;
                lemma_total_at(dl, q);
                lemma_total_at(data, q);
                assert(data[q] == dl[q]);
            } else {
                lemma_total_at(data, data.len() - 1);
            }
        }
        assert forall|i: int, j: int| 0 <= i < j < pp.len() implies (#[trigger] pp[i]).0@ != (
        #[trigger] pp[j]).0@ by {
            if j == prev.len() && pp.len() > prev.len() {
                let q = choose|q: int|
                    0 <= q < dl.len() && prev[i].0@ == dl[q].0@ && dl[q].1.total > 0;
                assert(data[q].0@ != data[data.len() - 1].0@);
            }
        }
        assert forall|w: Seq<char>|
            (exists|i: int| 0 <= i < pp.len() && (#[trigger] pp[i]).0@ == w) <==> has_pos_word(
            data,
            w,
        ) by {
            if exists|i: int| 0 <= i < pp.len() && (#[trigger] pp[i]).0@ == w {
                let i = choose|i: int| 0 <= i < pp.len() && (#[trigger] pp[i]).0@ == w;
                if i < prev.len() {
                    assert(has_pos_word(dl, w));
                    let q = choose|q: int| 0 <= q < dl.len() && dl[q].0@ == w && dl[q].1.total > 0;
                    assert(data[q].0@ == w && data[q].1.total > 0);
                } else {
                    assert(data[data.len() - 1].0@ == w && data[data.len() - 1].1.total > 0);
                }
            }
            if has_pos_word(data, w) {
                let q = choose|q: int|
                    0 <= q < data.len() && data[q].0@ == w && data[q].1.total > 0;
                if q < data.len() - 1 {
                    assert(dl[q].0@ == w && dl[q].1.total > 0);
                    assert(has_pos_word(dl, w));
                    let i = choose|i: int| 0 <= i < prev.len() && (#[trigger] prev[i]).0@ == w;
                    assert(pp[i].0@ == w);
                } else {
                    assert(pp[pp.len() - 1].0@ == w);
                }
            }
        }
    }
}

/// With distinct keys, the total stored at an index is the word's total.
pub proof fn lemma_total_at(data: Seq<(String, HistogramEntry)>, q: int)
    requires
        distinct_keys(data),
        0 <= q < data.len(),
    ensures
        total_of(data, data[q].0@) == data[q].1.total as int,
{
    let w = data[q].0@;
    assert(has_key(data, w)) by {
        assert(data[q].0@ == w);
    }
    lemma_first_key_index(data, w);
    let qf = first_key_index(data, w);
    assert(qf == q) by {
        if qf < q {
            assert(data[qf].0@ != data[q].0@);
        }
        if q < qf {
            assert(data[q].0@ != w);
        }
    }
    lemma_assoc_at(data, w, qf);
}

/// The first index carrying key `w` (meaningful when one exists).
spec fn first_key_index(s: Seq<(String, HistogramEntry)>, w: Seq<char>) -> int
    decreases s.len(),
{
    if s.len() == 0 {
        0
    } else if s[0].0@ == w {
        0
    } else {
        1 + first_key_index(s.drop_first(), w)
    }
}

proof fn lemma_first_key_index(s: Seq<(String, HistogramEntry)>, w: Seq<char>)
    requires
        has_key(s, w),
    ensures
        0 <= first_key_index(s, w) < s.len(),
        s[first_key_index(s, w)].0@ == w,
        forall|t: int| 0 <= t < first_key_index(s, w) ==> (#[trigger] s[t]).0@ != w,
    decreases s.len(),
{
    if s.len() > 0 && s[0].0@ != w {
        assert(has_key(s.drop_first(), w)) by {
            let q = choose|q: int| 0 <= q < s.len() && s[q].0@ == w;
            assert(s.drop_first()[q - 1].0@ == w);
        }
        lemma_first_key_index(s.drop_first(), w);
        assert(s[first_key_index(s, w)] == s.drop_first()[first_key_index(s.drop_first(), w)]);
        assert forall|t: int| 1 <= t < first_key_index(s, w) implies (#[trigger] s[t]).0@ != w by {
            assert(s.drop_first()[t - 1].0@ != w);
        }
    }
}


/// One URL's counts folded up to a pair prefix, on top of a folded stream
/// prefix.
spec fn hmid(
    tk: Seq<(Seq<char>, Seq<(Seq<char>, Option<i64>)>)>,
    ptk: Seq<(Seq<char>, Option<i64>)>,
    w: Seq<char>,
    u_rec: Seq<char>,
) -> Seq<(Seq<char>, Option<i64>)> {
    word_entries(tk, w) + rec_hentries(ptk, w, u_rec)
}

proof fn lemma_hstep_other(
    ptk: Seq<(Seq<char>, Option<i64>)>,
    pair: (Seq<char>, Option<i64>),
    w: Seq<char>,
    u: Seq<char>,
)
    requires
        pair.0 != w,
    ensures
        rec_hentries(ptk.push(pair), w, u) == rec_hentries(ptk, w, u),
    decreases ptk.len(),
{
    let p1 = ptk.push(pair);
    assert(p1.drop_last() =~= ptk);
    assert(p1.last() == pair);
}

proof fn lemma_hstep_word(
    ptk: Seq<(Seq<char>, Option<i64>)>,
    pair: (Seq<char>, Option<i64>),
    u: Seq<char>,
)
    ensures
        rec_hentries(ptk.push(pair), pair.0, u) == rec_hentries(ptk, pair.0, u).push(
            (u, pair.1),
        ),
{
    let p1 = ptk.push(pair);
    assert(p1.drop_last() =~= ptk);
    assert(p1.last() == pair);
}

/// Accumulated (url, count) pairs inherit non-negativity from the input.
pub proof fn lemma_word_entries_nonneg(
    iv: Seq<(Seq<char>, Seq<(Seq<char>, Option<i64>)>)>,
    w: Seq<char>,
)
    requires
        counts_nonneg(iv),
    ensures
        entries_nonneg(word_entries(iv, w)),
    decreases iv.len(),
{
    if iv.len() > 0 {
        let dl = iv.drop_last();
        assert(counts_nonneg(dl)) by {
            assert forall|i: int, k: int|
                0 <= i < dl.len() && 0 <= k < dl[i].1.len() implies ((#[trigger] dl[i].1[k]).1
                is Some ==> dl[i].1[k].1->Some_0 >= 0) by {
                assert(dl[i] == iv[i]);
            }
        }
        lemma_word_entries_nonneg(dl, w);
        assert(iv[iv.len() - 1] == iv.last());
        lemma_rec_hentries_nonneg(iv.last().1, w, iv.last().0);
        let a = word_entries(dl, w);
        let b = rec_hentries(iv.last().1, w, iv.last().0);
        assert forall|k: int| 0 <= k < (a + b).len() implies ((#[trigger] (a + b)[k]).1 is Some
            ==> (a + b)[k].1->Some_0 >= 0) by {
            if k < a.len() {
                assert((a + b)[k] == a[k]);
            } else {
                assert((a + b)[k] == b[k - a.len()]);
            }
        }
    }
}

proof fn lemma_rec_hentries_nonneg(ws: Seq<(Seq<char>, Option<i64>)>, w: Seq<char>, u: Seq<char>)
    requires
        forall|k: int| 0 <= k < ws.len() ==> ((#[trigger] ws[k]).1 is Some ==> ws[k].1->Some_0
            >= 0),
    ensures
        entries_nonneg(rec_hentries(ws, w, u)),
    decreases ws.len(),
{
    if ws.len() > 0 {
        assert(ws[ws.len() - 1] == ws.last());
        assert forall|k: int| 0 <= k < ws.drop_last().len() implies ((
        #[trigger] ws.drop_last()[k]).1 is Some ==> ws.drop_last()[k].1->Some_0 >= 0) by {
            assert(ws.drop_last()[k] == ws[k]);
        }
        lemma_rec_hentries_nonneg(ws.drop_last(), w, u);
        let prev = rec_hentries(ws.drop_last(), w, u);
        if ws.last().0 == w {
            assert forall|k: int| 0 <= k < prev.push((u, ws.last().1)).len() implies ((
            #[trigger] prev.push((u, ws.last().1))[k]).1 is Some ==> prev.push(
                (u, ws.last().1),
            )[k].1->Some_0 >= 0) by {
                if k < prev.len() {
                    assert(prev.push((u, ws.last().1))[k] == prev[k]);
                }
            }
        }
    }
}

/// Build the histogram from the latest word counts per URL.
///
/// For every URL and every word its counts mention, in input order, the
/// word's entry gains the pair (url, count); a word's total is the sum of
/// its present counts.
pub fn build_histogram(latest: &Vec<(String, Vec<(String, Option<i64>)>)>) -> (r: Histogram)
    requires
        counts_nonneg(url_counts_views(latest@)),
        forall|w: Seq<char>|
            sum_present(#[trigger] word_entries(url_counts_views(latest@), w)) <= i64::MAX,
    ensures
        r.wf(),
        r.word_list() == hist_words(url_counts_views(latest@)),
        forall|w: Seq<char>|
            #[trigger] r.entry(w) is Some ==> ({
                let e = r.entry(w)->Some_0;
                &&& e.counts_view() == word_entries(url_counts_views(latest@), w)
                &&& e.total as int == sum_present(word_entries(url_counts_views(latest@), w))
            }),
{
    let ghost iv = url_counts_views(latest@);
    let mut data: Vec<(String, HistogramEntry)> = Vec::new();
    let mut i: usize = 0;
    proof {
        assert(iv.take(0) =~= Seq::<(Seq<char>, Seq<(Seq<char>, Option<i64>)>)>::empty());
        assert(key_views(data@) =~= hist_words(iv.take(0)));
    }
    while i < latest.len()
        invariant
            i <= latest@.len(),
            iv == url_counts_views(latest@),
            iv.len() == latest@.len(),
            distinct_keys(data@),
            key_views(data@) == hist_words(iv.take(i as int)),
            forall|w: Seq<char>|
                #[trigger] assoc(data@, w) is Some ==> assoc(data@, w)->Some_0.counts_view()
                    == word_entries(iv.take(i as int), w),
        decreases latest@.len() - i,
    {
        let rec = &latest[i];
        let ghost tk = iv.take(i as int);
        let ghost pv = iv[i as int].1;
        let ghost u_rec = iv[i as int].0;
        proof {
            assert(iv[i as int] == (latest@[i as int].0@, latest@[i as int].1@.map_values(
                |q: (String, Option<i64>)| (q.0@, q.1),
            )));
        }
        let mut k: usize = 0;
        proof {
            assert(pv.take(0) =~= Seq::<(Seq<char>, Option<i64>)>::empty());
            assert(add_hwords(hist_words(tk), pv.take(0)) == hist_words(tk));
            assert forall|w: Seq<char>| #[trigger] assoc(data@, w) is Some implies assoc(
                data@,
                w,
            )->Some_0.counts_view() == hmid(tk, pv.take(0), w, u_rec) by {
                assert(hmid(tk, pv.take(0), w, u_rec) =~= word_entries(tk, w));
            }
        }
        while k < rec.1.len()
            invariant
                k <= rec.1@.len(),
                pv == iv[i as int].1,
                u_rec == iv[i as int].0,
                u_rec == rec.0@,
                pv.len() == rec.1@.len(),
                forall|p: int| 0 <= p < pv.len() ==> pv[p] == (rec.1@[p].0@, rec.1@[p].1),
                distinct_keys(data@),
                key_views(data@) == add_hwords(hist_words(tk), pv.take(k as int)),
                forall|w: Seq<char>|
                    #[trigger] assoc(data@, w) is Some ==> assoc(data@, w)->Some_0.counts_view()
                        == hmid(tk, pv.take(k as int), w, u_rec),
            decreases rec.1@.len() - k,
        {
            let word = &rec.1[k].0;
            let value = rec.1[k].1;
            let ghost wv = word@;
            let ghost ptk = pv.take(k as int);
            let ghost ptk1 = pv.take(k + 1);
            let ghost pre = data@;
            proof {
                assert(ptk1.drop_last() =~= ptk);
                assert(ptk1.last() == pv[k as int]);
                assert(pv[k as int].0 == wv && pv[k as int].1 == value);
                assert(rec_has_hword(ptk1, wv)) by {
                    assert(ptk1[k as int].0 == wv);
                }
            }
            match find_key(&data, word) {
                Some(j) => {
                    let mut entry = data.remove(j);
                    entry.1.counts.push((rec.0.clone(), value));
                    data.insert(j, entry);
                    proof {
                        let e = data@[j as int];
                        assert(data@ =~= pre.update(j as int, e));
                        assert(e.0 == pre[j as int].0);
                        assert(e.1.counts_view() =~= pre[j as int].1.counts_view().push(
                            (u_rec, value),
                        ));
                        lemma_assoc_at(pre, wv, j as int);
                        lemma_hstep_word(ptk, pv[k as int], u_rec);
                        assert(pre[j as int].1.counts_view() == hmid(tk, ptk, wv, u_rec));
                        assert(e.1.counts_view() =~= hmid(tk, ptk1, wv, u_rec));
                        assert forall|w: Seq<char>| #[trigger] assoc(data@, w) is Some implies
                            assoc(data@, w)->Some_0.counts_view() == hmid(
                            tk,
                            ptk1,
                            w,
                            u_rec,
                        ) by {
                            lemma_assoc_update(pre, j as int, e, w);
                            if w != wv && assoc(pre, w) is Some {
                                lemma_hstep_other(ptk, pv[k as int], w, u_rec);
                            }
                        }
                        assert(has_key(pre, wv)) by {
                            assert(pre[j as int].0@ == wv);
                        }
                        lemma_has_key_views(pre, wv);
                        assert(add_hwords(hist_words(tk), ptk1) =~= add_hwords(
                            hist_words(tk),
                            ptk,
                        ));
                        assert(key_views(data@) =~= key_views(pre));
                    }
                },
                None => {
                    let mut counts: Vec<(String, Option<i64>)> = Vec::new();
                    counts.push((rec.0.clone(), value));
                    data.push((word.clone(), HistogramEntry { counts, total: 0 }));
                    proof {
                        let e = data@.last();
                        assert(data@ =~= pre.push(e));
                        assert(e.0@ == wv);
                        assert(!has_key(pre, e.0@));
                        lemma_has_key_views(pre, wv);
                        lemma_add_hwords_contains(hist_words(tk), ptk, wv);
                        lemma_hist_unseen(tk, wv);
                        lemma_rec_hentries_absent(ptk, wv, u_rec);
                        lemma_hstep_word(ptk, pv[k as int], u_rec);
                        assert(e.1.counts_view() =~= Seq::<(Seq<char>, Option<i64>)>::empty().push(
                            (u_rec, value),
                        ));
                        assert(e.1.counts_view() =~= hmid(tk, ptk1, wv, u_rec));
                        assert forall|w: Seq<char>| #[trigger] assoc(data@, w) is Some implies
                            assoc(data@, w)->Some_0.counts_view() == hmid(
                            tk,
                            ptk1,
                            w,
                            u_rec,
                        ) by {
                            lemma_assoc_push(pre, e, w);
                            if w != wv && assoc(pre, w) is Some {
                                lemma_hstep_other(ptk, pv[k as int], w, u_rec);
                            }
                        }
                        assert(add_hwords(hist_words(tk), ptk1) =~= add_hwords(
                            hist_words(tk),
                            ptk,
                        ).push(wv));
                        assert(key_views(data@) =~= key_views(pre).push(wv));
                    }
                },
            }
            k += 1;
        }
        proof {
            let tk1 = iv.take(i + 1);
            assert(tk1.drop_last() =~= tk);
            assert(tk1.last() == iv[i as int]);
            assert(pv.take(k as int) =~= pv);
            assert(hist_words(tk1) == add_hwords(hist_words(tk), pv));
            assert forall|w: Seq<char>| #[trigger] assoc(data@, w) is Some implies assoc(
                data@,
                w,
            )->Some_0.counts_view() == word_entries(tk1, w) by {
                assert(assoc(data@, w)->Some_0.counts_view() == hmid(tk, pv, w, u_rec));
                assert(word_entries(tk1, w) == word_entries(tk, w) + rec_hentries(pv, w, u_rec));
            }
        }
        i += 1;
    }
    proof {
        assert(iv.take(iv.len() as int) =~= iv);
    }
    // second pass: totals as the sum of each entry's present counts
    let mut idx: usize = 0;
    while idx < data.len()
        invariant
            idx <= data@.len(),
            iv == url_counts_views(latest@),
            counts_nonneg(iv),
            forall|w: Seq<char>| sum_present(#[trigger] word_entries(iv, w)) <= i64::MAX,
            distinct_keys(data@),
            key_views(data@) == hist_words(iv),
            forall|w: Seq<char>|
                #[trigger] assoc(data@, w) is Some ==> assoc(data@, w)->Some_0.counts_view()
                    == word_entries(iv, w),
            forall|q: int|
                0 <= q < idx ==> (#[trigger] data@[q]).1.total as int == sum_present(
                    data@[q].1.counts_view(),
                ),
        decreases data@.len() - idx,
    {
        let ghost pre = data@;
        let ghost wv = data@[idx as int].0@;
        proof {
            lemma_first_key_for_distinct(pre, idx as int);
            lemma_assoc_at(pre, wv, idx as int);
            lemma_word_entries_nonneg(iv, wv);
        }
        let mut e = data.remove(idx);
        let t = sum_counts(&e.1.counts);
        e.1.total = t;
        data.insert(idx, e);
        proof {
            let en = data@[idx as int];
            assert(data@ =~= pre.update(idx as int, en));
            assert(en.0 == pre[idx as int].0);
            assert(en.1.counts_view() == pre[idx as int].1.counts_view());
            assert forall|w: Seq<char>| #[trigger] assoc(data@, w) is Some implies assoc(
                data@,
                w,
            )->Some_0.counts_view() == word_entries(iv, w) by {
                lemma_assoc_update(pre, idx as int, en, w);
            }
            assert(key_views(data@) =~= key_views(pre));
        }
        idx += 1;
    }
    proof {
        assert forall|w: Seq<char>| #[trigger] assoc(data@, w) is Some implies ({
            let e = assoc(data@, w)->Some_0;
            &&& e.counts_view() == word_entries(iv, w)
            &&& e.total as int == sum_present(word_entries(iv, w))
        }) by {
            lemma_assoc_is_has_key(data@, w);
            lemma_first_key_index(data@, w);
            let t = first_key_index(data@, w);
            lemma_assoc_at(data@, w, t);
        }
    }
    Histogram { data }
}

/// With distinct keys, every index is the first carrying its own key.
proof fn lemma_first_key_for_distinct(s: Seq<(String, HistogramEntry)>, q: int)
    requires
        distinct_keys(s),
        0 <= q < s.len(),
    ensures
        forall|t: int| 0 <= t < q ==> (#[trigger] s[t]).0@ != s[q].0@,
{
}

fn sum_counts(counts: &Vec<(String, Option<i64>)>) -> (t: i64)
    requires
        entries_nonneg(counts@.map_values(|p: (String, Option<i64>)| (p.0@, p.1))),
        sum_present(counts@.map_values(|p: (String, Option<i64>)| (p.0@, p.1))) <= i64::MAX,
    ensures
        t as int == sum_present(counts@.map_values(|p: (String, Option<i64>)| (p.0@, p.1))),
{
    let ghost cv = counts@.map_values(|p: (String, Option<i64>)| (p.0@, p.1));
    let mut t: i64 = 0;
    let mut q: usize = 0;
    proof {
        assert(cv.take(0) =~= Seq::<(Seq<char>, Option<i64>)>::empty());
    }
    while q < counts.len()
        invariant
            q <= counts@.len(),
            cv == counts@.map_values(|p: (String, Option<i64>)| (p.0@, p.1)),
            cv.len() == counts@.len(),
            entries_nonneg(cv),
            sum_present(cv) <= i64::MAX,
            t as int == sum_present(cv.take(q as int)),
        decreases counts@.len() - q,
    {
        proof {
            assert(cv.take(q + 1).drop_last() =~= cv.take(q as int));
            assert(cv.take(q + 1).last() == cv[q as int]);
            lemma_sum_take_le(cv, q as int);
            lemma_sum_take_le(cv, q + 1);
        }
        let o = counts[q].1;
        match o {
            Some(v) => {
                t = t + v;
            },
            None => {},
        }
        q += 1;
    }
    proof {
        assert(cv.take(cv.len() as int) =~= cv);
    }
    t
}

fn hist_le_exec(a: &(String, i64), b: &(String, i64)) -> (r: bool)
    ensures
        r == hist_pair_le(*a, *b),
{
    if a.1 > b.1 {
        true
    } else if a.1 < b.1 {
        false
    } else if str_lex_lt(a.0.as_str(), b.0.as_str()) {
        true
    } else {
        a.0 == b.0
    }
}

proof fn lemma_hist_le_total(a: (String, i64), b: (String, i64))
    ensures
        hist_pair_le(a, b) || hist_pair_le(b, a),
{
    if a.1 == b.1 {
        lemma_lex_total(a.0@, b.0@);
    }
}

proof fn lemma_hist_le_trans(a: (String, i64), b: (String, i64), c: (String, i64))
    requires
        hist_pair_le(a, b),
        hist_pair_le(b, c),
    ensures
        hist_pair_le(a, c),
{
    if a.1 == b.1 && b.1 == c.1 {
        if lex_lt(a.0@, b.0@) && lex_lt(b.0@, c.0@) {
            lemma_lex_trans(a.0@, b.0@, c.0@);
        }
    }
}

fn sort_hist_pairs(v: &mut Vec<(String, i64)>)
    ensures
        final(v)@.to_multiset() == old(v)@.to_multiset(),
        final(v)@.len() == old(v)@.len(),
        forall|i: int, j: int|
            0 <= i <= j < final(v)@.len() ==> hist_pair_le(final(v)@[i], final(v)@[j]),
{
    broadcast use vstd::seq_lib::group_to_multiset_ensures;

    let ghost orig = v@;
    let mut out: Vec<(String, i64)> = Vec::new();
    while v.len() > 0
        invariant
            out@.to_multiset().add(v@.to_multiset()) =~= orig.to_multiset(),
            out@.len() + v@.len() == orig.len(),
            forall|i: int, j: int| 0 <= i <= j < out@.len() ==> hist_pair_le(out@[i], out@[j]),
            forall|i: int, j: int|
                0 <= i < out@.len() && 0 <= j < v@.len() ==> hist_pair_le(out@[i], v@[j]),
        decreases v.len(),
    {
        let mut m: usize = 0;
        let mut k: usize = 1;
        while k < v.len()
            invariant
                m < k <= v@.len(),
                forall|t: int| 0 <= t < k ==> hist_pair_le(v@[m as int], #[trigger] v@[t]),
            decreases v@.len() - k,
        {
            if !hist_le_exec(&v[m], &v[k]) {
                proof {
                    lemma_hist_le_total(v@[m as int], v@[k as int]);
                    assert forall|t: int| 0 <= t <= k implies hist_pair_le(
                        v@[k as int],
                        #[trigger] v@[t],
                    ) by {
                        if t < k {
                            lemma_hist_le_trans(v@[k as int], v@[m as int], v@[t]);
                        } else {
                            lemma_hist_le_total(v@[k as int], v@[k as int]);
                        }
                    }
                }
                m = k;
            }
            k += 1;
        }
        let ghost pre = v@;
        let ghost pre_out = out@;
        let x = v.remove(m);
        out.push(x);
        proof {
            pre_out.to_multiset_ensures();
            pre.to_multiset_ensures();
            assert(out@.to_multiset() =~= pre_out.to_multiset().insert(x));
            assert(v@.to_multiset() =~= pre.to_multiset().remove(x));
            assert(out@.to_multiset().add(v@.to_multiset()) =~= orig.to_multiset());
            lemma_hist_le_total(x, x);
            assert forall|i: int, j: int|
                0 <= i < out@.len() && 0 <= j < v@.len() implies hist_pair_le(
                out@[i],
                v@[j],
            ) by {
                let jj = if j < m {
                    j
                } else {
                    j + 1
                };
                assert(v@[j] == pre[jj]);
            }
            assert forall|i: int, j: int|
                0 <= i <= j < out@.len() implies hist_pair_le(out@[i], out@[j]) by {
                if j == out@.len() - 1 && i < j {
                    assert(hist_pair_le(out@[i], x));
                }
            }
        }
    }
    proof {
        assert(v@.to_multiset() =~= Multiset::empty());
        assert(out@.to_multiset() =~= orig.to_multiset());
    }
    *v = out;
}

impl Histogram {
    /// The active words: every word whose total is positive — and no word
    /// with a zero (or absent) total — largest totals first, ties in the
    /// natural string order of the word.
    pub fn words(&self) -> (r: Vec<String>)
        requires
            self.wf(),
        ensures
            ({
                let ws = r@.map_values(|s: String| s@);
                &&& ws.no_duplicates()
                &&& forall|w: Seq<char>|
                    #[trigger] ws.contains(w) <==> has_pos_word(self.data@, w)
                &&& forall|i: int, j: int|
                    0 <= i < j < ws.len() ==> hist_word_lt(self.data@, ws[i], ws[j])
            }),
    {
        let mut pairs: Vec<(String, i64)> = Vec::new();
        let mut i: usize = 0;
        proof {
            assert(self.data@.take(0) =~= Seq::<(String, HistogramEntry)>::empty());
            assert(pairs@ =~= pos_pairs(self.data@.take(0)));
        }
        while i < self.data.len()
            invariant
                i <= self.data@.len(),
                pairs@ == pos_pairs(self.data@.take(i as int)),
            decreases self.data@.len() - i,
        {
            let e = &self.data[i];
            if e.1.total > 0 {
                pairs.push((e.0.clone(), e.1.total));
            }
            proof {
                let tk1 = self.data@.take(i + 1);
                assert(tk1.drop_last() =~= self.data@.take(i as int));
                assert(tk1.last() == self.data@[i as int]);
                assert(pairs@ =~= pos_pairs(tk1));
            }
            i += 1;
        }
        proof {
            assert(self.data@.take(self.data@.len() as int) =~= self.data@);
        }
        let ghost p0 = pos_pairs(self.data@);
        proof {
            lemma_pos_pairs(self.data@);
        }
        sort_hist_pairs(&mut pairs);
        let ghost sorted = pairs@;
        let mut r: Vec<String> = Vec::new();
        let mut q: usize = 0;
        while q < pairs.len()
            invariant
                q <= pairs@.len(),
                pairs@ == sorted,
                r@.len() == q,
                forall|t: int| 0 <= t < q ==> r@[t] == (#[trigger] pairs@[t]).0,
            decreases pairs@.len() - q,
        {
            r.push(pairs[q].0.clone());
            q += 1;
        }
        proof {
            let ws = r@.map_values(|s: String| s@);
            crate::ts::lemma_multiset_same_elements(sorted, p0);
            assert(p0.no_duplicates()) by {
                assert forall|a: int, b: int|
                    0 <= a < p0.len() && 0 <= b < p0.len() && a != b implies p0[a] != p0[b] by {
                    if a < b {
                        assert(p0[a].0@ != p0[b].0@);
                    } else {
                        assert(p0[b].0@ != p0[a].0@);
                    }
                }
            }
            p0.lemma_multiset_has_no_duplicates();
            sorted.lemma_multiset_has_no_duplicates_conv();
            // two sorted entries never share a word
            assert forall|a: int, b: int|
                0 <= a < sorted.len() && 0 <= b < sorted.len() && a != b implies (
            #[trigger] sorted[a]).0@ != (#[trigger] sorted[b]).0@ by {
                assert(sorted.contains(sorted[a]));
                assert(sorted.contains(sorted[b]));
                assert(p0.contains(sorted[a]));
                assert(p0.contains(sorted[b]));
                let qa = choose|t: int| 0 <= t < p0.len() && p0[t] == sorted[a];
                let qb = choose|t: int| 0 <= t < p0.len() && p0[t] == sorted[b];
                if sorted[a] != sorted[b] {
                    assert(qa != qb);
                    if qa < qb {
                        assert(p0[qa].0@ != p0[qb].0@);
                    } else {
                        assert(p0[qb].0@ != p0[qa].0@);
                    }
                } else {
                    assert(sorted.no_duplicates());
                }
            }
            assert(ws.no_duplicates()) by {
                assert forall|a: int, b: int|
                    0 <= a < ws.len() && 0 <= b < ws.len() && a != b implies ws[a] != ws[b] by {
                    assert(ws[a] == sorted[a].0@ && ws[b] == sorted[b].0@);
                }
            }
            assert forall|w: Seq<char>| #[trigger] ws.contains(w) <==> has_pos_word(
                self.data@,
                w,
            ) by {
                if ws.contains(w) {
                    let t = choose|t: int| 0 <= t < ws.len() && ws[t] == w;
                    assert(sorted.contains(sorted[t]));
                    assert(p0.contains(sorted[t]));
                    let qq = choose|z: int| 0 <= z < p0.len() && p0[z] == sorted[t];
                    assert(p0[qq].0@ == w);
                }
                if has_pos_word(self.data@, w) {
                    let z = choose|z: int| 0 <= z < p0.len() && (#[trigger] p0[z]).0@ == w;
                    assert(p0.contains(p0[z]));
                    assert(sorted.contains(p0[z]));
                    let t = choose|t: int| 0 <= t < sorted.len() && sorted[t] == p0[z];
                    assert(ws[t] == w);
                }
            }
            assert forall|a: int, b: int| 0 <= a < b < ws.len() implies hist_word_lt(
                self.data@,
                ws[a],
                ws[b],
            ) by {
                assert(hist_pair_le(sorted[a], sorted[b]));
                assert(sorted.contains(sorted[a]));
                assert(sorted.contains(sorted[b]));
                assert(p0.contains(sorted[a]));
                assert(p0.contains(sorted[b]));
                let qa = choose|t: int| 0 <= t < p0.len() && p0[t] == sorted[a];
                let qb = choose|t: int| 0 <= t < p0.len() && p0[t] == sorted[b];
                assert(p0[qa].1 as int == total_of(self.data@, p0[qa].0@));
                assert(p0[qb].1 as int == total_of(self.data@, p0[qb].0@));
                assert(sorted[a].0@ != sorted[b].0@);
            }
        }
        r
    }
}


/// The bar categories: URLs with a present, positive count, in entry order.
pub open spec fn pos_urls(s: Seq<(Seq<char>, Option<i64>)>) -> Seq<Seq<char>>
    decreases s.len(),
{
    if s.len() == 0 {
        Seq::empty()
    } else {
        let prev = pos_urls(s.drop_last());
        if s.last().1 is Some && s.last().1->Some_0 > 0 {
            prev.push(s.last().0)
        } else {
            prev
        }
    }
}

/// The bars: every present (url, count) pair, in entry order.
pub open spec fn present_bars(s: Seq<(Seq<char>, Option<i64>)>) -> Seq<(Seq<char>, i64)>
    decreases s.len(),
{
    if s.len() == 0 {
        Seq::empty()
    } else {
        let prev = present_bars(s.drop_last());
        if s.last().1 is Some {
            prev.push((s.last().0, s.last().1->Some_0))
        } else {
            prev
        }
    }
}

/// The largest present count, 0 when none is present.
pub open spec fn max_present(s: Seq<(Seq<char>, Option<i64>)>) -> int
    decreases s.len(),
{
    if s.len() == 0 {
        0
    } else {
        let prev = max_present(s.drop_last());
        if s.last().1 is Some && s.last().1->Some_0 > prev {
            s.last().1->Some_0 as int
        } else {
            prev
        }
    }
}

/// What the bar chart of one word needs: its total for the caption, the
/// URLs that form the categories, the value range, and the bars.
#[derive(Debug)]
pub struct HistogramPlan {
    pub word: String,
    pub total: i64,
    pub urls: Vec<String>,
    pub y_max: i64,
    pub bars: Vec<(String, i64)>,
}

impl Histogram {
    /// The bar-chart data of one word; an unknown word is a lookup error.
    pub fn plan(&self, word: &String) -> (r: Result<HistogramPlan, DolusError>)
        requires
            self.wf(),
        ensures
            r is Ok <==> has_key(self.data@, word@),
            r matches Err(e) ==> e == DolusError::Lookup,
            r matches Ok(p) ==> ({
                let cv = assoc(self.data@, word@)->Some_0.counts_view();
                &&& p.word@ == word@
                &&& p.total == assoc(self.data@, word@)->Some_0.total
                &&& p.urls@.map_values(|s: String| s@) == pos_urls(cv)
                &&& p.bars@.map_values(|b: (String, i64)| (b.0@, b.1)) == present_bars(cv)
                &&& p.y_max as int == max_present(cv)
            }),
    {
        let j = match find_key(&self.data, word) {
            None => {
                proof {
                    lemma_assoc_is_has_key(self.data@, word@);
                }
                return Err(DolusError::Lookup);
            },
            Some(j) => j,
        };
        proof {
            lemma_assoc_at(self.data@, word@, j as int);
            assert(has_key(self.data@, word@)) by {
                assert(self.data@[j as int].0@ == word@);
            }
        }
        let entry = &self.data[j].1;
        let ghost cv = entry.counts_view();
        let mut urls: Vec<String> = Vec::new();
        let mut bars: Vec<(String, i64)> = Vec::new();
        let mut y_max: i64 = 0;
        let mut k: usize = 0;
        proof {
            assert(cv.take(0) =~= Seq::<(Seq<char>, Option<i64>)>::empty());
            assert(urls@.map_values(|s: String| s@) =~= pos_urls(cv.take(0)));
            assert(bars@.map_values(|b: (String, i64)| (b.0@, b.1)) =~= present_bars(cv.take(0)));
        }
        while k < entry.counts.len()
            invariant
                k <= entry.counts@.len(),
                cv == entry.counts_view(),
                entry == self.data@[j as int].1,
                j < self.data@.len(),
                cv.len() == entry.counts@.len(),
                forall|p: int| 0 <= p < cv.len() ==> cv[p] == (entry.counts@[p].0@, entry.counts@[p].1),
                urls@.map_values(|s: String| s@) == pos_urls(cv.take(k as int)),
                bars@.map_values(|b: (String, i64)| (b.0@, b.1)) == present_bars(cv.take(k as int)),
                y_max as int == max_present(cv.take(k as int)),
            decreases entry.counts@.len() - k,
        {
            proof {
                assert(cv.take(k + 1).drop_last() =~= cv.take(k as int));
                assert(cv.take(k + 1).last() == cv[k as int]);
            }
            let value = entry.counts[k].1;
            match value {
                Some(v) => {
                    bars.push((entry.counts[k].0.clone(), v));
                    if v > 0 {
                        urls.push(entry.counts[k].0.clone());
                    }
                    if v > y_max {
                        y_max = v;
                    }
                },
                None => {},
            }
            proof {
                assert(urls@.map_values(|s: String| s@) =~= pos_urls(cv.take(k + 1)));
                assert(bars@.map_values(|b: (String, i64)| (b.0@, b.1)) =~= present_bars(
                    cv.take(k + 1),
                ));
            }
            k += 1;
        }
        proof {
            assert(cv.take(cv.len() as int) =~= cv);
        }
        Ok(
            HistogramPlan {
                word: word.clone(),
                total: entry.total,
                urls,
                y_max,
                bars,
            },
        )
    }
}

} // verus!
