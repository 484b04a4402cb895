//! Render planning: the validated, computed inputs a line chart needs —
//! axis and value ranges, tick count, and a stable legend color per series
//! — with the chart's own error cases checked first.
use vstd::prelude::*;

use crate::DolusError;
use crate::color::{Color, ColorAssignment, cache_after, color_result};
use crate::counts::DolusCounts;
use crate::keys::{assoc, has_key, lemma_assoc_at, lemma_assoc_is_has_key};
use crate::series::{CountByUrl, TimeSeriesSet};
use crate::ts::Timestamp;

verus! {

/// What a line chart needs: caption, axis range in epoch seconds, value
/// range, label count, and one legend entry (URL, color) per series.
#[derive(Debug)]
pub struct RenderPlan {
    pub caption: String,
    pub x_min_secs: i64,
    pub x_max_secs: i64,
    pub y_max: u64,
    pub y_label_count: u64,
    pub legend: Vec<(String, Color)>,
}

/// The y-axis label count: a third of the value range, at least 3.
pub open spec fn y_labels_of(max_value: u64) -> u64 {
    if max_value / 3 > 3 {
        (max_value / 3) as u64
    } else {
        3
    }
}

/// The color cache after assigning the first `k` series of `urls`, in
/// series order, each under its ordinal index.
pub open spec fn cache_fold(
    cache: Seq<(String, Color)>,
    urls: Seq<(String, Vec<(Timestamp, u64)>)>,
    k: int,
) -> Seq<(String, Color)>
    decreases k,
{
    if k <= 0 {
        cache
    } else {
        cache_after(cache_fold(cache, urls, k - 1), urls[k - 1].0, (k - 1) as nat)
    }
}

/// One legend entry per series, in series order: each URL with the color
/// the cache assigns it at its ordinal index.
fn legend_for(count: &CountByUrl, colors: &mut ColorAssignment) -> (legend: Vec<(String, Color)>)
    requires
        old(colors).wf(),
    ensures
        final(colors).wf(),
        final(colors).assigned@ == cache_fold(
            old(colors).assigned@,
            count.by_url@,
            count.by_url@.len() as int,
        ),
        legend@.len() == count.by_url@.len(),
        forall|q: int|
            0 <= q < legend@.len() ==> (#[trigger] legend@[q]).0 == count.by_url@[q].0
                && legend@[q].1 == color_result(
                cache_fold(old(colors).assigned@, count.by_url@, q),
                count.by_url@[q].0@,
                q as nat,
            ),
{
    let ghost orig = colors.assigned@;
    let mut legend: Vec<(String, Color)> = Vec::new();
    let mut q: usize = 0;
    while q < count.by_url.len()
        invariant
            q <= count.by_url@.len(),
            colors.wf(),
            colors.assigned@ == cache_fold(orig, count.by_url@, q as int),
            legend@.len() == q,
            forall|t: int|
                0 <= t < q ==> (#[trigger] legend@[t]).0 == count.by_url@[t].0 && legend@[t].1
                    == color_result(cache_fold(orig, count.by_url@, t), count.by_url@[t].0@, t as nat),
        decreases count.by_url@.len() - q,
    {
        let url = &count.by_url[q].0;
        let c = colors.color_for(url, q);
        legend.push((url.clone(), c));
        q += 1;
    }
    legend
}

impl DolusCounts {
    /// Everything the line chart of one word needs. The chart's error cases
    /// come in the chart's order: fewer than two axis entries, then an
    /// unknown word; on error the color cache is untouched.
    pub fn render_plan(&self, key: &String, colors: &mut ColorAssignment) -> (r: Result<
        RenderPlan,
        DolusError,
    >)
        requires
            self.wf(),
            old(colors).wf(),
        ensures
            final(colors).wf(),
            r is Err ==> *final(colors) == *old(colors),
            r == Err::<RenderPlan, DolusError>(DolusError::InsufficientData) <==> self.labels@.len()
                < 2,
            r == Err::<RenderPlan, DolusError>(DolusError::Lookup) <==> (self.labels@.len() >= 2
                && !has_key(self.count_by_word@, key@)),
            r is Ok <==> (self.labels@.len() >= 2 && has_key(self.count_by_word@, key@)),
            r matches Ok(p) ==> ({
                let cb = assoc(self.count_by_word@, key@)->Some_0;
                &&& p.caption@ == key@
                &&& p.x_min_secs == self.labels@[0].secs
                &&& p.x_max_secs == self.labels@[self.labels@.len() - 1].secs
                &&& p.y_max == cb.max_value
                &&& p.y_label_count == y_labels_of(cb.max_value)
                &&& p.legend@.len() == cb.by_url@.len()
                &&& forall|q: int|
                    0 <= q < p.legend@.len() ==> (#[trigger] p.legend@[q]).0 == cb.by_url@[q].0
                        && p.legend@[q].1 == color_result(
                        cache_fold(old(colors).assigned@, cb.by_url@, q),
                        cb.by_url@[q].0@,
                        q as nat,
                    )
                &&& final(colors).assigned@ == cache_fold(
                    old(colors).assigned@,
                    cb.by_url@,
                    cb.by_url@.len() as int,
                )
            }),
    {
        if self.labels.len() < 2 {
            return Err(DolusError::InsufficientData);
        }
        let j = match crate::keys::find_key(&self.count_by_word, key) {
            None => {
                proof {
                    lemma_assoc_is_has_key(self.count_by_word@, key@);
                }
                return Err(DolusError::Lookup);
            },
            Some(j) => j,
        };
        proof {
            lemma_assoc_at(self.count_by_word@, key@, j as int);
            assert(has_key(self.count_by_word@, key@)) by {
                assert(self.count_by_word@[j as int].0@ == key@);
            }
        }
        let cb = &self.count_by_word[j].1;
        let legend = legend_for(cb, colors);
        let max_value = cb.max_value;
        let y_label_count = if max_value / 3 > 3 {
            max_value / 3
        } else {
            3
        };
        Ok(
            RenderPlan {
                caption: key.clone(),
                x_min_secs: self.labels[0].secs,
                x_max_secs: self.labels[self.labels.len() - 1].secs,
                y_max: max_value,
                y_label_count,
                legend,
            },
        )
    }
}

impl TimeSeriesSet {
    /// Everything this set's line chart needs: its one error case is an
    /// axis with fewer than two entries; on error the color cache is
    /// untouched.
    pub fn render_plan(&self, colors: &mut ColorAssignment) -> (r: Result<RenderPlan, DolusError>)
        requires
            self.wf(),
            old(colors).wf(),
        ensures
            final(colors).wf(),
            r is Err ==> *final(colors) == *old(colors),
            r is Ok <==> self.axis@.len() >= 2,
            r matches Err(e) ==> e == DolusError::InsufficientData,
            r matches Ok(p) ==> ({
                &&& p.caption@ == self.word@
                &&& p.x_min_secs == self.axis@[0].secs
                &&& p.x_max_secs == self.axis@[self.axis@.len() - 1].secs
                &&& p.y_max == self.count.max_value
                &&& p.y_label_count == y_labels_of(self.count.max_value)
                &&& p.legend@.len() == self.count.by_url@.len()
                &&& forall|q: int|
                    0 <= q < p.legend@.len() ==> (#[trigger] p.legend@[q]).0
                        == self.count.by_url@[q].0 && p.legend@[q].1 == color_result(
                        cache_fold(old(colors).assigned@, self.count.by_url@, q),
                        self.count.by_url@[q].0@,
                        q as nat,
                    )
                &&& final(colors).assigned@ == cache_fold(
                    old(colors).assigned@,
                    self.count.by_url@,
                    self.count.by_url@.len() as int,
                )
            }),
    {
        if self.axis.len() < 2 {
            return Err(DolusError::InsufficientData);
        }
        let legend = legend_for(&self.count, colors);
        let max_value = self.count.max_value;
        let y_label_count = if max_value / 3 > 3 {
            max_value / 3
        } else {
            3
        };
        Ok(
            RenderPlan {
                caption: self.word.clone(),
                x_min_secs: self.axis[0].secs,
                x_max_secs: self.axis[self.axis.len() - 1].secs,
                y_max: max_value,
                y_label_count,
                legend,
            },
        )
    }
}

} // verus!
