//! Color assignment: a deterministic, stable mapping from a series' ordinal
//! index to a visibly distinct RGB color, cached per URL for the lifetime
//! of one loaded dataset.
use vstd::prelude::*;

use crate::keys::{assoc, distinct_keys, find_key, has_key};
use crate::keys::{lemma_assoc_absent, lemma_assoc_at, lemma_assoc_is_has_key, lemma_assoc_push};

verus! {

/// An RGB color.
#[derive(Clone, Copy, Debug, PartialEq, Eq, Structural)]
pub struct Color {
    pub r: u8,
    pub g: u8,
    pub b: u8,
}

/// The stroke width chart lines are drawn with.
pub const STROKE_WIDTH: u32 = 3;

/// One color channel from an ordinal index: a low-entropy transform of the
/// index (multiply, keep the low byte, mask), clamped to a minimum
/// brightness so the color stays visible on a light background.
pub open spec fn channel(i: nat, mult: nat) -> u8 {
    let x = (((i % 256) * mult) % 256) as u8;
    let y = x & 225;
    if y < 20 {
        20
    } else {
        y
    }
}

/// The color computed for ordinal index `i`: a pure function of the index.
pub open spec fn color_spec(i: nat) -> Color {
    Color { r: channel(i, 225), g: channel(i, 350), b: channel(i, 325) }
}

fn channel_exec(i: usize, mult: u64) -> (c: u8)
    requires
        mult <= 350,
    ensures
        c == channel(i as nat, mult as nat),
{
    let low: u64 = (i % 256) as u64;
    proof {
        assert(low * mult <= 256 * 350) by (nonlinear_arith)
            requires
                low <= 256,
                mult <= 350,
        ;
    }
    let x: u8 = ((low * mult) % 256) as u8;
    let y: u8 = x & 225;
    if y < 20 {
        20
    } else {
        y
    }
}

/// The color a cache answers for `url` at ordinal index `i`: the cached
/// color when one is stored, else the color computed from the index.
pub open spec fn color_result(cache: Seq<(String, Color)>, url: Seq<char>, i: nat) -> Color {
    match assoc(cache, url) {
        Some(c) => c,
        None => color_spec(i),
    }
}

/// The cache after answering: unchanged when the URL was known, else
/// extended by the newly computed color.
pub open spec fn cache_after(cache: Seq<(String, Color)>, url: String, i: nat) -> Seq<
    (String, Color),
> {
    if has_key(cache, url@) {
        cache
    } else {
        cache.push((url, color_spec(i)))
    }
}

/// Per-dataset color cache, keyed by URL.
#[derive(Debug)]
pub struct ColorAssignment {
    pub assigned: Vec<(String, Color)>,
}

impl ColorAssignment {
    pub open spec fn wf(self) -> bool {
        distinct_keys(self.assigned@)
    }

    pub fn new() -> (r: ColorAssignment)
        ensures
            r.wf(),
            r.assigned@.len() == 0,
    {
        ColorAssignment { assigned: Vec::new() }
    }

    /// The color for `url`, computed from its ordinal index on first
    /// reference and answered from the cache afterwards.
    pub fn color_for(&mut self, url: &String, i: usize) -> (c: Color)
        requires
            old(self).wf(),
        ensures
            final(self).wf(),
            c == color_result(old(self).assigned@, url@, i as nat),
            final(self).assigned@ == cache_after(old(self).assigned@, *url, i as nat),
    {
        let ghost pre = self.assigned@;
        match find_key(&self.assigned, url) {
            Some(j) => {
                proof {
                    lemma_assoc_at(pre, url@, j as int);
                    assert(has_key(pre, url@)) by {
                        assert(pre[j as int].0@ == url@);
                    }
                }
                self.assigned[j].1
            },
            None => {
                let c = Color {
                    r: channel_exec(i, 225),
                    g: channel_exec(i, 350),
                    b: channel_exec(i, 325),
                };
                self.assigned.push((url.clone(), c));
                proof {
                    lemma_assoc_absent(pre, url@);
                    lemma_assoc_is_has_key(pre, url@);
                    assert(self.assigned@ =~= pre.push((*url, color_spec(i as nat))));
                }
                c
            },
        }
    }
}

/// A URL's color is stable within one loaded dataset: once `color_for` has
/// answered for a URL, a later call returns the identical color, whether it
/// hands in the same ordinal index or any other.
pub proof fn lemma_color_stable(cache: Seq<(String, Color)>, url: String, i: nat, j: nat)
    ensures
        color_result(cache_after(cache, url, i), url@, j) == color_result(cache, url@, i),
{
    lemma_assoc_is_has_key(cache, url@);
    if !has_key(cache, url@) {
        lemma_assoc_push(cache, (url, color_spec(i)), url@);
    }
}

} // verus!
