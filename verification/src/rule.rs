use vstd::prelude::*;

use crate::chord::{draw_total, expand_power_of_two, expand_table, max_total, table_draw};
use crate::rng::{rng_skip, RNG};

verus! {

/// A second name for the per-slot frequency table, offered alongside
/// `ChordDensity` for call sites that speak of generation rules; the two
/// behave identically.
pub struct Rule {
    freq_seq: Vec<Vec<u64>>,
}

impl View for Rule {
    type V = Seq<Seq<u64>>;

    closed spec fn view(&self) -> Seq<Seq<u64>> {
        self.freq_seq.deep_view()
    }
}

impl Rule {
    /// The table rows never overflow a `u64` note count, and there is at
    /// least one row to cycle through.
    pub open spec fn wf(&self) -> bool {
        &&& self@.len() > 0
        &&& forall|k: int| 0 <= k < self@.len() ==> max_total(#[trigger] self@[k]) <= u64::MAX
    }

    pub fn new(freq_seq: Vec<Vec<u64>>) -> (r: Rule)
        ensures
            r@ == freq_seq.deep_view(),
    {
        Rule { freq_seq }
    }

    /// Expand a frequency list (coarsest subdivision first) into one row per
    /// sixteenth-note slot: the level `j` from the finest applies to every
    /// slot index divisible by 2^j.
    pub fn from_power_of_two(freq: &[u64]) -> (r: Rule)
        requires
            1 <= freq@.len() <= 5,
        ensures
            r@ == expand_table(freq@),
            r.wf(),
    {
        let table = expand_power_of_two(freq);
        let r = Rule { freq_seq: table };
        proof {
            crate::chord::lemma_expand_table_wf(freq@);
        }
        r
    }

    /// How many notes slot `index` asks for this time round, one generator
    /// draw per applicable frequency entry.
    pub fn next_chord_count(&self, index: usize, rng: &mut RNG) -> (c: u64)
        requires
            self.wf(),
        ensures
            c as int == draw_total(self@[index as int % self@.len() as int], *old(rng)),
            *final(rng) == rng_skip(*old(rng), self@[index as int % self@.len() as int].len()),
    {
        table_draw(&self.freq_seq, index, rng)
    }

    /// The raw table rows, finest-applicable frequency first in each row.
    pub fn rows(&self) -> (r: &Vec<Vec<u64>>)
        ensures
            r.deep_view() == self@,
    {
        &self.freq_seq
    }
}

} // verus!
