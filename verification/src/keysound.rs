use vstd::prelude::*;

use crate::bms_writer::push_digit;
use crate::generate::CHORDS_PER_BAR;

verus! {

/// The waveform family of a synthesized keysound; rendering the actual
/// samples is the audio collaborator's work.
#[derive(Clone, Copy, PartialEq, Eq, Structural, Debug, Hash)]
pub enum Oscillator {
    Sine,
    Triangle,
    Square,
    Saw,
}

/// One sequenced note: waveform, semitone offset from A4, length in
/// sixteenth notes, and volume as a fixed-point fraction over 2^24.
#[derive(Clone, Copy, PartialEq, Eq, Structural, Debug, Hash)]
pub struct Note {
    pub osc: Oscillator,
    pub note: i32,
    pub length: usize,
    pub volume: u64,
}

impl Note {
    pub fn new(osc: Oscillator, note: i32, length: usize, volume: u64) -> (r: Note)
        ensures
            r == (Note { osc, note, length, volume }),
    {
        Note { osc, note, length, volume }
    }
}

/// The keysound-assignment collaborator the encoder consumes: a table of
/// named sounds, an index for every struck note and scratch hit, and the
/// leftover background rows of each bar.  Implementations keep their own
/// cursor state; the encoder only relies on every index fitting the
/// two-digit base-36 code.
pub trait KeySound {
    spec fn wf(&self) -> bool;

    /// The names of the keysound table entries, in table order.
    fn source_names(&self) -> (r: Vec<String>)
        requires
            self.wf(),
        ensures
            r@.len() <= 1295,
    ;

    /// The table index played for note `chord_idx` of the chord at step
    /// `chord_pos` of bar `bar_idx`.
    fn key_sound_idx(&mut self, bar_idx: usize, chord_pos: usize, chord_idx: usize) -> (r: usize)
        requires
            old(self).wf(),
            bar_idx < 999,
            chord_pos < CHORDS_PER_BAR,
        ensures
            final(self).wf(),
            r < 1295,
    ;

    /// The table index played for a scratch hit.
    fn scratch_sound_idx(&mut self, bar_idx: usize, chord_pos: usize) -> (r: usize)
        requires
            old(self).wf(),
            bar_idx < 999,
            chord_pos < CHORDS_PER_BAR,
        ensures
            final(self).wf(),
            r < 1295,
    ;

    /// The background rows of bar `bar_idx`: sounds of the bar's pattern
    /// steps that no struck note consumed.
    fn bgm_sound_indices(&mut self, bar_idx: usize) -> (r: Vec<Vec<Option<usize>>>)
        requires
            old(self).wf(),
            bar_idx < 999,
        ensures
            final(self).wf(),
            forall|i: int, s: int|
                0 <= i < r@.len() && 0 <= s < r@[i]@.len() ==> ((#[trigger] r@[i]@[s])
                    matches Option::Some(x) ==> x < 1295),
    ;
}

/// Keysounds assigned from a fixed note sequence: each pattern step holds a
/// list of notes; a struck note consumes the next one, and whatever remains
/// sounds on the background channel.
pub struct SequenceKeySound {
    keysound_indices: Vec<Vec<usize>>,
    names: Vec<String>,
    table: Vec<Note>,
    used_keysounds: Vec<Vec<usize>>,
}

impl SequenceKeySound {
    pub closed spec fn well_formed(&self) -> bool {
        &&& self.keysound_indices@.len() > 0
        &&& self.names@.len() == self.table@.len() + 1
        &&& self.names@.len() <= 1294
        &&& forall|i: int, j: int|
            0 <= i < self.keysound_indices@.len() && 0 <= j < self.keysound_indices@[i]@.len()
                ==> 1 <= #[trigger] self.keysound_indices@[i]@[j] < self.names@.len()
        &&& forall|b: int|
            0 <= b < self.used_keysounds@.len() ==> (#[trigger] self.used_keysounds@[b])@.len()
                == CHORDS_PER_BAR
    }

    /// The number of pattern steps the sequence cycles through.
    pub closed spec fn pattern_len(&self) -> int {
        self.keysound_indices@.len() as int
    }

    /// The keysound table names, silence first.
    pub closed spec fn names_view(&self) -> Seq<String> {
        self.names@
    }

    /// Build the table from the note sequence: equal notes share one table
    /// entry (first come, first numbered), entry 0 is reserved for silence,
    /// and each entry is named `key_` plus its three-digit number.
    #[verifier::loop_isolation(false)]
    pub fn new(notes: &Vec<Vec<Note>>) -> (r: SequenceKeySound)
        requires
            notes@.len() > 0,
            total_note_count(notes@) <= 1292,
        ensures
            r.well_formed(),
            r.pattern_len() == notes@.len(),
            r.names_view()[0]@ == "key_silence"@,
            forall|i: int|
                1 <= i < r.names_view().len() ==> (#[trigger] r.names_view()[i])@ == "key_"@
                    + crate::bms_writer::dec3(i),
    {
        let ghost notesv = notes@;
        proof {
            lemma_total_upto_nonneg(notesv, notesv.len() as int);
        }
        let mut table: Vec<Note> = Vec::new();
        let mut keysound_indices: Vec<Vec<usize>> = Vec::new();
        let mut i: usize = 0;
        while i < notes.len()
            invariant
                i <= notes@.len(),
                notesv == notes@,
                keysound_indices@.len() == i,
                table@.len() <= total_upto(notesv, i as int),
                total_upto(notesv, i as int) <= total_note_count(notesv) <= 1292,
                forall|a: int, j: int|
                    0 <= a < i && 0 <= j < keysound_indices@[a]@.len()
                        ==> 1 <= #[trigger] keysound_indices@[a]@[j] <= table@.len(),
            decreases notes@.len() - i,
        {
            proof {
                lemma_total_upto_step(notesv, i as int);
            }
            let chord = &notes[i];
            let mut row: Vec<usize> = Vec::new();
            let mut j: usize = 0;
            let ghost table_in = table@.len() as int;
            while j < chord.len()
                invariant
                    j <= chord@.len(),
                    chord@.len() == notesv[i as int]@.len(),
                    i < notesv.len(),
                    row@.len() == j,
                    table_in <= table@.len() as int <= table_in + j,
                    table_in + chord@.len() <= total_upto(notesv, i + 1),
                    total_upto(notesv, i + 1) <= total_note_count(notesv) <= 1292,
                    forall|k: int| 0 <= k < j ==> 1 <= #[trigger] row@[k] <= table@.len(),
                decreases chord@.len() - j,
            {
                let note = chord[j];
                let mut found: usize = 0;
                let mut k: usize = 0;
                while k < table.len() && found == 0
                    invariant
                        k <= table@.len(),
                        found == 0 || (1 <= found <= table@.len()),
                    decreases table@.len() - k, (if found == 0 { 1int } else { 0int }),
                {
                    if table[k] == note {
                        found = k + 1;
                    }
                    k = k + 1;
                }
                if found == 0 {
                    table.push(note);
                    row.push(table.len());
                } else {
                    row.push(found);
                }
                j = j + 1;
            }
            keysound_indices.push(row);
            i = i + 1;
        }

        // Names: the reserved silence entry, then one per table entry.
        let mut names: Vec<String> = Vec::new();
        let mut silence = String::new();
        silence.append("key_silence");
        names.push(silence);
        let mut n: usize = 0;
        while n < table.len()
            invariant
                n <= table@.len(),
                table@.len() <= 1292,
                names@.len() == n + 1,
                names@[0]@ == "key_silence"@,
                forall|t: int|
                    1 <= t < names@.len() ==> (#[trigger] names@[t])@ == "key_"@
                        + crate::bms_writer::dec3(t),
            decreases table@.len() - n,
        {
            let mut name = String::new();
            name.append("key_");
            push_digit(&mut name, (n + 1) / 100 % 10);
            push_digit(&mut name, (n + 1) / 10 % 10);
            push_digit(&mut name, (n + 1) % 10);
            proof {
                assert(name@ =~= "key_"@ + crate::bms_writer::dec3(n + 1));
            }
            names.push(name);
            n = n + 1;
        }

        SequenceKeySound { keysound_indices, names, table, used_keysounds: Vec::new() }
    }

    /// The deduplicated note table, entry `i` belonging to table index
    /// `i + 1` (index 0 is the reserved silence).
    pub fn note_table(&self) -> (r: &Vec<Note>)
        ensures
            r@ == self.table_view(),
    {
        &self.table
    }

    pub closed spec fn table_view(&self) -> Seq<Note> {
        self.table@
    }

    /// The table names, for the `#WAV` header lines.
    pub fn keysounds(&self) -> (r: &Vec<String>)
        requires
            self.well_formed(),
        ensures
            r@ == self.names_view(),
            r@.len() <= 1294,
    {
        &self.names
    }

    /// Record one more consumed note at (bar, step), growing the usage grid
    /// as needed.
    #[verifier::loop_isolation(false)]
    fn mark_used(&mut self, bar_idx: usize, chord_pos: usize)
        requires
            old(self).well_formed(),
            bar_idx < 999,
            chord_pos < CHORDS_PER_BAR,
        ensures
            final(self).well_formed(),
            final(self).keysound_indices == old(self).keysound_indices,
            final(self).names == old(self).names,
            final(self).table == old(self).table,
            final(self).pattern_len() == old(self).pattern_len(),
    {
        while self.used_keysounds.len() < bar_idx + 1
            invariant
                self.well_formed(),
                self.keysound_indices == old(self).keysound_indices,
                self.names == old(self).names,
                self.table == old(self).table,
            decreases bar_idx + 1 - self.used_keysounds.len(),
        {
            let zeros: Vec<usize> = vec![0; CHORDS_PER_BAR];
            self.used_keysounds.push(zeros);
        }
        let row = &mut self.used_keysounds[bar_idx];
        let prev = row[chord_pos];
        if prev < usize::MAX {
            row[chord_pos] = prev + 1;
        }
    }
}

/// The total number of notes in the first `i` pattern steps.
pub open spec fn total_upto(notes: Seq<Vec<Note>>, i: int) -> int
    decreases i,
{
    if i <= 0 {
        0
    } else {
        total_upto(notes, i - 1) + if i <= notes.len() {
            notes[i - 1]@.len() as int
        } else {
            0int
        }
    }
}

pub open spec fn total_note_count(notes: Seq<Vec<Note>>) -> int {
    total_upto(notes, notes.len() as int)
}

proof fn lemma_total_upto_step(notes: Seq<Vec<Note>>, i: int)
    requires
        0 <= i < notes.len(),
    ensures
        total_upto(notes, i + 1) == total_upto(notes, i) + notes[i]@.len(),
        total_upto(notes, i) >= 0,
        total_upto(notes, i + 1) <= total_note_count(notes),
    decreases notes.len() - i,
{
    lemma_total_upto_nonneg(notes, i);
    lemma_total_upto_mono(notes, i + 1, notes.len() as int);
}

proof fn lemma_total_upto_nonneg(notes: Seq<Vec<Note>>, i: int)
    ensures
        total_upto(notes, i) >= 0,
    decreases i,
{
    if i > 0 {
        lemma_total_upto_nonneg(notes, i - 1);
    }
}

proof fn lemma_total_upto_mono(notes: Seq<Vec<Note>>, a: int, b: int)
    requires
        a <= b,
    ensures
        total_upto(notes, a) <= total_upto(notes, b),
    decreases b - a,
{
    if a < b {
        lemma_total_upto_mono(notes, a, b - 1);
    }
}

impl KeySound for SequenceKeySound {
    open spec fn wf(&self) -> bool {
        self.well_formed()
    }

    #[verifier::loop_isolation(false)]
    fn source_names(&self) -> (r: Vec<String>)
        ensures
            r@.len() <= 1295,
    {
        let mut r: Vec<String> = Vec::new();
        let mut i: usize = 0;
        while i < self.names.len()
            invariant
                i <= self.names@.len(),
                self.names@.len() <= 1294,
                r@.len() == i,
            decreases self.names@.len() - i,
        {
            r.push(self.names[i].clone());
            i = i + 1;
        }
        r
    }

    fn key_sound_idx(&mut self, bar_idx: usize, chord_pos: usize, chord_idx: usize) -> (r: usize)
        ensures
            final(self).wf(),
            r < 1295,
    {
        self.mark_used(bar_idx, chord_pos);
        let pat = bar_idx * CHORDS_PER_BAR + chord_pos;
        let step = &self.keysound_indices[pat % self.keysound_indices.len()];
        if chord_idx < step.len() {
            step[chord_idx]
        } else {
            // No note left for this chord position: the out-of-table index,
            // which no header line names, so it plays as silence.
            self.names.len()
        }
    }

    fn scratch_sound_idx(&mut self, bar_idx: usize, chord_pos: usize) -> (r: usize)
        ensures
            final(self).wf(),
            r < 1295,
    {
        self.names.len()
    }

    #[verifier::loop_isolation(false)]
    fn bgm_sound_indices(&mut self, bar_idx: usize) -> (r: Vec<Vec<Option<usize>>>)
        ensures
            final(self).wf(),
            forall|i: int, s: int|
                0 <= i < r@.len() && 0 <= s < r@[i]@.len() ==> ((#[trigger] r@[i]@[s])
                    matches Option::Some(x) ==> x < 1295),
    {
        // The per-step remainders: pattern notes not consumed by the bar.
        let mut remainders: Vec<Vec<usize>> = Vec::new();
        let mut j: usize = 0;
        while j < CHORDS_PER_BAR
            invariant
                j <= CHORDS_PER_BAR,
                self.well_formed(),
                remainders@.len() == j,
                forall|a: int, s: int|
                    0 <= a < j && 0 <= s < remainders@[a]@.len()
                        ==> #[trigger] remainders@[a]@[s] < 1295,
            decreases CHORDS_PER_BAR - j,
        {
            let pat = bar_idx * CHORDS_PER_BAR + j;
            let step = &self.keysound_indices[pat % self.keysound_indices.len()];
            let used: usize = if bar_idx < self.used_keysounds.len() {
                let row = &self.used_keysounds[bar_idx];
                row[j]
            } else {
                0
            };
            let start = if used < step.len() {
                used
            } else {
                step.len()
            };
            let mut rem: Vec<usize> = Vec::new();
            let mut k: usize = start;
            while k < step.len()
                invariant
                    start <= k <= step@.len(),
                    self.well_formed(),
                    step@ == self.keysound_indices@[pat as int % self.keysound_indices@.len() as int]@,
                    forall|s: int| 0 <= s < rem@.len() ==> #[trigger] rem@[s] < 1295,
                decreases step@.len() - k,
            {
                rem.push(step[k]);
                k = k + 1;
            }
            remainders.push(rem);
            j = j + 1;
        }

        // The widest remainder decides how many background rows there are.
        let mut depth: usize = 0;
        let mut j: usize = 0;
        while j < remainders.len()
            invariant
                j <= remainders@.len(),
                remainders@.len() == CHORDS_PER_BAR,
            decreases remainders@.len() - j,
        {
            if remainders[j].len() > depth {
                depth = remainders[j].len();
            }
            j = j + 1;
        }

        // Transpose: background row i holds each step's i-th leftover.
        let mut rows: Vec<Vec<Option<usize>>> = Vec::new();
        let mut i: usize = 0;
        while i < depth
            invariant
                i <= depth,
                remainders@.len() == CHORDS_PER_BAR,
                forall|a: int, s: int|
                    0 <= a < remainders@.len() && 0 <= s < remainders@[a]@.len()
                        ==> #[trigger] remainders@[a]@[s] < 1295,
                rows@.len() == i,
                forall|a: int, s: int|
                    0 <= a < rows@.len() && 0 <= s < rows@[a]@.len() ==> ((#[trigger] rows@[a]@[s])
                        matches Option::Some(x) ==> x < 1295),
            decreases depth - i,
        {
            let mut row: Vec<Option<usize>> = Vec::new();
            let mut j: usize = 0;
            while j < CHORDS_PER_BAR
                invariant
                    j <= CHORDS_PER_BAR,
                    remainders@.len() == CHORDS_PER_BAR,
                    forall|a: int, s: int|
                        0 <= a < remainders@.len() && 0 <= s < remainders@[a]@.len()
                            ==> #[trigger] remainders@[a]@[s] < 1295,
                    row@.len() == j,
                    forall|s: int|
                        0 <= s < row@.len() ==> ((#[trigger] row@[s]) matches Option::Some(x)
                            ==> x < 1295),
                decreases CHORDS_PER_BAR - j,
            {
                let r_j = &remainders[j];
                if i < r_j.len() {
                    row.push(Option::Some(r_j[i]));
                } else {
                    row.push(Option::None);
                }
                j = j + 1;
            }
            rows.push(row);
            i = i + 1;
        }

        // The very first bar also carries the reserved silence once, which
        // keeps players that skip leading silence honest about timing.
        if bar_idx == 0 {
            let mut row: Vec<Option<usize>> = Vec::new();
            row.push(Option::Some(0));
            rows.push(row);
        }
        rows
    }
}

} // verus!
