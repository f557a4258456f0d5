use vstd::prelude::*;

pub mod audio;
pub mod bms;
pub mod bms_writer;
pub mod chord;
pub mod generate;
pub mod keysound;
pub mod rng;
pub mod rule;
pub mod web;

pub use audio::{drum_names, note_names, write_riff};
pub use bms::{chart_to_bms, lane_channel};
pub use bms_writer::{to_bms_index, BmsWriter, Channel};
pub use chord::{parse_density, ChordDensity};
pub use keysound::{KeySound, Note, Oscillator, SequenceKeySound};
pub use generate::{generate_chart, generate_chart_dp, Chart, ChartDp, ChartParams, Chord,
    GenerateContext, NoteRandomizer, NotesParams, Scatter, BIAS_CAP, CHORDS_PER_BAR, FP_ONE, LANES};
pub use rng::RNG;
pub use rule::Rule;
pub use web::data_uri;

verus! {

} // verus!
