use vstd::prelude::*;

use crate::bms_writer::{ascii_bytes, bms_digits, push_digit};

verus! {

/// A 16-bit little-endian field.
pub open spec fn le2(v: int) -> Seq<u8> {
    seq![(v % 256) as u8, (v / 256 % 256) as u8]
}

/// A 32-bit little-endian field.
pub open spec fn le4(v: int) -> Seq<u8> {
    seq![
        (v % 256) as u8,
        (v / 256 % 256) as u8,
        (v / 0x10000 % 256) as u8,
        (v / 0x100_0000 % 256) as u8,
    ]
}

/// A sample value in two's complement, little endian.
pub open spec fn sample_bytes(s: i16) -> Seq<u8> {
    le2(
        if s >= 0 {
            s as int
        } else {
            s + 0x10000
        },
    )
}

/// One frame's samples, channel after channel.
pub open spec fn frame_bytes(frame: Seq<i16>) -> Seq<u8>
    decreases frame.len(),
{
    if frame.len() == 0 {
        Seq::empty()
    } else {
        sample_bytes(frame[0]) + frame_bytes(frame.drop_first())
    }
}

/// All frames of the data chunk.
pub open spec fn frames_bytes(samples: Seq<Seq<i16>>) -> Seq<u8>
    decreases samples.len(),
{
    if samples.len() == 0 {
        Seq::empty()
    } else {
        frame_bytes(samples[0]) + frames_bytes(samples.drop_first())
    }
}

/// The whole container: the RIFF/WAVE header with its fixed-size format
/// chunk for 16-bit integer PCM, then the frame data.
pub open spec fn riff_bytes(sample_rate: u32, channels: int, samples: Seq<Seq<i16>>) -> Seq<u8> {
    let block_align = channels * 2;
    let samples_bytes = samples.len() * block_align;
    ascii_bytes("RIFF"@) + le4(samples_bytes + 44) + ascii_bytes("WAVE"@) + ascii_bytes("fmt "@)
        + le4(16) + le2(1) + le2(channels) + le4(sample_rate as int) + le4(
        sample_rate * block_align,
    ) + le2(block_align) + le2(16) + ascii_bytes("data"@) + le4(samples_bytes) + frames_bytes(
        samples,
    )
}

fn push_le2(out: &mut Vec<u8>, v: u16)
    ensures
        final(out)@ == old(out)@ + le2(v as int),
{
    out.push((v % 256) as u8);
    out.push((v / 256 % 256) as u8);
    assert(out@ =~= old(out)@ + le2(v as int));
}

fn push_le4(out: &mut Vec<u8>, v: u32)
    ensures
        final(out)@ == old(out)@ + le4(v as int),
{
    out.push((v % 256) as u8);
    out.push((v / 256 % 256) as u8);
    out.push((v / 0x10000 % 256) as u8);
    out.push((v / 0x100_0000 % 256) as u8);
    assert(out@ =~= old(out)@ + le4(v as int));
}

fn push_sample(out: &mut Vec<u8>, s: i16)
    ensures
        final(out)@ == old(out)@ + sample_bytes(s),
{
    let v: u16 = if s >= 0 {
        s as u16
    } else {
        ((s as i32) + 0x10000) as u16
    };
    push_le2(out, v);
}

/// Serialize 16-bit integer PCM frames into the standard uncompressed audio
/// container, with the fixed 44-byte header the format asks for.
#[verifier::loop_isolation(false)]
pub fn write_riff<const CHANNELS: usize>(sample_rate: u32, samples: &[[i16; CHANNELS]]) -> (out:
    Vec<u8>)
    requires
        1 <= CHANNELS <= 16,
        sample_rate as int <= 0x7FFF_FFFFint / (2 * CHANNELS as int),
        samples@.len() * (2 * CHANNELS as int) + 44 <= u32::MAX,
    ensures
        out@ == riff_bytes(
            sample_rate,
            CHANNELS as int,
            samples@.map_values(|f: [i16; CHANNELS]| f@),
        ),
{
    let ghost framesv = samples@.map_values(|f: [i16; CHANNELS]| f@);
    proof {
        assert(samples@.len() * (2 * CHANNELS as int) == (samples@.len() * CHANNELS as int) * 2)
            by (nonlinear_arith);
        assert(samples@.len() <= samples@.len() * (2 * CHANNELS as int)) by (nonlinear_arith)
            requires
                CHANNELS >= 1,
                samples@.len() >= 0,
        ;
        assert(sample_rate * (2 * CHANNELS as int) <= 0x7FFF_FFFFint) by (nonlinear_arith)
            requires
                0 <= sample_rate as int <= 0x7FFF_FFFFint / (2 * CHANNELS as int),
                1 <= CHANNELS <= 16,
        ;
    }
    let block_align: u16 = (CHANNELS as u16) * 2;
    let byte_per_second: u32 = sample_rate * (block_align as u32);
    let samples_bytes: u32 = ((samples.len() * CHANNELS) * 2) as u32;

    let mut out: Vec<u8> = Vec::new();
    crate::bms_writer::append_ascii(&mut out, "RIFF");
    push_le4(&mut out, samples_bytes + 44);
    crate::bms_writer::append_ascii(&mut out, "WAVE");
    crate::bms_writer::append_ascii(&mut out, "fmt ");
    push_le4(&mut out, 16);
    push_le2(&mut out, 1);
    push_le2(&mut out, CHANNELS as u16);
    push_le4(&mut out, sample_rate);
    push_le4(&mut out, byte_per_second);
    push_le2(&mut out, block_align);
    push_le2(&mut out, 16);
    crate::bms_writer::append_ascii(&mut out, "data");
    push_le4(&mut out, samples_bytes);

    let ghost head = out@;
    proof {
        assert(framesv.skip(0) =~= framesv);
    }
    let mut i: usize = 0;
    while i < samples.len()
        invariant
            i <= samples@.len(),
            out@ + frames_bytes(framesv.skip(i as int)) == head + frames_bytes(framesv),
        decreases samples@.len() - i,
    {
        proof {
            assert(framesv.skip(i as int).drop_first() =~= framesv.skip(i + 1));
            assert(framesv.skip(i as int)[0] == framesv[i as int]);
            assert(framesv[i as int] == samples@[i as int]@);
        }
        let frame = &samples[i];
        let ghost framev = frame@;
        let ghost out_b = out@;
        proof {
            assert(framev.skip(0) =~= framev);
        }
        let mut j: usize = 0;
        while j < CHANNELS
            invariant
                j <= CHANNELS,
                framev == frame@,
                framev.len() == CHANNELS,
                out@ + frame_bytes(framev.skip(j as int)) == out_b + frame_bytes(framev),
            decreases CHANNELS - j,
        {
            proof {
                assert(framev.skip(j as int).drop_first() =~= framev.skip(j + 1));
                assert(framev.skip(j as int)[0] == framev[j as int]);
            }
            push_sample(&mut out, frame[j]);
            proof {
                assert(out@ + frame_bytes(framev.skip(j + 1)) =~= out_b + frame_bytes(framev));
            }
            j = j + 1;
        }
        proof {
            assert(framev.skip(CHANNELS as int) =~= Seq::<i16>::empty());
            assert(out@ =~= out_b + frame_bytes(framev));
            assert(out@ + frames_bytes(framesv.skip(i + 1)) =~= head + frames_bytes(framesv));
        }
        i = i + 1;
    }
    proof {
        assert(framesv.skip(samples@.len() as int) =~= Seq::<Seq<i16>>::empty());
        assert(out@ =~= head + frames_bytes(framesv));
        assert(out@ =~= riff_bytes(sample_rate, CHANNELS as int, framesv));
    }
    out
}

/// The note names the synthesized keysound set uses: the twelve semitone
/// names, sharps written `s`, over octaves 3 to 6.
pub open spec fn note_base_spec(k: int) -> Seq<char> {
    if k == 0 {
        "C"@
    } else if k == 1 {
        "Cs"@
    } else if k == 2 {
        "D"@
    } else if k == 3 {
        "Ds"@
    } else if k == 4 {
        "E"@
    } else if k == 5 {
        "F"@
    } else if k == 6 {
        "Fs"@
    } else if k == 7 {
        "G"@
    } else if k == 8 {
        "Gs"@
    } else if k == 9 {
        "A"@
    } else if k == 10 {
        "As"@
    } else {
        "B"@
    }
}

pub open spec fn note_name_spec(i: int) -> Seq<char> {
    note_base_spec(i % 12) + seq![bms_digits()[3 + i / 12]]
}

fn note_base(k: usize) -> (r: &'static str)
    requires
        k < 12,
    ensures
        r@ == note_base_spec(k as int),
{
    if k == 0 {
        "C"
    } else if k == 1 {
        "Cs"
    } else if k == 2 {
        "D"
    } else if k == 3 {
        "Ds"
    } else if k == 4 {
        "E"
    } else if k == 5 {
        "F"
    } else if k == 6 {
        "Fs"
    } else if k == 7 {
        "G"
    } else if k == 8 {
        "Gs"
    } else if k == 9 {
        "A"
    } else if k == 10 {
        "As"
    } else {
        "B"
    }
}

/// The 48 note names, octave 3 through octave 6, twelve semitones each.
#[verifier::loop_isolation(false)]
pub fn note_names() -> (r: Vec<String>)
    ensures
        r@.len() == 48,
        forall|i: int| 0 <= i < 48 ==> (#[trigger] r@[i])@ == note_name_spec(i),
{
    let mut r: Vec<String> = Vec::new();
    let mut i: usize = 0;
    while i < 48
        invariant
            i <= 48,
            r@.len() == i,
            forall|t: int| 0 <= t < i ==> (#[trigger] r@[t])@ == note_name_spec(t),
        decreases 48 - i,
    {
        let mut name = String::new();
        name.append(note_base(i % 12));
        push_digit(&mut name, 3 + i / 12);
        r.push(name);
        i = i + 1;
    }
    r
}

/// The prerendered drum sample names.
pub fn drum_names() -> (r: Vec<String>)
    ensures
        r@.len() == 4,
        r@[0]@ == "kick"@,
        r@[1]@ == "snare"@,
        r@[2]@ == "hihat"@,
        r@[3]@ == "cymbal"@,
{
    let mut r: Vec<String> = Vec::new();
    let mut s = String::new();
    s.append("kick");
    r.push(s);
    let mut s = String::new();
    s.append("snare");
    r.push(s);
    let mut s = String::new();
    s.append("hihat");
    r.push(s);
    let mut s = String::new();
    s.append("cymbal");
    r.push(s);
    r
}

} // verus!
