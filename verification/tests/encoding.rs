use bmsgen::{
    chart_to_bms, data_uri, drum_names, note_names, to_bms_index, write_riff, BmsWriter, Chart,
    Chord, Note, Oscillator, SequenceKeySound, FP_ONE,
};

#[test]
fn test_base36_index() {
    assert_eq!(to_bms_index(0), "01");
    assert_eq!(to_bms_index(34), "0Z");
    assert_eq!(to_bms_index(35), "10");
    assert_eq!(to_bms_index(36), "11");
}

#[test]
fn test_writer_header() {
    let mut bms = BmsWriter::new();
    bms.set_title("T");
    bms.set_genre("G");
    bms.set_artist("A");
    bms.set_bpm(22222);
    bms.set_total(260);
    let out = bms.write();
    let text = String::from_utf8(out).unwrap();
    assert_eq!(
        text,
        "#PLAYER 1\n#TITLE T\n#GENRE G\n#ARTIST A\n#TOTAL 260\n#BPM 222.22\n#PLAYLEVEL 1\n#RANK 3\n"
    );
}

#[test]
fn test_writer_channel_lines() {
    let mut bms = BmsWriter::new();
    let mut row = vec![None; 4];
    row[2] = Some(0);
    bms.push_channel(0, 11, row);
    bms.push_channel(1, 11, vec![Some(34), Some(35)]);
    let out = bms.write();
    let text = String::from_utf8(out).unwrap();
    assert!(text.ends_with("#00111:00000100\n#00211:0Z10\n"));
}

#[test]
fn test_writer_keysound_lines() {
    let mut bms = BmsWriter::new();
    bms.set_keysound(1, "key_002");
    bms.set_keysound(0, "key_001");
    bms.set_keysound(1, "key_b");
    let out = bms.write();
    let text = String::from_utf8(out).unwrap();
    assert!(text.ends_with("#WAV01 key_001.wav\n#WAV02 key_b.wav\n"));
}

fn one_note_chart() -> Chart {
    let mut bars = Vec::new();
    let mut bar = Vec::new();
    for i in 0..16 {
        let lanes = if i == 3 { vec![2u8] } else { Vec::new() };
        bar.push(Chord::new(lanes, false));
    }
    bars.push(bar);
    Chart { bpm: 15000, bars }
}

#[test]
fn test_encoder_round_trip() {
    let chart = one_note_chart();
    let notes = vec![vec![Note::new(Oscillator::Sine, 0, 4, FP_ONE / 2)]];
    let mut keysounds = SequenceKeySound::new(&notes);
    let out = chart_to_bms(&chart, "t", "g", "a", 300, &mut keysounds);
    let text = String::from_utf8(out).unwrap();

    // The struck lane's channel line: 16 two-character cells, the fourth
    // holding table index 1 (encoded "02"), all others empty.
    let line: Vec<&str> = text
        .lines()
        .filter(|l| l.starts_with("#00113:"))
        .collect();
    assert_eq!(line.len(), 1);
    let cells = &line[0]["#00113:".len()..];
    assert_eq!(cells.len(), 2 * 16);
    assert_eq!(cells, "00000002000000000000000000000000");

    // Every other playable lane's line holds only empty cells.
    for chan in ["11", "12", "14", "15", "18", "19"] {
        let prefix = format!("#001{chan}:");
        let lines: Vec<&str> = text
            .lines()
            .filter(|l| l.starts_with(prefix.as_str()))
            .collect();
        assert_eq!(lines.len(), 1);
        assert_eq!(&lines[0][prefix.len()..], "00".repeat(16));
    }

    // The keysound table names the silence entry and the one note.
    assert!(text.contains("#WAV01 key_silence.wav\n"));
    assert!(text.contains("#WAV02 key_001.wav\n"));

    // The background channel carries the unconsumed pattern notes (every
    // step but the struck one) and the first-bar silence marker.
    let expected_bgm = format!("#00101:{}00{}", "02".repeat(3), "02".repeat(12));
    assert!(text.contains(expected_bgm.as_str()));
    assert!(text.contains("#00101:01\n"));
}

#[test]
fn test_data_uri() {
    assert_eq!(data_uri(b"abc", "text/plain"), "data:text/plain;base64,YWJj");
    assert_eq!(data_uri(b"", "audio/wav"), "data:audio/wav;base64,");
}

#[test]
fn test_write_riff_layout() {
    let samples: Vec<[i16; 2]> = vec![[1, -1]];
    let out = write_riff(44100, &samples);
    assert_eq!(out.len(), 48);
    assert_eq!(&out[0..4], b"RIFF");
    assert_eq!(&out[8..12], b"WAVE");
    assert_eq!(&out[12..16], b"fmt ");
    // PCM, two channels, 44100 Hz.
    assert_eq!(&out[20..24], &[1, 0, 2, 0]);
    assert_eq!(u32::from_le_bytes([out[24], out[25], out[26], out[27]]), 44100);
    assert_eq!(&out[36..40], b"data");
    assert_eq!(u32::from_le_bytes([out[40], out[41], out[42], out[43]]), 4);
    // The samples: 1 then -1, little endian two's complement.
    assert_eq!(&out[44..48], &[1, 0, 0xFF, 0xFF]);
}

#[test]
fn test_note_names() {
    let names = note_names();
    assert_eq!(names.len(), 48);
    assert_eq!(names[0], "C3");
    assert_eq!(names[1], "Cs3");
    assert_eq!(names[12], "C4");
    assert_eq!(names[47], "B6");
}

#[test]
fn test_drum_names() {
    assert_eq!(drum_names(), vec!["kick", "snare", "hihat", "cymbal"]);
}
