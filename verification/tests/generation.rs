use bmsgen::{
    generate_chart, generate_chart_dp, ChartParams, Chord, ChordDensity, GenerateContext,
    NoteRandomizer, NotesParams, Scatter, CHORDS_PER_BAR, FP_ONE, LANES,
};

fn fp(units: u64, sixteenths_over: u64) -> u64 {
    units * FP_ONE + sixteenths_over * (FP_ONE / 16)
}

#[test]
fn test_bias() {
    let chart_params = ChartParams::new(22222, 64, 199024);
    let notes_params = NotesParams::new(
        ChordDensity::new(vec![vec![300]]),
        0,
        Scatter::new(FP_ONE, FP_ONE / 2, false),
    );

    let mut context = GenerateContext::new(&chart_params, &notes_params);
    context.push_chord(Chord::new(vec![0, 2, 4, 6], false));
    assert_eq!(
        context.bias,
        vec![fp(1, 0), 0, fp(1, 0), 0, fp(1, 0), 0, fp(1, 0)]
    );
    context.push_chord(Chord::new(vec![1, 2, 3, 4, 5], false));
    assert_eq!(
        context.bias,
        vec![fp(0, 8), fp(1, 0), fp(1, 8), fp(1, 0), fp(1, 8), fp(1, 0), fp(0, 8)]
    );
    context.push_chord(Chord::new(vec![0, 6], false));
    assert_eq!(
        context.bias,
        vec![fp(1, 4), fp(0, 8), fp(0, 12), fp(0, 8), fp(0, 12), fp(0, 8), fp(1, 4)]
    );
    context.push_chord(Chord::new(vec![3], false));
    assert_eq!(
        context.bias,
        vec![fp(0, 10), fp(0, 4), fp(0, 6), fp(1, 4), fp(0, 6), fp(0, 4), fp(0, 10)]
    );
}

#[test]
fn test_bias_to_weight() {
    let chart_params = ChartParams::new(25500, 128, 199024);
    let mut notes_params = NotesParams::new(
        ChordDensity::new(vec![vec![300]]),
        0,
        Scatter::new(FP_ONE, FP_ONE / 2, false),
    );

    {
        let mut context = GenerateContext::new(&chart_params, &notes_params);
        context.bias = vec![0, fp(1, 0), fp(2, 0), fp(3, 0), fp(2, 0), fp(1, 0), 0];
        assert_eq!(
            context.bias_to_weight(),
            vec![
                FP_ONE,
                FP_ONE / 2,
                FP_ONE / 4,
                FP_ONE / 8,
                FP_ONE / 4,
                FP_ONE / 2,
                FP_ONE
            ],
        );
    }

    notes_params.scatter = Scatter::new(10 * FP_ONE, FP_ONE, true);

    {
        let mut context = GenerateContext::new(&chart_params, &notes_params);
        context.bias = vec![0, fp(1, 0), fp(2, 0), fp(3, 0), fp(4, 0), fp(5, 0), fp(6, 0)];
        assert_eq!(
            context.bias_to_weight(),
            vec![
                FP_ONE,
                2 * FP_ONE,
                3 * FP_ONE,
                4 * FP_ONE,
                5 * FP_ONE,
                6 * FP_ONE,
                7 * FP_ONE
            ]
        );
    }
}

#[test]
fn test_note_randomizer() {
    let chart_params = ChartParams::new(22222, 64, 199024);
    let notes_params = NotesParams::new(
        ChordDensity::new(vec![vec![300]]),
        0,
        Scatter::new(0, 0, false),
    );

    let mut context = GenerateContext::new(&chart_params, &notes_params);
    context.push_chord(Chord::new(vec![0, 2, 4, 6], false));
    let mut randomizer = NoteRandomizer::from_context(&context);

    assert_eq!(
        randomizer,
        NoteRandomizer::new(
            vec![1, 0, 1, 0, 1, 0, 1],
            vec![0; LANES],
            vec![FP_ONE; LANES]
        )
    );

    let mut rng = context.rng;

    for _ in 0..1000 {
        assert_eq!(randomizer.generate(3, &mut rng), vec![1, 3, 5]);
    }

    for _ in 0..1000 {
        assert_eq!(randomizer.generate(7, &mut rng), vec![0, 1, 2, 3, 4, 5, 6],);
    }
}

#[test]
fn test_generate_chart() {
    let chart_params = ChartParams::new(22222, 64, 199024);
    let notes_params = NotesParams::new(
        ChordDensity::new(vec![vec![300]]),
        0,
        Scatter::new(0, 0, false),
    );

    let chart = generate_chart(&chart_params, &notes_params);

    assert_eq!(chart_params.bpm, chart.bpm);

    for bar in chart.bars.iter() {
        assert_eq!(bar.len(), CHORDS_PER_BAR);
    }

    let flatten_chart: Vec<_> = chart.bars.into_iter().flatten().collect();

    for window in flatten_chart.windows(2) {
        assert!(window[0].lanes.iter().all(|&x| !window[1].contains(x)));
    }

    let notes_params = NotesParams::new(
        ChordDensity::new(vec![vec![300]]),
        FP_ONE,
        Scatter::new(0, 0, false),
    );

    let chart = generate_chart(&chart_params, &notes_params);

    let flatten_chart: Vec<_> = chart.bars.into_iter().flatten().collect();

    for window in flatten_chart.windows(3) {
        for lane in 0..7 {
            assert!(!window.iter().all(|chord| chord.contains(lane)));
        }
    }
}

#[test]
fn test_generate_chart_reproducible() {
    let chart_params = ChartParams::new(15000, 16, 77);
    let notes_params = NotesParams::new(
        ChordDensity::from_power_of_two(&[0, 0, 100, 100, 100]),
        FP_ONE / 2,
        Scatter::new(FP_ONE, FP_ONE / 2, false),
    );

    let a = generate_chart(&chart_params, &notes_params);
    let b = generate_chart(&chart_params, &notes_params);
    assert_eq!(a.bpm, b.bpm);
    assert_eq!(a.bars, b.bars);
}

#[test]
fn test_scratch_flags() {
    let chart_params = ChartParams::new(15000, 17, 3);
    let notes_params = NotesParams::new(
        ChordDensity::new(vec![vec![100]]),
        0,
        Scatter::new(0, 0, false),
    );
    let chart = generate_chart(&chart_params, &notes_params);
    for (b, bar) in chart.bars.iter().enumerate() {
        for (i, chord) in bar.iter().enumerate() {
            assert_eq!(chord.scratch, b % 8 == 0 && i == 0);
        }
    }
}

#[test]
fn test_generate_chart_dp_shape() {
    let chart_params = ChartParams::new(18000, 8, 5);
    let notes_params = NotesParams::new(
        ChordDensity::new(vec![vec![200]]),
        0,
        Scatter::new(0, 0, false),
    );
    let chart = generate_chart_dp(&chart_params, &notes_params, &notes_params);
    assert_eq!(chart.bpm, 18000);
    assert_eq!(chart.bars.len(), 8);
    for bar in chart.bars.iter() {
        assert_eq!(bar.len(), CHORDS_PER_BAR);
        for pair in bar.iter() {
            assert!(pair[0].lanes.iter().all(|&l| l < LANES as u8));
            assert!(pair[1].lanes.iter().all(|&l| l < LANES as u8));
            assert!(!pair[0].scratch && !pair[1].scratch);
        }
    }
}
