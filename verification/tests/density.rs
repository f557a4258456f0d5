use bmsgen::{parse_density, ChordDensity, Rule, RNG};

#[test]
fn chord_test_from_power_two() {
    let density = ChordDensity::from_power_of_two(&[1, 2, 4, 8, 16]);

    assert_eq!(
        density.rows(),
        &vec![
            vec![16, 8, 4, 2, 1],
            vec![16],
            vec![16, 8],
            vec![16],
            vec![16, 8, 4],
            vec![16],
            vec![16, 8],
            vec![16],
            vec![16, 8, 4, 2],
            vec![16],
            vec![16, 8],
            vec![16],
            vec![16, 8, 4],
            vec![16],
            vec![16, 8],
            vec![16],
        ]
    );
}

#[test]
fn chord_test_next_chord_count() {
    let density = ChordDensity::from_power_of_two(&[100, 100, 100, 100]);
    let mut rng = RNG::new_u64(123456);

    assert_eq!(
        (0..8)
            .map(|i| density.generate_chord_density(i, &mut rng))
            .collect::<Vec<_>>(),
        vec![4, 1, 2, 1, 3, 1, 2, 1],
    );

    let density = ChordDensity::new(vec![vec![200, 150]]);

    for _ in 0..10000 {
        assert!((3..=4).contains(&density.generate_chord_density(0, &mut rng)));
    }
}

#[test]
fn rule_test_from_power_two() {
    let rule = Rule::from_power_of_two(&[1, 2, 4, 8, 16]);

    assert_eq!(
        rule.rows(),
        &vec![
            vec![16, 8, 4, 2, 1],
            vec![16],
            vec![16, 8],
            vec![16],
            vec![16, 8, 4],
            vec![16],
            vec![16, 8],
            vec![16],
            vec![16, 8, 4, 2],
            vec![16],
            vec![16, 8],
            vec![16],
            vec![16, 8, 4],
            vec![16],
            vec![16, 8],
            vec![16],
        ]
    );
}

#[test]
fn rule_test_next_chord_count() {
    let rule = Rule::from_power_of_two(&[100, 100, 100, 100]);
    let mut rng = RNG::new_u64(123456);

    assert_eq!(
        (0..8)
            .map(|i| rule.next_chord_count(i, &mut rng))
            .collect::<Vec<_>>(),
        vec![4, 1, 2, 1, 3, 1, 2, 1],
    );

    let rule = Rule::new(vec![vec![200, 150]]);

    for _ in 0..10000 {
        assert!((3..=4).contains(&rule.next_chord_count(0, &mut rng)));
    }
}

#[test]
fn test_parse_density_ok() {
    let d = parse_density("0,0,100,100,100").expect("five integers parse");
    let expected = ChordDensity::from_power_of_two(&[0, 0, 100, 100, 100]);
    assert_eq!(d.rows(), expected.rows());
}

#[test]
fn test_parse_density_wrong_count() {
    assert!(parse_density("1,2,3").is_none());
    assert!(parse_density("1,2,3,4,5,6").is_none());
    assert!(parse_density("").is_none());
}

#[test]
fn test_parse_density_bad_digits() {
    assert!(parse_density("a,b,c,d,e").is_none());
    assert!(parse_density("1,2,3,4,").is_none());
    assert!(parse_density("1, 2,3,4,5").is_none());
}

#[test]
fn test_parse_density_overflow() {
    assert!(parse_density("1,2,3,4,18446744073709551615").is_some());
    assert!(parse_density("1,2,3,4,18446744073709551616").is_none());
}
