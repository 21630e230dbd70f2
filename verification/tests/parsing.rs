use laser_sweep::config::get_laser_data;
use laser_sweep::config::parse_laser_line;
use laser_sweep::config::ConfigErrorKind;
use laser_sweep::config::ConfigParseError;
use laser_sweep::powers::get_input_powers;

#[test]
fn parser_tolerance_scenario() {
    let powers = get_input_powers("10\nabc\n20\n  \n30");
    assert_eq!(powers, vec![10, 20, 30]);
}

#[test]
fn powers_empty_text() {
    assert_eq!(get_input_powers(""), Vec::<u32>::new());
    assert_eq!(get_input_powers("\n\n"), Vec::<u32>::new());
}

#[test]
fn powers_zero_is_loaded() {
    // Zero is a non-negative integer: the loader keeps it; the sweep
    // rejects it later.
    assert_eq!(get_input_powers("0\n5"), vec![0, 5]);
}

#[test]
fn powers_plus_sign_accepted() {
    assert_eq!(get_input_powers("+7"), vec![7]);
}

#[test]
fn powers_negative_skipped() {
    assert_eq!(get_input_powers("-5\n8"), vec![8]);
}

#[test]
fn powers_limit_value() {
    assert_eq!(get_input_powers("4294967295"), vec![4294967295]);
    assert_eq!(get_input_powers("4294967296"), Vec::<u32>::new());
}

#[test]
fn powers_lines_are_trimmed() {
    assert_eq!(get_input_powers(" 42 \t\r\n\t9"), vec![42, 9]);
}

#[test]
fn powers_order_and_duplicates_kept() {
    assert_eq!(get_input_powers("5\n3\n5"), vec![5, 3, 5]);
}

#[test]
fn powers_trailing_newline() {
    assert_eq!(get_input_powers("10\n20\n"), vec![10, 20]);
}

#[test]
fn laser_line_basic() {
    let c = parse_laser_line("out1 2.5 15 MixA").unwrap();
    assert_eq!(c.output_target, "out1");
    assert_eq!(c.small_signal_gain_milli, 2500);
    assert_eq!(c.discharge_pressure, 15);
    assert_eq!(c.gas_mix_label, "MixA");
}

#[test]
fn laser_line_missing_tokens() {
    assert_eq!(
        parse_laser_line("out1 2.5 15").unwrap_err(),
        ConfigErrorKind::MissingTokens
    );
    assert_eq!(parse_laser_line("").unwrap_err(), ConfigErrorKind::MissingTokens);
    assert_eq!(parse_laser_line("   ").unwrap_err(), ConfigErrorKind::MissingTokens);
}

#[test]
fn laser_line_bad_gain() {
    assert_eq!(
        parse_laser_line("out1 abc 15 MixA").unwrap_err(),
        ConfigErrorKind::BadGain
    );
    assert_eq!(
        parse_laser_line("out1 -2.5 15 MixA").unwrap_err(),
        ConfigErrorKind::BadGain
    );
    assert_eq!(
        parse_laser_line("out1 2.5.1 15 MixA").unwrap_err(),
        ConfigErrorKind::BadGain
    );
    assert_eq!(
        parse_laser_line("out1 . 15 MixA").unwrap_err(),
        ConfigErrorKind::BadGain
    );
}

#[test]
fn laser_line_bad_pressure() {
    assert_eq!(
        parse_laser_line("out1 2.5 -3 MixA").unwrap_err(),
        ConfigErrorKind::BadPressure
    );
    assert_eq!(
        parse_laser_line("out1 2.5 3.5 MixA").unwrap_err(),
        ConfigErrorKind::BadPressure
    );
}

#[test]
fn laser_line_extra_tokens_ignored() {
    let c = parse_laser_line("a 1.0 2 b extra tokens").unwrap();
    assert_eq!(c.output_target, "a");
    assert_eq!(c.small_signal_gain_milli, 1000);
    assert_eq!(c.discharge_pressure, 2);
    assert_eq!(c.gas_mix_label, "b");
}

#[test]
fn laser_gain_forms() {
    assert_eq!(parse_laser_line("a 3 0 b").unwrap().small_signal_gain_milli, 3000);
    assert_eq!(parse_laser_line("a .5 0 b").unwrap().small_signal_gain_milli, 500);
    assert_eq!(parse_laser_line("a 2. 0 b").unwrap().small_signal_gain_milli, 2000);
    assert_eq!(parse_laser_line("a 2.5555 0 b").unwrap().small_signal_gain_milli, 2555);
    assert_eq!(parse_laser_line("a +2.05 0 b").unwrap().small_signal_gain_milli, 2050);
}

#[test]
fn laser_data_two_lines() {
    let lasers = get_laser_data("out1 2.5 15 MixA\nout2 10.0 30 MixB").unwrap();
    assert_eq!(lasers.len(), 2);
    assert_eq!(lasers[0].output_target, "out1");
    assert_eq!(lasers[1].small_signal_gain_milli, 10000);
    assert_eq!(lasers[1].discharge_pressure, 30);
}

#[test]
fn laser_data_empty_text() {
    assert_eq!(get_laser_data("").unwrap().len(), 0);
}

#[test]
fn laser_data_names_bad_line() {
    let e = get_laser_data("ok 1.0 2 a\nbad line here").unwrap_err();
    assert_eq!(
        e,
        ConfigParseError { line: 1, kind: ConfigErrorKind::MissingTokens }
    );
    let e2 = get_laser_data("ok 1.0 2 a\nx 1.0 nope b").unwrap_err();
    assert_eq!(
        e2,
        ConfigParseError { line: 1, kind: ConfigErrorKind::BadPressure }
    );
}
