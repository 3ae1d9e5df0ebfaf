use tegrastats::app::{App, Key, KeyPress};
use tegrastats::parser::{parse, Expected, ParseError};
use tegrastats::snapshot::Tegrastats;

const LINE: &str = "RAM 1234/7854MB (lfb 7x4MB) SWAP 0/3927MB (cached 0MB) CPU [10%@1420,15%@1420,5%@1420,8%@1420] EMC_FREQ 0% GR3D_FREQ 0% PLL@38.5C CPU@39C PMIC@40C GPU@37.5C AO@41C thermal@38.25C";

fn counts(t: &Tegrastats) -> Vec<u32> {
    vec![
        t.ram_used, t.ram_total, t.lfb_blocks, t.lfb_size, t.swap_used, t.swap_total,
        t.swap_cached, t.cpu0_load, t.cpu0_freq, t.cpu1_load, t.cpu1_freq, t.cpu2_load,
        t.cpu2_freq, t.cpu3_load, t.cpu3_freq, t.emc_freq, t.gr3d_freq,
    ]
}

fn temps(t: &Tegrastats) -> Vec<String> {
    vec![
        t.pll_temp.literal.clone(),
        t.cpu_temp.literal.clone(),
        t.pmic_temp.literal.clone(),
        t.gpu_temp.literal.clone(),
        t.ao_temp.literal.clone(),
        t.thermal_temp.literal.clone(),
    ]
}

fn render(t: &Tegrastats) -> String {
    format!(
        "RAM {}/{}MB (lfb {}x{}MB) SWAP {}/{}MB (cached {}MB) CPU [{}%@{},{}%@{},{}%@{},{}%@{}] EMC_FREQ {}% GR3D_FREQ {}% PLL@{}C CPU@{}C PMIC@{}C GPU@{}C AO@{}C thermal@{}C",
        t.ram_used, t.ram_total, t.lfb_blocks, t.lfb_size, t.swap_used, t.swap_total,
        t.swap_cached, t.cpu0_load, t.cpu0_freq, t.cpu1_load, t.cpu1_freq, t.cpu2_load,
        t.cpu2_freq, t.cpu3_load, t.cpu3_freq, t.emc_freq, t.gr3d_freq, t.pll_temp.literal,
        t.cpu_temp.literal, t.pmic_temp.literal, t.gpu_temp.literal, t.ao_temp.literal,
        t.thermal_temp.literal
    )
}

#[test]
fn example_line_decodes() {
    let (rest, t) = parse(LINE).unwrap();
    assert_eq!(rest, "");
    assert_eq!(
        counts(&t),
        vec![1234, 7854, 7, 4, 0, 3927, 0, 10, 1420, 15, 1420, 5, 1420, 8, 1420, 0, 0]
    );
    assert_eq!(temps(&t), vec!["38.5", "39", "40", "37.5", "41", "38.25"]);
    assert_eq!(t.cpu_temp.literal.parse::<f32>().unwrap(), 39.0);
    assert_eq!(t.thermal_temp.literal.parse::<f32>().unwrap(), 38.25);
}

#[test]
fn truncated_line_fails() {
    assert_eq!(
        parse("RAM 1234/7854MB").unwrap_err(),
        ParseError { step: 4, expected: Expected::Literal }
    );
}

#[test]
fn three_cores_fail() {
    let line = "RAM 1234/7854MB (lfb 7x4MB) SWAP 0/3927MB (cached 0MB) CPU [10%@1420,15%@1420,5%@1420] EMC_FREQ 0% GR3D_FREQ 0% PLL@38.5C CPU@39C PMIC@40C GPU@37.5C AO@41C thermal@38.25C";
    assert_eq!(parse(line).unwrap_err(), ParseError { step: 26, expected: Expected::Literal });
}

#[test]
fn empty_line_fails_at_first_literal() {
    assert_eq!(parse("").unwrap_err(), ParseError { step: 0, expected: Expected::Literal });
}

#[test]
fn every_proper_prefix_fails() {
    for end in 0..LINE.len() {
        assert!(parse(&LINE[..end]).is_err(), "prefix of length {} decoded", end);
    }
}

#[test]
fn non_numeric_counter_fails() {
    let line = LINE.replacen("RAM 1234", "RAM x1234", 1);
    assert_eq!(parse(&line).unwrap_err(), ParseError { step: 1, expected: Expected::Count });
}

#[test]
fn counter_overflow_fails() {
    let line = LINE.replacen("RAM 1234/", "RAM 4294967296/", 1);
    assert_eq!(parse(&line).unwrap_err(), ParseError { step: 1, expected: Expected::Count });
    let line = LINE.replacen("RAM 1234/", "RAM 4294967295/", 1);
    assert_eq!(parse(&line).unwrap().1.ram_used, 4294967295);
}

#[test]
fn non_numeric_reading_fails() {
    let line = LINE.replacen("PLL@38.5C", "PLL@xC", 1);
    assert_eq!(parse(&line).unwrap_err(), ParseError { step: 35, expected: Expected::Reading });
}

#[test]
fn exponent_without_digits_fails() {
    let line = LINE.replacen("PLL@38.5C", "PLL@38.5eC", 1);
    assert_eq!(parse(&line).unwrap_err(), ParseError { step: 35, expected: Expected::Reading });
}

#[test]
fn readings_in_other_forms() {
    let line = LINE
        .replacen("PLL@38.5C", "PLL@-1.5e1C", 1)
        .replacen("CPU@39C", "CPU@.5C", 1)
        .replacen("PMIC@40C", "PMIC@40.C", 1)
        .replacen("GPU@37.5C", "GPU@+3E2C", 1);
    let (_, t) = parse(&line).unwrap();
    assert_eq!(temps(&t), vec!["-1.5e1", ".5", "40.", "+3E2", "41", "38.25"]);
}

#[test]
fn words_are_no_readings() {
    for word in ["NaN", "nan", "inf", "INF", "infinity"] {
        let line = LINE.replacen("GPU@37.5C", &format!("GPU@{}C", word), 1);
        assert_eq!(
            parse(&line).unwrap_err(),
            ParseError { step: 41, expected: Expected::Reading }
        );
    }
}

#[test]
fn store_keeps_report_on_word_reading() {
    let mut app = App::new();
    app.update(LINE);
    let before = (counts(app.current()), temps(app.current()));
    app.update(&LINE.replacen("PLL@38.5C", "PLL@nanC", 1));
    assert_eq!((counts(app.current()), temps(app.current())), before);
}

#[test]
fn reading_stops_at_first_non_numeric_character() {
    let line = LINE.replacen("PLL@38.5C", "PLL@38.5xC", 1);
    assert_eq!(parse(&line).unwrap_err(), ParseError { step: 36, expected: Expected::Literal });
}

#[test]
fn trailing_text_is_left_unread() {
    let line = format!("{} VDD_IN 4000/4000\n", LINE);
    let (rest, t) = parse(&line).unwrap();
    assert_eq!(rest, " VDD_IN 4000/4000\n");
    assert_eq!(t.ram_used, 1234);
}

#[test]
fn decoding_twice_gives_the_same_report() {
    let (_, a) = parse(LINE).unwrap();
    let (_, b) = parse(LINE).unwrap();
    assert_eq!(counts(&a), counts(&b));
    assert_eq!(temps(&a), temps(&b));
}

#[test]
fn rendered_report_decodes_to_itself() {
    let line = LINE
        .replacen("RAM 1234/", "RAM 4294967295/", 1)
        .replacen("PLL@38.5C", "PLL@-2.125e-3C", 1);
    let (_, t) = parse(&line).unwrap();
    let again = render(&t);
    let (rest, u) = parse(&again).unwrap();
    assert_eq!(rest, "");
    assert_eq!(counts(&t), counts(&u));
    assert_eq!(temps(&t), temps(&u));
    assert_eq!(again, line);
}

#[test]
fn default_report_is_all_zero() {
    let t = Tegrastats::default();
    assert_eq!(counts(&t), vec![0; 17]);
    assert_eq!(temps(&t), vec!["0"; 6]);
}

#[test]
fn store_starts_with_zero_report() {
    let app = App::new();
    assert!(app.is_running());
    assert_eq!(counts(app.current()), vec![0; 17]);
}

#[test]
fn store_takes_a_decoded_line() {
    let mut app = App::new();
    app.update(LINE);
    assert_eq!(app.current().ram_total, 7854);
    assert_eq!(app.current().thermal_temp.literal, "38.25");
}

#[test]
fn store_keeps_report_on_failures() {
    let mut app = App::new();
    app.update(LINE);
    let before = (counts(app.current()), temps(app.current()));
    for _ in 0..5 {
        app.update("RAM 1234/7854MB");
        assert_eq!((counts(app.current()), temps(app.current())), before);
    }
    app.update("");
    assert_eq!((counts(app.current()), temps(app.current())), before);
    assert!(app.is_running());
}

#[test]
fn store_replaces_report_whole() {
    let mut app = App::new();
    app.update(LINE);
    let other = LINE.replacen("RAM 1234/", "RAM 99/", 1).replacen("AO@41C", "AO@12C", 1);
    app.update(&other);
    assert_eq!(app.current().ram_used, 99);
    assert_eq!(app.current().ao_temp.literal, "12");
    assert_eq!(app.current().ram_total, 7854);
}

#[test]
fn quit_keys_stop_the_store() {
    let presses = [
        (KeyPress { key: Key::Esc, control_only: false }, false),
        (KeyPress { key: Key::Char('q'), control_only: true }, false),
        (KeyPress { key: Key::Char('c'), control_only: true }, false),
        (KeyPress { key: Key::Char('C'), control_only: true }, false),
        (KeyPress { key: Key::Char('c'), control_only: false }, true),
        (KeyPress { key: Key::Char('x'), control_only: true }, true),
        (KeyPress { key: Key::Other, control_only: false }, true),
    ];
    for (press, keeps_running) in presses {
        let mut app = App::new();
        app.on_key_event(press);
        assert_eq!(app.is_running(), keeps_running);
    }
}

#[test]
fn quit_stops_the_store() {
    let mut app = App::new();
    app.quit();
    assert!(!app.is_running());
}
