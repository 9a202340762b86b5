use plmidi::display::{format_duration, gen_header, gen_status_line, make_display, Stroke};
use plmidi::playback::{Print, Screen};
use plmidi::slider::CLOSE;
use plmidi::speed::{Speed, BINADE, FASTEST, INFINITY, NORMAL, SLOWEST};
use plmidi::tempo::{is_display_due, Bpm};
use plmidi::text::{decimal_text, split_lines};
use plmidi::track::{Track, LONGEST_IN_MICROS};

const SECOND: u128 = 1_000_000_000;

fn tracks(names: &[&str]) -> Vec<Track> {
    names
        .iter()
        .map(|name| Track {
            name: name.to_string(),
            duration: 90 * SECOND,
            tpb: 96,
            sheet: nodi::Sheet::new(),
        })
        .collect()
}

fn speed(x: f32) -> Speed {
    Speed { bits: x.to_bits() }
}

/// Speeds of every kind and size.
fn many_speeds() -> Vec<f32> {
    let mut all = vec![
        0.0_f32, -0.0, 0.05, 0.1, -0.1, 0.2, 0.25, 0.35, 0.5, 1.0, 1.25, 9.9, 10.0, 10.1, 1e9, 1e30,
        -1.0, 1e-40, -1e-40, f32::MIN_POSITIVE, f32::INFINITY, f32::NEG_INFINITY, f32::NAN,
        -f32::NAN, f32::MAX, f32::MIN, f32::from_bits(1), f32::from_bits(0x007f_ffff),
        4_194_303.8, 4_194_304.0, 2_097_152.2, 3.7e-9, 3.8e-9, 1.49e-8, 7.4505806e-9,
    ];
    let mut x = 0.1_f32;
    while x < 12.0 {
        all.push(x);
        x += 0.1;
    }
    let mut seed = 0x1234_5678_9abc_def1_u64;
    for _ in 0..40_000 {
        seed = seed.wrapping_mul(6_364_136_223_846_793_005).wrapping_add(1_442_695_040_888_963_407);
        let random = (seed >> 32) as u32;
        all.push(f32::from_bits(random));
        // Between 2 to the power of -32 and 2 to the power of 32.
        let exponent = 95 + (random >> 23) % 64;
        all.push(f32::from_bits(random & 0x807f_ffff | exponent << 23));
    }
    all
}

fn bpm(micros_per_beat: u32) -> Bpm {
    Bpm { micros_per_beat }
}

const HEADER: &str = "Playing 2 tracks
Total duration: 3m0s
Press the spacebar to play/pause, ctrl-left/right to play previous/next track
Press +/- to adjust the playback speed. Press the esc key or ctrl-c to exit";

#[test]
fn numbers_in_decimal() {
    for n in [0_u128, 7, 10, 99, 100, 1_234_567_890, u64::MAX as u128, u128::MAX] {
        let text = decimal_text(n);
        assert_eq!(text, n.to_string());
        assert_eq!(text.parse::<u128>().unwrap(), n);
    }
}

#[test]
fn lines_are_those_of_std() {
    for s in [
        "", "a", "a\n", "a\nb", "a\r\nb\r\n", "\n", "\n\n", "\r\n", "a\r", "a\r\r\nb", "é\n▶ x",
        HEADER,
    ] {
        let expected: Vec<String> = s.lines().map(|l| l.to_string()).collect();
        assert_eq!(split_lines(s), expected, "{s:?}");
    }
}

#[test]
fn durations() {
    assert_eq!(format_duration(0), "0s");
    assert_eq!(format_duration(59 * SECOND + 999_999_999), "59s");
    assert_eq!(format_duration(60 * SECOND), "1m0s");
    assert_eq!(format_duration(125 * SECOND), "2m5s");
    assert_eq!(format_duration(3_600 * SECOND), "60m0s");
}

#[test]
fn header() {
    assert_eq!(gen_header(&tracks(&["a", "b"]), speed(1.0)), HEADER);
    assert!(gen_header(&tracks(&["a"]), speed(0.1))
        .starts_with("Playing 1 track\nTotal duration: 9s\n"));
    assert!(gen_header(&tracks(&[]), speed(2.0)).starts_with("Playing 0 tracks\nTotal duration: 0s\n"));
}

#[test]
fn status_line() {
    let list = tracks(&["a"]);
    assert_eq!(gen_status_line(&list[0], speed(1.0), None), "Duration = 1m30s | Speed: 1.0x");
    assert_eq!(
        gen_status_line(&list[0], speed(0.5), Some(bpm(500_000))),
        "Duration = 45s | Speed: 0.5x | 120 BPM"
    );
    assert_eq!(
        gen_status_line(&list[0], speed(f32::NAN), None),
        "Duration = 0s | Speed: NaNx"
    );
}

#[test]
fn whole_display() {
    let list = tracks(&["first", "second"]);
    assert_eq!(
        make_display("H", &list[1], 1, 2, speed(1.0), None),
        "H\nCurrent: second [2/2]\nDuration = 1m30s | Speed: 1.0x"
    );
}

#[test]
fn screens() {
    let list = tracks(&["first", "second"]);
    let speed = speed(1.0);
    let full = Screen::Full { n_track: 0, speed, bpm: Some(bpm(600_000)) };
    assert_eq!(
        full.text(&list),
        format!("{HEADER}\nCurrent: first [1/2]\nDuration = 1m30s | Speed: 1.0x | 100 BPM")
    );
    let status = Screen::Status { n_track: 1, speed, bpm: None };
    assert_eq!(status.text(&list), "Duration = 1m30s | Speed: 1.0x");
    assert_eq!(Screen::Paused.text(&list), "paused");
    assert_eq!(Screen::PausedSpeed { speed }.text(&list), "paused | Speed: 1.0x");
}

#[test]
fn the_shown_duration_follows_the_speed() {
    let seconds = |nanos: u128, x: f32| {
        let mut list = tracks(&["a"]);
        list[0].duration = nanos;
        let line = gen_status_line(&list[0], speed(x), None);
        line.strip_prefix("Duration = ").unwrap().split(' ').next().unwrap().to_string()
    };
    for nanos in [0, 999, 1_000, 59 * SECOND, 61 * SECOND + 5, (1 << 53) * 1_000 - 1] {
        assert_eq!(seconds(nanos, 1.0), format_duration(nanos));
    }
    let mut last = 0;
    for n in 1..=100 {
        let text = seconds(59 * SECOND, n as f32 / 100.0);
        let now: u64 = text.strip_suffix('s').unwrap().parse().unwrap();
        assert!(last <= now);
        last = now;
    }
    assert_eq!(last, 59);
}

#[test]
fn printing() {
    let text = |s: &str| Stroke::Text(s.to_string());
    assert_eq!(
        Print::ReplaceAll.print("a\nb", true),
        vec![
            Stroke::ClearAll,
            text("a\r"),
            Stroke::Flush,
            Stroke::NewLine,
            text("b\r"),
            Stroke::Flush,
        ]
    );
    assert_eq!(
        Print::ReplaceLast.print("x", true),
        vec![Stroke::ClearUntilNewLine, text("x\r"), Stroke::Flush]
    );
    assert_eq!(Print::Append.print("", true), vec![Stroke::NewLine]);
    assert_eq!(
        Print::Append.print("a\nb", false),
        vec![Stroke::TextLine("a\nb".to_string())]
    );
}

#[test]
fn beats_per_minute_are_rounded_like_floats() {
    assert_eq!(bpm(500_000).text(), "120");
    assert_eq!(bpm(0).text(), "inf");
    for t in (1..0x100_0000_u32).step_by(97).chain([
        1, 2, 3, 7, 24_000_000, 40_000_000, 120_000_000, 0xff_ffff, u32::MAX,
    ]) {
        assert_eq!(bpm(t).text(), format!("{:.0}", 60_000_000.0 / t as f64), "{t}");
    }
}

#[test]
fn display_is_due_like_with_floats() {
    let float = |a: u32, b: u32| (60_000_000.0 / a as f64 - 60_000_000.0 / b as f64).abs() >= 0.5;
    assert!(is_display_due(None, 500_000));
    assert!(!is_display_due(Some(bpm(500_000)), 500_000));
    // Half a beat apart, but less than that in double precision.
    assert!(!is_display_due(Some(bpm(45_000_000)), 72_000_000));
    assert!(!float(45_000_000, 72_000_000));
    for a in [0_u32, 1, 2, 1_000, 300_000, 500_000, 4_000_000, 0xff_ffff, 45_000_000, u32::MAX] {
        for b in (0..0x100_0000_u32)
            .step_by(1_009)
            .chain((0..u32::MAX).step_by(1_000_003))
            .chain([1, 2, 497_925, 497_926, 502_092, 502_093, u32::MAX])
        {
            assert_eq!(is_display_due(Some(bpm(a)), b), float(a, b), "{a} {b}");
        }
    }
    // Around the places where the two are half a beat apart.
    for a in (1..120_000_000_u64).step_by(9_973) {
        let slower = 120_000_000 * a / (120_000_000 - a);
        let faster = 120_000_000 * a / (120_000_000 + a);
        for edge in [slower, faster] {
            for b in edge.saturating_sub(2)..edge + 3 {
                if b <= u32::MAX as u64 {
                    let (a, b) = (a as u32, b as u32);
                    assert_eq!(is_display_due(Some(bpm(a)), b), float(a, b), "{a} {b}");
                }
            }
        }
    }
    // Places where they are exactly so.
    for d in (1..4_000_u64).filter(|d| 120_000_000 % d == 0) {
        let (a, b) = (120_000_000 / (d + 1), 120_000_000 / d);
        assert_eq!(
            is_display_due(Some(bpm(a as u32)), b as u32),
            float(a as u32, b as u32),
            "{a} {b}"
        );
    }
}

#[test]
fn bounds_of_the_speed_are_those_of_floats() {
    assert_eq!(FASTEST, 10.0_f32.to_bits());
    assert_eq!(SLOWEST, 0.1_f32.to_bits());
    assert_eq!(NORMAL, 1.0_f32.to_bits());
    assert_eq!(INFINITY, f32::INFINITY.to_bits());
    assert_eq!(BINADE, f32::MIN_POSITIVE.to_bits());
}

#[test]
fn steps_of_the_speed_are_those_of_floats() {
    for x in many_speeds() {
        assert_eq!(speed(x).raise(), speed((x + 0.1).min(10.0)), "{x:e}");
        assert_eq!(speed(x).lower(), speed((x - 0.1).max(0.1)), "{x:e}");
    }
}

#[test]
fn products_with_the_speed_are_those_of_floats() {
    for (i, x) in many_speeds().into_iter().enumerate() {
        for n in [
            0_u128,
            1,
            999_999,
            (1 << 53) + 1,
            0xffff_ffff_ffff_fbff,
            i as u128 * 0x1_2345_6789,
            i as u128 * 0x1234_5678_9abc_def0,
            LONGEST_IN_MICROS,
        ] {
            assert_eq!(speed(x).multiply(n), (n as f64 * x as f64) as u64, "{n} {x:e}");
        }
    }
}

#[test]
fn speeds_are_written_like_floats() {
    for x in many_speeds() {
        assert_eq!(speed(x).text(), format!("{x:.1}"), "{x:e}");
    }
}

#[test]
fn rounding_to_one_decimal_is_that_of_floats() {
    for x in many_speeds().into_iter().filter(|x| !x.is_nan()) {
        assert_eq!(speed(x).round(), speed((x * 10.0).round() / 10.0), "{x:e}");
    }
    for n in 1..=100 {
        let x = n as f32 / 10.0;
        assert_eq!(speed(x + 0.04).round(), speed(x));
        assert_eq!(speed(x).round(), speed(x));
    }
    assert_eq!(speed(0.25).round(), speed(0.3));
    assert!(f32::from_bits(speed(f32::NAN).round().bits).is_nan());
}

#[test]
fn the_slider_follows_like_with_floats() {
    assert_eq!(CLOSE, 0.005_f32.to_bits());
    let float = |a: f32, b: f32| (a - b).abs() > 0.005;
    let all = many_speeds();
    for pair in all.windows(2).chain(all.chunks(2)) {
        let (a, b) = (pair[0], pair[pair.len() - 1]);
        assert_eq!(speed(a).is_off(speed(b)), float(a, b), "{a:e} {b:e}");
    }
    for x in all {
        for y in [
            x, -x, 0.0, 0.005, 0.0050000004, x + 0.005, x - 0.005, x + 0.00500001, x + 0.0049999,
            f32::from_bits(x.to_bits() ^ 1), f32::INFINITY, f32::NEG_INFINITY, f32::NAN,
        ] {
            assert_eq!(speed(x).is_off(speed(y)), float(x, y), "{x:e} {y:e}");
            let shown = speed(x).follow(speed(y));
            assert_eq!(shown, if float(x, y) { speed(y) } else { speed(x) });
            assert!(!shown.is_off(speed(y)));
        }
    }
}
