use autores::model::{Modeline, Monitor, ParseError, Screen};
use autores::parse::{parse_monitors, parse_screens};
use autores::args::xrandr_args;
use autores::rate::Rate;

const STATUS_REPORT: &str = r##"
Screen 0: minimum 8 x 8, current 4480 x 1440, maximum 16384 x 16384
DVI-I-0 disconnected (normal left inverted right x axis y axis)
DVI-I-1 disconnected (normal left inverted right x axis y axis)
HDMI-0 disconnected (normal left inverted right x axis y axis)
DP-0 connected primary 2560x1440+0+0 (normal left inverted right x axis y axis) 598mm x 336mm
   2560x1440     59.95*+ 143.86   119.88    99.95
   1920x1080    143.85    60.00    59.94    50.00
   1680x1050     59.95
   1440x900      59.89
   1280x1024     75.02    60.02
   1280x960      60.00
   1280x800      59.81
   1280x720      60.00    59.94    50.00
   1152x864      75.00
   1024x768      75.03    70.07    60.00
   800x600       75.00    72.19    60.32    56.25
   720x576       50.00
   720x480       59.94
   640x480       75.00    72.81    59.94    59.93
DP-1 disconnected (normal left inverted right x axis y axis)
DP-2 disconnected (normal left inverted right x axis y axis)
DP-3 disconnected (normal left inverted right x axis y axis)
DP-4 connected 1920x1200+2560+0 (normal left inverted right x axis y axis) 518mm x 324mm
   1920x1200     59.95*+
   1920x1080     60.00
   1680x1050     59.95
   1600x1200     60.00
   1280x1024     60.02
   1280x960      60.00
   1024x768      60.00
   800x600       60.32
   640x480       59.94
DP-5 disconnected (normal left inverted right x axis y axis)
"##;

#[test]
fn it_parses_and_sorts_output() {
    let screens = parse_screens(STATUS_REPORT).unwrap();
    assert_eq!(screens.len(), 2);

    assert_eq!(screens[0].output, "DP-0");
    assert_eq!(screens[1].output, "DP-4");

    assert_eq!(screens[0].resolution, "2560x1440");
    assert_eq!(screens[1].resolution, "1920x1200");

    assert_eq!(screens[0].rate, Some(Rate::new(143, 86, 2)));
    assert_eq!(screens[1].rate, Some(Rate::new(59, 95, 2)));
}

#[test]
fn it_builds_xrandr_args_from_the_left() {
    let screens = vec![
        Screen {
            output: "FOO-1".into(),
            resolution: "2560x1440".into(),
            rate: Some(Rate::new(144, 0, 0)),
        },
        Screen {
            output: "FOO-2".into(),
            resolution: "1920x1080".into(),
            rate: Some(Rate::new(59, 95, 2)),
        },
    ];

    let args = xrandr_args(screens);

    assert_eq!(
        args,
        vec![
            "--output",
            "FOO-1",
            "--mode",
            "2560x1440",
            "--rate",
            "144",
            "--primary",
            "--output",
            "FOO-2",
            "--mode",
            "1920x1080",
            "--rate",
            "59.95",
            "--right-of",
            "FOO-1",
        ]
    );
}

#[test]
fn parsed_report_builds_exact_command() {
    let screens = parse_screens(STATUS_REPORT).unwrap();
    let args = xrandr_args(screens);
    assert_eq!(
        args,
        vec![
            "--output",
            "DP-0",
            "--mode",
            "2560x1440",
            "--rate",
            "143.86",
            "--primary",
            "--output",
            "DP-4",
            "--mode",
            "1920x1200",
            "--rate",
            "59.95",
            "--right-of",
            "DP-0",
        ]
    );
}

#[test]
fn modeline_without_decimal_rate_has_no_rate_tokens() {
    let report = "HDMI-1 connected 1024x768+0+0\n   1024x768  interlaced\n";
    let screens = parse_screens(report).unwrap();
    assert_eq!(screens.len(), 1);
    assert_eq!(screens[0].output, "HDMI-1");
    assert_eq!(screens[0].resolution, "1024x768");
    assert_eq!(screens[0].rate, None);

    let args = xrandr_args(screens);
    assert_eq!(
        args,
        vec!["--output", "HDMI-1", "--mode", "1024x768", "--primary"]
    );
}

#[test]
fn no_connected_outputs_yield_empty_sequences() {
    let report = "Screen 0: minimum 8 x 8\nDP-0 disconnected (normal)\n";
    let screens = parse_screens(report).unwrap();
    assert_eq!(screens.len(), 0);
    let args = xrandr_args(screens);
    assert_eq!(args.len(), 0);

    let empty = parse_screens("").unwrap();
    assert_eq!(empty.len(), 0);
}

#[test]
fn modeline_before_any_output_is_malformed() {
    let report = "   1920x1080  60.00\nDP-0 connected\n";
    assert_eq!(parse_screens(report), Err(ParseError::MalformedReport));
    assert!(parse_monitors(report).is_err());
}

#[test]
fn oversized_width_is_malformed() {
    let report = "DP-0 connected \n   99999999999999999999x1080  60.00\n";
    assert_eq!(parse_screens(report), Err(ParseError::MalformedReport));
}

#[test]
fn zero_width_is_malformed() {
    let report = "DP-0 connected \n   0x0  60.00\n";
    assert_eq!(parse_screens(report), Err(ParseError::MalformedReport));
}

#[test]
fn connected_output_without_modelines_is_dropped() {
    let report = "DP-0 connected \nDP-1 connected \n   800x600  60.00\n";
    let screens = parse_screens(report).unwrap();
    assert_eq!(screens.len(), 1);
    assert_eq!(screens[0].output, "DP-1");
}

#[test]
fn best_rate_is_numeric_maximum_not_textual() {
    // 143.86 > 99.95 numerically although "1" < "9" textually.
    let report = "DP-0 connected \n   640x480  99.95 143.86 7.5\n";
    let screens = parse_screens(report).unwrap();
    assert_eq!(screens[0].rate, Some(Rate::new(143, 86, 2)));
}

#[test]
fn integral_rate_renders_without_fraction() {
    let report = "DP-0 connected \n   800x600  60.00\n";
    let screens = parse_screens(report).unwrap();
    let rate = screens[0].rate.unwrap();
    assert_eq!(rate.to_text(), "60");
    let args = xrandr_args(screens);
    assert_eq!(
        args,
        vec!["--output", "DP-0", "--mode", "800x600", "--rate", "60", "--primary"]
    );
}

#[test]
fn trailing_zeros_trim_but_leading_zeros_stay() {
    let report = "DP-0 connected \n   800x600  59.950 60.0500\n";
    let screens = parse_screens(report).unwrap();
    // 60.05 > 59.95; its text keeps the leading zero of the fraction.
    assert_eq!(screens[0].rate.unwrap().to_text(), "60.05");
}

#[test]
fn widest_modeline_wins_and_ties_keep_first_seen() {
    let report = "DP-0 connected \n   100x50  60.00\n   100x99  75.00\n   90x90  30.00\n";
    let monitors = parse_monitors(report).unwrap();
    assert_eq!(monitors.len(), 1);
    let (w, h) = monitors[0].best_resolution();
    assert_eq!((w, h), (100, 50));
    assert_eq!(monitors[0].best_rate(), Some(Rate::new(60, 0, 0)));
    // modelines are kept in stable descending-width order
    assert_eq!(monitors[0].modelines.len(), 3);
    assert_eq!(monitors[0].modelines[0].width, 100);
    assert_eq!(monitors[0].modelines[0].height, 50);
    assert_eq!(monitors[0].modelines[1].height, 99);
    assert_eq!(monitors[0].modelines[2].width, 90);
}

#[test]
fn monitors_sort_by_descending_best_width_stably() {
    let report = "A-1 connected \n   800x600  60.00\nB-2 connected \n   1920x1080  60.00\nC-3 connected \n   800x600  75.00\n";
    let screens = parse_screens(report).unwrap();
    assert_eq!(screens.len(), 3);
    assert_eq!(screens[0].output, "B-2");
    // A-1 and C-3 tie on width 800: report order is kept.
    assert_eq!(screens[1].output, "A-1");
    assert_eq!(screens[2].output, "C-3");
}

#[test]
fn carriage_returns_are_stripped() {
    let report = "DP-0 connected \r\n   640x480  59.94\r\n";
    let screens = parse_screens(report).unwrap();
    assert_eq!(screens.len(), 1);
    assert_eq!(screens[0].resolution, "640x480");
    assert_eq!(screens[0].rate, Some(Rate::new(59, 94, 2)));
}

#[test]
fn screen_from_monitor_renders_resolution() {
    let monitor = Monitor::new(
        "DP-9".to_string(),
        vec![Modeline { width: 2560, height: 1440, best_rate: None }],
    );
    let screen = Screen::from(monitor);
    assert_eq!(screen.output, "DP-9");
    assert_eq!(screen.resolution, "2560x1440");
    assert_eq!(screen.rate, None);
}

#[test]
fn rate_order_is_numeric() {
    let a = Rate::new(59, 95, 2);
    let b = Rate::new(60, 5, 2);
    let c = Rate::new(60, 5, 1);
    assert!(a.le(&b));
    assert!(!b.le(&a));
    // 60.05 < 60.5
    assert!(b.le(&c));
    assert!(!c.le(&b));
    assert_eq!(c.to_text(), "60.5");
}
