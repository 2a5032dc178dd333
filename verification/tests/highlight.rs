//! Colors out of what `bat` prints.

use treex::highlight::{
    available, indexed_rgb, paint, paint_for_browser, parse, worth_painting, Color, Run, Style,
};

fn rgb(r: u8, g: u8, b: u8) -> Style {
    Style { fg: Some(Color::Rgb(r, g, b)), ..Style::default() }
}

/// What bat actually emits: a color, the token, a reset, repeatedly.
#[test]
fn parses_what_bat_prints() {
    let out = b"\x1b[38;2;102;217;239mfn\x1b[0m\x1b[38;2;248;248;242m main\x1b[0m\n";
    let runs = parse(out, "fn main\n").unwrap();
    assert_eq!(
        runs,
        vec![
            Run { start: 0, end: 2, style: rgb(102, 217, 239) },
            Run { start: 2, end: 7, style: rgb(248, 248, 242) },
            Run { start: 7, end: 8, style: Style::default() },
        ]
    );
}

#[test]
fn adjacent_runs_of_one_style_are_merged() {
    // Four separately colored tokens, all the same color.
    let out = b"\x1b[31ma\x1b[0m\x1b[31mb\x1b[0m\x1b[31mc\x1b[0m";
    let runs = parse(out, "abc").unwrap();
    assert_eq!(runs.len(), 1, "{runs:?}");
    assert_eq!(runs[0].end, 3);
}

#[test]
fn text_that_is_not_the_file_is_refused() {
    // A bat that expanded tabs, which would put every later run on the
    // wrong characters.
    assert_eq!(parse(b"\x1b[31m    x\x1b[0m", "\tx"), None);
    // Truncated output is not a coloring of the whole file either.
    assert_eq!(parse(b"\x1b[31mab\x1b[0m", "abc"), None);
    // Nor is output with something extra on the end.
    assert_eq!(parse(b"\x1b[31mabc\x1b[0m\n", "abc"), None);
}

#[test]
fn attributes_accumulate_and_reset() {
    let runs = parse(b"\x1b[1m\x1b[3ma\x1b[23mb\x1b[0mc", "abc").unwrap();
    assert_eq!(
        runs.iter().map(|r| r.style).collect::<Vec<_>>(),
        vec![
            Style { bold: true, italic: true, ..Style::default() },
            Style { bold: true, ..Style::default() },
            Style::default(),
        ]
    );
}

#[test]
fn color_forms_all_parse() {
    let cases: &[(&[u8], Option<Color>)] = &[
        (b"\x1b[31ma", Some(Color::Indexed(1))),
        (b"\x1b[91ma", Some(Color::Indexed(9))),
        (b"\x1b[38;5;208ma", Some(Color::Indexed(208))),
        (b"\x1b[38;2;1;2;3ma", Some(Color::Rgb(1, 2, 3))),
        (b"\x1b[39ma", None),
        // A background is consumed without being mistaken for a color.
        (b"\x1b[48;2;9;9;9ma", None),
    ];
    for (out, want) in cases {
        let runs = parse(out, "a").unwrap();
        assert_eq!(runs[0].style.fg, *want, "{:?}", String::from_utf8_lossy(out));
    }
}

#[test]
fn sequences_that_are_not_colors_are_stepped_over() {
    // A cursor move, a hyperlink and a bare ESC \ terminator.
    let out = b"\x1b[2Ka\x1b]8;;http://x\x07b\x1b]8;;\x1b\\c";
    let runs = parse(out, "abc").unwrap();
    assert_eq!(runs.len(), 1);
    assert_eq!((runs[0].start, runs[0].end), (0, 3));
}

#[test]
fn multibyte_text_keeps_its_own_boundaries() {
    let content = "中文 ok\n";
    let out = "\u{1b}[31m中文\u{1b}[0m ok\n".as_bytes();
    let runs = parse(out, content).unwrap();
    assert_eq!(runs[0].end, 6, "two CJK characters are six bytes");
    // Every boundary has to be sliceable, or the views panic on it.
    for run in &runs {
        assert!(content.get(run.start..run.end).is_some(), "{run:?}");
    }
}

#[test]
fn a_color_change_inside_a_character_is_refused() {
    // Three bytes of one character, with the color switched after the first.
    let out = b"\x1b[31m\xe4\x1b[32m\xb8\xad";
    assert_eq!(parse(out, "中"), None);
    // The same color again is no change, and neither is a change beside it.
    let out = b"\x1b[31m\xe4\x1b[31m\xb8\xad\x1b[32m!";
    assert_eq!(parse(out, "中!").unwrap().len(), 2);
}

#[test]
fn an_unreadable_parameter_is_no_color() {
    for out in [&b"\x1b[38;:;1ma"[..], b"\x1b[38;99999;1ma", b"\x1b[38;5;:ma", b"\x1b[38;2;1;:;3ma"] {
        let runs = parse(out, "a").unwrap();
        assert_eq!(runs[0].style, Style::default(), "{:?}", String::from_utf8_lossy(out));
    }
}

#[test]
fn an_empty_file_is_never_sent_to_bat() {
    assert!(!worth_painting(true, ""));
    assert_eq!(paint("", None), None);
    assert_eq!(paint("", Some(b"")), None);
}

#[test]
fn the_xterm_cube_and_ramp_are_right() {
    assert_eq!(indexed_rgb(16), (0, 0, 0));
    assert_eq!(indexed_rgb(231), (255, 255, 255));
    assert_eq!(indexed_rgb(196), (255, 0, 0));
    assert_eq!(indexed_rgb(232), (8, 8, 8));
    assert_eq!(indexed_rgb(255), (238, 238, 238));
}

/// What bat prints for a small Rust file.
#[test]
fn a_real_bat_colors_rust() {
    assert!(available(true, b"bat 0.24.0\n"));
    let content = "fn main() {\n    let x = 1;\n}\n";
    let printed: &[u8] = b"\x1b[38;2;102;217;239mfn\x1b[0m\x1b[38;2;248;248;242m \x1b[0m\
        \x1b[38;2;166;226;46mmain\x1b[0m\x1b[38;2;248;248;242m() {\x1b[0m\n\
        \x1b[38;2;248;248;242m    \x1b[0m\x1b[38;2;102;217;239mlet\x1b[0m\
        \x1b[38;2;248;248;242m x \x1b[0m\x1b[38;2;249;38;114m=\x1b[0m\
        \x1b[38;2;248;248;242m \x1b[0m\x1b[38;2;190;132;255m1\x1b[0m\
        \x1b[38;2;248;248;242m;\x1b[0m\n\x1b[38;2;248;248;242m}\x1b[0m\n";
    let runs = paint(content, Some(printed)).expect("bat is present and should color Rust");

    assert_eq!(runs.first().map(|r| r.start), Some(0));
    assert_eq!(runs.last().map(|r| r.end), Some(content.len()));
    assert!(
        runs.windows(2).all(|w| w[0].end == w[1].start),
        "runs must tile the file with no gaps"
    );
    assert!(
        runs.iter().any(|r| !r.style.is_plain()),
        "nothing was colored at all"
    );
}

#[test]
fn a_machine_without_bat_shows_plain_text() {
    assert!(!available(false, b"bat 0.24.0\n"));
    assert!(!available(true, b"batman 1.0\n"));
    assert!(!worth_painting(false, "x"));
    assert_eq!(paint("x", None), None);
}

#[test]
fn the_browser_is_sent_a_palette_and_lengths_in_its_own_units() {
    // One character of each width in UTF-8: 1, 2, 3 and 4 bytes, of which only
    // the last takes two units in the browser.
    let content = "aé中😀b";
    let red = rgb(255, 0, 0);
    let runs = vec![
        Run { start: 0, end: 1, style: red },
        Run { start: 1, end: 10, style: Style::default() },
        Run { start: 10, end: 11, style: red },
    ];
    let paint = paint_for_browser(content, &runs);
    assert_eq!(paint.styles, vec![red, Style::default()]);
    assert_eq!(paint.runs, vec![(1, 0), (4, 1), (1, 0)]);
    let total: usize = paint.runs.iter().map(|r| r.0).sum();
    assert_eq!(total, content.encode_utf16().count());
}

#[test]
fn colors_come_out_as_rgb() {
    assert_eq!(Color::Rgb(1, 2, 3).rgb(), (1, 2, 3));
    assert_eq!(Color::Indexed(21).rgb(), (0, 0, 255));
}
