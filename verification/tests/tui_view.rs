//! What is drawn.

use treex::highlight::{Color as HColor, Run, Style as HStyle};
use treex::path::TreePath;
use treex::preview::Stamp;
use treex::shown::Row;
use treex::tree::Kind;
use treex::tui::area::Rect;
use treex::tui::lines::{bytes, line_ranges, LineRange};
use treex::tui::render::{draw, line_for, twistie, Scene, Theme};
use treex::tui::spans::{line_spans, Text};
use treex::tui::style::{Color, Line, Style};
use treex::tui::viewer::{self, digits, Body, Look, Panel, Viewer};
use treex::{Preview, Snapshot};

fn text(content: &str, runs: Vec<Run>) -> Text {
    Text {
        lines: line_ranges(content),
        content: content.to_string(),
        runs,
        size: content.len() as u64,
        lossy: false,
    }
}

fn spelled(line: &Line) -> String {
    line.spans.iter().map(|s| s.text.as_str()).collect()
}

fn at(path: &str) -> TreePath {
    TreePath::parse(path.as_bytes())
}

fn file(content: String) -> Preview {
    Preview::Text { stamp: Stamp { size: content.len() as u64, mtime: 0 }, content, lossy: false }
}

#[test]
fn a_trailing_newline_is_not_another_line() {
    assert_eq!(line_ranges("a\nb\n").len(), 2);
    assert_eq!(line_ranges("a\nb").len(), 2);
    assert_eq!(line_ranges("").len(), 0);
    assert_eq!(line_ranges("\n").len(), 1);
}

#[test]
fn crlf_does_not_leave_a_carriage_return_in_the_line() {
    let ranges = line_ranges("a\r\nb\r\n");
    assert_eq!(
        ranges,
        vec![LineRange { start: 0, end: 1 }, LineRange { start: 3, end: 4 }]
    );
    // A carriage return of its own is not part of the line in front of it.
    assert_eq!(line_ranges("\r\n"), vec![LineRange { start: 0, end: 0 }]);
    assert_eq!(line_ranges("a\rb"), vec![LineRange { start: 0, end: 3 }]);
}

#[test]
fn coloring_is_sliced_per_line() {
    let content = "fn a\nfn b\n";
    let blue = HStyle { fg: Some(HColor::Rgb(0, 0, 255)), ..HStyle::default() };
    // One run spanning both lines, as a multi-line string literal would.
    let text = text(content, vec![Run { start: 0, end: 10, style: blue }]);
    let theme = Theme::default();

    let second = line_spans(&text, &text.lines[1], &theme, false);
    assert_eq!(second.spans.len(), 1);
    assert_eq!(second.spans[0].text, "fn b");
    assert_eq!(second.spans[0].style.fg, Some(Color::Rgb(0, 0, 255)));
}

#[test]
fn text_the_runs_do_not_cover_is_still_drawn() {
    // No coloring at all: bat was missing, or the file was too large.
    let text = text("hello\n", Vec::new());
    let line = line_spans(&text, &text.lines[0], &Theme::default(), false);
    assert_eq!(line.spans.len(), 1);
    assert_eq!(line.spans[0].text, "hello");
}

#[test]
fn text_around_a_run_is_drawn_too() {
    let red = HStyle { fg: Some(HColor::Rgb(255, 0, 0)), ..HStyle::default() };
    let theme = Theme::default();
    let part = text("hello\n", vec![Run { start: 2, end: 5, style: red }]);
    let line = line_spans(&part, &part.lines[0], &theme, false);
    assert_eq!(spelled(&line), "hello");
    assert_eq!(line.spans.len(), 2);
    assert_eq!(line.spans[0].text, "he");
    assert_eq!(line.spans[1].style.fg, Some(Color::Rgb(255, 0, 0)));

    // Before, between and behind them.
    let parts = text(
        "hello\n",
        vec![Run { start: 1, end: 2, style: red }, Run { start: 3, end: 4, style: red }],
    );
    let line = line_spans(&parts, &parts.lines[0], &theme, false);
    assert_eq!(spelled(&line), "hello");
    assert_eq!(line.spans.len(), 5);
}

#[test]
fn coloring_never_changes_the_text() {
    let content = "\tlet x = \"中文\"; // é\r\nnext\tline\n";
    let plain = text(content, Vec::new());
    let bold = HStyle { bold: true, ..HStyle::default() };
    let runs = |cuts: &[usize]| -> Vec<Run> {
        cuts.windows(2).map(|w| Run { start: w[0], end: w[1], style: bold }).collect()
    };
    for cuts in [vec![0, 1, 4, 10, 13, 19, 25], vec![0, 25, 30], vec![0, 40]] {
        let colored = text(content, runs(&cuts));
        for marks in [false, true] {
            for i in 0..2 {
                let theme = Theme::default();
                let a = line_spans(&colored, &colored.lines[i], &theme, marks);
                let b = line_spans(&plain, &plain.lines[i], &theme, marks);
                assert_eq!(spelled(&a), spelled(&b), "{cuts:?} {marks} {i}");
            }
        }
    }
}

#[test]
fn tabs_are_drawn_to_the_next_stop() {
    let text = text("\tx\ty\n", Vec::new());
    let line = line_spans(&text, &text.lines[0], &Theme::default(), false);
    assert_eq!(spelled(&line), "    x   y", "a raw tab draws as nothing in a cell");
}

/// What the marks are for: a tab and a space look identical without them, and a
/// stray carriage return looks like nothing at all.
#[test]
fn the_invisible_characters_can_be_made_visible() {
    let text = text("\ta b\r\n  c\n", Vec::new());
    let drawn = |i: usize| -> String {
        spelled(&line_spans(&text, &text.lines[i], &Theme::default(), true))
    };
    // The arrow takes the first cell of the stop and the rest stays blank, so
    // nothing moves when the marks are turned on.
    assert_eq!(drawn(0), "→   a·b␍␊");
    assert_eq!(drawn(1), "··c␊");

    let plain = spelled(&line_spans(&text, &text.lines[0], &Theme::default(), false));
    assert_eq!(plain.chars().count(), drawn(0).chars().count() - 2);
}

#[test]
fn a_last_line_with_no_newline_is_not_given_one() {
    let text = text("a\nb", Vec::new());
    let last = spelled(&line_spans(&text, &text.lines[1], &Theme::default(), true));
    assert_eq!(
        last, "b",
        "the file does not end in a newline, so neither does this"
    );
}

#[test]
fn scrolling_stops_at_the_last_screenful() {
    let mut viewer = Viewer::loading(at("/root/a.txt"));
    viewer.fill(
        Preview::Text {
            stamp: Stamp { size: 6, mtime: 0 },
            content: (1..=100).map(|i| format!("{i}\n")).collect(),
            lossy: false,
        },
        Vec::new(),
    );
    assert_eq!(viewer.line_count(), 100);

    viewer.scroll_to(1000, 10);
    assert_eq!(viewer.offset, 90, "the last line stays on screen");
    viewer.scroll_to(0, 10);
    assert_eq!(viewer.offset, 0);
}

#[test]
fn a_file_shorter_than_the_pane_does_not_scroll() {
    let mut viewer = Viewer::loading(at("/root/a.txt"));
    viewer.fill(
        Preview::Text { stamp: Stamp { size: 2, mtime: 0 }, content: "a\n".to_string(), lossy: false },
        Vec::new(),
    );
    viewer.scroll_to(5, 20);
    assert_eq!(viewer.offset, 0);
}

#[test]
fn gutter_width_follows_the_line_count() {
    assert_eq!(digits(0), 1);
    assert_eq!(digits(9), 1);
    assert_eq!(digits(10), 2);
    assert_eq!(digits(1000), 4);
    assert_eq!(digits(usize::MAX), 20);
}

/// Sizes read the way a float formatted to one decimal does.
#[test]
fn sizes_are_written_to_the_nearest_tenth() {
    assert_eq!(bytes(0), "0 B");
    assert_eq!(bytes(1023), "1023 B");
    assert_eq!(bytes(1024), "1.0 KB");
    assert_eq!(bytes(1280), "1.2 KB", "a half goes to the even tenth");
    assert_eq!(bytes(1792), "1.8 KB");
    assert_eq!(bytes(1048575), "1024.0 KB");
    assert_eq!(bytes(3 << 20), "3.0 MB");
    assert_eq!(bytes(5 << 40), "5120.0 GB");

    let as_float = |n: u64| -> String {
        let units = ["B", "KB", "MB", "GB"];
        let mut value = n as f64;
        let mut unit = 0;
        while value >= 1024.0 && unit < 3 {
            value /= 1024.0;
            unit += 1;
        }
        if unit == 0 { format!("{n} B") } else { format!("{value:.1} {}", units[unit]) }
    };
    let mut n: u64 = 1;
    for _ in 0..20000 {
        assert_eq!(bytes(n), as_float(n), "{n}");
        // A walk over every size there can be.
        n = n.wrapping_mul(6364136223846793005).wrapping_add(1442695040888963407) >> (n % 60);
    }
    for shift in 0..64 {
        let n: u64 = 1 << shift;
        for n in [n - 1, n, n + 1, n + n / 20, n + n / 2, n + n / 4] {
            assert_eq!(bytes(n), as_float(n), "{n}");
        }
    }
    assert_eq!(bytes(u64::MAX), as_float(u64::MAX));
}

#[test]
fn what_cannot_be_shown_says_why() {
    let said = |preview| {
        let mut viewer = Viewer::loading(at("/root/a.txt"));
        assert!(matches!(viewer.body, Body::Loading));
        assert_eq!(viewer.name, "a.txt");
        assert_eq!(viewer.detail(), " · reading…");
        viewer.fill(preview, Vec::new());
        assert_eq!(viewer.detail(), "");
        match viewer.body {
            Body::Notice(reason) => reason,
            other => panic!("{other:?}"),
        }
    };
    assert_eq!(
        said(Preview::TooLarge { size: 2 << 20, limit: 1 << 20 }),
        "2.0 MB is over the 1.0 MB preview limit\nraise it with --max-preview-size"
    );
    assert_eq!(said(Preview::Binary { size: 10 }), "binary file, 10 B");
    assert_eq!(said(Preview::Unreadable { reason: "denied".to_string() }), "denied");
    assert_eq!(said(Preview::Unchanged), "unchanged");
}

fn look(framed: bool) -> Look {
    Look { numbers: true, marks: false, framed, ignored: false }
}

#[test]
fn the_file_pane_has_a_header_a_gutter_and_the_file() {
    let theme = Theme::default();
    let mut viewer = Viewer::loading(at("/root/a.txt"));
    viewer.fill(file((1..=120).map(|i| format!("line {i}\n")).collect()), Vec::new());
    viewer.scroll_to(7, 3);

    let p = viewer::draw(Rect::new(30, 0, 50, 5), &viewer, &theme, &look(true));
    assert_eq!(p.border, Some(theme.guide));
    assert_eq!(p.header, Rect::new(31, 0, 48, 1));
    assert_eq!(spelled(&p.title), " « a.txt · 972 B · 120 lines ");
    assert!(p.title.spans[1].style.reset, "the border's color is not kept");
    assert_eq!(p.inner, Rect::new(31, 1, 48, 3));
    match p.panel {
        Panel::Code { gutter, numbers, code, lines, .. } => {
            assert_eq!(gutter, Rect::new(31, 1, 4, 3));
            assert_eq!(code, Rect::new(35, 1, 44, 3));
            assert_eq!(numbers, "  8\n  9\n 10\n");
            let lines: Vec<String> = lines.iter().map(spelled).collect();
            assert_eq!(lines, vec!["line 8", "line 9", "line 10"]);
        }
        other => panic!("{other:?}"),
    }

    // Folded, there is no border and the header has a line of its own; with the
    // numbers hidden they take no columns at all.
    let p = viewer::draw(
        Rect::new(0, 0, 50, 5),
        &viewer,
        &theme,
        &Look { numbers: false, marks: true, framed: false, ignored: true },
    );
    assert_eq!(p.border, None);
    assert_eq!(p.header, Rect::new(0, 0, 50, 1));
    assert_eq!(p.title.spans[0].text, " » ");
    assert_eq!(p.title.spans[1].style, Style { reset: true, ..theme.ignored });
    assert_eq!(p.inner, Rect::new(0, 1, 50, 4));
    match p.panel {
        Panel::Code { gutter, numbers, code, lines, .. } => {
            assert_eq!(gutter.width, 0);
            assert_eq!(code, Rect::new(0, 1, 50, 4));
            assert_eq!(numbers, "");
            assert_eq!(spelled(&lines[0]), "line·8␊");
        }
        other => panic!("{other:?}"),
    }

    let waiting = Viewer::loading(at("/root/b.txt"));
    match viewer::draw(Rect::new(0, 0, 50, 5), &waiting, &theme, &look(true)).panel {
        Panel::Reading(line) => {
            assert_eq!(spelled(&line), "reading…");
            assert_eq!(line.style, Some(theme.status));
        }
        other => panic!("{other:?}"),
    }
}

fn row(depth: usize, name: &str, kind: Kind) -> Row {
    Row {
        id: 0,
        depth,
        name: name.to_string(),
        path: at("/root").join(name.as_bytes().to_vec()),
        kind,
        symlink: false,
        expanded: false,
        ignored: false,
        size: 0,
        last: false,
        omitted: 0,
    }
}

#[test]
fn a_row_is_drawn_with_its_guides_marker_and_suffix() {
    let theme = Theme::default();
    let dir = row(2, "src", Kind::Dir);
    let line = line_for(&dir, &theme, false, false);
    assert_eq!(spelled(&line), "│ │ ▸ src/");
    assert_eq!(line.spans[2].style, theme.dir);
    assert_eq!(line.style, None);

    let open = Row { expanded: true, omitted: 40, ..row(0, "src", Kind::Dir) };
    assert_eq!(twistie(&open), "▾ ");
    assert_eq!(spelled(&line_for(&open, &theme, false, false)), "▾ src/  … 40 more");

    let link = Row { symlink: true, ..row(0, "s", Kind::Socket) };
    let line = line_for(&link, &theme, true, false);
    assert_eq!(spelled(&line), "  s=");
    assert!(line.spans[1].style.modifier.italic);
    assert_eq!(line.spans[1].style.fg, Some(Color::Yellow));
    assert_eq!(line.style, Some(theme.selected));
    assert_eq!(line_for(&link, &theme, true, true).style, Some(theme.reading));

    let dim = Row { ignored: true, ..row(0, "target", Kind::Dir) };
    assert_eq!(line_for(&dim, &theme, false, false).spans[1].style, theme.ignored);
    let broken = row(0, "gone", Kind::Broken);
    assert_eq!(line_for(&broken, &theme, false, false).spans[1].style, theme.broken);
    assert_eq!(line_for(&row(0, "p", Kind::Fifo), &theme, false, false).spans[1].text, "p|");
}

#[test]
fn a_whole_screen() {
    let theme = Theme::default();
    let mut rows = vec![row(0, "root", Kind::Dir)];
    for i in 0..40 {
        rows.push(row(1, &format!("f{i}"), Kind::File));
    }
    rows[5].ignored = true;
    let snapshot = Snapshot {
        revision: 1,
        shape: 1,
        root: at("/root"),
        rows,
        selected: Some(4),
        viewing: Some(5),
        view_line: 0,
        show_hidden: true,
    };
    let mut viewer = Viewer::loading(at("/root/f4"));
    viewer.fill(file("x\n".to_string()), Vec::new());
    let scene = |viewer, folded| Scene {
        snapshot: &snapshot,
        offset: 3,
        theme: &theme,
        status: Line { spans: Vec::new(), style: None },
        viewer,
        split: None,
        folded,
        numbers: true,
        marks: true,
        reading: false,
    };

    let p = draw(Rect::new(0, 0, 100, 12), scene(Some(&viewer), false));
    let tree = p.tree.unwrap();
    assert_eq!(tree.area, Rect::new(0, 0, 26, 11));
    assert_eq!(spelled(&tree.title), " /root · 41 rows ");
    assert_eq!(tree.lines.len(), 9);
    assert_eq!(spelled(&tree.lines[0]), "│   f2");
    assert_eq!(tree.lines[1].style, Some(theme.selected));
    let (area, pane) = p.file.unwrap();
    assert_eq!(area, Rect::new(26, 0, 74, 11));
    assert_eq!(
        pane.title.spans[1].style,
        Style { reset: true, ..theme.ignored },
        "dimmed like its row"
    );
    assert_eq!(p.footer, Rect::new(0, 11, 100, 1));

    let p = draw(Rect::new(0, 0, 100, 12), scene(Some(&viewer), true));
    assert!(p.tree.is_none());
    assert_eq!(p.file.unwrap().0, Rect::new(0, 0, 100, 11));

    let p = draw(Rect::new(0, 0, 100, 12), scene(None, false));
    assert!(p.file.is_none());
    assert_eq!(p.tree.unwrap().area, Rect::new(0, 0, 100, 11));
}
