//! What keys and clicks mean, and how one screen keeps its state.

use treex::path::TreePath;
use treex::shown::Row;
use treex::tree::Kind;
use treex::tui::area::Rect;
use treex::tui::footer::{button_zones, status_line, ModeZones, Modes};
use treex::tui::hit::{hit, Hit};
use treex::tui::input::{
    handle_key, handle_mouse, pane_at, Action, KeyCode, KeyEvent, KeyModifiers, Motion, MouseButton, MouseEvent,
    MouseEventKind, Targets,
};
use treex::tui::render::{self, Theme};
use treex::tui::ui::{clamp_offset, Ui};
use treex::tui::viewer::fold_zone;
use treex::tui::{Focus, TuiOptions};
use treex::{Command, Preview, Snapshot};

fn at_path(path: &str) -> TreePath {
    TreePath::parse(path.as_bytes())
}

fn row(name: &str, is_dir: bool, expanded: bool) -> Row {
    Row {
        id: 0,
        depth: 1,
        name: name.to_string(),
        path: at_path(&format!("/root/{name}")),
        kind: if is_dir { Kind::Dir } else { Kind::File },
        symlink: false,
        expanded,
        ignored: false,
        size: 0,
        last: false,
        omitted: 0,
    }
}

fn snapshot(rows: Vec<Row>, selected: usize, viewing: Option<usize>) -> Snapshot {
    Snapshot {
        revision: 1,
        shape: 1,
        root: at_path("/root"),
        rows,
        selected: Some(selected),
        viewing,
        show_hidden: true,
        view_line: 0,
    }
}

fn key(code: KeyCode) -> KeyEvent {
    KeyEvent { code, modifiers: KeyModifiers::default() }
}

fn ctrl(code: KeyCode) -> KeyEvent {
    KeyEvent { code, modifiers: KeyModifiers { control: true, ..KeyModifiers::default() } }
}

/// A keypress with the tree focused, which is where every existing key rule
/// applies.
fn press(code: KeyCode, snap: &Snapshot) -> Action {
    handle_key(key(code), snap, Focus::Tree, false, 20)
}

/// The same press with a file open and the file pane focused.
fn press_in_file(code: KeyCode, snap: &Snapshot) -> Action {
    handle_key(key(code), snap, Focus::Viewer, true, 20)
}

// -- the tree under the pointer -------------------------------------------

fn tree_row(depth: usize, name: &str, is_dir: bool) -> Row {
    Row {
        id: 0,
        depth,
        name: name.to_string(),
        path: at_path(name),
        kind: if is_dir { Kind::Dir } else { Kind::File },
        symlink: false,
        expanded: false,
        ignored: false,
        size: 0,
        last: true,
        omitted: 0,
    }
}

fn area() -> Rect {
    Rect::new(1, 1, 40, 10)
}

#[test]
fn clicking_the_twistie_of_a_nested_dir() {
    let rows = vec![tree_row(0, "root", true), tree_row(1, "sub", true)];
    // depth 1 -> twistie occupies inner x 2..4, i.e. screen col 3..5
    assert_eq!(hit(area(), 0, &rows, 3, 2), Hit::Twistie(1));
    assert_eq!(hit(area(), 0, &rows, 4, 2), Hit::Twistie(1));
    assert_eq!(hit(area(), 0, &rows, 5, 2), Hit::Name(1));
}

#[test]
fn files_have_no_twistie_to_click() {
    let rows = vec![tree_row(0, "root", true), tree_row(1, "a.txt", false)];
    assert_eq!(hit(area(), 0, &rows, 3, 2), Hit::Name(1));
}

#[test]
fn scroll_offset_shifts_the_mapping() {
    let rows = vec![tree_row(0, "root", true), tree_row(1, "a", true), tree_row(1, "b", true)];
    assert_eq!(hit(area(), 1, &rows, 3, 1), Hit::Twistie(1));
    assert_eq!(hit(area(), 1, &rows, 3, 2), Hit::Twistie(2));
}

#[test]
fn a_wide_name_is_clickable_along_its_whole_width() {
    // Four CJK characters occupy eight columns, not four.
    let rows = vec![tree_row(0, "root", true), tree_row(1, "中文檔名", false)];
    for col in 5..13 {
        assert_eq!(hit(area(), 0, &rows, col, 2), Hit::Name(1), "column {col}");
    }
}

#[test]
fn clicks_past_the_last_row_hit_nothing() {
    let rows = vec![tree_row(0, "root", true)];
    assert_eq!(hit(area(), 0, &rows, 3, 5), Hit::Nothing);
    assert_eq!(hit(area(), 0, &rows, 0, 1), Hit::Nothing);
    assert_eq!(hit(area(), usize::MAX, &rows, 3, 2), Hit::Nothing);
}

// -- keys -----------------------------------------------------------------

#[test]
fn right_expands_a_directory_but_opens_a_file() {
    let on_dir = snapshot(vec![row("dir", true, false), row("a.txt", false, false)], 0, None);
    assert_eq!(
        press(KeyCode::Right, &on_dir),
        Action::Run(Command::Expand { path: at_path("/root/dir") })
    );

    let on_file = snapshot(vec![row("dir", true, false), row("a.txt", false, false)], 1, None);
    assert_eq!(
        press(KeyCode::Right, &on_file),
        Action::Run(Command::View { path: Some(at_path("/root/a.txt")) })
    );

    // An open directory is stepped into.
    let open = snapshot(vec![row("dir", true, true)], 0, None);
    assert_eq!(press(KeyCode::Char('l'), &open), Action::Run(Command::MoveSelection { delta: 1 }));
}

#[test]
fn left_belongs_to_the_tree_now_that_the_pane_is_not_a_mode() {
    let collapse = || Action::Run(Command::Collapse { path: at_path("/root/dir") });

    // A file being up is the normal state, so it cannot be what `←`
    // answers: it collapses, exactly as it would with nothing open.
    let up = snapshot(vec![row("dir", true, true)], 0, Some(0));
    assert_eq!(press(KeyCode::Left, &up), collapse());
    let bare = snapshot(vec![row("dir", true, true)], 0, None);
    assert_eq!(press(KeyCode::Left, &bare), collapse());
}

#[test]
fn arrow_keys_never_touch_the_disk() {
    let snap = snapshot(vec![row("dir", true, false)], 0, None);
    for code in [KeyCode::Up, KeyCode::Down, KeyCode::Home, KeyCode::End] {
        match press(code, &snap) {
            Action::Run(cmd) => assert!(
                !cmd.may_block(),
                "{code:?} would be sent to a blocking thread"
            ),
            other => panic!("{code:?} did nothing: {other:?}"),
        }
    }
}

#[test]
fn expanding_and_refreshing_are_the_blocking_ones() {
    let snap = snapshot(vec![row("dir", true, false)], 0, None);
    for code in [KeyCode::Char('r'), KeyCode::Char('E'), KeyCode::Char('.')] {
        match press(code, &snap) {
            Action::Run(cmd) => assert!(cmd.may_block(), "{code:?} reads the filesystem"),
            other => panic!("{code:?} did nothing: {other:?}"),
        }
    }
}

/// The chord is a different key from the character in it. `c` is copy mode,
/// `Ctrl-C` is the way out.
#[test]
fn a_modifier_makes_it_a_different_key() {
    let snap = snapshot(vec![row("a.txt", false, false)], 0, Some(0));
    let chord = |c| handle_key(ctrl(KeyCode::Char(c)), &snap, Focus::Tree, true, 20);
    assert_eq!(chord('c'), Action::Quit, "Ctrl-C must still leave");
    assert_eq!(chord('b'), Action::Nothing, "Ctrl-B is not the fold key");
    assert_eq!(chord('m'), Action::Nothing);

    // Shift is not a chord: `#` is Shift-3 wherever it is not its own key.
    let shifted = KeyEvent {
        code: KeyCode::Char('#'),
        modifiers: KeyModifiers { shift: true, ..KeyModifiers::default() },
    };
    assert_eq!(handle_key(shifted, &snap, Focus::Tree, true, 20), Action::LineNumbers);
}

#[test]
fn q_and_ctrl_c_quit() {
    let snap = snapshot(vec![row("a", false, false)], 0, None);
    assert_eq!(press(KeyCode::Char('q'), &snap), Action::Quit);
    assert_eq!(press(KeyCode::Esc, &snap), Action::Quit);
    assert_eq!(
        handle_key(ctrl(KeyCode::Char('c')), &snap, Focus::Tree, false, 20),
        Action::Quit
    );
}

#[test]
fn a_screenful_either_way() {
    let snap = snapshot(vec![row("a.txt", false, false)], 0, Some(0));
    let by = |delta| Action::Run(Command::MoveSelection { delta });
    assert_eq!(press(KeyCode::PageDown, &snap), by(20));
    assert_eq!(press(KeyCode::PageUp, &snap), by(-20));
    // Whatever the screen has room for, and never nothing at all.
    assert_eq!(handle_key(key(KeyCode::PageDown), &snap, Focus::Tree, true, 47), by(47));
    assert_eq!(handle_key(key(KeyCode::PageUp), &snap, Focus::Tree, true, 0), by(-1));
    assert_eq!(handle_key(ctrl(KeyCode::Char('d')), &snap, Focus::Tree, true, 20), by(20));
    assert_eq!(handle_key(ctrl(KeyCode::Char('u')), &snap, Focus::Tree, true, 20), by(-20));
    assert_eq!(
        handle_key(ctrl(KeyCode::Char('d')), &snap, Focus::Viewer, true, 20),
        Action::ScrollFile(Motion::Page(1))
    );
    assert_eq!(
        handle_key(ctrl(KeyCode::Char('u')), &snap, Focus::Viewer, true, 20),
        Action::ScrollFile(Motion::Page(-1))
    );
}

#[test]
fn the_rest_of_the_tree_keys() {
    let snap = snapshot(vec![row("dir", true, false), row("a.txt", false, false)], 0, None);
    assert_eq!(press(KeyCode::Enter, &snap), Action::Run(Command::Toggle { path: at_path("/root/dir") }));
    assert_eq!(press(KeyCode::Char('z'), &snap), Action::Run(Command::CollapseAll));
    assert_eq!(press(KeyCode::Char('2'), &snap), Action::Run(Command::ExpandDepth { depth: 2 }));
    assert_eq!(press(KeyCode::Char('3'), &snap), Action::Run(Command::ExpandDepth { depth: 3 }));
    assert_eq!(press(KeyCode::Char('E'), &snap), Action::Run(Command::ExpandDepth { depth: usize::MAX }));
    assert_eq!(press(KeyCode::Char('r'), &snap), Action::Run(Command::Refresh));
    assert_eq!(press(KeyCode::Home, &snap), Action::Run(Command::SelectRow { row: 0 }));
    assert_eq!(press(KeyCode::Char('G'), &snap), Action::Run(Command::SelectRow { row: 1 }));
    assert_eq!(press(KeyCode::Other, &snap), Action::Nothing);
    let nowhere = Snapshot { selected: None, ..snapshot(Vec::new(), 0, None) };
    assert_eq!(press(KeyCode::Right, &nowhere), Action::Nothing);
    assert_eq!(press(KeyCode::Left, &nowhere), Action::Nothing);
    assert_eq!(press(KeyCode::Enter, &nowhere), Action::Nothing);
}

// -- the pointer ----------------------------------------------------------

fn click(column: u16, row: u16) -> MouseEvent {
    MouseEvent { kind: MouseEventKind::Down(MouseButton::Left), column, row }
}

fn targets(rows: Rect, file: Rect) -> Targets {
    Targets { rows, file, modes: ModeZones::default(), divider: None, fold: Rect::default() }
}

/// A press on a screen row, which with the area starting at y = 0 is also the
/// row index.
fn tap_row(snap: &Snapshot, index: u16) -> Action {
    handle_mouse(
        click(6, index),
        snap,
        targets(Rect::new(0, 0, 40, 10), Rect::default()),
        0,
        &TuiOptions::default(),
        false,
    )
}

#[test]
fn one_press_on_a_file_is_all_it_takes() {
    let snap = snapshot(vec![row("dir", true, false), row("a.txt", false, false)], 0, None);
    let select = || Action::Run(Command::Select { path: at_path("/root/a.txt") });
    // Selecting a file is what shows it, so there is nothing for a second
    // press to mean.
    assert_eq!(tap_row(&snap, 1), select());
    assert_eq!(
        tap_row(&snap, 1),
        select(),
        "a second press is the same press, not a different gesture"
    );
}

#[test]
fn a_press_on_a_directory_toggles_it_unless_only_the_marker_does() {
    let snap = snapshot(vec![row("dir", true, false)], 0, None);
    let toggle = || Action::Run(Command::Toggle { path: at_path("/root/dir") });
    assert_eq!(tap_row(&snap, 0), toggle());

    let opts = TuiOptions { click_toggles_dirs: false, ..TuiOptions::default() };
    let on = |column| {
        handle_mouse(
            click(column, 0),
            &snap,
            targets(Rect::new(0, 0, 40, 10), Rect::default()),
            0,
            &opts,
            false,
        )
    };
    assert_eq!(on(6), Action::Run(Command::Select { path: at_path("/root/dir") }));
    assert_eq!(on(2), toggle(), "the marker always toggles");
}

#[test]
fn pressing_inside_the_file_pane_makes_it_the_subject() {
    let snap = snapshot(vec![row("a.txt", false, false)], 0, Some(0));
    let action = handle_mouse(
        click(25, 2),
        &snap,
        targets(Rect::new(0, 0, 20, 10), Rect::new(20, 0, 20, 10)),
        0,
        &TuiOptions::default(),
        false,
    );
    assert_eq!(
        action,
        Action::Focus(Focus::Viewer),
        "which also puts the cursor back on the file being read"
    );
}

/// Two panes share every column there is, whatever the width and wherever the
/// divider was dragged.
#[test]
fn the_panes_share_the_screen_at_every_width() {
    for width in 72..240 {
        for split in [None, Some(0), Some(40), Some(500)] {
            let panes = render::panes(Rect::new(3, 2, width, 20), true, split, false);
            let (tree, file) = (panes.tree.unwrap(), panes.viewer.unwrap());
            let wanted = split.unwrap_or((width / 4).clamp(26, 44)).clamp(26, width - 46);
            assert_eq!(tree, Rect::new(3, 2, wanted, 19));
            assert_eq!(file, Rect::new(3 + wanted, 2, width - wanted, 19));
            assert_eq!(panes.footer, Rect::new(3, 21, width, 1));
        }
    }
}

#[test]
fn the_right_button_does_nothing() {
    let snap = snapshot(vec![row("dir", true, false), row("a.txt", false, false)], 0, None);
    for index in [0, 1] {
        let event = MouseEvent { kind: MouseEventKind::Down(MouseButton::Right), column: 6, row: index };
        assert_eq!(
            handle_mouse(
                event,
                &snap,
                targets(Rect::new(0, 0, 40, 10), Rect::default()),
                0,
                &TuiOptions::default(),
                false,
            ),
            Action::Nothing,
            "the right button is reserved, so it must not act on row {index}"
        );
    }
    // Nor on the file, nor by coming up.
    for kind in [
        MouseEventKind::Down(MouseButton::Right),
        MouseEventKind::Drag(MouseButton::Right),
        MouseEventKind::Up(MouseButton::Right),
    ] {
        let panes = targets(Rect::new(0, 0, 20, 10), Rect::new(20, 0, 20, 10));
        let event = MouseEvent { kind, column: 25, row: 2 };
        assert_eq!(handle_mouse(event, &snap, panes, 0, &TuiOptions::default(), true), Action::Nothing);
    }
}

#[test]
fn offset_follows_the_selection_into_view() {
    assert_eq!(clamp_offset(0, Some(30), 10, 100), 21);
    assert_eq!(clamp_offset(50, Some(3), 10, 100), 3);
    assert_eq!(clamp_offset(0, Some(5), 10, 100), 0);
}

/// The wheel's case: with nothing to reveal, an offset is left where it was
/// put. The tree scrolls away from the cursor and stays there.
#[test]
fn an_offset_with_no_cursor_to_reveal_is_left_alone() {
    assert_eq!(clamp_offset(40, None, 10, 100), 40);
    assert_eq!(clamp_offset(40, Some(0), 10, 100), 0, "a moved cursor still wins");
}

#[test]
fn offset_never_scrolls_past_the_end() {
    assert_eq!(clamp_offset(99, None, 10, 20), 10);
    assert_eq!(clamp_offset(5, None, 10, 3), 0);
}

#[test]
fn the_file_pane_scrolls_without_moving_the_tree_cursor() {
    let snap = snapshot(vec![row("a.txt", false, false)], 0, Some(0));

    // Moving the cursor is what closes a file, so while the file has the
    // keyboard these must not be cursor commands.
    for (code, want) in [
        (KeyCode::Down, Action::ScrollFile(Motion::By(1))),
        (KeyCode::Up, Action::ScrollFile(Motion::By(-1))),
        (KeyCode::Char('j'), Action::ScrollFile(Motion::By(1))),
        (KeyCode::Char('k'), Action::ScrollFile(Motion::By(-1))),
        (KeyCode::PageDown, Action::ScrollFile(Motion::Page(1))),
        (KeyCode::Home, Action::ScrollFile(Motion::Top)),
        (KeyCode::End, Action::ScrollFile(Motion::Bottom)),
        (KeyCode::Char('G'), Action::ScrollFile(Motion::Bottom)),
    ] {
        assert_eq!(press_in_file(code, &snap), want, "{code:?}");
    }
}

#[test]
fn the_same_keys_still_move_the_cursor_when_the_tree_has_the_keyboard() {
    let snap = snapshot(vec![row("a.txt", false, false)], 0, Some(0));
    assert_eq!(
        press(KeyCode::Down, &snap),
        Action::Run(Command::MoveSelection { delta: 1 }),
        "a file being open must not change what the tree's own keys do"
    );
}

#[test]
fn left_puts_the_keyboard_back_in_the_tree_without_closing_the_file() {
    let snap = snapshot(vec![row("a.txt", false, false)], 0, Some(0));
    assert_eq!(
        press_in_file(KeyCode::Left, &snap),
        Action::Focus(Focus::Tree),
        "a file is always on display now, so there is nothing to leave"
    );
    // From the tree it is a tree key again: up to the parent directory.
    assert_eq!(
        press(KeyCode::Left, &snap),
        Action::Run(Command::Select { path: at_path("/root") })
    );
}

#[test]
fn tab_moves_between_the_panes_and_does_nothing_without_one() {
    let snap = snapshot(vec![row("a.txt", false, false)], 0, Some(0));
    let tab = key(KeyCode::Tab);
    assert_eq!(handle_key(tab, &snap, Focus::Tree, true, 20), Action::Focus(Focus::Viewer));
    assert_eq!(handle_key(tab, &snap, Focus::Viewer, true, 20), Action::Focus(Focus::Tree));
    assert_eq!(handle_key(tab, &snap, Focus::Tree, false, 20), Action::Nothing);
}

// -- the footer -----------------------------------------------------------

fn modes() -> Modes {
    Modes { folded: false, numbers: true, marks: true, dotfiles: true, mouse: true, copying: false }
}

/// The footer's indicators are buttons, and they are measured where they are
/// written, including past something as wide as a CJK path.
#[test]
fn the_mode_indicators_can_be_clicked() {
    let footer = Rect::new(0, 9, 120, 1);
    let note = Some("中文路徑");
    let (line, zones) = status_line(note, &Theme::default(), true, Focus::Tree, modes(), footer);

    let hidden = || Action::Run(Command::SetHidden { show: false });
    let buttons: [(Rect, fn() -> Action); 6] = [
        (zones.fold, || Action::Fold),
        (zones.numbers, || Action::LineNumbers),
        (zones.marks, || Action::Marks),
        (zones.mouse, || Action::Mouse),
        (zones.copy, || Action::Copy),
        (zones.dotfiles, hidden),
    ];
    for (zone, want) in buttons {
        assert!(zone.width > 0, "{:?} was never given a place", want());
        assert_eq!(zones.at(zone.x, footer.y, true), Some(want()));
        assert_eq!(
            zones.at(zone.right() - 1, footer.y, true),
            Some(want()),
            "the far end of the label counts too"
        );
    }
    assert_eq!(zones.at(0, footer.y, true), None, "the note is not a button");
    assert_eq!(zones.at(zones.fold.x, footer.y - 1, true), None, "nor is the row above");

    // With nothing open, the indicators about a file are absent and the
    // rest are in the same places and still work: one footer, not two.
    let (_, bare) = status_line(note, &Theme::default(), false, Focus::Tree, modes(), footer);
    assert_eq!(bare.fold.width, 0, "no file, so nothing to fold away from");
    assert_eq!(bare.numbers.width, 0);
    assert_eq!(bare.marks.width, 0);
    assert_eq!(bare.copy.width, 0);
    assert!(bare.mouse.width > 0, "the mouse is not about a file");
    assert!(bare.dotfiles.width > 0, "nor is the dotfile switch");
    assert_eq!(
        bare.at(bare.dotfiles.x, footer.y, true),
        Some(hidden()),
        "and it is still a button"
    );

    // Written where they were measured. Measured in display columns, not
    // bytes and not characters: the note in front of these is four CJK
    // characters, which is twelve bytes and eight columns.
    let drawn: String = line.spans.iter().map(|s| s.text.as_str()).collect();
    let upto = drawn.find("b «").expect("the indicator was never drawn");
    assert_eq!(
        ratatui::text::Span::from(&drawn[..upto]).width() as u16,
        zones.fold.x,
        "the button is beside the word rather than on it"
    );
}

#[test]
fn the_footer_says_what_is_in_effect() {
    let theme = Theme::default();
    let footer = Rect::new(0, 0, 200, 1);
    let said = |focus, modes, has_file| -> String {
        let (line, _) = status_line(None, &theme, has_file, focus, modes, footer);
        line.spans.iter().map(|s| s.text.as_str()).collect()
    };
    assert_eq!(
        said(Focus::Tree, modes(), true),
        " m mouse · q quit · ↑↓ move · → file · ← up · . dotfiles · c copy · # Line# · , ·→ · b «"
    );
    assert_eq!(
        said(Focus::Viewer, Modes { folded: true, ..modes() }, true),
        " m mouse · q quit · ↑↓ scroll · ← tree · . dotfiles · c copy · # Line# · , ·→ · b »"
    );
    let (line, _) = status_line(Some("http://x"), &theme, false, Focus::Tree, modes(), footer);
    assert_eq!(line.spans[1].text, "http://x · ");
    assert_eq!(line.spans[3].style, theme.status_on, "lit: treex has the mouse");
    assert_eq!(line.spans[5].style, theme.status, "quitting is never in effect");
}

#[test]
fn a_narrow_footer_cuts_its_buttons_off() {
    // One span in front, then a lead and a label for each of five indicators.
    let widths = vec![1, 0, 7, 3, 6, 3, 16, 3, 4, 3, 10];
    let zones = button_zones(&widths, 1, false, Rect::new(0, 3, 60, 1));
    assert_eq!(zones.mouse, Rect::new(1, 3, 7, 1));
    assert_eq!(zones.dotfiles, Rect::new(46, 3, 10, 1));
    let narrow = button_zones(&widths, 1, false, Rect::new(0, 3, 50, 1));
    assert_eq!(narrow.dotfiles, Rect::new(46, 3, 4, 1));
    let none = button_zones(&widths, 1, false, Rect::new(0, 3, 40, 1));
    assert_eq!(none.dotfiles.width, 0);
    // Wider than there are columns.
    let wide = vec![usize::MAX, 0, 7, 3, 6, 3, 16, 3, 4, 3, 10];
    assert_eq!(button_zones(&wide, 1, false, Rect::new(0, 3, 60, 1)).mouse.width, 0);
}

#[test]
fn the_fold_control_is_a_click_target_and_a_key() {
    let snap = snapshot(vec![row("a.txt", false, false)], 0, Some(0));
    // The file pane starts at column 20; framed, its header sits one in.
    let fold = fold_zone(Rect::new(20, 0, 20, 10), true);
    assert_eq!((fold.x, fold.y, fold.width), (21, 0, 3));

    let press = |column| {
        handle_mouse(
            click(column, 0),
            &snap,
            Targets {
                rows: Rect::new(0, 0, 20, 10),
                file: Rect::new(20, 1, 20, 9),
                modes: ModeZones::default(),
                divider: None,
                fold,
            },
            0,
            &TuiOptions::default(),
            false,
        )
    };
    assert_eq!(press(21), Action::Fold);
    assert_eq!(press(23), Action::Fold, "three columns wide, not one");
    assert_eq!(press(24), Action::Nothing, "and no wider than it looks");

    // Folded, the header is the pane's own first line.
    let folded = fold_zone(Rect::new(0, 0, 40, 10), false);
    assert_eq!((folded.x, folded.y), (0, 0));
}

/// The three that clear the way for the terminal's own selection.
#[test]
fn getting_out_of_the_way_is_three_toggles() {
    let snap = snapshot(vec![row("a.txt", false, false)], 0, Some(0));
    let with_file = |code, focus| handle_key(key(code), &snap, focus, true, 20);

    // From either pane, since a reader may be in either.
    for focus in [Focus::Tree, Focus::Viewer] {
        assert_eq!(with_file(KeyCode::Char('b'), focus), Action::Fold);
        assert_eq!(with_file(KeyCode::Char('#'), focus), Action::LineNumbers);
        assert_eq!(with_file(KeyCode::Char(','), focus), Action::Marks);
        assert_eq!(with_file(KeyCode::Char('m'), focus), Action::Mouse);
    }

    assert_eq!(with_file(KeyCode::Char('c'), Focus::Tree), Action::Copy);

    // With no file up there is nothing to get out of the way of, but the
    // mouse is still the terminal's to take back.
    assert_eq!(press(KeyCode::Char('b'), &snap), Action::Nothing);
    assert_eq!(press(KeyCode::Char('c'), &snap), Action::Nothing);
    assert_eq!(press(KeyCode::Char('m'), &snap), Action::Mouse);
}

#[test]
fn keys_the_file_pane_does_not_claim_still_reach_the_tree() {
    let snap = snapshot(vec![row("a.txt", false, false)], 0, Some(0));
    assert_eq!(
        press_in_file(KeyCode::Char('.'), &snap),
        Action::Run(Command::SetHidden { show: false })
    );
    assert_eq!(press_in_file(KeyCode::Char('q'), &snap), Action::Quit);
}

#[test]
fn the_wheel_scrolls_whichever_pane_it_is_over() {
    let snap = snapshot(vec![row("a.txt", false, false)], 0, Some(0));
    let panes = targets(Rect::new(0, 0, 20, 10), Rect::new(20, 0, 20, 10));
    let wheel = |kind, column| MouseEvent { kind, column, row: 2 };
    let run = |event| handle_mouse(event, &snap, panes, 0, &TuiOptions::default(), false);
    assert_eq!(run(wheel(MouseEventKind::ScrollDown, 5)), Action::Scroll(3));
    assert_eq!(run(wheel(MouseEventKind::ScrollDown, 25)), Action::ScrollFile(Motion::By(3)));
    assert_eq!(run(wheel(MouseEventKind::ScrollUp, 5)), Action::Scroll(-3));
    assert_eq!(run(wheel(MouseEventKind::ScrollUp, 25)), Action::ScrollFile(Motion::By(-3)));
    assert_eq!(run(wheel(MouseEventKind::Moved, 25)), Action::Nothing);
}

#[test]
fn a_press_names_the_pane_it_landed_in() {
    let rows = Rect::new(0, 0, 20, 10);
    let file = Rect::new(20, 0, 20, 10);
    assert_eq!(pane_at(rows, file, 5, 2), Some(Focus::Tree));
    assert_eq!(pane_at(rows, file, 25, 2), Some(Focus::Viewer));
    assert_eq!(pane_at(rows, file, 5, 20), None);
    // With no file open there is no pane to land in.
    assert_eq!(pane_at(rows, Rect::default(), 25, 2), None);
}

/// A press on the divider, a drag, and the release that ends it.
fn divider_drag(dragging: bool, event: MouseEvent) -> Action {
    let snap = snapshot(vec![row("a.txt", false, false)], 0, Some(0));
    handle_mouse(
        event,
        &snap,
        Targets {
            rows: Rect::new(1, 1, 18, 10),
            file: Rect::new(21, 1, 18, 10),
            modes: ModeZones::default(),
            divider: Some((19, 20)),
            fold: Rect::default(),
        },
        0,
        &TuiOptions::default(),
        dragging,
    )
}

fn at(kind: MouseEventKind, column: u16) -> MouseEvent {
    // The panes above start at y = 1, so this is their first row.
    MouseEvent { kind, column, row: 1 }
}

#[test]
fn the_divider_can_be_taken_hold_of_from_either_of_its_columns() {
    let press = MouseEventKind::Down(MouseButton::Left);
    assert_eq!(divider_drag(false, at(press, 19)), Action::GrabDivider(19));
    assert_eq!(divider_drag(false, at(press, 20)), Action::GrabDivider(20));
    // One column further in is the tree again, not the divider.
    assert!(matches!(
        divider_drag(false, at(press, 18)),
        Action::Run(Command::Select { .. })
    ));
}

#[test]
fn dragging_moves_the_divider_and_the_button_coming_up_ends_it() {
    let drag = MouseEventKind::Drag(MouseButton::Left);
    assert_eq!(divider_drag(true, at(drag, 40)), Action::Split(40));
    assert_eq!(
        divider_drag(false, at(drag, 40)),
        Action::Nothing,
        "a drag that did not start on the divider moves nothing"
    );
    assert_eq!(
        divider_drag(true, at(MouseEventKind::Up(MouseButton::Left), 40)),
        Action::Release
    );
}

#[test]
fn a_motion_is_clamped_to_the_pane_it_is_made_in() {
    // 100 lines in a window 10 tall: line 90 is as far as it goes.
    let ten = |motion: Motion, from| motion.applied_to(from, 100, 10);

    assert_eq!(ten(Motion::By(1), 0), 1);
    assert_eq!(ten(Motion::By(-1), 0), 0, "never past the top");
    assert_eq!(ten(Motion::Page(1), 0), 10);
    assert_eq!(ten(Motion::Bottom, 0), 90);
    assert_eq!(ten(Motion::By(1), 90), 90, "nor past the end");
    assert_eq!(ten(Motion::Top, 90), 0);

    // A file that fits has nowhere to go at all.
    assert_eq!(Motion::Bottom.applied_to(0, 5, 40), 0);
    // However far it is asked for.
    assert_eq!(Motion::By(i64::MAX).applied_to(usize::MAX, 100, 10), 90);
    assert_eq!(Motion::Page(i64::MIN).applied_to(5, 100, usize::MAX), 0);
    assert_eq!(Motion::Page(i64::MAX).applied_to(5, usize::MAX, 1 << 40), usize::MAX - (1 << 40));
}

#[test]
fn a_scroll_this_pane_cannot_make_is_not_shared() {
    // 100 lines, 10 on screen, already at the end.
    assert_eq!(Motion::By(1).to_share(90, 100, 10), None);
    assert_eq!(Motion::Bottom.to_share(90, 100, 10), None);
    assert_eq!(Motion::By(-1).to_share(0, 100, 10), None);
    // A file that fits has no scrolling to share at all.
    assert_eq!(Motion::Page(1).to_share(0, 5, 40), None);

    // A move it can make is shared, clamped to what it can show.
    assert_eq!(Motion::By(1).to_share(0, 100, 10), Some(1));
    assert_eq!(Motion::Page(5).to_share(0, 100, 10), Some(50));
    assert_eq!(
        Motion::Page(20).to_share(0, 100, 10),
        Some(90),
        "clamped, but a move"
    );
}

// -- one screen -----------------------------------------------------------

fn many_rows(n: usize) -> Vec<Row> {
    (0..n).map(|i| row(&format!("f{i}.txt"), false, false)).collect()
}

fn text_file(lines: usize) -> Preview {
    Preview::Text {
        stamp: treex::preview::Stamp { size: 0, mtime: 0 },
        content: (1..=lines).map(|i| format!("{i}\n")).collect(),
        lossy: false,
    }
}

#[test]
fn a_screen_follows_the_file_the_session_has_open() {
    let opts = TuiOptions::default();
    let theme = Theme::default();
    let mut ui = Ui::new(&opts);
    let mut snap = snapshot(many_rows(3), 1, Some(1));

    let read = ui.follow(&snap, &opts).expect("a file that was opened is read");
    assert!(read.same(&at_path("/root/f1.txt")));
    assert!(ui.follow(&snap, &opts).is_none(), "and only once");
    assert_eq!(ui.at.focus, Focus::Tree, "the cursor landing on it leaves the keyboard alone");

    // A read of something else is dropped.
    ui.arrived(&at_path("/root/other.txt"), text_file(3), Vec::new());
    assert_eq!(ui.viewer.as_ref().unwrap().line_count(), 0);
    ui.arrived(&at_path("/root/f1.txt"), text_file(100), Vec::new());
    assert_eq!(ui.viewer.as_ref().unwrap().line_count(), 100);

    // The shared line is followed as far as this screen can.
    snap.view_line = 1000;
    let frame = ui.frame(&snap, &opts, &theme, 120, 30);
    assert_eq!(frame.page, 27);
    assert_eq!(ui.viewer.as_ref().unwrap().offset, 73);
    let effect = ui.act(Action::ScrollFile(Motion::By(1)), &snap, &frame);
    assert_eq!(effect.command, None, "the end of this pane is not news");
    let effect = ui.act(Action::ScrollFile(Motion::Page(-1)), &snap, &frame);
    assert_eq!(effect.command, Some(Command::ScrollView { line: 46 }));

    // Closing it puts the keyboard back.
    ui.at.focus = Focus::Viewer;
    snap.viewing = None;
    assert!(ui.follow(&snap, &opts).is_none());
    assert!(ui.viewer.is_none());
    assert_eq!(ui.at.focus, Focus::Tree);

    // With previews off there is no pane at all.
    let off = TuiOptions { preview: None, ..TuiOptions::default() };
    snap.viewing = Some(1);
    assert!(ui.follow(&snap, &off).is_none());
    assert!(ui.viewer.is_none());
}

#[test]
fn copying_clears_the_way_and_puts_everything_back() {
    let opts = TuiOptions::default();
    let mut ui = Ui::new(&opts);
    let snap = snapshot(many_rows(3), 1, Some(1));
    ui.follow(&snap, &opts);
    let frame = ui.frame(&snap, &opts, &Theme::default(), 120, 30);

    // A reader who hid the numbers does not get them back on the way out.
    ui.act(Action::LineNumbers, &snap, &frame);
    let effect = ui.act(Action::Copy, &snap, &frame);
    assert_eq!(effect.capture, Some(false));
    assert_eq!(
        effect.command,
        Some(Command::View { path: Some(at_path("/root/f1.txt")) })
    );
    assert!(ui.at.folded && !ui.at.numbers && !ui.at.marks && !ui.at.mouse);
    assert_eq!(ui.at.focus, Focus::Viewer);

    ui.act(Action::Marks, &snap, &frame);
    let effect = ui.act(Action::Copy, &snap, &frame);
    assert_eq!(effect.capture, Some(true));
    assert!(!ui.at.folded && !ui.at.numbers && ui.at.marks && ui.at.mouse);
    assert_eq!(ui.at.restore, None);
}

#[test]
fn the_wheel_moves_the_tree_and_only_a_moved_cursor_brings_it_back() {
    let opts = TuiOptions::default();
    let theme = Theme::default();
    let mut ui = Ui::new(&opts);
    let mut snap = snapshot(many_rows(100), 0, None);
    let frame = ui.frame(&snap, &opts, &theme, 80, 13);
    assert_eq!(frame.targets.rows.height, 10);

    ui.act(Action::Scroll(30), &snap, &frame);
    ui.frame(&snap, &opts, &theme, 80, 13);
    assert_eq!(ui.at.offset, 30, "the cursor did not move");
    ui.act(Action::Scroll(-1000), &snap, &frame);
    assert_eq!(ui.at.offset, 0);
    ui.act(Action::Scroll(i32::MAX), &snap, &frame);
    assert_eq!(ui.at.offset, 99);

    snap.selected = Some(50);
    ui.frame(&snap, &opts, &theme, 80, 13);
    assert_eq!(ui.at.offset, 50);
}

#[test]
fn dragging_the_divider_keeps_what_it_was_grabbed_by() {
    let opts = TuiOptions::default();
    let theme = Theme::default();
    let mut ui = Ui::new(&opts);
    let snap = snapshot(many_rows(3), 1, Some(1));
    ui.follow(&snap, &opts);
    let frame = ui.frame(&snap, &opts, &theme, 120, 30);
    assert_eq!(frame.tree_width, 30);

    // Taken by its left column, one in from the edge; nothing jumps.
    let press = MouseEvent { kind: MouseEventKind::Down(MouseButton::Left), column: 29, row: 5 };
    let action = ui.pointer(press, &snap, &frame, &opts);
    assert_eq!(action, Action::GrabDivider(29));
    ui.act(action, &snap, &frame);
    assert_eq!(ui.at.grab, Some(1));
    ui.act(Action::Split(29), &snap, &frame);
    assert_eq!(ui.at.split, Some(30));
    ui.act(Action::Split(59), &snap, &frame);
    assert_eq!(ui.at.split, Some(60));
    ui.act(Action::Split(2), &snap, &frame);
    assert_eq!(ui.at.split, Some(26));
    ui.act(Action::Split(500), &snap, &frame);
    assert_eq!(ui.at.split, Some(74), "clamped as it is stored");
    ui.act(Action::Release, &snap, &frame);
    assert_eq!(ui.at.grab, None);
    let frame = ui.frame(&snap, &opts, &theme, 120, 30);
    assert_eq!(frame.tree_width, 74);
}

#[test]
fn opening_on_purpose_takes_the_keyboard_along() {
    let opts = TuiOptions::default();
    let theme = Theme::default();
    let mut ui = Ui::new(&opts);
    let snap = snapshot(many_rows(3), 1, Some(1));
    ui.follow(&snap, &opts);
    let frame = ui.frame(&snap, &opts, &theme, 120, 30);

    // A screenful of the tree is what its pane has room for.
    assert_eq!(
        ui.key(key(KeyCode::PageDown), &snap, &frame),
        Action::Run(Command::MoveSelection { delta: 27 })
    );
    let view = ui.key(key(KeyCode::Enter), &snap, &frame);
    let effect = ui.act(view, &snap, &frame);
    assert_eq!(
        effect.command,
        Some(Command::View { path: Some(at_path("/root/f1.txt")) })
    );
    assert_eq!(ui.at.focus, Focus::Viewer);

    // A press in the tree puts it back there, and acts as well.
    let action = ui.pointer(click(5, 2), &snap, &frame, &opts);
    assert_eq!(ui.at.focus, Focus::Tree);
    assert_eq!(action, Action::Run(Command::Select { path: at_path("/root/f1.txt") }));

    // Folding has nowhere else to put it.
    let effect = ui.act(Action::Fold, &snap, &frame);
    assert!(ui.at.folded);
    assert_eq!(ui.at.focus, Focus::Viewer);
    assert!(effect.command.is_some());
    let effect = ui.act(Action::Fold, &snap, &frame);
    assert!(!ui.at.folded);
    assert_eq!(effect.command, None);

    let effect = ui.act(Action::Mouse, &snap, &frame);
    assert_eq!(effect.capture, Some(false));
    let effect = ui.act(Action::Quit, &snap, &frame);
    assert!(effect.quit);
    let effect = ui.act(Action::Focus(Focus::Tree), &snap, &frame);
    assert_eq!(effect.command, None);
    ui.act(Action::Nothing, &snap, &frame);
    assert_eq!(ui.at.focus, Focus::Tree);
}

#[test]
fn a_file_put_away_gives_the_keyboard_back() {
    let theme = Theme::default();
    let opts = TuiOptions::default();
    let mut ui = Ui::new(&opts);
    let snap = snapshot(many_rows(3), 1, Some(1));
    ui.follow(&snap, &opts);
    let frame = ui.frame(&snap, &opts, &theme, 120, 30);
    ui.act(Action::Focus(Focus::Viewer), &snap, &frame);
    ui.follow(&snap, &opts);
    assert_eq!(ui.at.focus, Focus::Viewer, "a redraw leaves it where it was put");
    ui.follow(&snapshot(many_rows(3), 1, None), &opts);
    assert_eq!(ui.at.focus, Focus::Tree);
    assert!(ui.viewer.is_none());

    // With no file pane at all there is none to put away.
    let opts = TuiOptions { preview: None, ..TuiOptions::default() };
    let mut ui = Ui::new(&opts);
    assert!(ui.follow(&snap, &opts).is_none());
    let view = ui.key(key(KeyCode::Enter), &snap, &frame);
    ui.act(view, &snap, &frame);
    assert!(ui.follow(&snap, &opts).is_none());
    assert!(ui.viewer.is_none());
    assert_eq!(ui.at.focus, Focus::Viewer);
}

/// Folded, the file has no border: it starts below its header, in the first
/// column, and has every line down to the footer.
#[test]
fn a_folded_tree_leaves_the_file_all_of_the_window() {
    let opts = TuiOptions::default();
    let theme = Theme::default();
    let mut ui = Ui::new(&opts);
    let snap = snapshot(many_rows(3), 1, Some(1));
    ui.follow(&snap, &opts);
    let frame = ui.frame(&snap, &opts, &theme, 120, 30);
    assert_eq!(frame.page, 27, "inside the border");
    ui.act(Action::Fold, &snap, &frame);
    let frame = ui.frame(&snap, &opts, &theme, 120, 30);
    assert_eq!(frame.page, 28);
    assert_eq!(frame.targets.file, Rect::new(0, 1, 120, 28));
    let wheel = MouseEvent { kind: MouseEventKind::ScrollDown, column: 0, row: 1 };
    assert_eq!(ui.pointer(wheel, &snap, &frame, &opts), Action::ScrollFile(Motion::By(3)));
}

// -- panes ----------------------------------------------------------------

#[test]
fn the_tree_gives_up_the_screen_when_it_cannot_have_half_of_it() {
    let wide = render::panes(Rect::new(0, 0, 120, 30), true, None, false);
    assert!(wide.tree.is_some() && wide.viewer.is_some());
    assert!(
        wide.tree.unwrap().width >= render::TREE_MIN_WIDTH,
        "the tree never gets less than it can draw a path in"
    );

    let narrow = render::panes(Rect::new(0, 0, 60, 30), true, None, false);
    assert!(narrow.tree.is_none(), "60 columns cannot hold both panes");
    assert_eq!(narrow.viewer.unwrap().width, 60);

    // Nothing open: the tree has it all, as it always did.
    let closed = render::panes(Rect::new(0, 0, 120, 30), false, None, false);
    assert!(closed.tree.is_some() && closed.viewer.is_none());
    assert_eq!(closed.tree.unwrap().width, 120);
}

#[test]
fn a_dragged_split_is_honored_and_kept_off_both_minimums() {
    let area = Rect::new(0, 0, 120, 30);
    let at = |split| render::panes(area, true, Some(split), false).tree.unwrap().width;

    assert_eq!(at(70), 70, "a width that fits is taken as asked");
    assert_eq!(at(5), render::TREE_MIN_WIDTH, "the tree keeps its minimum");
    assert_eq!(at(119), 120 - render::VIEWER_MIN_WIDTH, "and so does the file");

    // Past the default cap, which only applies when nobody chose.
    assert!(at(90) > 60);
    assert_eq!(
        render::panes(area, true, None, false).tree.unwrap().width,
        30,
        "the default is a sidebar's share, not half the screen"
    );
}

#[test]
fn the_divider_sits_between_the_panes_and_is_gone_with_the_file() {
    let area = Rect::new(0, 0, 120, 30);
    let panes = render::panes(area, true, Some(40), false);
    assert_eq!(panes.divider(), Some((39, 40)));
    assert!(panes.on_divider(39) && panes.on_divider(40));
    assert!(!panes.on_divider(38) && !panes.on_divider(41));

    assert_eq!(
        render::panes(area, false, None, false).divider(),
        None,
        "nothing to drag when the tree has the screen"
    );
    assert_eq!(
        render::panes(Rect::new(0, 0, 60, 30), true, None, false).divider(),
        None,
        "nor when the file has taken it"
    );

    let folded = render::panes(area, true, None, true);
    assert!(folded.tree.is_none(), "folded away, however wide the window");
    assert_eq!(folded.viewer.unwrap().width, 120);
    assert_eq!(folded.divider(), None, "and nothing left to drag");
}

/// The two ways the screen is split, held against the rule they follow, on
/// every size that is likely and a few that are not.
#[test]
fn the_screen_comes_apart_into_a_body_and_a_footer() {
    for height in (0..=200).chain([1000, 40000, 65535]) {
        let panes = render::panes(Rect::new(0, 0, 80, height), false, None, false);
        let body = panes.tree.unwrap();
        let footer = if height >= 2 { 1 } else { 0 };
        assert_eq!(body, Rect { x: 0, y: 0, width: 80, height: height - footer }, "{height}");
        assert_eq!(
            panes.footer,
            Rect { x: 0, y: height - footer, width: 80, height: footer },
            "{height}"
        );
    }
    // An area that runs past the last row there can be.
    let past = Rect { x: 3, y: 65000, width: 10, height: 1000 };
    let panes = render::panes(past, false, None, false);
    assert_eq!(panes.tree.unwrap(), Rect { x: 3, y: 65000, width: 10, height: 534 });
    assert_eq!(panes.footer, Rect { x: 3, y: 65534, width: 10, height: 1 });
}

#[test]
fn two_panes_tile_the_body() {
    for width in (72..=260).chain([1000, 40000, 65535]) {
        for split in [0u16, 26, 27, 30, 44, 45, 60, 100, 214, 215, 30000, 65535] {
            let panes = render::panes(Rect::new(0, 0, width, 10), true, Some(split), false);
            let want = split.clamp(26, width - 46);
            assert_eq!(panes.tree.unwrap(), Rect { x: 0, y: 0, width: want, height: 9 }, "{width} {split}");
            assert_eq!(
                panes.viewer.unwrap(),
                Rect { x: want, y: 0, width: width - want, height: 9 },
                "{width} {split}"
            );
        }
    }
}

#[test]
fn rectangles_share_cells() {
    let a = Rect::new(2, 3, 10, 5);
    assert_eq!((a.right(), a.bottom()), (12, 8));
    assert!(a.contains(2, 3) && a.contains(11, 7));
    assert!(!a.contains(12, 3) && !a.contains(2, 8) && !a.contains(1, 3));
    assert_eq!(a.intersection(&Rect::new(8, 0, 10, 5)), Rect::new(8, 3, 4, 2));
    assert_eq!(a.intersection(&Rect::new(50, 50, 1, 1)).width, 0);
    assert_eq!(Rect::new(65530, 0, 100, 1).width, 5);
    assert_eq!(render::inner(a), Rect::new(3, 4, 8, 3));
    assert_eq!(render::inner(Rect::new(5, 5, 1, 1)), Rect { x: 6, y: 6, width: 0, height: 0 });
    for w in 0..5u16 {
        for h in 0..5u16 {
            let r = ratatui::layout::Rect::new(65534, 7, w, h);
            let want = ratatui::widgets::Block::default().borders(ratatui::widgets::Borders::ALL).inner(r);
            let got = render::inner(Rect { x: r.x, y: r.y, width: r.width, height: r.height });
            assert_eq!((got.x, got.y, got.width, got.height), (want.x, want.y, want.width, want.height));
        }
    }
}
