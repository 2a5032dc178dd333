//! What the functions of this library promise their callers, said of what goes
//! in and what comes out.

use vstd::prelude::*;
use vstd::string::*;
use vstd::utf8::*;

use crate::cli::{exposure_note, parse_addr, port_note, print_tree, Listen};
use crate::git::{self, answer, question, Reply};
use crate::highlight::{
    self, bytes_of, changes_between_characters, control, indexed_rgb, lemma_a_control_sequence_prints_nothing,
    lemma_bold_and_colored, lemma_styles_are_named_once, lemma_text_is_printed_as_it_stands, lemma_units_of_text,
    paint_for_browser, params_of, parse, plain, printed, styled, text_units, tiles, Cell, Color, Paint, Run, Style, MAX_BYTES,
};
use crate::node::{at, distinct_names, is_tree, live, Kind, NodeId, Slots};
use crate::order::reads_before;
use crate::outline::more_follow;
use crate::path::{lemma_text_round_trip, PathView, TreePath, DOT};
use crate::preview::{self, parse_size, Looked, Preview, PreviewOptions, Stamp};
use crate::scan::{
    dot_git, entry_views, lemma_a_listing_is_in_order, mark_ignored, read_dir, Entry, Found,
};
use crate::shown::{lemma_rows_distinct, place_of, rows_of, shown, Row};
use crate::state::{
    lemma_a_listing_opens_what_was_waited_for, lemma_a_move_goes_by_rows, lemma_a_refresh_begins_with_the_root,
    lemma_a_row_is_selected_by_number, lemma_collapsing_all_leaves_the_root, lemma_collapsing_shuts_one,
    lemma_the_switch_is_as_asked, Command, CommandView, Cursor, Job, Session, Snapshot,
};
use crate::text::{
    decimal, decimal_of, lemma_numbers_are_digits, lemma_numbers_read_back, lemma_split_joined, lemma_split_single,
    lower_of, number_in, text_of, uint_of, views,
};
use crate::error::Error;
use crate::laws::lemma_a_listing_is_taken_over;
use crate::tree::{
    kept, left_out, lemma_lookup, lemma_whose_listing_an_event_is_about, lookup, Resolved, ScanOptions, Tree,
};
use crate::visibility::lemma_visible_iff_open_above;
use crate::tui::input::{
    handle_key, lemma_which_pane_a_cell_is_in, Action, ActionView, KeyCode, KeyEvent, KeyModifiers, Motion, MouseButton,
    MouseEvent, MouseEventKind,
};
use crate::tui::area::Rect;
use crate::tui::render::{row_spans, Theme, TreePicture, TREE_MIN_WIDTH, VIEWER_MIN_WIDTH};
use crate::tui::spans::in_order;
use crate::tui::ui::{Effect, Frame, Ui};
use crate::tui::viewer::{Body, FilePicture, Viewer};
use crate::tui::{Focus, TuiOptions};
use crate::web::http::{
    decode_path, escaped, head_silence, head_step, lemma_a_path_ends_at_the_query, lemma_escapes_come_back, raw_headers,
    take_head, tidy_headers, upgrade_head, Head, HeadStep, Pending, Refusal, Silence, Transfer,
};
use crate::web::{after_wait, lemma_outbox_is_frugal, port_to_try, Outbox, Owed, Step, Waited};

verus! {

// -- colors ---------------------------------------------------------------

/// A number as the bytes of its digits.
pub open spec fn digits_of(n: nat) -> Seq<u8> {
    decimal(n).map_values(|c: char| c as u8)
}

proof fn lemma_digits_are_a_parameter(n: u16)
    ensures
        params_of(digits_of(n as nat)) == seq![Some(n)],
        forall|k: int| #![trigger digits_of(n as nat)[k]] 0 <= k < digits_of(n as nat).len() ==> 48 <= digits_of(n as nat)[k] <= 57,
{
    let d = digits_of(n as nat);
    lemma_numbers_are_digits(n as nat);
    lemma_numbers_read_back(n as nat, 65535);
    assert forall|k: int| #![trigger d[k]] 0 <= k < d.len() implies 48 <= d[k] <= 57 by {
        assert('0' <= decimal(n as nat)[k] <= '9');
    }
    assert(!d.contains(59u8)) by {
        if d.contains(59u8) {
            let k = choose|k: int| 0 <= k < d.len() && d[k] == 59u8;
            assert(48 <= d[k] <= 57);
        }
    }
    lemma_split_single(d, 59);
    assert(uint_of(d, 65535) == Some(n as nat));
    assert(params_of(d) =~= seq![Some(n)]);
}

proof fn lemma_parameters_join(a: u16, b: Seq<u8>)
    ensures
        params_of(digits_of(a as nat).push(59) + b) == seq![Some(a)] + params_of(b),
{
    lemma_digits_are_a_parameter(a);
    lemma_split_joined(digits_of(a as nat), 59, b);
    assert(params_of(digits_of(a as nat).push(59) + b) =~= params_of(digits_of(a as nat)) + params_of(b));
}

/// Text printed between a sequence that sets a style and one that takes it back
/// is one run from end to end, in the style the first one set.
pub proof fn lemma_text_wears_what_was_set(out: &[u8], content: &str, r: Option<Vec<Run>>, about: Seq<u8>)
    requires
        call_ensures(parse, (out, content), r),
        forall|k: int| #![trigger about[k]] 0 <= k < about.len() ==> !(0x40 <= about[k] <= 0x7e),
        content.spec_bytes().len() > 0,
        forall|k: int| #![trigger content.spec_bytes()[k]] 0 <= k < content.spec_bytes().len() ==> content.spec_bytes()[k] != 27,
        out@ == control(about, 109) + (content.spec_bytes() + control(digits_of(0), 109)),
    ensures
        r matches Some(runs) && {
            &&& runs@.len() == 1
            &&& runs@[0].start == 0
            &&& runs@[0].end == content.spec_bytes().len()
            &&& runs@[0].style == styled(params_of(about), 0, plain())
        },
{
    let text = content.spec_bytes();
    let end = control(digits_of(0), 109);
    let none = Seq::<u8>::empty();
    let st = styled(params_of(about), 0, plain());
    lemma_a_control_sequence_prints_nothing(about, 109, text + end, plain());
    lemma_text_is_printed_as_it_stands(text, end, st);
    lemma_digits_are_a_parameter(0);
    assert forall|k: int| #![trigger digits_of(0)[k]] 0 <= k < digits_of(0).len() implies !(0x40 <= digits_of(0)[k] <= 0x7e) by {
        assert(48 <= digits_of(0u16 as nat)[k] <= 57);
    }
    lemma_a_control_sequence_prints_nothing(digits_of(0), 109, none, st);
    assert(end + none =~= end);
    let cells = printed(out@, 0, plain())->0;
    assert(printed(none, 0, styled(params_of(digits_of(0)), 0, st)) == Some(Seq::<Cell>::empty()));
    assert(cells.len() == text.len());
    assert(bytes_of(cells) =~= text);
    assert(changes_between_characters(cells)) by {
        assert forall|p: int| #![trigger cells[p]] 0 < p < cells.len() && cells[p].style != cells[p - 1].style implies is_char_boundary(
            bytes_of(cells),
            p,
        ) by {
            assert(cells[p].style == st && cells[p - 1].style == st);
        }
    }
    let runs = r->0;
    assert(tiles(runs@, cells));
    assert(cells[0].style == st);
    assert(runs@[0].start <= 0 < runs@[0].end);
    if runs@.len() > 1 {
        let p = runs@[1].start as int;
        assert(runs@[0].end == runs@[1].start && runs@[0].style != runs@[1].style);
        assert(runs@[1].start <= p < runs@[1].end);
        assert(cells[p].style == runs@[1].style);
        assert(cells[p].style == st);
    }
}

/// Text set bold and in a color of three levels, in one sequence, comes out as
/// one run that is both.
pub proof fn lemma_bold_colored_text(out: &[u8], content: &str, r: Option<Vec<Run>>, red: u8, green: u8, blue: u8)
    requires
        call_ensures(parse, (out, content), r),
        content.spec_bytes().len() > 0,
        forall|k: int| #![trigger content.spec_bytes()[k]] 0 <= k < content.spec_bytes().len() ==> content.spec_bytes()[k] != 27,
        out@ == control(
            digits_of(1).push(59) + (digits_of(38).push(59) + (digits_of(2).push(59) + (digits_of(red as nat).push(59) + (digits_of(
                green as nat,
            ).push(59) + digits_of(blue as nat))))),
            109,
        ) + (content.spec_bytes() + control(digits_of(0), 109)),
    ensures
        r matches Some(runs) && runs@.len() == 1 && runs@[0] == (Run {
            start: 0,
            end: content.spec_bytes().len() as usize,
            style: Style { fg: Some(Color::Rgb(red, green, blue)), bold: true, dim: false, italic: false, underline: false },
        }),
{
    let tail = digits_of(green as nat).push(59) + digits_of(blue as nat);
    let levels = digits_of(red as nat).push(59) + tail;
    let form = digits_of(2).push(59) + levels;
    let color = digits_of(38).push(59) + form;
    let about = digits_of(1).push(59) + color;
    lemma_digits_are_a_parameter(blue as u16);
    lemma_parameters_join(green as u16, digits_of(blue as nat));
    lemma_parameters_join(red as u16, tail);
    lemma_parameters_join(2, levels);
    lemma_parameters_join(38, form);
    lemma_parameters_join(1, color);
    let ps = seq![
        Some(1u16),
        Some(38u16),
        Some(2u16),
        Some(red as u16),
        Some(green as u16),
        Some(blue as u16),
    ];
    assert(params_of(about) =~= ps);
    lemma_bold_and_colored(red, green, blue, plain());
    lemma_digits_are_a_parameter(1);
    lemma_digits_are_a_parameter(38);
    lemma_digits_are_a_parameter(2);
    lemma_digits_are_a_parameter(red as u16);
    lemma_digits_are_a_parameter(green as u16);
    lemma_no_finals(digits_of(green as nat), digits_of(blue as nat));
    lemma_no_finals(digits_of(red as nat), tail);
    lemma_no_finals(digits_of(2), levels);
    lemma_no_finals(digits_of(38), form);
    lemma_no_finals(digits_of(1), color);
    lemma_text_wears_what_was_set(out, content, r, about);
    assert(content.spec_bytes().len() as usize as int == content.spec_bytes().len());
}

proof fn lemma_no_finals(a: Seq<u8>, b: Seq<u8>)
    requires
        forall|k: int| #![trigger a[k]] 0 <= k < a.len() ==> a[k] < 0x40,
        forall|k: int| #![trigger b[k]] 0 <= k < b.len() ==> b[k] < 0x40,
    ensures
        forall|k: int| #![trigger (a.push(59) + b)[k]] 0 <= k < (a.push(59) + b).len() ==> (a.push(59) + b)[k] < 0x40,
{
    let all = a.push(59) + b;
    assert forall|k: int| #![trigger all[k]] 0 <= k < all.len() implies all[k] < 0x40 by {
        if k < a.len() {
            assert(all[k] == a[k]);
        } else if k > a.len() {
            assert(all[k] == b[k - a.len() - 1]);
        }
    }
}

/// The palette: the cube, blue fastest, and the ramp of greys.
pub proof fn lemma_palette(i: u8, c: (u8, u8, u8), r: int, g: int, b: int)
    requires
        call_ensures(indexed_rgb, (i,), c),
        0 <= r < 6,
        0 <= g < 6,
        0 <= b < 6,
    ensures
        i == 16 + 36 * r + 6 * g + b ==> c.0 == seq![0int, 95, 135, 175, 215, 255][r] && c.1 == seq![
            0int,
            95,
            135,
            175,
            215,
            255,
        ][g] && c.2 == seq![0int, 95, 135, 175, 215, 255][b],
        i >= 232 ==> c.0 == 8 + 10 * (i - 232) && c.1 == c.0 && c.2 == c.0,
{
}

// -- listings -------------------------------------------------------------

/// A directory that was read comes back with its directories first, and each
/// kind in the order of a dictionary over whole names with case set aside.
pub proof fn lemma_a_directory_is_read_in_order(
    found: Option<Vec<Found>>,
    opts: &ScanOptions,
    entries: Vec<Entry>,
    a: int,
    b: int,
)
    requires
        call_ensures(read_dir, (found, opts), entries),
        0 <= a < b < entries@.len(),
    ensures
        entries@[b].kind == Kind::Dir ==> entries@[a].kind == Kind::Dir,
        (entries@[a].kind == Kind::Dir <==> entries@[b].kind == Kind::Dir) ==> {
            let x = lower_of(text_of(entries@[a].name@));
            let y = lower_of(text_of(entries@[b].name@));
            x == y || reads_before(x, y)
        },
{
    let listing = entry_views(entries@);
    assert(listing[a] == entries@[a]@ && listing[b] == entries@[b]@);
    lemma_a_listing_is_in_order(found->0@, *opts, listing, a, b);
}

/// A directory that cannot be read comes back empty.
pub proof fn lemma_an_unreadable_directory_is_empty(opts: &ScanOptions, entries: Vec<Entry>)
    requires
        call_ensures(read_dir, (None::<Vec<Found>>, opts), entries),
    ensures
        entries@.len() == 0,
{
}

// -- printing -------------------------------------------------------------

/// The printed tree has the path first and then a line for every row below the
/// root, with a corner in front of the name exactly where nothing else in that
/// directory comes later.
pub proof fn lemma_a_tree_in_print(s: Slots, root: int, snapshot: &Snapshot, lines: Vec<String>, i: int)
    requires
        call_ensures(print_tree, (snapshot,), lines),
        is_tree(s, root),
        rows_of(s, shown(s, root), snapshot.rows@),
        1 <= i < snapshot.rows@.len(),
    ensures
        lines@.len() == snapshot.rows@.len(),
        ({
            let row = snapshot.rows@[i];
            let line = lines@[i]@;
            let n = 4 * (row.depth - 1);
            &&& n >= 0 && n + 4 <= line.len()
            &&& more_follow(snapshot.rows@, i) ==> line.subrange(n, n + 4) == "├── "@
            &&& !more_follow(snapshot.rows@, i) ==> line.subrange(n, n + 4) == "└── "@
            &&& line.skip(n + 4).take(row.name@.len() as int) == row.name@
        }),
{
    crate::cli::lemma_what_stands_before_a_name(s, root, snapshot.rows@, i, 0);
    let row = snapshot.rows@[i];
    let line = lines@[i]@;
    assert(line == crate::cli::printed_row(snapshot.rows@, i));
    let n = 4 * (row.depth - 1);
    assert(line.skip(n + 4).take(row.name@.len() as int) =~= row.name@);
}

// -- keys -----------------------------------------------------------------

/// With the tree focused up is one row up and down one row down, whatever else is
/// held or on screen.
pub proof fn lemma_up_and_down(m: KeyModifiers, snapshot: &Snapshot, has_file: bool, tall: u16, up: Action, down: Action)
    requires
        call_ensures(handle_key, (KeyEvent { code: KeyCode::Up, modifiers: m }, snapshot, Focus::Tree, has_file, tall), up),
        call_ensures(handle_key, (KeyEvent { code: KeyCode::Down, modifiers: m }, snapshot, Focus::Tree, has_file, tall), down),
    ensures
        up matches Action::Run(Command::MoveSelection { delta }) && delta == -1,
        down matches Action::Run(Command::MoveSelection { delta }) && delta == 1,
{
    assert(up@ == ActionView::Run(CommandView::MoveSelection { delta: -1 }));
    assert(down@ == ActionView::Run(CommandView::MoveSelection { delta: 1 }));
}

/// A page up is as far as a page down, the other way.
pub proof fn lemma_pages(m: KeyModifiers, snapshot: &Snapshot, has_file: bool, tall: u16, up: Action, down: Action)
    requires
        call_ensures(handle_key, (KeyEvent { code: KeyCode::PageUp, modifiers: m }, snapshot, Focus::Tree, has_file, tall), up),
        call_ensures(
            handle_key,
            (KeyEvent { code: KeyCode::PageDown, modifiers: m }, snapshot, Focus::Tree, has_file, tall),
            down,
        ),
    ensures
        up matches Action::Run(Command::MoveSelection { delta: a }) && (down matches Action::Run(
            Command::MoveSelection { delta: b },
        ) && a == -b && b >= 1 && (tall >= 1 ==> b == tall)),
{
    assert(up@ is Run && down@ is Run);
}

// -- what goes out and comes back -----------------------------------------

/// git is asked about names and answers with names: what it echoes back whole is
/// read as what it was asked.
pub proof fn lemma_git_is_understood(names: Vec<Vec<u8>>, q: Vec<u8>, reply: &Reply, r: Option<Vec<Vec<u8>>>)
    requires
        call_ensures(question, (&names,), q),
        call_ensures(answer, (reply,), r),
        forall|k: int| #![trigger names@[k]] 0 <= k < names@.len() ==> names@[k]@.len() > 0 && !names@[k]@.contains(0u8),
        reply.out@ == q@,
    ensures
        reply.code == Some(0i32) || reply.code == Some(1i32) ==> (r matches Some(said) && views(said@) == views(names@)),
        reply.code != Some(0i32) && reply.code != Some(1i32) ==> r is None,
{
    let all = views(names@);
    assert forall|k: int| #![trigger all[k]] 0 <= k < all.len() implies all[k].len() > 0 && !all[k].contains(0u8) by {
        assert(all[k] == names@[k]@);
    }
    git::lemma_names_survive_framing(all);
}

/// A path that is written out reads back as itself.
pub proof fn lemma_a_path_reads_back(p: &TreePath, text: Vec<u8>, bytes: &[u8], back: TreePath)
    requires
        call_ensures(TreePath::text, (p,), text),
        call_ensures(TreePath::parse, (bytes,), back),
        bytes@ == text@,
        p@.sound(),
    ensures
        back@ == p@,
{
    lemma_text_round_trip(p@);
}

/// A number that is written out reads back as itself.
pub proof fn lemma_a_number_reads_back(n: u64, s: String)
    requires
        call_ensures(decimal_of, (n,), s),
    ensures
        number_in(s@, u64::MAX as nat) == Some(n as nat),
{
    lemma_numbers_read_back(n as nat, u64::MAX as nat);
}

// -- requests -------------------------------------------------------------

/// A head is complete with its first empty line, and refused where it is over the
/// limit without one.
pub proof fn lemma_when_a_head_is_complete(buf: &Vec<u8>, r: HeadStep)
    requires
        call_ensures(head_step, (buf,), r),
    ensures
        r matches HeadStep::Complete(end) ==> 4 <= end <= buf@.len() && buf@.subrange(end - 4, end as int) == seq![
            13u8,
            10u8,
            13u8,
            10u8,
        ] && forall|i: int|
            #![trigger buf@.subrange(i, i + 4)]
            0 <= i < end - 4 ==> buf@.subrange(i, i + 4) != seq![13u8, 10u8, 13u8, 10u8],
        !(r is Complete) ==> forall|i: int|
            #![trigger buf@.subrange(i, i + 4)]
            0 <= i <= buf@.len() - 4 ==> buf@.subrange(i, i + 4) != seq![13u8, 10u8, 13u8, 10u8],
        r is More ==> buf@.len() <= 16384,
        r matches HeadStep::Refuse(why) ==> why == Refusal::HeadTooLarge && buf@.len() > 16384,
{
    crate::web::http::lemma_a_head_ends_at_the_first_blank_line(buf@, 0);
    assert(buf.len() == buf@.len());
}

/// Silence ends a connection cleanly only where nothing has been said yet.
pub proof fn lemma_what_silence_means(buf: &Vec<u8>, why: Silence, r: Option<Refusal>)
    requires
        call_ensures(head_silence, (buf, why), r),
    ensures
        why == Silence::Closed && buf@.len() == 0 <==> r is None,
        why == Silence::Closed && buf@.len() > 0 ==> r == Some(Refusal::TruncatedHead),
        why == Silence::TimedOut ==> r == Some(Refusal::TimedOut),
{
}

/// Ports are tried in turn, each one above the last, and no more than were asked
/// for.
pub proof fn lemma_ports_in_turn(base: u16, attempts: u16, step: u16, p: Option<u16>)
    requires
        call_ensures(port_to_try, (base, attempts, step), p),
    ensures
        p matches Some(port) ==> port == base + step,
        step == 0 ==> p == Some(base),
        base != 0 && step < attempts && base + step <= 65535 ==> p is Some,
        step > 0 && (base == 0 || step >= attempts) ==> p is None,
{
}

/// A change and a missed change are looked at alike, silence is broken, and an
/// end is an end.
pub proof fn lemma_what_a_wait_leads_to(waited: Waited, step: Step)
    requires
        call_ensures(after_wait, (waited,), step),
    ensures
        step == Step::Look <==> waited == Waited::Changed || waited == Waited::Lagged,
        step == Step::Alive <==> waited == Waited::TimedOut,
        step == Step::Stop <==> waited == Waited::Closed,
        crate::web::HEARTBEAT == 10,
{
}

/// The port in use is spoken of only where it is not the one that was asked for.
pub proof fn lemma_when_a_port_is_spoken_of(wanted: u16, bound: u16, r: Option<String>)
    requires
        call_ensures(port_note, (wanted, bound), r),
    ensures
        r is Some <==> wanted != bound,
{
}

/// Other machines are warned of where they can reach the server, and nowhere
/// else.
pub proof fn lemma_when_reach_is_warned_of(host: &str, loopback: bool, r: Option<String>)
    requires
        call_ensures(exposure_note, (host, loopback), r),
    ensures
        r is Some <==> !loopback,
{
}

/// What `git` and `bat` are recognised by is how they name themselves.
pub proof fn lemma_programs_name_themselves(success: bool, stdout: &[u8], is_git: bool, is_bat: bool)
    requires
        call_ensures(git::available, (success, stdout), is_git),
        call_ensures(highlight::available, (success, stdout), is_bat),
    ensures
        is_git <==> success && "git version"@.map_values(|c: char| c as u8).is_prefix_of(stdout@),
        is_bat <==> success && "bat "@.map_values(|c: char| c as u8).is_prefix_of(stdout@),
{
    reveal_strlit("git version");
    reveal_strlit("bat ");
    assert("git version"@.map_values(|c: char| c as u8) =~= git::version_banner());
    assert("bat "@.map_values(|c: char| c as u8) =~= highlight::version_banner());
}

/// A size limit is a number and a unit.
pub proof fn lemma_a_limit_is_a_number_of_units(s: &str, n: nat, unit: Seq<char>, scale: nat, r: Result<u64, String>)
    requires
        call_ensures(parse_size, (s,), r),
        preview::spells(unit, scale),
        s@ == decimal(n) + unit,
        1 <= n * scale <= u64::MAX,
        n <= u64::MAX,
    ensures
        r matches Ok(bytes) && bytes == n * scale,
{
    let none = Seq::<char>::empty();
    assert(none + decimal(n) + none + unit + none =~= s@);
    preview::lemma_a_size_is_a_number_of_units(none, n, none, unit, none, scale, r);
}

/// An address is a port, or a host and a port.
pub proof fn lemma_an_address_is_understood(port: u16, host: Seq<char>, s: &str, r: Result<Listen, String>)
    requires
        call_ensures(parse_addr, (s,), r),
        host.len() > 0,
        host[0] != ':',
    ensures
        s@ == decimal(port as nat) ==> r == Ok::<Listen, String>(Listen::Loopback(port)),
        s@ == host.push(':') + decimal(port as nat) ==> (r matches Ok(Listen::Named(name)) && name@ == s@),
        s@ == seq![':'] + decimal(port as nat) ==> (r matches Ok(Listen::Named(name)) && name@ == "127.0.0.1:"@ + decimal(
            port as nat,
        )),
{
    crate::cli::lemma_what_an_address_is(host, port);
    reveal_strlit("127.0.0.1:");
    let here = "127.0.0.1"@;
    reveal_strlit("127.0.0.1");
    assert(here.push(':') =~= "127.0.0.1:"@);
    crate::cli::lemma_what_an_address_is(here, port);
    crate::cli::lemma_what_an_address_is(Seq::empty(), port);
    assert(Seq::<char>::empty().push(':') =~= seq![':']);
}

/// What was escaped for a URL comes out of it as it was, whatever it holds.
pub proof fn lemma_a_url_is_read_back(text: Seq<char>, raw: &str, s: String)
    requires
        call_ensures(decode_path, (raw,), s),
        raw.spec_bytes() == escaped(encode_utf8(text)),
    ensures
        s@ == text,
{
    lemma_escapes_come_back(encode_utf8(text));
    encode_utf8_valid_utf8(text);
    encode_utf8_decode_utf8(text);
}

// -- files ----------------------------------------------------------------

/// A file that has not changed is not sent again, one over the limit is refused
/// by its size, and anything else comes as text or as the word that it is none.
pub proof fn lemma_what_reading_a_file_gives(
    stamp: Stamp,
    opts: &PreviewOptions,
    known: Option<Stamp>,
    bytes: Vec<u8>,
    p: Preview,
)
    requires
        call_ensures(preview::read, (Looked::File(stamp), opts, known, Ok::<Vec<u8>, String>(bytes)), p),
    ensures
        p is Unchanged <==> known == Some(stamp),
        p is TooLarge <==> known != Some(stamp) && stamp.size > opts.max_bytes,
        p matches Preview::Text { stamp: now, content, lossy } ==> now == stamp && (valid_utf8(bytes@) ==> !lossy && content@
            == decode_utf8(bytes@)),
        known is None && stamp.size <= opts.max_bytes ==> p is Text || p is Binary,
{
}

/// Nothing is read of a file that is known as it is or is over the limit, and
/// everything else is read.
pub proof fn lemma_when_a_file_is_read(stamp: Stamp, opts: &PreviewOptions, known: Option<Stamp>, r: bool)
    requires
        call_ensures(preview::needs_reading, (&Looked::File(stamp), opts, known), r),
    ensures
        r <==> known != Some(stamp) && stamp.size <= opts.max_bytes,
{
}

// -- the terminal ---------------------------------------------------------

/// What goes over the wire of a row gives its kind and its flags back.
pub proof fn lemma_a_row_on_the_wire(row: &Row, p: u8)
    requires
        call_ensures(Row::packed, (row,), p),
    ensures
        p as int / 8 == row.kind.spec_code(),
        (p as int / 4) % 2 == 1 <==> row.ignored,
        (p as int / 2) % 2 == 1 <==> row.symlink,
        p as int % 2 == 1 <==> row.expanded,
{
    crate::tree::lemma_packed_decodes(row.kind, row.ignored, row.symlink, row.expanded);
}

/// A scroll by some lines goes that far and back again, where the file is long
/// enough both ways.
pub proof fn lemma_a_scroll_and_its_opposite(by: i64, back: i64, from: usize, lines: usize, page: usize, to: usize, again: usize)
    requires
        call_ensures(Motion::applied_to, (Motion::By(by), from, lines, page), to),
        call_ensures(Motion::applied_to, (Motion::By(back), to, lines, page), again),
        back == -by,
        page >= 1,
        from + page <= lines,
        0 <= from + by,
        from + by + page <= lines,
    ensures
        to == from + by,
        again == from,
{
}

/// A directory is brought in and out of watch as it comes into and goes out of
/// sight.
pub proof fn lemma_what_is_to_be_watched(
    shown_now: &Vec<TreePath>,
    watched: &Vec<TreePath>,
    begin: Vec<TreePath>,
    p: PathView,
)
    requires
        call_ensures(crate::watch::difference, (shown_now, watched), begin),
    ensures
        crate::tree::path_views(begin@).contains(p) <==> crate::tree::path_views(shown_now@).contains(p)
            && !crate::tree::path_views(watched@).contains(p),
{
    let now = crate::tree::path_views(shown_now@);
    let old_ones = crate::tree::path_views(watched@);
    crate::watch::lemma_what_another_list_lacks(now, old_ones, p);
}

/// A size is counted in bytes while there are few of them.
pub proof fn lemma_small_sizes_in_bytes(n: u64, s: String)
    requires
        call_ensures(crate::tui::lines::bytes, (n,), s),
        n < 1024,
    ensures
        s@ == decimal(n as nat) + " B"@,
{
    crate::tui::lines::lemma_small_sizes_are_counted(n as nat);
}

/// The cursor is in view once the tree has been moved to it.
pub proof fn lemma_the_cursor_is_in_view(offset: usize, sel: usize, viewport: usize, total: usize, n: usize)
    requires
        call_ensures(crate::tui::ui::clamp_offset, (offset, Some(sel), viewport, total), n),
        viewport >= 1,
        sel < total,
    ensures
        n <= sel < n + viewport,
        offset <= sel < offset + viewport && offset + viewport <= total ==> n == offset,
{
}

/// A tree that was opened is one directory, read and open, with the cursor on it
/// and nothing on display; what is no directory is refused as that, and what is
/// not there as that.
pub proof fn lemma_what_opening_gives(
    given: &[u8],
    found: Resolved,
    opts: ScanOptions,
    listing: Vec<Entry>,
    r: Result<Tree, Error>,
)
    requires
        call_ensures(Tree::new, (given, found, opts, listing), r),
        listing@.len() <= usize::MAX,
    ensures
        found matches Resolved::Found { path, is_dir, size } ==> {
            &&& is_dir ==> (r matches Ok(tree) && {
                &&& tree.wf()
                &&& tree.selected == tree.top()
                &&& at(tree.slots(), tree.top()).expanded
                &&& at(tree.slots(), tree.top()).path@ == path@
                &&& at(tree.slots(), tree.top()).size == size
                &&& at(tree.slots(), tree.top()).kind == Kind::Dir
                &&& !at(tree.slots(), tree.top()).ignored
                &&& tree.viewing is None
                &&& tree.view_line == 0
                &&& tree.opts == opts
                &&& at(tree.slots(), tree.top()).children@.len() == (if listing@.len() <= opts.max_entries {
                    listing@.len() as int
                } else {
                    opts.max_entries as int
                })
            })
            &&& !is_dir ==> (r matches Err(Error::NotADirectory(p)) && p@ == path@)
        },
        found is Missing ==> r is Err,
        found is Unreadable ==> r is Err,
{
}

/// Nothing is colored where nothing was printed, and nothing where there is
/// nothing to color or too much.
pub proof fn lemma_when_nothing_is_colored(content: &str, out: Option<&[u8]>, r: Option<Vec<Run>>)
    requires
        call_ensures(highlight::paint, (content, out), r),
    ensures
        out is None ==> r is None,
        content.spec_bytes().len() == 0 || content.spec_bytes().len() > 262144 ==> r is None,
{
}

// -- what a call leaves behind --------------------------------------------

/// A command to move the cursor leaves it on the row that many further down, or
/// up for a negative number, and on the last or the first where there is none so
/// far.
pub proof fn lemma_a_move_is_made(session: &mut Session, delta: i64, n: usize)
    requires
        old(session).wf(),
        old(session).job is Idle,
        call_ensures(Session::apply, (session, Command::MoveSelection { delta }), ()),
        place_of(old(session).tree.slots(), old(session).tree.top(), old(session).tree.selected) == Some(n),
    ensures
        ({
            let rows = shown(old(session).tree.slots(), old(session).tree.top());
            let now = final(session).tree.selected;
            &&& 0 <= n + delta < rows.len() ==> now == rows[n + delta].id
            &&& n + delta < 0 ==> now == rows[0].id
            &&& n + delta >= rows.len() ==> now == rows.last().id
        }),
{
    lemma_a_move_goes_by_rows(*old(session), *final(session), delta, n);
}

/// A command that names a row by its number leaves the cursor on that row.
pub proof fn lemma_a_row_is_taken(session: &mut Session, row: usize)
    requires
        old(session).wf(),
        old(session).job is Idle,
        call_ensures(Session::apply, (session, Command::SelectRow { row }), ()),
        row < shown(old(session).tree.slots(), old(session).tree.top()).len(),
    ensures
        place_of(final(session).tree.slots(), final(session).tree.top(), final(session).tree.selected) == Some(row),
{
    lemma_a_row_is_selected_by_number(*old(session), *final(session), row);
}

/// A command to shut a directory shuts that one, whatever is open beside it or
/// inside it, and leaves the cursor where it is.
pub proof fn lemma_a_directory_is_shut(session: &mut Session, path: TreePath, id: NodeId, j: int)
    requires
        old(session).wf(),
        old(session).job is Idle,
        call_ensures(Session::apply, (session, Command::Collapse { path }), ()),
        lookup(old(session).tree.slots(), path@) == Some(id),
        live(old(session).tree.slots(), j),
        j != id,
    ensures
        !at(final(session).tree.slots(), id as int).expanded,
        at(final(session).tree.slots(), j) == at(old(session).tree.slots(), j),
        final(session).tree.selected == old(session).tree.selected,
{
    lemma_collapsing_shuts_one(*old(session), *final(session), path, id);
}

/// A command to shut everything leaves the root open and nothing else.
pub proof fn lemma_everything_is_shut(session: &mut Session, j: int)
    requires
        old(session).wf(),
        old(session).job is Idle,
        call_ensures(Session::apply, (session, Command::CollapseAll), ()),
        live(old(session).tree.slots(), j),
    ensures
        at(final(session).tree.slots(), j).expanded <==> j == old(session).tree.top(),
{
    lemma_collapsing_all_leaves_the_root(*old(session), *final(session));
}

/// The listing that opening a directory waited for opens it, with what stands in
/// the listing, in that order, as far as there is room.
pub proof fn lemma_a_directory_is_opened(session: &mut Session, listing: Vec<Entry>, id: NodeId, k: int)
    requires
        old(session).wf(),
        old(session).job == Job::Expand(id),
        distinct_names(listing@),
        call_ensures(Session::feed, (session, listing), ()),
        0 <= k < at(final(session).tree.slots(), id as int).children@.len(),
    ensures
        at(final(session).tree.slots(), id as int).expanded,
        final(session).awaited() is None,
        final(session).tree.selected == old(session).tree.selected,
        k < listing@.len(),
        ({
            let t = final(session).tree.slots();
            let child = at(t, at(t, id as int).children@[k] as int);
            &&& child.path@.names.last() == listing@[k].name@
            &&& child.kind == listing@[k].kind
        }),
{
    assert(listing.len() == listing@.len());
    lemma_a_listing_opens_what_was_waited_for(*old(session), *final(session), listing@, id);
    let ids = at(final(session).tree.slots(), id as int).children@;
    assert(ids[k] == ids[k]);
}

/// A command to show hidden files, or not to, is obeyed from then on.
pub proof fn lemma_a_switch_is_set(session: &mut Session, show: bool)
    requires
        old(session).wf(),
        old(session).job is Idle,
        call_ensures(Session::apply, (session, Command::SetHidden { show }), ()),
    ensures
        final(session).tree.opts.show_hidden == show,
        show != old(session).tree.opts.show_hidden ==> final(session).awaited() == Some(
            old(session).tree.top() as usize,
        ),
{
    lemma_the_switch_is_as_asked(*old(session), *final(session), show);
    if show != old(session).tree.opts.show_hidden {
        lemma_a_refresh_begins_with_the_root(*old(session), *final(session), Command::SetHidden { show });
    }
}

/// What was read of a file is counted as sent, and what could not be read is
/// made up for: neither is counted twice.
pub proof fn lemma_bytes_are_counted_once(read: &mut Transfer, made_up: &mut Transfer, n: usize)
    requires
        old(read).wf(),
        old(made_up).wf(),
        0 < n <= old(read).share(),
        n <= old(made_up).share(),
        call_ensures(Transfer::got, (read, n), ()),
        call_ensures(Transfer::padded, (made_up, n), ()),
        old(read).sent + n <= u64::MAX,
        old(made_up).sent + n <= u64::MAX,
    ensures
        final(read).sent - old(read).sent == n,
        final(made_up).sent - old(made_up).sent == n,
        final(read).ended == old(read).ended,
        final(read).len == old(read).len,
        final(made_up).len == old(made_up).len,
{
}

/// A read that gives nothing is the end of the file.
pub proof fn lemma_nothing_read_is_the_end(t: &mut Transfer)
    requires
        old(t).wf(),
        call_ensures(Transfer::got, (t, 0usize), ()),
    ensures
        final(t).ended,
        final(t).sent == old(t).sent,
{
}

/// A page that has been sent a state is owed nothing more for it.
pub proof fn lemma_what_was_sent_is_not_owed(outbox: &mut Outbox, c: &Cursor, again: Owed)
    requires
        call_ensures(Outbox::sent, (outbox, c), ()),
        call_ensures(Outbox::next, (final(outbox), c), again),
    ensures
        again == Owed::Nothing,
{
    lemma_outbox_is_frugal(*old(outbox), *final(outbox), *c, *c);
}

/// A body is put together from what arrives, in the order it arrives in.
pub proof fn lemma_a_body_arrives_in_order(pending: &mut Pending, bytes: &[u8], r: Result<(), Refusal>, k: int)
    requires
        old(pending).wf(),
        bytes@.len() <= old(pending).length - old(pending).request.body@.len(),
        call_ensures(Pending::got, (pending, bytes), r),
        0 <= k < bytes@.len(),
    ensures
        r is Ok,
        final(pending).request.body@.len() == old(pending).request.body@.len() + bytes@.len(),
        final(pending).request.body@[old(pending).request.body@.len() + k] == bytes@[k],
        forall|j: int|
            #![trigger final(pending).request.body@[j]]
            0 <= j < old(pending).request.body@.len() ==> final(pending).request.body@[j] == old(pending).request.body@[j],
        final(pending).request.headers == old(pending).request.headers,
        final(pending).request.path == old(pending).request.path,
{
}

/// A file on screen is scrolled to the line asked for, as long as that leaves no
/// room below its last.
pub proof fn lemma_a_file_scrolls_to_its_end(viewer: &mut Viewer, line: usize, viewport: usize)
    requires
        call_ensures(Viewer::scroll_to, (viewer, line, viewport), ()),
        viewport > 0,
    ensures
        line + viewport <= old(viewer).length() ==> final(viewer).offset == line,
        line + viewport > old(viewer).length() >= viewport ==> final(viewer).offset + viewport == old(viewer).length(),
        old(viewer).length() < viewport ==> final(viewer).offset == 0,
        final(viewer).body == old(viewer).body,
{
}

/// What git names is marked, what it does not name is not, and nothing else
/// about an entry changes.
pub proof fn lemma_what_git_names_is_marked(
    entries: &mut Vec<Entry>,
    opts: &ScanOptions,
    said: Vec<Vec<u8>>,
    k: int,
)
    requires
        opts.git_ignore,
        call_ensures(mark_ignored, (entries, opts, false, &Some(said)), ()),
        0 <= k < old(entries)@.len(),
        old(entries)@[k].name@ != dot_git(),
    ensures
        final(entries)@.len() == old(entries)@.len(),
        final(entries)@[k].ignored <==> exists|j: int|
            #![trigger said@[j]]
            0 <= j < said@.len() && said@[j]@ == old(entries)@[k].name@,
        final(entries)@[k].name@ == old(entries)@[k].name@,
        final(entries)@[k].kind == old(entries)@[k].kind,
{
    let name = old(entries)@[k].name@;
    let e = final(entries)@[k];
    if e.ignored {
        assert(views(said@).contains(name));
        let j = choose|j: int| 0 <= j < views(said@).len() && views(said@)[j] == name;
        assert(said@[j]@ == name);
    }
    assert forall|j: int| #![trigger said@[j]] 0 <= j < said@.len() && said@[j]@ == name implies e.ignored by {
        assert(views(said@)[j] == name);
    }
}

/// Choosing a node leaves the cursor on it, and a file so chosen on display.
pub proof fn lemma_choosing_shows(tree: &mut Tree, id: NodeId)
    requires
        call_ensures(Tree::select, (tree, id), ()),
        live(old(tree).slots(), id as int),
    ensures
        final(tree).selected == id,
        final(tree).slots() == old(tree).slots(),
        at(old(tree).slots(), id as int).kind != Kind::Dir ==> (final(tree).viewing matches Some(p) && p@ == at(
            old(tree).slots(),
            id as int,
        ).path@),
        at(old(tree).slots(), id as int).kind == Kind::Dir ==> final(tree).viewing == old(tree).viewing,
{
}

/// A file that arrives late, after another was opened, is not shown.
pub proof fn lemma_a_late_file_is_dropped(ui: &mut Ui, path: &TreePath, preview: Preview, runs: Vec<Run>)
    requires
        old(ui).wf(),
        in_order(runs@),
        call_ensures(Ui::arrived, (ui, path, preview, runs), ()),
    ensures
        !(old(ui).viewer matches Some(v) && v.path@ == path@) ==> final(ui).viewer == old(ui).viewer,
        (old(ui).viewer matches Some(v) && v.path@ == path@) ==> (preview matches Preview::Text { content, .. } ==> (
        final(ui).viewer matches Some(v) && (v.body matches Body::Text(text) && text.content == content))),
{
}

/// A drag of the divider leaves it under the pointer, as far as both panes keep
/// the width they need.
pub proof fn lemma_the_divider_follows_the_pointer(
    ui: &mut Ui,
    column: u16,
    snapshot: &Snapshot,
    frame: &Frame,
    e: Effect,
)
    requires
        old(ui).wf(),
        frame.width >= TREE_MIN_WIDTH + VIEWER_MIN_WIDTH,
        call_ensures(Ui::act, (ui, Action::Split(column), snapshot, frame), e),
        old(ui).at.grab == Some(0u16),
    ensures
        TREE_MIN_WIDTH <= column <= frame.width - VIEWER_MIN_WIDTH ==> final(ui).at.split == Some(column),
        column < TREE_MIN_WIDTH ==> final(ui).at.split == Some(TREE_MIN_WIDTH),
        column > frame.width - VIEWER_MIN_WIDTH ==> (final(ui).at.split matches Some(w) && w + VIEWER_MIN_WIDTH
            == frame.width),
        !e.quit,
        e.command is None,
{
}

/// The terminal follows what is on display: a file that was not is read and
/// named by its last name, from its first line, and one that was is left alone.
/// With nothing on display the pane goes, and the keyboard with it.
pub proof fn lemma_the_display_is_followed(ui: &mut Ui, snapshot: &Snapshot, opts: &TuiOptions, read: Option<TreePath>, i: usize)
    requires
        old(ui).wf(),
        call_ensures(Ui::follow, (ui, snapshot, opts), read),
        opts.preview is Some,
        i < snapshot.rows@.len(),
    ensures
        ({
            let path = snapshot.rows@[i as int].path@;
            let held = old(ui).viewer matches Some(v) && v.path@ == path;
            &&& snapshot.viewing == Some(i) && held ==> read is None && *final(ui) == *old(ui)
            &&& snapshot.viewing == Some(i) && !held ==> {
                &&& read matches Some(p) && p@ == path
                &&& final(ui).viewer matches Some(v) && {
                    &&& v.path@ == path
                    &&& v.body is Loading
                    &&& v.offset == 0
                    &&& path.names.len() > 0 && path.names.last() != seq![DOT] && path.names.last() != seq![DOT, DOT]
                        ==> v.name@ == text_of(path.names.last())
                }
            }
        }),
        snapshot.viewing is None ==> {
            &&& read is None
            &&& final(ui).viewer is None
            &&& old(ui).viewer is Some ==> final(ui).at.focus == Focus::Tree
            &&& old(ui).viewer is None ==> final(ui).at == old(ui).at
        },
{
}

/// The rows on screen are those from the first one shown on, each as it reads.
/// The row under the cursor is lit, one way while the keyboard is with the tree
/// and another while it is with the file, and no other row is.
pub proof fn lemma_the_cursor_is_lit(
    ui: &mut Ui,
    snapshot: &Snapshot,
    opts: &TuiOptions,
    theme: &Theme,
    width: u16,
    height: u16,
    f: Frame,
    t: TreePicture,
    k: int,
)
    requires
        old(ui).wf(),
        call_ensures(Ui::frame, (ui, snapshot, opts, theme, width, height), f),
        f.picture.tree == Some(t),
        0 <= k < t.lines@.len(),
        final(ui).at.offset <= snapshot.rows@.len(),
    ensures
        ({
            let row = final(ui).at.offset + k;
            let line = t.lines@[k]@;
            &&& row < snapshot.rows@.len()
            &&& line.spans == row_spans(&snapshot.rows@[row], theme)
            &&& line.style is Some <==> snapshot.selected == Some(row as usize)
            &&& snapshot.selected == Some(row as usize) && old(ui).at.focus == Focus::Tree ==> line.style == Some(
                theme.selected,
            )
            &&& snapshot.selected == Some(row as usize) && old(ui).at.focus == Focus::Viewer ==> line.style == Some(
                theme.reading,
            )
        }),
{
}

/// The file on screen goes by its name, dimmed while the row it belongs to is,
/// and stands in a border as long as the tree stands beside it.
pub proof fn lemma_the_file_is_headed(
    ui: &mut Ui,
    snapshot: &Snapshot,
    opts: &TuiOptions,
    theme: &Theme,
    width: u16,
    height: u16,
    f: Frame,
    place: Rect,
    p: FilePicture,
    i: usize,
)
    requires
        old(ui).wf(),
        call_ensures(Ui::frame, (ui, snapshot, opts, theme, width, height), f),
        f.picture.file == Some((place, p)),
        snapshot.viewing == Some(i),
        i < snapshot.rows@.len(),
    ensures
        old(ui).viewer matches Some(v) && p.title@.spans[1].text == v.name@,
        snapshot.rows@[i as int].ignored ==> p.title@.spans[1].style.fg == theme.ignored.fg,
        !snapshot.rows@[i as int].ignored ==> p.title@.spans[1].style.fg == theme.file.fg,
        p.border == (if f.picture.tree is Some {
            Some(theme.guide)
        } else {
            None
        }),
{
}

/// A request asks for what its address says, up to the query, with what was
/// escaped in it read back; by the method it says, or `GET`; and with as much of
/// what came after its head as its length covers, byte for byte.
pub proof fn lemma_what_a_request_asks(
    head: Head,
    rest: &[u8],
    r: Result<Pending, Refusal>,
    text: Seq<char>,
    path: Seq<char>,
    query: Seq<char>,
)
    requires
        call_ensures(take_head, (Some(head), rest), r),
        head.path matches Some(p) && p@ == path + query,
        forall|k: int| #![trigger path[k]] 0 <= k < path.len() ==> path[k] != '?' && path[k] != '#',
        query.len() == 0 || query[0] == '?' || query[0] == '#',
        encode_utf8(path) == escaped(encode_utf8(text)),
    ensures
        head.headers@.len() == 0 ==> (r matches Ok(p) && p.length == 0),
        r matches Err(e) ==> e == Refusal::BodyTooLarge,
        r matches Ok(p) ==> {
            &&& p.length <= 1048576
            &&& p.request.path@ == text
            &&& head.method is None ==> p.request.method@ == "GET"@
            &&& head.method matches Some(m) ==> p.request.method@ == m@
            &&& p.request.headers@.len() == head.headers@.len()
            &&& rest@.len() <= p.length ==> p.request.body@.len() == rest@.len()
            &&& rest@.len() > p.length ==> p.request.body@.len() == p.length
            &&& forall|k: int|
                #![trigger p.request.body@[k]]
                0 <= k < p.request.body@.len() ==> p.request.body@[k] == rest@[k]
        },
{
    lemma_a_path_ends_at_the_query(path, query);
    lemma_escapes_come_back(encode_utf8(text));
    encode_utf8_valid_utf8(text);
    encode_utf8_decode_utf8(text);
    if head.headers@.len() == 0 {
        assert(tidy_headers(raw_headers(head.headers@)) =~= Seq::empty());
    }
    if let Ok(p) = r {
        assert(p.request.header_list().len() == head.headers@.len());
    }
}

/// What is no request is refused, and one without an address asks for the root.
pub proof fn lemma_requests_that_say_little(
    rest: &[u8],
    none: Result<Pending, Refusal>,
    bare: Head,
    rooted: Head,
    a: Result<Pending, Refusal>,
    b: Result<Pending, Refusal>,
)
    requires
        call_ensures(take_head, (None, rest), none),
        call_ensures(take_head, (Some(bare), rest), a),
        call_ensures(take_head, (Some(rooted), rest), b),
        bare.path is None,
        rooted.path matches Some(p) && p@ == "/"@,
    ensures
        none == Err::<Pending, Refusal>(Refusal::Malformed),
        a matches Ok(x) ==> (b matches Ok(y) ==> x.request.path@ == y.request.path@),
{
}

/// The reply that takes a connection over says so: a status of 101, what it is
/// turned into, and the key it was given.
pub proof fn lemma_how_a_connection_is_taken_over(accept: &str, s: String)
    requires
        call_ensures(upgrade_head, (accept,), s),
    ensures
        s@ == "HTTP/1.1 101 Switching Protocols\r\n"@ + "upgrade: websocket\r\n"@ + "connection: Upgrade\r\n"@
            + "sec-websocket-accept: "@ + accept@ + "\r\n"@ + "\r\n"@,
{
    reveal_strlit("HTTP/1.1 101 Switching Protocols\r\nupgrade: websocket\r\nconnection: Upgrade\r\nsec-websocket-accept: ");
    reveal_strlit("HTTP/1.1 101 Switching Protocols\r\n");
    reveal_strlit("upgrade: websocket\r\n");
    reveal_strlit("connection: Upgrade\r\n");
    reveal_strlit("sec-websocket-accept: ");
    reveal_strlit("\r\n\r\n");
    reveal_strlit("\r\n");
    assert("HTTP/1.1 101 Switching Protocols\r\n"@ + "upgrade: websocket\r\n"@ + "connection: Upgrade\r\n"@
        + "sec-websocket-accept: "@
        =~= "HTTP/1.1 101 Switching Protocols\r\nupgrade: websocket\r\nconnection: Upgrade\r\nsec-websocket-accept: "@);
    assert("\r\n"@ + "\r\n"@ =~= "\r\n\r\n"@);
    assert(s@ =~= "HTTP/1.1 101 Switching Protocols\r\n"@ + "upgrade: websocket\r\n"@ + "connection: Upgrade\r\n"@
        + "sec-websocket-accept: "@ + accept@ + "\r\n"@ + "\r\n"@);
}

/// Turning a directory over opens one that is shut and shuts one that is open,
/// and leaves anything else as it is.
pub proof fn lemma_a_directory_is_turned_over(tree: &mut Tree, id: NodeId, listing: Vec<Entry>)
    requires
        old(tree).wf(),
        live(old(tree).slots(), id as int),
        distinct_names(listing@),
        call_ensures(Tree::toggle, (tree, id, listing), ()),
    ensures
        at(old(tree).slots(), id as int).kind == Kind::Dir ==> at(final(tree).slots(), id as int).expanded == !at(
            old(tree).slots(),
            id as int,
        ).expanded,
        at(old(tree).slots(), id as int).kind != Kind::Dir && !at(old(tree).slots(), id as int).expanded ==> *final(tree)
            == *old(tree),
{
}

/// A directory that is opened is open, and one that is shut is shut; anything
/// but a directory is neither.
pub proof fn lemma_opening_opens_and_shutting_shuts(shut: &mut Tree, opened: &mut Tree, id: NodeId, listing: Vec<Entry>)
    requires
        old(shut).wf(),
        old(opened).wf(),
        live(old(shut).slots(), id as int),
        live(old(opened).slots(), id as int),
        distinct_names(listing@),
        call_ensures(Tree::collapse, (shut, id), ()),
        call_ensures(Tree::expand, (opened, id, listing), ()),
    ensures
        !at(final(shut).slots(), id as int).expanded,
        at(old(opened).slots(), id as int).kind == Kind::Dir ==> at(final(opened).slots(), id as int).expanded,
        at(old(opened).slots(), id as int).kind != Kind::Dir ==> *final(opened) == *old(opened),
        final(shut).selected == old(shut).selected,
        final(opened).selected == old(opened).selected,
{
}

/// With everything shut only the root is open.
pub proof fn lemma_only_the_root_stays_open(tree: &mut Tree, j: int)
    requires
        old(tree).wf(),
        call_ensures(Tree::collapse_all, (tree,), ()),
        live(old(tree).slots(), j),
    ensures
        at(final(tree).slots(), j).expanded <==> j == old(tree).top(),
        final(tree).selected == old(tree).selected,
{
}

/// Showing a node puts the cursor on it, or names the directory above it that
/// has to be opened before; a node that is gone leaves everything as it is.
pub proof fn lemma_a_node_is_shown_or_waited_for(tree: &mut Tree, id: NodeId, first: Option<NodeId>)
    requires
        old(tree).wf(),
        call_ensures(Tree::reveal_node, (tree, id), first),
    ensures
        live(old(tree).slots(), id as int) && first is None ==> final(tree).selected == id,
        first is Some ==> *final(tree) == *old(tree),
        !live(old(tree).slots(), id as int) ==> first is None && *final(tree) == *old(tree),
        final(tree).slots() == old(tree).slots(),
{
}

/// A press with the left or the middle button takes the keyboard to the pane it
/// lands in. Any other move of the mouse leaves it where it is.
pub proof fn lemma_a_press_takes_the_keyboard(
    ui: &mut Ui,
    mouse: MouseEvent,
    snapshot: &Snapshot,
    frame: &Frame,
    opts: &TuiOptions,
    a: Action,
)
    requires
        call_ensures(Ui::pointer, (ui, mouse, snapshot, frame, opts), a),
    ensures
        ({
            let pressed = mouse.kind == MouseEventKind::Down(MouseButton::Left) || mouse.kind == MouseEventKind::Down(
                MouseButton::Middle,
            );
            let on_file = frame.targets.file.covers(mouse.column as int, mouse.row as int);
            let on_tree = frame.targets.rows.covers(mouse.column as int, mouse.row as int);
            &&& pressed && on_file ==> final(ui).at.focus == Focus::Viewer
            &&& pressed && on_tree && !on_file ==> final(ui).at.focus == Focus::Tree
            &&& !pressed || !on_file && !on_tree ==> final(ui).at == old(ui).at
            &&& final(ui).at.offset == old(ui).at.offset
            &&& final(ui).viewer == old(ui).viewer
        }),
{
    lemma_which_pane_a_cell_is_in(
        frame.targets.rows,
        frame.targets.file,
        mouse.column as int,
        mouse.row as int,
    );
}

/// What is asked for of a body is never more than is missing, never more than a
/// buffer holds, and something as long as anything is missing.
pub proof fn lemma_what_is_asked_of_a_body(pending: &Pending, n: usize)
    requires
        pending.wf(),
        call_ensures(Pending::wants, (pending,), n),
    ensures
        n <= pending.length - pending.request.body@.len(),
        n <= 8192,
        n == 0 <==> pending.request.body@.len() == pending.length,
        n < 8192 ==> n == pending.length - pending.request.body@.len(),
{
}

/// A motion is shared where it moves the file, and is then where it would be
/// applied to.
pub proof fn lemma_what_is_shared_of_a_motion(m: Motion, from: usize, lines: usize, page: usize, to: usize, r: Option<usize>)
    requires
        call_ensures(Motion::applied_to, (m, from, lines, page), to),
        call_ensures(Motion::to_share, (m, from, lines, page), r),
    ensures
        to != from ==> r == Some(to),
        to == from ==> r is None,
{
}

/// A color given by its parts is those parts, and one given by its number is
/// the one the palette has under it.
pub proof fn lemma_what_a_color_comes_to(i: u8, red: u8, green: u8, blue: u8, a: (u8, u8, u8), b: (u8, u8, u8), c: (u8, u8, u8))
    requires
        call_ensures(Color::rgb, (Color::Rgb(red, green, blue),), a),
        call_ensures(Color::rgb, (Color::Indexed(i),), b),
        call_ensures(indexed_rgb, (i,), c),
    ensures
        a == (red, green, blue),
        b == c,
{
}

/// A path is its directory with its last name added.
pub proof fn lemma_a_path_is_a_name_in_a_directory(p: &TreePath, up: Option<TreePath>, name: Option<&Vec<u8>>, back: TreePath)
    requires
        call_ensures(TreePath::parent, (p,), up),
        call_ensures(TreePath::last_name, (p,), name),
        up matches Some(d) ==> (name matches Some(n) ==> call_ensures(TreePath::join, (&d, *n), back)),
    ensures
        up is Some <==> name is Some,
        up is Some ==> back@ == p@,
{
    if up is Some {
        assert(back@.names =~= p@.names);
    }
}

/// A stamp is the size and the time of what it stands for.
pub proof fn lemma_what_a_stamp_says(size: u64, ms: i64, dated: Stamp, undated: Stamp)
    requires
        ms >= 0,
        call_ensures(Stamp::of, (size, Some(ms as u128)), dated),
        call_ensures(Stamp::of, (size, None), undated),
    ensures
        dated.size == size && undated.size == size,
        dated.mtime == ms,
        undated.mtime == 0,
{
}

/// A file is given out where some row shows it, and only there: not one in a
/// directory that is shut, and no directory.
pub proof fn lemma_only_what_is_shown_is_given_out(session: &Session, path: &TreePath, r: Option<TreePath>)
    requires
        session.wf(),
        call_ensures(Session::visible_file, (session, path), r),
    ensures
        r matches Some(p) ==> p@ == path@,
        r is Some <==> exists|k: int|
            #![trigger shown(session.tree.slots(), session.tree.top())[k]]
            {
                let s = session.tree.slots();
                let rows = shown(s, session.tree.top());
                &&& 0 <= k < rows.len()
                &&& at(s, rows[k].id as int).path@ == path@
                &&& at(s, rows[k].id as int).kind != Kind::Dir
            },
{
    let s = session.tree.slots();
    let root = session.tree.top();
    let rows = shown(s, root);
    lemma_rows_distinct(s, root);
    if r is Some {
        let id = lookup(s, path@)->0;
        assert(live(s, id as int) && at(s, id as int).path@ == path@);
        lemma_visible_iff_open_above(s, root, id);
        let k = choose|k: int| 0 <= k < rows.len() && #[trigger] rows[k].id == id;
        assert(rows[k].id == id);
    }
    assert forall|k: int|
        #![trigger rows[k]]
        0 <= k < rows.len() && at(s, rows[k].id as int).path@ == path@ && at(s, rows[k].id as int).kind != Kind::Dir implies r is Some by {
        let id = rows[k].id;
        lemma_lookup(s, root, id);
        assert(place_of(s, root, id) is Some);
        lemma_visible_iff_open_above(s, root, id);
    }
}

proof fn lemma_units_are_counted(chars: Seq<char>)
    ensures
        (forall|k: int| #![trigger chars[k]] 0 <= k < chars.len() ==> (chars[k] as u32) < 0x10000) ==> text_units(chars)
            == chars.len(),
        (forall|k: int| #![trigger chars[k]] 0 <= k < chars.len() ==> (chars[k] as u32) >= 0x10000) ==> text_units(chars)
            == 2 * chars.len(),
    decreases chars.len(),
{
    if chars.len() > 0 {
        let rest = chars.drop_first();
        lemma_units_are_counted(rest);
        assert forall|k: int| #![trigger rest[k]] 0 <= k < rest.len() implies rest[k] == chars[k + 1] by {}
    }
}

/// A browser is told the length of a run in the units it counts text in: one
/// for a character, and two for one that takes a pair of them. Each run has the
/// style it had, and no style is named twice.
pub proof fn lemma_what_a_browser_is_told(content: &str, runs: &Vec<Run>, p: Paint, k: int, chars: Seq<char>)
    requires
        content.spec_bytes().len() <= MAX_BYTES,
        forall|j: int|
            #![trigger runs@[j]]
            0 <= j < runs@.len() ==> runs@[j].start <= runs@[j].end <= content.spec_bytes().len(),
        call_ensures(paint_for_browser, (content, runs), p),
        0 <= k < runs@.len(),
        content.spec_bytes().subrange(runs@[k].start as int, runs@[k].end as int) == encode_utf8(chars),
    ensures
        p.runs@.len() == runs@.len(),
        (forall|j: int| #![trigger chars[j]] 0 <= j < chars.len() ==> (chars[j] as u32) < 0x10000) ==> p.runs@[k].0
            == chars.len(),
        (forall|j: int| #![trigger chars[j]] 0 <= j < chars.len() ==> (chars[j] as u32) >= 0x10000) ==> p.runs@[k].0 == 2
            * chars.len(),
        p.styles@[p.runs@[k].1 as int] == runs@[k].style,
        p.styles@.no_duplicates(),
{
    lemma_units_of_text(chars);
    lemma_units_are_counted(chars);
    lemma_styles_are_named_once(runs@);
    assert(p.runs@[k].0 == p.runs@[k].0);
}

/// What a change on disk brings: the directory it is about holds afterwards what
/// was found in it, in that order, as far as there is room.
pub proof fn lemma_a_change_is_taken_in(tree: &mut Tree, path: &TreePath, listing: Vec<Entry>, id: NodeId, k: int)
    requires
        old(tree).wf(),
        distinct_names(listing@),
        call_ensures(Tree::refresh_path, (tree, path, true, listing), ()),
        live(old(tree).slots(), id as int),
        at(old(tree).slots(), id as int).kind == Kind::Dir,
        at(old(tree).slots(), id as int).loaded,
        at(old(tree).slots(), id as int).path@ == path@,
        0 <= k < listing@.len(),
        k < old(tree).opts.max_entries,
    ensures
        ({
            let t = final(tree).slots();
            let ids = at(t, id as int).children@;
            &&& k < ids.len()
            &&& at(t, ids[k] as int).path@ == path@.child(listing@[k].name@)
            &&& at(t, ids[k] as int).kind == listing@[k].kind
            &&& at(t, ids[k] as int).ignored == listing@[k].ignored
            &&& at(t, id as int).expanded == at(old(tree).slots(), id as int).expanded
        }),
        final(tree).selected == old(tree).selected,
{
    let s = old(tree).slots();
    let max = old(tree).max();
    assert(listing.len() == listing@.len());
    lemma_whose_listing_an_event_is_about(s, old(tree).top(), path@, true, id);
    lemma_a_listing_is_taken_over(
        s,
        final(tree).slots(),
        old(tree).top(),
        id as int,
        kept(listing@, max),
        left_out(listing@, max),
        k,
    );
}

} // verus!
