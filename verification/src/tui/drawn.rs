//! What a drawn line spells, whatever it is colored in.

use vstd::prelude::*;
use vstd::string::*;
use vstd::utf8::*;

use super::area::{least, most};
use super::render::Theme;
use super::spans::{
    body_spans, column_after, ending, expanded, in_order, lemma_tab_from, lemma_turn_from, line_drawn, reaching,
    run_style, segments, sliced, space_mark, tab_from, tab_mark, tab_spans, to_stop, turn_from, with_runs, Drawn,
};
use super::style::{lemma_repeated_len, lemma_spelled_add, repeated, spelled, SpanView, Style};
use crate::highlight::{bytes_of, changes_between_characters, lemma_runs_are_sliceable, tiles, Cell, Run};

verus! {

/// What one character is drawn as, in the column it stands in.
pub open spec fn cell_text(c: char, column: nat, marks: bool) -> Seq<char> {
    if c == '\t' {
        if marks {
            tab_mark() + repeated(" "@, (to_stop(column) - 1) as nat)
        } else {
            repeated(" "@, to_stop(column))
        }
    } else if c == ' ' && marks {
        space_mark()
    } else {
        seq![c]
    }
}

/// What text from `i` on is drawn as.
pub open spec fn shown_text(s: Seq<char>, i: int, column: nat, marks: bool) -> Seq<char>
    decreases s.len() - i,
{
    if i >= s.len() {
        Seq::empty()
    } else {
        cell_text(s[i], column, marks) + shown_text(
            s,
            i + 1,
            if s[i] == '\t' {
                column + to_stop(column)
            } else {
                column + 1
            },
            marks,
        )
    }
}

proof fn lemma_repeated_step(text: Seq<char>, n: nat)
    ensures
        repeated(text, n + 1) == text + repeated(text, n),
    decreases n,
{
    if n == 0 {
        assert(repeated(text, 1) =~= repeated(text, 0) + text);
        assert(text + repeated(text, 0) =~= text);
    } else {
        lemma_repeated_step(text, (n - 1) as nat);
        assert(repeated(text, n + 1) =~= text + repeated(text, (n - 1) as nat) + text);
    }
}

proof fn lemma_spelled_one(span: SpanView)
    ensures
        spelled(seq![span]) == span.text,
{
    reveal_with_fuel(spelled, 2);
    assert(seq![span].drop_last() =~= Seq::<SpanView>::empty());
    assert(spelled(seq![span]) =~= span.text);
}

/// What text without tabs is drawn as, up to `j`.
proof fn lemma_shown_over(s: Seq<char>, i: int, j: int, column: nat, marks: bool, text: Seq<char>)
    requires
        0 <= i <= j <= s.len(),
        forall|k: int| i <= k < j ==> #[trigger] s[k] != '\t',
        text.len() == j - i,
        forall|k: int|
            #![trigger text[k]]
            0 <= k < j - i ==> text[k] == (if s[i + k] == ' ' && marks {
                space_mark()[0]
            } else {
                s[i + k]
            }),
    ensures
        shown_text(s, i, column, marks) == text + shown_text(s, j, (column + (j - i)) as nat, marks),
    decreases j - i,
{
    reveal_strlit("·");
    if i < j {
        let rest = text.drop_first();
        assert forall|k: int| #![trigger rest[k]] 0 <= k < j - i - 1 implies rest[k] == (if s[i + 1 + k] == ' ' && marks {
            space_mark()[0]
        } else {
            s[i + 1 + k]
        }) by {
            assert(rest[k] == text[k + 1]);
        }
        lemma_shown_over(s, i + 1, j, column + 1, marks, rest);
        assert(cell_text(s[i], column, marks) =~= seq![text[0]]);
        assert(text =~= seq![text[0]] + rest);
        assert(shown_text(s, i, column, marks) =~= text + shown_text(s, j, (column + (j - i)) as nat, marks));
    } else {
        assert(text =~= Seq::<char>::empty());
        assert(shown_text(s, i, column, marks) =~= text + shown_text(s, j, column, marks));
    }
}

proof fn lemma_repeated_chars(text: Seq<char>, n: nat)
    requires
        text.len() == 1,
    ensures
        repeated(text, n).len() == n,
        forall|k: int| 0 <= k < n ==> #[trigger] repeated(text, n)[k] == text[0],
    decreases n,
{
    if n > 0 {
        lemma_repeated_chars(text, (n - 1) as nat);
    }
}

/// The spans of text without tabs spell it, marked or as it is.
proof fn lemma_segments_spell(s: Seq<char>, i: int, style: Style, mark: Style)
    requires
        0 <= i <= s.len(),
    ensures
        spelled(segments(s, i, style, mark)).len() == s.len() - i,
        forall|k: int|
            #![trigger spelled(segments(s, i, style, mark))[k]]
            0 <= k < s.len() - i ==> spelled(segments(s, i, style, mark))[k] == (if s[i + k] == ' ' {
                space_mark()[0]
            } else {
                s[i + k]
            }),
    decreases s.len() - i,
{
    reveal_strlit("·");
    if i < s.len() {
        let spaces = s[i] == ' ';
        let j = turn_from(s, i, spaces);
        lemma_turn_from(s, i, spaces);
        lemma_segments_spell(s, j, style, mark);
        let rest = segments(s, j, style, mark);
        let span = segments(s, i, style, mark)[0];
        assert(segments(s, i, style, mark) == seq![span] + rest);
        lemma_spelled_add(seq![span], rest);
        lemma_spelled_one(span);
        lemma_repeated_chars(space_mark(), (j - i) as nat);
        let all = spelled(segments(s, i, style, mark));
        assert(all == span.text + spelled(rest));
        assert forall|k: int| #![trigger all[k]] 0 <= k < s.len() - i implies all[k] == (if s[i + k] == ' ' {
            space_mark()[0]
        } else {
            s[i + k]
        }) by {
            if k < j - i {
                assert(all[k] == span.text[k]);
                assert(s[i + k] == s[i + k]);
            } else {
                assert(all[k] == spelled(rest)[k - (j - i)]);
            }
        }
    }
}

proof fn lemma_body_spells(s: Seq<char>, style: Style, marks: Option<Style>)
    ensures
        spelled(body_spans(s, style, marks)).len() == s.len(),
        forall|k: int|
            #![trigger spelled(body_spans(s, style, marks))[k]]
            0 <= k < s.len() ==> spelled(body_spans(s, style, marks))[k] == (if s[k] == ' ' && marks is Some {
                space_mark()[0]
            } else {
                s[k]
            }),
{
    if s.len() == 0 {
    } else if marks is Some && s.contains(' ') {
        lemma_segments_spell(s, 0, style, marks->0);
    } else {
        lemma_spelled_one(SpanView { text: s, style });
        if marks is Some {
            assert forall|k: int| 0 <= k < s.len() implies s[k] != ' ' by {
                if s[k] == ' ' {
                    assert(s.contains(' '));
                }
            }
        }
    }
}

/// The spans of some text spell what its characters are drawn as.
pub proof fn lemma_expanded_spells(s: Seq<char>, i: int, column: nat, style: Style, marks: Option<Style>)
    requires
        0 <= i <= s.len(),
    ensures
        spelled(expanded(s, i, column, style, marks)) == shown_text(s, i, column, marks is Some),
    decreases s.len() - i,
{
    if i < s.len() {
        let on = marks is Some;
        let j = tab_from(s, i);
        lemma_tab_from(s, i);
        let part = s.subrange(i, j);
        let body = body_spans(part, style, marks);
        lemma_body_spells(part, style, marks);
        let text = spelled(body);
        assert forall|k: int| #![trigger text[k]] 0 <= k < j - i implies text[k] == (if s[i + k] == ' ' && on {
            space_mark()[0]
        } else {
            s[i + k]
        }) by {
            assert(part[k] == s[i + k]);
        }
        lemma_shown_over(s, i, j, column, on, text);
        let at = (column + (j - i)) as nat;
        if j >= s.len() {
            assert(shown_text(s, j, at, on) =~= Seq::<char>::empty());
            assert(text + Seq::<char>::empty() =~= text);
        } else {
            let tab = tab_spans(to_stop(at), style, marks);
            let rest = expanded(s, j + 1, at + to_stop(at), style, marks);
            lemma_expanded_spells(s, j + 1, at + to_stop(at), style, marks);
            lemma_spelled_add(body + tab, rest);
            lemma_spelled_add(body, tab);
            assert(spelled(tab) =~= cell_text('\t', at, on)) by {
                if on {
                    assert(tab =~= seq![tab[0]] + seq![tab[1]]);
                    lemma_spelled_add(seq![tab[0]], seq![tab[1]]);
                    lemma_spelled_one(tab[0]);
                    lemma_spelled_one(tab[1]);
                } else {
                    lemma_spelled_one(tab[0]);
                    assert(tab =~= seq![tab[0]]);
                }
            }
            assert(shown_text(s, j, at, on) == cell_text('\t', at, on) + shown_text(s, j + 1, at + to_stop(at), on));
            assert(spelled(expanded(s, i, column, style, marks)) =~= shown_text(s, i, column, on));
        }
    }
}

/// Nothing moves when the marks are turned on: text takes the same cells with
/// them as without, and ends in the column that was counted for it.
pub proof fn lemma_marks_move_nothing(s: Seq<char>, i: int, column: nat, marks: bool)
    requires
        0 <= i <= s.len(),
    ensures
        column + shown_text(s, i, column, marks).len() == column_after(s, i, column),
    decreases s.len() - i,
{
    reveal_strlit("·");
    reveal_strlit("→");
    reveal_strlit(" ");
    if i < s.len() {
        if s[i] == '\t' {
            lemma_repeated_len(" "@, to_stop(column));
            lemma_repeated_len(" "@, (to_stop(column) - 1) as nat);
            lemma_marks_move_nothing(s, i + 1, column + to_stop(column), marks);
        } else {
            lemma_marks_move_nothing(s, i + 1, column + 1, marks);
        }
    }
}

// -- coloring -------------------------------------------------------------

proof fn lemma_shown_shift(a: Seq<char>, b: Seq<char>, k: int, column: nat, marks: bool)
    requires
        0 <= k <= b.len(),
    ensures
        shown_text(a + b, a.len() + k, column, marks) == shown_text(b, k, column, marks),
        column_after(a + b, a.len() + k, column) == column_after(b, k, column),
    decreases b.len() - k,
{
    if k < b.len() {
        assert((a + b)[a.len() + k] == b[k]);
        let next = if b[k] == '\t' {
            column + to_stop(column)
        } else {
            column + 1
        };
        lemma_shown_shift(a, b, k + 1, next, marks);
    }
}

/// Text drawn in two parts is drawn as it would be in one.
proof fn lemma_shown_add(a: Seq<char>, b: Seq<char>, i: int, column: nat, marks: bool)
    requires
        0 <= i <= a.len(),
    ensures
        shown_text(a + b, i, column, marks) == shown_text(a, i, column, marks) + shown_text(
            b,
            0,
            column_after(a, i, column),
            marks,
        ),
        column_after(a + b, i, column) == column_after(b, 0, column_after(a, i, column)),
    decreases a.len() - i,
{
    if i < a.len() {
        assert((a + b)[i] == a[i]);
        let next = if a[i] == '\t' {
            column + to_stop(column)
        } else {
            column + 1
        };
        lemma_shown_add(a, b, i + 1, next, marks);
        assert(shown_text(a + b, i, column, marks) =~= shown_text(a, i, column, marks) + shown_text(
            b,
            0,
            column_after(a, i, column),
            marks,
        ));
    } else {
        lemma_shown_shift(a, b, 0, column, marks);
        assert(shown_text(a, i, column, marks) + shown_text(b, 0, column, marks) =~= shown_text(b, 0, column, marks));
    }
}

/// Runs that lie edge to edge from the first on, each between characters.
pub open spec fn edge_to_edge(body: Seq<u8>, runs: Seq<Run>) -> bool {
    &&& runs.len() > 0 ==> runs[0].start == 0
    &&& forall|k: int|
        #![trigger runs[k]]
        0 <= k < runs.len() ==> {
            &&& runs[k].start < runs[k].end
            &&& is_char_boundary(body, runs[k].start as int)
            &&& is_char_boundary(body, runs[k].end as int)
        }
    &&& forall|i: int, j: int|
        #![trigger runs[i], runs[j]]
        0 <= i && j == i + 1 && j < runs.len() ==> runs[j].start == runs[i].end
}

/// A coloring of a file is one the file pane can draw from: its runs are in
/// order and lie edge to edge, each between characters.
pub proof fn lemma_a_painting_can_be_drawn(runs: Seq<Run>, cells: Seq<Cell>)
    requires
        tiles(runs, cells),
        valid_utf8(bytes_of(cells)),
        changes_between_characters(cells),
    ensures
        in_order(runs),
        edge_to_edge(bytes_of(cells), runs),
{
    lemma_runs_are_sliceable(runs, cells);
    assert forall|i: int, j: int|
        #![trigger runs[i], runs[j]]
        0 <= i < j < runs.len() implies runs[i].end <= runs[j].end by {
        lemma_ends_grow(runs, cells, i, j);
    }
}

proof fn lemma_ends_grow(runs: Seq<Run>, cells: Seq<Cell>, i: int, j: int)
    requires
        tiles(runs, cells),
        0 <= i <= j < runs.len(),
    ensures
        runs[i].end <= runs[j].end,
    decreases j - i,
{
    if i < j {
        lemma_ends_grow(runs, cells, i, j - 1);
        assert(runs[j - 1].end == runs[j].start);
    }
}

/// The line has been drawn faithfully as far as `d.at`.
spec fn faithful(body: Seq<u8>, start: int, end: int, marks: bool, d: Drawn) -> bool {
    let text = decode_utf8(body.subrange(start, d.at));
    &&& start <= d.at <= end
    &&& is_char_boundary(body, d.at)
    &&& spelled(d.spans) == shown_text(text, 0, 0, marks)
    &&& d.column == column_after(text, 0, 0)
}

proof fn lemma_boundary(body: Seq<u8>, i: int)
    requires
        valid_utf8(body),
        is_char_boundary(body, i),
    ensures
        0 <= i <= body.len(),
{
}

/// The text between two boundaries comes apart at a third.
proof fn lemma_decode_parts(body: Seq<u8>, a: int, b: int, c: int)
    requires
        valid_utf8(body),
        is_char_boundary(body, a),
        is_char_boundary(body, b),
        is_char_boundary(body, c),
        0 <= a <= b <= c <= body.len(),
    ensures
        decode_utf8(body.subrange(a, c)) == decode_utf8(body.subrange(a, b)) + decode_utf8(body.subrange(b, c)),
{
    let whole = body.subrange(a, c);
    super::spans::lemma_boundary_after(body, a, b);
    super::spans::lemma_boundary_after(body, a, c);
    let tail = body.subrange(a, body.len() as int);
    valid_utf8_split(body, a);
    valid_utf8_split(tail, c - a);
    assert(tail.subrange(0, c - a) =~= whole);
    // `b` is a boundary of the part too.
    if b == a {
    } else if b == c {
        is_char_boundary_start_end_of_seq(whole);
    } else {
        is_char_boundary_iff_not_is_continuation_byte(body, b);
        is_char_boundary_iff_not_is_continuation_byte(whole, b - a);
        assert(whole[b - a] == body[b]);
    }
    decode_utf8_split(whole, b - a);
    assert(whole.subrange(0, b - a) =~= body.subrange(a, b));
    assert(whole.subrange(b - a, whole.len() as int) =~= body.subrange(b, c));
}

proof fn lemma_step_faithful(body: Seq<u8>, start: int, end: int, to: int, style: Style, marks: Option<Style>, d: Drawn)
    requires
        valid_utf8(body),
        is_char_boundary(body, start),
        is_char_boundary(body, end),
        faithful(body, start, end, marks is Some, d),
        is_char_boundary(body, to),
        d.at <= to <= end,
    ensures
        sliced(body, d.at, to) is Some,
        faithful(body, start, end, marks is Some, d.then_text(sliced(body, d.at, to)->0, to, style, marks)),
{
    lemma_boundary(body, start);
    lemma_boundary(body, end);
    let a = decode_utf8(body.subrange(start, d.at));
    let b = decode_utf8(body.subrange(d.at, to));
    lemma_decode_parts(body, start, d.at, to);
    lemma_shown_add(a, b, 0, 0, marks is Some);
    let more = expanded(b, 0, d.column, style, marks);
    lemma_expanded_spells(b, 0, d.column, style, marks);
    lemma_spelled_add(d.spans, more);
}

proof fn lemma_fill_faithful(body: Seq<u8>, start: int, end: int, to: int, style: Style, marks: Option<Style>, d: Drawn)
    requires
        valid_utf8(body),
        is_char_boundary(body, start),
        is_char_boundary(body, end),
        faithful(body, start, end, marks is Some, d),
        is_char_boundary(body, to),
        to <= end,
    ensures
        faithful(body, start, end, marks is Some, d.filled(body, to, style, marks)),
        d.filled(body, to, style, marks).at == most(d.at, to),
{
    if d.at < to {
        lemma_step_faithful(body, start, end, to, style, marks, d);
    }
}

proof fn lemma_runs_faithful(
    body: Seq<u8>,
    runs: Seq<Run>,
    k: int,
    start: int,
    end: int,
    theme: &Theme,
    marks: Option<Style>,
    d: Drawn,
)
    requires
        valid_utf8(body),
        is_char_boundary(body, start),
        is_char_boundary(body, end),
        faithful(body, start, end, marks is Some, d),
        0 <= k <= runs.len(),
    ensures
        faithful(body, start, end, marks is Some, with_runs(body, runs, k, start, end, theme, marks, d)),
    decreases runs.len() - k,
{
    if k < runs.len() && runs[k].start < end {
        let from = most(runs[k].start as int, start);
        let to = least(runs[k].end as int, end);
        let style = run_style(runs[k].style, theme);
        let first = most(from, d.at);
        let next = d.then_run(body, from, to, style, theme, marks);
        if sliced(body, first, to) is Some && first < to {
            lemma_fill_faithful(body, start, end, first, theme.code, marks, d);
            let filled = d.filled(body, first, theme.code, marks);
            lemma_step_faithful(body, start, end, to, style, marks, filled);
        }
        lemma_runs_faithful(body, runs, k + 1, start, end, theme, marks, next);
    }
}

proof fn lemma_reaching_bounds(runs: Seq<Run>, i: int, past: int)
    requires
        0 <= i <= runs.len(),
    ensures
        i <= reaching(runs, i, past) <= runs.len(),
        reaching(runs, i, past) < runs.len() ==> runs[reaching(runs, i, past)].end > past,
        forall|m: int| i <= m < reaching(runs, i, past) ==> (#[trigger] runs[m]).end <= past,
    decreases runs.len() - i,
{
    if i < runs.len() && runs[i].end <= past {
        lemma_reaching_bounds(runs, i + 1, past);
    }
}

/// Coloring never changes what a line says: whatever the runs, with gaps before,
/// between and after them, a line spells its text (tabs expanded, marks drawn
/// where they are on, and its ending with them) exactly as it does with no
/// coloring at all.
pub proof fn lemma_coloring_keeps_the_text(
    body: Seq<u8>,
    runs: Seq<Run>,
    start: int,
    end: int,
    theme: &Theme,
    marks: Option<Style>,
)
    requires
        valid_utf8(body),
        is_char_boundary(body, start),
        is_char_boundary(body, end),
        start <= end,
    ensures
        spelled(line_drawn(body, runs, start, end, theme, marks)) == shown_text(
            decode_utf8(body.subrange(start, end)),
            0,
            0,
            marks is Some,
        ) + (match marks {
            Some(mark) => spelled(ending(body, end, mark)),
            None => Seq::empty(),
        }),
        spelled(line_drawn(body, runs, start, end, theme, marks)) == spelled(
            line_drawn(body, Seq::empty(), start, end, theme, marks),
        ),
{
    lemma_drawn_text(body, runs, start, end, theme, marks);
    lemma_drawn_text(body, Seq::empty(), start, end, theme, marks);
}

proof fn lemma_drawn_text(
    body: Seq<u8>,
    runs: Seq<Run>,
    start: int,
    end: int,
    theme: &Theme,
    marks: Option<Style>,
)
    requires
        valid_utf8(body),
        is_char_boundary(body, start),
        is_char_boundary(body, end),
        start <= end,
    ensures
        spelled(line_drawn(body, runs, start, end, theme, marks)) == shown_text(
            decode_utf8(body.subrange(start, end)),
            0,
            0,
            marks is Some,
        ) + (match marks {
            Some(mark) => spelled(ending(body, end, mark)),
            None => Seq::empty(),
        }),
{
    lemma_boundary(body, start);
    lemma_boundary(body, end);
    let on = marks is Some;
    let nothing = Drawn { spans: Seq::empty(), column: 0, at: start };
    let k = reaching(runs, 0, start);
    lemma_reaching_bounds(runs, 0, start);
    assert(body.subrange(start, start) =~= Seq::<u8>::empty());
    assert(decode_utf8(body.subrange(start, start)) =~= Seq::<char>::empty());
    assert(faithful(body, start, end, on, nothing));
    lemma_runs_faithful(body, runs, k, start, end, theme, marks, nothing);
    let d = with_runs(body, runs, k, start, end, theme, marks, nothing);
    let tail = match marks {
        Some(mark) => ending(body, end, mark),
        None => Seq::empty(),
    };
    let text = shown_text(decode_utf8(body.subrange(start, end)), 0, 0, on);
    lemma_fill_faithful(body, start, end, end, theme.code, marks, d);
    let whole = d.filled(body, end, theme.code, marks);
    assert(spelled(whole.spans) == text);
    lemma_spelled_add(whole.spans, tail);
    assert(spelled(Seq::<SpanView>::empty()) =~= Seq::<char>::empty());
}

// -- laws -----------------------------------------------------------------

/// A tab reaches the next column that is a multiple of four, and always goes
/// somewhere.
pub proof fn lemma_tabs_reach_the_next_stop(column: nat)
    ensures
        1 <= to_stop(column) <= 4,
        (column + to_stop(column)) % 4 == 0,
{
}

/// A character is drawn as itself, but for tabs, which are blank up to the next
/// stop, and where marks are drawn for spaces, which are dots, and the first
/// cell of a tab, which is an arrow.
pub proof fn lemma_how_a_character_is_drawn(c: char, column: nat, k: int)
    ensures
        c != '\t' ==> cell_text(c, column, false) == seq![c],
        c != '\t' && c != ' ' ==> cell_text(c, column, true) == seq![c],
        cell_text(' ', column, true) == seq!['·'],
        cell_text('\t', column, false).len() == to_stop(column),
        cell_text('\t', column, true).len() == to_stop(column),
        0 <= k < to_stop(column) ==> cell_text('\t', column, false)[k] == ' ',
        cell_text('\t', column, true)[0] == '→',
        1 <= k < to_stop(column) ==> cell_text('\t', column, true)[k] == ' ',
{
    reveal_strlit("·");
    reveal_strlit("→");
    reveal_strlit(" ");
    assert(space_mark() =~= seq!['·']);
    lemma_blanks(to_stop(column), k);
    lemma_blanks((to_stop(column) - 1) as nat, k - 1);
}

proof fn lemma_blanks(n: nat, k: int)
    ensures
        repeated(" "@, n).len() == n,
        0 <= k < n ==> repeated(" "@, n)[k] == ' ',
    decreases n,
{
    reveal_strlit(" ");
    lemma_repeated_len(" "@, n);
    if n > 0 {
        lemma_blanks((n - 1) as nat, k);
    }
}

/// An ending is drawn as it is in the file, and the end of the file as nothing.
pub proof fn lemma_how_an_ending_is_drawn(body: Seq<u8>, end: int, mark: Style)
    requires
        0 <= end <= body.len(),
    ensures
        end == body.len() ==> ending(body, end, mark).len() == 0,
        end < body.len() && body[end] == 13 ==> spelled(ending(body, end, mark)) == seq!['␍', '␊'],
        end < body.len() && body[end] != 13 ==> spelled(ending(body, end, mark)) == seq!['␊'],
        forall|k: int| #![trigger ending(body, end, mark)[k]] 0 <= k < ending(body, end, mark).len() ==> ending(body, end, mark)[k].style == mark,
{
    reveal_strlit("␍");
    reveal_strlit("␊");
    if end < body.len() {
        let lf = SpanView { text: "␊"@, style: mark };
        let cr = SpanView { text: "␍"@, style: mark };
        lemma_spelled_one(lf);
        lemma_spelled_one(cr);
        if body[end] == 13 {
            assert(ending(body, end, mark) =~= seq![cr] + seq![lf]);
            lemma_spelled_add(seq![cr], seq![lf]);
            assert(spelled(ending(body, end, mark)) =~= seq!['␍', '␊']);
        } else {
            assert(ending(body, end, mark) =~= seq![lf]);
            assert(spelled(ending(body, end, mark)) =~= seq!['␊']);
        }
    }
}

/// Text wears what it is given, and only marks wear the marks' own style.
pub proof fn lemma_what_text_wears(s: Seq<char>, i: int, column: nat, style: Style, marks: Option<Style>, k: int)
    requires
        0 <= i <= s.len(),
        0 <= k < expanded(s, i, column, style, marks).len(),
    ensures
        ({
            let span = expanded(s, i, column, style, marks)[k];
            &&& marks is None ==> span.style == style
            &&& marks matches Some(mark) ==> span.style == style || span.style == mark
        }),
    decreases s.len() - i,
{
    if i < s.len() {
        let j = tab_from(s, i);
        lemma_tab_from(s, i);
        let body = body_spans(s.subrange(i, j), style, marks);
        if marks is Some {
            lemma_segments_wear(s.subrange(i, j), 0, style, marks->0);
        }
        if j < s.len() {
            let at = (column + (j - i)) as nat;
            let tab = tab_spans(to_stop(at), style, marks);
            let rest = expanded(s, j + 1, at + to_stop(at), style, marks);
            let all = expanded(s, i, column, style, marks);
            assert(all == body + tab + rest);
            if k < body.len() {
                assert(all[k] == body[k]);
            } else if k < body.len() + tab.len() {
                assert(all[k] == tab[k - body.len()]);
            } else {
                assert(all[k] == rest[k - body.len() - tab.len()]);
                lemma_what_text_wears(s, j + 1, at + to_stop(at), style, marks, k - body.len() - tab.len());
            }
        }
    }
}

proof fn lemma_segments_wear(s: Seq<char>, i: int, style: Style, mark: Style)
    requires
        0 <= i <= s.len(),
    ensures
        forall|k: int|
            #![trigger segments(s, i, style, mark)[k]]
            0 <= k < segments(s, i, style, mark).len() ==> segments(s, i, style, mark)[k].style == style || segments(
                s,
                i,
                style,
                mark,
            )[k].style == mark,
    decreases s.len() - i,
{
    if i < s.len() {
        let spaces = s[i] == ' ';
        let j = turn_from(s, i, spaces);
        lemma_turn_from(s, i, spaces);
        lemma_segments_wear(s, j, style, mark);
        let all = segments(s, i, style, mark);
        let rest = segments(s, j, style, mark);
        assert forall|k: int| #![trigger all[k]] 0 <= k < all.len() implies all[k].style == style || all[k].style == mark by {
            if k > 0 {
                assert(all[k] == rest[k - 1]);
            }
        }
    }
}

/// What a run wears: its own color where it has one, and its own weight and slant
/// on top of what all code wears.
pub proof fn lemma_what_a_run_wears(style: crate::highlight::Style, theme: &Theme)
    ensures
        ({
            let worn = run_style(style, theme);
            &&& style.fg is None ==> worn.fg == theme.code.fg
            &&& style.fg matches Some(crate::highlight::Color::Rgb(r, g, b)) ==> worn.fg == Some(super::style::Color::Rgb(r, g, b))
            &&& style.fg matches Some(crate::highlight::Color::Indexed(i)) ==> worn.fg == Some(super::style::Color::Indexed(i))
            &&& worn.modifier.bold == (style.bold || theme.code.modifier.bold)
            &&& worn.modifier.dim == (style.dim || theme.code.modifier.dim)
            &&& worn.modifier.italic == (style.italic || theme.code.modifier.italic)
            &&& worn.modifier.underlined == (style.underline || theme.code.modifier.underlined)
            &&& worn.modifier.crossed_out == theme.code.modifier.crossed_out
            &&& worn.bg == theme.code.bg
        }),
{
}

/// A line with no coloring is drawn in what all code wears; one that a single run
/// covers, in that run's style throughout.
pub proof fn lemma_a_line_wears_its_runs(
    body: Seq<u8>,
    run: Run,
    start: int,
    end: int,
    theme: &Theme,
    marks: Option<Style>,
)
    requires
        valid_utf8(body),
        is_char_boundary(body, start),
        is_char_boundary(body, end),
        0 <= start < end <= body.len(),
    ensures
        ({
            let text = decode_utf8(body.subrange(start, end));
            let tail = match marks {
                Some(mark) => ending(body, end, mark),
                None => Seq::empty(),
            };
            &&& line_drawn(body, Seq::empty(), start, end, theme, marks) == expanded(text, 0, 0, theme.code, marks) + tail
            &&& run.start <= start && end <= run.end ==> line_drawn(body, seq![run], start, end, theme, marks) == expanded(
                text,
                0,
                0,
                run_style(run.style, theme),
                marks,
            ) + tail
        }),
{
    let nothing = Drawn { spans: Seq::empty(), column: 0, at: start };
    let text = decode_utf8(body.subrange(start, end));
    let plain = expanded(text, 0, 0, theme.code, marks);
    assert(sliced(body, start, end) == Some(text));
    assert(nothing.filled(body, end, theme.code, marks).spans =~= plain);
    if run.start <= start && end <= run.end {
        let runs = seq![run];
        assert(runs[0] == run);
        assert(reaching(runs, 0, start) == 0);
        let style = run_style(run.style, theme);
        let next = nothing.then_run(body, start, end, style, theme, marks);
        assert(nothing.filled(body, start, theme.code, marks) == nothing);
        assert(next == nothing.then_text(text, end, style, marks));
        assert(with_runs(body, runs, 1, start, end, theme, marks, next) == next);
        assert(with_runs(body, runs, 0, start, end, theme, marks, nothing) == next);
        assert(next.filled(body, end, theme.code, marks) == next);
        assert(next.spans =~= expanded(text, 0, 0, style, marks));
    }
}

proof fn lemma_runs_further_on(
    x: Seq<Run>,
    y: Seq<Run>,
    k: int,
    body: Seq<u8>,
    start: int,
    end: int,
    theme: &Theme,
    marks: Option<Style>,
    d: Drawn,
)
    requires
        0 <= k <= y.len(),
    ensures
        with_runs(body, x + y, x.len() + k, start, end, theme, marks, d) == with_runs(body, y, k, start, end, theme, marks, d),
    decreases y.len() - k,
{
    if k < y.len() {
        assert((x + y)[x.len() + k] == y[k]);
        if y[k].start < end {
            let next = d.then_run(
                body,
                most(y[k].start as int, start),
                least(y[k].end as int, end),
                run_style(y[k].style, theme),
                theme,
                marks,
            );
            lemma_runs_further_on(x, y, k + 1, body, start, end, theme, marks, next);
        }
    }
}

proof fn lemma_reaching_further_on(x: Seq<Run>, y: Seq<Run>, k: int, past: int)
    requires
        0 <= k <= y.len(),
    ensures
        reaching(x + y, x.len() + k, past) == x.len() + reaching(y, k, past),
    decreases y.len() - k,
{
    if k < y.len() {
        assert((x + y)[x.len() + k] == y[k]);
        if y[k].end <= past {
            lemma_reaching_further_on(x, y, k + 1, past);
        }
    }
}

/// Every run has its turn: a line is drawn by its first run and then, from where
/// that one got, by the rest.
pub proof fn lemma_every_run_has_its_turn(
    body: Seq<u8>,
    run: Run,
    rest: Seq<Run>,
    start: int,
    end: int,
    theme: &Theme,
    marks: Option<Style>,
    d: Drawn,
)
    requires
        run.start < end,
    ensures
        with_runs(body, seq![run] + rest, 0, start, end, theme, marks, d) == with_runs(
            body,
            rest,
            0,
            start,
            end,
            theme,
            marks,
            d.then_run(
                body,
                most(run.start as int, start),
                least(run.end as int, end),
                run_style(run.style, theme),
                theme,
                marks,
            ),
        ),
{
    let all = seq![run] + rest;
    assert(all[0] == run);
    let next = d.then_run(
        body,
        most(run.start as int, start),
        least(run.end as int, end),
        run_style(run.style, theme),
        theme,
        marks,
    );
    lemma_runs_further_on(seq![run], rest, 0, body, start, end, theme, marks, next);
}

/// A run that ends before a line has no part in it.
pub proof fn lemma_runs_of_other_lines_do_not_count(
    body: Seq<u8>,
    run: Run,
    rest: Seq<Run>,
    start: int,
    end: int,
    theme: &Theme,
    marks: Option<Style>,
)
    requires
        run.end <= start,
    ensures
        line_drawn(body, seq![run] + rest, start, end, theme, marks) == line_drawn(body, rest, start, end, theme, marks),
{
    let all = seq![run] + rest;
    assert(all[0] == run);
    lemma_reaching_further_on(seq![run], rest, 0, start);
    let k = reaching(rest, 0, start);
    lemma_reaching_bounds(rest, 0, start);
    let nothing = Drawn { spans: Seq::empty(), column: 0, at: start };
    assert(reaching(all, 0, start) == 1 + k);
    lemma_runs_further_on(seq![run], rest, k, body, start, end, theme, marks, nothing);
}

/// Of two runs that share a line each part wears its own, and the columns go on
/// from the one to the other.
pub proof fn lemma_two_runs_share_a_line(
    body: Seq<u8>,
    first: Run,
    second: Run,
    start: int,
    middle: int,
    end: int,
    theme: &Theme,
    marks: Option<Style>,
)
    requires
        valid_utf8(body),
        is_char_boundary(body, start),
        is_char_boundary(body, middle),
        is_char_boundary(body, end),
        0 <= start < middle < end <= body.len(),
        first.start <= start,
        first.end == middle,
        second.start == middle,
        end <= second.end,
    ensures
        ({
            let a = decode_utf8(body.subrange(start, middle));
            let b = decode_utf8(body.subrange(middle, end));
            let tail = match marks {
                Some(mark) => ending(body, end, mark),
                None => Seq::empty(),
            };
            line_drawn(body, seq![first, second], start, end, theme, marks) == expanded(
                a,
                0,
                0,
                run_style(first.style, theme),
                marks,
            ) + expanded(b, 0, column_after(a, 0, 0), run_style(second.style, theme), marks) + tail
        }),
{
    let runs = seq![first, second];
    assert(runs[0] == first && runs[1] == second);
    assert(runs =~= seq![first] + seq![second]);
    let nothing = Drawn { spans: Seq::empty(), column: 0, at: start };
    let a = decode_utf8(body.subrange(start, middle));
    let b = decode_utf8(body.subrange(middle, end));
    let x = run_style(first.style, theme);
    let y = run_style(second.style, theme);
    assert(reaching(runs, 0, start) == 0);
    assert(nothing.filled(body, start, theme.code, marks) == nothing);
    let one = nothing.then_run(body, start, middle, x, theme, marks);
    assert(one == nothing.then_text(a, middle, x, marks));
    assert(one.filled(body, middle, theme.code, marks) == one);
    let two = one.then_run(body, middle, end, y, theme, marks);
    assert(two == one.then_text(b, end, y, marks));
    lemma_every_run_has_its_turn(body, first, seq![second], start, end, theme, marks, nothing);
    assert(seq![second] =~= seq![second] + Seq::<Run>::empty());
    lemma_every_run_has_its_turn(body, second, Seq::empty(), start, end, theme, marks, one);
    assert(with_runs(body, runs, 0, start, end, theme, marks, nothing) == two);
    assert(two.filled(body, end, theme.code, marks) == two);
    assert(two.spans =~= expanded(a, 0, 0, x, marks) + expanded(b, 0, column_after(a, 0, 0), y, marks));
}

} // verus!
