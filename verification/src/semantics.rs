//! The mathematical model of the editor: a sequence of lines, a cursor, and
//! one transition function per edit event.
//!
//! `step` is the specification that `EditorState::apply_event` is proved to
//! implement. The proof functions at the end state the laws the editor
//! keeps: the structural invariant is preserved by every event, clearing
//! always reaches the same state, snapshots round-trip, edits at the
//! document edges are no-ops, and inserting a character widens the displayed
//! cursor column by exactly that character's width.

use vstd::prelude::*;
use crate::lineeditor::EditorEvent;
use crate::text::byte_len;
use crate::text::char_bytes;
use crate::text::char_index_of;
use crate::text::floor_char_index;
use crate::text::is_boundary;
use crate::text::prefix_bytes;
use crate::width::char_display_width;
use crate::width::seq_width;

verus! {

/// The state of the editor, mathematically: the lines' characters, the
/// cursor's line index and its byte column.
#[verifier::ext_equal]
pub ghost struct BufferModel {
    pub lines: Seq<Seq<char>>,
    pub line: int,
    pub col: int,
}

/// Structural invariant: at least one line, the cursor on an existing line,
/// and the column a character boundary of that line.
pub open spec fn model_wf(m: BufferModel) -> bool {
    &&& m.lines.len() >= 1
    &&& 0 <= m.line < m.lines.len()
    &&& 0 <= m.col
    &&& is_boundary(m.lines[m.line], m.col)
}

/// The line under the cursor.
pub open spec fn cur_line(m: BufferModel) -> Seq<char> {
    m.lines[m.line]
}

/// The delimiter set of the backward word kill: deleting one of these
/// characters ends the kill.
pub open spec fn is_delimiter(c: char) -> bool {
    c == ' ' || c == '/' || c == '\\' || c == ':' || c == '_' || c == '-'
}

/// Repeatedly remove the character before character index `k`, stopping
/// after a delimiter was removed or the start of the line is reached.
pub open spec fn kill_chars(s: Seq<char>, k: int) -> (Seq<char>, int)
    decreases k,
{
    if k <= 0 {
        (s, 0)
    } else {
        let c = s[k - 1];
        let s2 = s.remove(k - 1);
        if is_delimiter(c) || k - 1 == 0 {
            (s2, k - 1)
        } else {
            kill_chars(s2, k - 1)
        }
    }
}

/// The state every buffer starts from and `ClearAll` returns to: one empty
/// line, cursor at its start.
pub open spec fn empty_model() -> BufferModel {
    BufferModel { lines: seq![Seq::<char>::empty()], line: 0, col: 0 }
}

/// State after replacing the whole content: an empty list is normalized to
/// one empty line, and the cursor goes to the end of the last line.
pub open spec fn loaded(ls: Seq<Seq<char>>) -> BufferModel {
    if ls.len() == 0 {
        empty_model()
    } else {
        BufferModel { lines: ls, line: ls.len() - 1, col: byte_len(ls.last()) as int }
    }
}

/// Insert `c` at the cursor; the cursor moves past it.
pub open spec fn spec_insert(m: BufferModel, c: char) -> BufferModel {
    let s = cur_line(m);
    let k = char_index_of(s, m.col);
    BufferModel {
        lines: m.lines.update(m.line, s.insert(k, c)),
        line: m.line,
        col: m.col + char_bytes(c),
    }
}

/// Split the cursor's line at the cursor; the cursor moves to the start of
/// the new line below.
pub open spec fn spec_split(m: BufferModel) -> BufferModel {
    let s = cur_line(m);
    let k = char_index_of(s, m.col);
    BufferModel {
        lines: m.lines.update(m.line, s.take(k)).insert(m.line + 1, s.skip(k)),
        line: m.line + 1,
        col: 0,
    }
}

/// Remove the character before the cursor, or merge with the line above
/// when the cursor is at the start of a line; no-op at the document start.
pub open spec fn spec_backspace(m: BufferModel) -> BufferModel {
    let s = cur_line(m);
    if m.col > 0 {
        let k = char_index_of(s, m.col);
        BufferModel {
            lines: m.lines.update(m.line, s.remove(k - 1)),
            line: m.line,
            col: m.col - char_bytes(s[k - 1]),
        }
    } else if m.line > 0 {
        BufferModel {
            lines: m.lines.remove(m.line).update(m.line - 1, m.lines[m.line - 1] + s),
            line: m.line - 1,
            col: byte_len(m.lines[m.line - 1]) as int,
        }
    } else {
        m
    }
}

/// Remove the character at the cursor, or merge the line below into this
/// one when the cursor is at the end of a line; no-op at the document end.
pub open spec fn spec_delete(m: BufferModel) -> BufferModel {
    let s = cur_line(m);
    if m.col < byte_len(s) {
        let k = char_index_of(s, m.col);
        BufferModel { lines: m.lines.update(m.line, s.remove(k)), line: m.line, col: m.col }
    } else if m.line < m.lines.len() - 1 {
        BufferModel {
            lines: m.lines.update(m.line, s + m.lines[m.line + 1]).remove(m.line + 1),
            line: m.line,
            col: m.col,
        }
    } else {
        m
    }
}

/// One step left: the previous boundary, or the end of the line above.
pub open spec fn spec_left(m: BufferModel) -> BufferModel {
    let s = cur_line(m);
    if m.col > 0 {
        let k = char_index_of(s, m.col);
        BufferModel { lines: m.lines, line: m.line, col: m.col - char_bytes(s[k - 1]) }
    } else if m.line > 0 {
        BufferModel {
            lines: m.lines,
            line: m.line - 1,
            col: byte_len(m.lines[m.line - 1]) as int,
        }
    } else {
        m
    }
}

/// One step right: the next boundary, or the start of the line below.
pub open spec fn spec_right(m: BufferModel) -> BufferModel {
    let s = cur_line(m);
    if m.col < byte_len(s) {
        let k = char_index_of(s, m.col);
        BufferModel { lines: m.lines, line: m.line, col: m.col + char_bytes(s[k]) }
    } else if m.line < m.lines.len() - 1 {
        BufferModel { lines: m.lines, line: m.line + 1, col: 0 }
    } else {
        m
    }
}

/// Move the cursor to line `t`, keeping the column where a boundary of the
/// target line falls on it, else snapping down to the last boundary that
/// fits — the end of a short line in particular. (`lemma_floor_exact` and
/// `lemma_floor_clamp` in `crate::text` state those two cases.)
pub open spec fn spec_goto(m: BufferModel, t: int) -> BufferModel {
    BufferModel {
        lines: m.lines,
        line: t,
        col: prefix_bytes(m.lines[t], floor_char_index(m.lines[t], m.col)) as int,
    }
}

/// Delete words before the cursor: characters up to and including the
/// nearest delimiter, or to the start of the line.
pub open spec fn spec_kill_word(m: BufferModel) -> BufferModel {
    let s = cur_line(m);
    if m.col > 0 {
        let k = char_index_of(s, m.col);
        let r = kill_chars(s, k);
        BufferModel {
            lines: m.lines.update(m.line, r.0),
            line: m.line,
            col: prefix_bytes(r.0, r.1) as int,
        }
    } else {
        m
    }
}

/// The transition table: what each event does to the state. Events whose
/// precondition does not hold (moving up from the first line, deleting at
/// the document end) leave the state unchanged.
pub open spec fn step(m: BufferModel, e: EditorEvent) -> BufferModel {
    match e {
        EditorEvent::NewCharacter(c) => spec_insert(m, c),
        EditorEvent::NewLine => spec_split(m),
        EditorEvent::Backspace => spec_backspace(m),
        EditorEvent::Delete => spec_delete(m),
        EditorEvent::Clear => empty_model(),
        EditorEvent::GoLeft => spec_left(m),
        EditorEvent::GoRight => spec_right(m),
        EditorEvent::GoUp => if m.line > 0 { spec_goto(m, m.line - 1) } else { m },
        EditorEvent::GoDown => if m.line < m.lines.len() - 1 { spec_goto(m, m.line + 1) } else { m },
        EditorEvent::Home => BufferModel { lines: m.lines, line: m.line, col: 0 },
        EditorEvent::End => BufferModel { lines: m.lines, line: m.line, col: byte_len(cur_line(m)) as int },
        EditorEvent::KillWordBack => spec_kill_word(m),
    }
}

/// Machine limit on the few events that grow a line: the resulting line's
/// byte length must still fit in a `usize`. Every other event always fits.
pub open spec fn event_fits(m: BufferModel, e: EditorEvent) -> bool {
    match e {
        EditorEvent::NewCharacter(c) => byte_len(cur_line(m)) + char_bytes(c) <= usize::MAX,
        EditorEvent::Backspace => m.col == 0 && m.line > 0 ==> byte_len(m.lines[m.line - 1])
            + byte_len(cur_line(m)) <= usize::MAX,
        EditorEvent::Delete => m.col >= byte_len(cur_line(m)) && m.line < m.lines.len() - 1
            ==> byte_len(cur_line(m)) + byte_len(m.lines[m.line + 1]) <= usize::MAX,
        _ => true,
    }
}

/// Displayed column of the cursor: the total width of the characters before
/// it on its line.
pub open spec fn display_col(m: BufferModel) -> nat {
    let s = cur_line(m);
    seq_width(s.take(char_index_of(s, m.col)))
}

/// What killing words leaves behind: a cursor index inside a line no longer
/// than the one it started from.
pub proof fn lemma_kill_chars_props(s: Seq<char>, k: int)
    requires
        0 <= k <= s.len(),
    ensures
        0 <= kill_chars(s, k).1 <= kill_chars(s, k).0.len() <= s.len(),
        byte_len(kill_chars(s, k).0) <= byte_len(s),
    decreases k,
{
    if k > 0 {
        let s2 = s.remove(k - 1);
        crate::text::lemma_byte_len_remove(s, k - 1);
        if !(is_delimiter(s[k - 1]) || k - 1 == 0) {
            lemma_kill_chars_props(s2, k - 1);
        }
    }
}

/// Invariant preservation: every event leads from a well-formed state to a
/// well-formed state — the buffer keeps at least one line, the cursor stays
/// on an existing line, and its column stays on a character boundary.
pub proof fn lemma_step_preserves_wf(m: BufferModel, e: EditorEvent)
    requires
        model_wf(m),
    ensures
        model_wf(step(m, e)),
{
    let s = cur_line(m);
    let k = char_index_of(s, m.col);
    crate::text::lemma_char_index_props(s, m.col);
    crate::text::lemma_boundary_le(s, m.col);
    match e {
        EditorEvent::NewCharacter(c) => {
            crate::text::lemma_byte_len_insert(s, k, c);
            assert(prefix_bytes(s.insert(k, c), k + 1) == m.col + char_bytes(c));
            assert(0 <= k + 1 <= s.insert(k, c).len());
            assert(is_boundary(s.insert(k, c), m.col + char_bytes(c)));
            assert(cur_line(spec_insert(m, c)) == s.insert(k, c));
        },
        EditorEvent::NewLine => {
            assert(prefix_bytes(s.skip(k), 0) == 0);
        },
        EditorEvent::Backspace => {
            if m.col > 0 {
                assert(k >= 1) by {
                    assert(prefix_bytes(s, 0) == 0);
                }
                crate::text::lemma_byte_len_remove(s, k - 1);
                assert(prefix_bytes(s.remove(k - 1), k - 1) == m.col - char_bytes(s[k - 1]));
            } else if m.line > 0 {
                let prev = m.lines[m.line - 1];
                crate::text::lemma_prefix_bytes_concat(prev, s, 0);
                assert(prefix_bytes(s, 0) == 0);
                assert(prefix_bytes(prev + s, prev.len() as int) == byte_len(prev));
            }
        },
        EditorEvent::Delete => {
            if m.col < byte_len(s) {
                assert(k < s.len()) by {
                    assert(byte_len(s) == prefix_bytes(s, s.len() as int));
                }
                crate::text::lemma_byte_len_remove(s, k);
                assert(prefix_bytes(s.remove(k), k) == m.col);
                crate::text::lemma_prefix_bytes_mono(s.remove(k), k, s.remove(k).len() as int);
            } else if m.line < m.lines.len() - 1 {
                let nxt = m.lines[m.line + 1];
                crate::text::lemma_prefix_bytes_concat(s, nxt, 0);
                assert(prefix_bytes(nxt, 0) == 0);
                assert(prefix_bytes(s + nxt, s.len() as int) == byte_len(s));
            }
        },
        EditorEvent::Clear => {
            assert(prefix_bytes(empty_model().lines[0], 0) == 0);
        },
        EditorEvent::GoLeft => {
            if m.col > 0 {
                assert(k >= 1) by {
                    assert(prefix_bytes(s, 0) == 0);
                }
                assert(prefix_bytes(s, k - 1) == m.col - char_bytes(s[k - 1]));
            } else if m.line > 0 {
                let prev = m.lines[m.line - 1];
                assert(prefix_bytes(prev, prev.len() as int) == byte_len(prev));
            }
        },
        EditorEvent::GoRight => {
            if m.col < byte_len(s) {
                assert(k < s.len()) by {
                    assert(byte_len(s) == prefix_bytes(s, s.len() as int));
                }
                assert(prefix_bytes(s, k + 1) == m.col + char_bytes(s[k]));
            }
        },
        EditorEvent::GoUp => {
            if m.line > 0 {
                lemma_goto_wf(m, m.line - 1);
            }
        },
        EditorEvent::GoDown => {
            if m.line < m.lines.len() - 1 {
                lemma_goto_wf(m, m.line + 1);
            }
        },
        EditorEvent::Home => {
            assert(prefix_bytes(s, 0) == 0);
        },
        EditorEvent::End => {
            assert(prefix_bytes(s, s.len() as int) == byte_len(s));
        },
        EditorEvent::KillWordBack => {
            if m.col > 0 {
                lemma_kill_chars_props(s, k);
                let r = kill_chars(s, k);
                assert(is_boundary(r.0, prefix_bytes(r.0, r.1) as int));
            }
        },
    }
}

/// Moving to another line lands the cursor on a boundary of that line.
pub proof fn lemma_goto_wf(m: BufferModel, t: int)
    requires
        model_wf(m),
        0 <= t < m.lines.len(),
    ensures
        model_wf(spec_goto(m, t)),
{
    let s = m.lines[t];
    assert(prefix_bytes(s, 0) == 0);
    crate::text::lemma_floor_from_props(s, 0, m.col);
}

/// Clearing is idempotent and independent of the prior state: `Clear`
/// always yields one empty line with the cursor at its start.
pub proof fn lemma_clear_resets(m: BufferModel)
    ensures
        step(m, EditorEvent::Clear) == empty_model(),
{
}

/// Snapshot round-trip: loading the lines a state exports yields the same
/// lines, with the cursor at the end of the last line.
pub proof fn lemma_snapshot_roundtrip(m: BufferModel)
    requires
        model_wf(m),
    ensures
        loaded(m.lines).lines == m.lines,
        loaded(m.lines).line == m.lines.len() - 1,
        loaded(m.lines).col == byte_len(m.lines.last()),
{
}

/// Edits at the edges of the document do nothing: backspace at the very
/// start, and delete-forward at the very end.
pub proof fn lemma_edge_noops(m: BufferModel)
    requires
        model_wf(m),
    ensures
        m.line == 0 && m.col == 0 ==> step(m, EditorEvent::Backspace) == m,
        m.line == m.lines.len() - 1 && m.col == byte_len(cur_line(m)) ==> step(
            m,
            EditorEvent::Delete,
        ) == m,
{
}

/// Inserting a character moves the displayed cursor column right by exactly
/// that character's displayed width: 2 columns for a wide glyph, 0 for a
/// zero-width one.
pub proof fn lemma_insert_display_width(m: BufferModel, c: char)
    requires
        model_wf(m),
    ensures
        display_col(step(m, EditorEvent::NewCharacter(c))) == display_col(m)
            + char_display_width(c),
{
    let s = cur_line(m);
    let k = char_index_of(s, m.col);
    crate::text::lemma_char_index_props(s, m.col);
    crate::text::lemma_byte_len_insert(s, k, c);
    let m2 = spec_insert(m, c);
    let s2 = s.insert(k, c);
    assert(cur_line(m2) == s2);
    assert(prefix_bytes(s2, k + 1) == m2.col);
    assert(is_boundary(s2, m2.col));
    crate::text::lemma_char_index_props(s2, m2.col);
    crate::text::lemma_prefix_bytes_injective(s2, char_index_of(s2, m2.col), k + 1);
    assert(s2.take(k + 1) =~= s.take(k).push(c));
    crate::width::lemma_seq_width_push(s.take(k), c);
}

} // verus!

