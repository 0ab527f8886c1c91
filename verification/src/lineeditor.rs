//! The editor state and its event loop: a buffer of lines and a cursor,
//! mutated one `EditorEvent` at a time.
//!
//! Every method is proved against the transition function
//! [`crate::semantics::step`]; the structural invariant [`EditorState::wf`]
//! holds after every call.

use vstd::prelude::*;
use crate::semantics::cur_line;
use crate::semantics::display_col;
use crate::semantics::empty_model;
use crate::semantics::event_fits;
use crate::semantics::kill_chars;
use crate::semantics::lemma_kill_chars_props;
use crate::semantics::lemma_step_preserves_wf;
use crate::semantics::loaded;
use crate::semantics::model_wf;
use crate::semantics::spec_backspace;
use crate::semantics::spec_delete;
use crate::semantics::spec_goto;
use crate::semantics::spec_insert;
use crate::semantics::spec_kill_word;
use crate::semantics::spec_left;
use crate::semantics::spec_right;
use crate::semantics::spec_split;
use crate::semantics::step;
use crate::semantics::BufferModel;
use crate::text::byte_len;
use crate::text::char_bytes;
use crate::text::char_index_of;
use crate::text::char_len;
use crate::text::chars_to_string;
use crate::text::find_char_index;
use crate::text::floor_char_index;
use crate::text::floor_from;
use crate::text::lemma_boundary_le;
use crate::text::lemma_byte_len_concat;
use crate::text::lemma_byte_len_insert;
use crate::text::lemma_byte_len_remove;
use crate::text::lemma_char_index_props;
use crate::text::lemma_prefix_bytes_injective;
use crate::text::lemma_prefix_bytes_mono;
use crate::text::line_byte_len;
use crate::text::prefix_bytes;
use crate::text::str_to_chars;
use crate::width::prefix_width;

verus! {

/// A multi-line text buffer with a cursor. `cursor_col` is a byte offset
/// into the UTF-8 encoding of the line at `cursor_line`, always on a
/// character boundary.
#[derive(Debug, Clone)]
pub struct EditorState {
    lines: Vec<Vec<char>>,
    pub cursor_line: usize,
    pub cursor_col: usize,
}

/// The edit events the editor understands. Applying one never fails; an
/// event whose precondition does not hold leaves the state unchanged.
pub enum EditorEvent {
    NewCharacter(char),
    NewLine,
    Backspace,
    Delete,
    Clear,
    GoLeft,
    GoRight,
    GoUp,
    GoDown,
    Home,
    End,
    KillWordBack,
}

/// The character sequences held by a vector of lines.
pub open spec fn lines_view(v: Seq<Vec<char>>) -> Seq<Seq<char>> {
    Seq::new(v.len(), |i: int| v[i]@)
}

impl EditorState {
    /// The state as the mathematical model sees it.
    pub closed spec fn abs(&self) -> BufferModel {
        BufferModel {
            lines: lines_view(self.lines@),
            line: self.cursor_line as int,
            col: self.cursor_col as int,
        }
    }

    /// Structural invariant, plus the machine-level bound that every line's
    /// byte length fits in a `usize`.
    pub closed spec fn wf(&self) -> bool {
        &&& model_wf(self.abs())
        &&& forall|i: int|
            0 <= i < self.lines@.len() ==> byte_len(#[trigger] self.lines@[i]@) <= usize::MAX
    }

    /// A fresh buffer: one empty line, cursor at its start.
    pub fn new() -> (r: EditorState)
        ensures
            r.wf(),
            r.abs() == empty_model(),
    {
        let r = EditorState { lines: vec![Vec::new()], cursor_line: 0, cursor_col: 0 };
        proof {
            assert(prefix_bytes(r.lines@[0]@, 0) == 0);
            assert(r.abs() =~~= empty_model());
        }
        r
    }

    /// Replaces the whole content. An empty list is normalized to one empty
    /// line; the cursor goes to the end of the last line.
    pub fn set_content(&mut self, new_content: &Vec<String>)
        ensures
            final(self).wf(),
            final(self).abs() == loaded(new_content.deep_view()),
    {
        if new_content.len() == 0 {
            let mut ls: Vec<Vec<char>> = Vec::new();
            ls.push(Vec::new());
            self.lines = ls;
            self.cursor_line = 0;
            self.cursor_col = 0;
            proof {
                assert(prefix_bytes(self.lines@[0]@, 0) == 0);
                assert(self.abs() =~~= empty_model());
            }
        } else {
            let n = new_content.len();
            let mut ls: Vec<Vec<char>> = Vec::new();
            let mut i: usize = 0;
            while i < n
                invariant
                    i <= n,
                    n == new_content@.len(),
                    ls@.len() == i,
                    forall|j: int| 0 <= j < i ==> #[trigger] ls@[j]@ == new_content@[j]@,
                    forall|j: int| 0 <= j < i ==> byte_len(#[trigger] ls@[j]@) <= usize::MAX,
                decreases n - i,
            {
                ls.push(str_to_chars(new_content[i].as_str()));
                i = i + 1;
            }
            self.lines = ls;
            self.cursor_line = n - 1;
            let col = line_byte_len(&self.lines[n - 1]);
            self.cursor_col = col;
            proof {
                let m = loaded(new_content.deep_view());
                assert(new_content.deep_view().len() == n);
                assert(self.abs().lines =~~= m.lines);
                assert(byte_len(self.lines@[n - 1 as int]@) == byte_len(
                    new_content.deep_view().last(),
                ));
                assert(self.abs() =~~= m);
                assert(prefix_bytes(cur_line(m), cur_line(m).len() as int) == m.col);
            }
        }
    }

    /// All lines, concatenated in order with nothing in between.
    pub fn content_str(&self) -> (r: String)
        ensures
            r@ == self.abs().lines.flatten(),
    {
        let n = self.lines.len();
        let mut r = String::new();
        let mut i: usize = 0;
        while i < n
            invariant
                i <= n,
                n == self.lines@.len(),
                r@ == lines_view(self.lines@).take(i as int).flatten(),
            decreases n - i,
        {
            let part = chars_to_string(&self.lines[i]);
            r.append(part.as_str());
            proof {
                let lv = lines_view(self.lines@);
                assert(lv.take(i as int + 1) =~= lv.take(i as int).push(lv[i as int]));
                lv.take(i as int).lemma_flatten_push(lv[i as int]);
            }
            i = i + 1;
        }
        proof {
            assert(lines_view(self.lines@).take(n as int) =~= lines_view(self.lines@));
        }
        r
    }

    /// Export the buffer as a history entry: a snapshot of its lines.
    pub fn content_to_commandentry(&self) -> (e: crate::snapshot::CommandEntry)
        ensures
            e@ == self.abs().lines,
    {
        let ls = self.content_lines();
        crate::snapshot::CommandEntry::new(&ls)
    }

    /// Restore a history entry: the buffer takes the snapshot's lines and
    /// the cursor goes to the end of the last line.
    pub fn load_commandentry(&mut self, entry: &crate::snapshot::CommandEntry)
        ensures
            final(self).wf(),
            final(self).abs() == loaded(entry@),
    {
        let ls = entry.lines();
        self.set_content(&ls);
    }

    /// A copy of the ordered line sequence.
    pub fn content_lines(&self) -> (r: Vec<String>)
        ensures
            r.deep_view() == self.abs().lines,
    {
        let n = self.lines.len();
        let mut r: Vec<String> = Vec::new();
        let mut i: usize = 0;
        while i < n
            invariant
                i <= n,
                n == self.lines@.len(),
                r@.len() == i,
                forall|j: int| 0 <= j < i ==> #[trigger] r@[j]@ == self.lines@[j]@,
            decreases n - i,
        {
            r.push(chars_to_string(&self.lines[i]));
            i = i + 1;
        }
        proof {
            assert(r.deep_view() =~~= self.abs().lines);
        }
        r
    }

    /// A copy of the line the cursor is on.
    pub fn current_line(&self) -> (r: String)
        requires
            self.wf(),
        ensures
            r@ == cur_line(self.abs()),
    {
        chars_to_string(&self.lines[self.cursor_line])
    }

    /// The terminal column the cursor is displayed at: the total width of
    /// the characters before it on its line.
    pub fn displayed_cursor_column(&self) -> (w: usize)
        requires
            self.wf(),
        ensures
            w == display_col(self.abs()),
    {
        let line = &self.lines[self.cursor_line];
        let k = find_char_index(line, self.cursor_col);
        proof {
            lemma_prefix_bytes_injective(line@, k as int, char_index_of(line@, self.cursor_col as int));
        }
        prefix_width(line, k)
    }

    /// Insert `c` at the cursor and step past it.
    fn insert_char(&mut self, c: char)
        requires
            old(self).wf(),
            event_fits(old(self).abs(), EditorEvent::NewCharacter(c)),
        ensures
            final(self).wf(),
            final(self).abs() == spec_insert(old(self).abs(), c),
    {
        let ghost m = old(self).abs();
        let ghost li = self.cursor_line as int;
        let ghost s = self.lines@[li]@;
        let k = find_char_index(&self.lines[self.cursor_line], self.cursor_col);
        let cl = char_len(c);
        proof {
            lemma_char_index_props(s, m.col);
            lemma_prefix_bytes_injective(s, k as int, char_index_of(s, m.col));
            lemma_boundary_le(s, m.col);
            lemma_byte_len_insert(s, k as int, c);
        }
        let line = &mut self.lines[self.cursor_line];
        line.insert(k, c);
        self.cursor_col = self.cursor_col + cl;
        proof {
            assert(self.abs() =~~= spec_insert(m, c));
            lemma_step_preserves_wf(m, EditorEvent::NewCharacter(c));
            assert forall|j: int| 0 <= j < self.lines@.len() implies byte_len(
                #[trigger] self.lines@[j]@,
            ) <= usize::MAX by {
                if j != li {
                    assert(self.lines@[j]@ == old(self).lines@[j]@);
                }
            }
        }
    }

    /// Split the cursor's line at the cursor; the cursor moves to the start
    /// of the new line.
    fn split_line(&mut self)
        requires
            old(self).wf(),
        ensures
            final(self).wf(),
            final(self).abs() == spec_split(old(self).abs()),
    {
        let ghost m = old(self).abs();
        let ghost li = self.cursor_line as int;
        let ghost s = self.lines@[li]@;
        let n = self.lines.len();
        let k = find_char_index(&self.lines[self.cursor_line], self.cursor_col);
        proof {
            lemma_char_index_props(s, m.col);
            lemma_prefix_bytes_injective(s, k as int, char_index_of(s, m.col));
        }
        let line = &mut self.lines[self.cursor_line];
        let rest = line.split_off(k);
        self.lines.insert(self.cursor_line + 1, rest);
        self.cursor_line = self.cursor_line + 1;
        self.cursor_col = 0;
        proof {
            assert(s.subrange(0, k as int) =~= s.take(k as int));
            assert(s.subrange(k as int, s.len() as int) =~= s.skip(k as int));
            assert(self.abs() =~~= spec_split(m));
            lemma_step_preserves_wf(m, EditorEvent::NewLine);
            assert(s =~= s.take(k as int) + s.skip(k as int));
            lemma_byte_len_concat(s.take(k as int), s.skip(k as int));
            assert forall|j: int| 0 <= j < self.lines@.len() implies byte_len(
                #[trigger] self.lines@[j]@,
            ) <= usize::MAX by {
                if j < li {
                    assert(self.lines@[j]@ == old(self).lines@[j]@);
                } else if j > li + 1 {
                    assert(self.lines@[j]@ == old(self).lines@[j - 1]@);
                }
            }
        }
    }

    /// Reset to the empty buffer: one empty line, cursor at its start.
    fn clear_all(&mut self)
        ensures
            final(self).wf(),
            final(self).abs() == empty_model(),
    {
        let mut ls: Vec<Vec<char>> = Vec::new();
        ls.push(Vec::new());
        self.lines = ls;
        self.cursor_line = 0;
        self.cursor_col = 0;
        proof {
            assert(prefix_bytes(self.lines@[0]@, 0) == 0);
            assert(self.abs() =~~= empty_model());
        }
    }

    /// Remove the character before the cursor, or merge with the line
    /// above; no-op at the document start.
    fn backspace(&mut self)
        requires
            old(self).wf(),
            event_fits(old(self).abs(), EditorEvent::Backspace),
        ensures
            final(self).wf(),
            final(self).abs() == spec_backspace(old(self).abs()),
    {
        let ghost m = old(self).abs();
        let ghost li = self.cursor_line as int;
        let ghost s = self.lines@[li]@;
        if self.cursor_col > 0 {
            let k = find_char_index(&self.lines[self.cursor_line], self.cursor_col);
            proof {
                lemma_char_index_props(s, m.col);
                lemma_prefix_bytes_injective(s, k as int, char_index_of(s, m.col));
                assert(k >= 1) by {
                    assert(prefix_bytes(s, 0) == 0);
                }
            }
            let c = self.lines[self.cursor_line][k - 1];
            let cl = char_len(c);
            let line = &mut self.lines[self.cursor_line];
            line.remove(k - 1);
            self.cursor_col = self.cursor_col - cl;
            proof {
                lemma_byte_len_remove(s, k as int - 1);
                assert(self.abs() =~~= spec_backspace(m));
                lemma_step_preserves_wf(m, EditorEvent::Backspace);
                assert forall|j: int| 0 <= j < self.lines@.len() implies byte_len(
                    #[trigger] self.lines@[j]@,
                ) <= usize::MAX by {
                    if j != li {
                        assert(self.lines@[j]@ == old(self).lines@[j]@);
                    }
                }
            }
        } else if self.cursor_line > 0 {
            let mut removed = self.lines.remove(self.cursor_line);
            self.cursor_line = self.cursor_line - 1;
            let col = line_byte_len(&self.lines[self.cursor_line]);
            self.cursor_col = col;
            let line = &mut self.lines[self.cursor_line];
            line.append(&mut removed);
            proof {
                lemma_byte_len_concat(old(self).lines@[li - 1]@, s);
                assert(self.abs() =~~= spec_backspace(m));
                lemma_step_preserves_wf(m, EditorEvent::Backspace);
                assert forall|j: int| 0 <= j < self.lines@.len() implies byte_len(
                    #[trigger] self.lines@[j]@,
                ) <= usize::MAX by {
                    if j < li - 1 {
                        assert(self.lines@[j]@ == old(self).lines@[j]@);
                    } else if j > li - 1 {
                        assert(self.lines@[j]@ == old(self).lines@[j + 1]@);
                    }
                }
            }
        }
    }

    /// Remove the character at the cursor, or merge the next line into this
    /// one; no-op at the document end.
    fn delete_forward(&mut self)
        requires
            old(self).wf(),
            event_fits(old(self).abs(), EditorEvent::Delete),
        ensures
            final(self).wf(),
            final(self).abs() == spec_delete(old(self).abs()),
    {
        let ghost m = old(self).abs();
        let ghost li = self.cursor_line as int;
        let ghost s = self.lines@[li]@;
        let n = self.lines.len();
        let k = find_char_index(&self.lines[self.cursor_line], self.cursor_col);
        let line_chars = self.lines[self.cursor_line].len();
        proof {
            lemma_char_index_props(s, m.col);
            lemma_prefix_bytes_injective(s, k as int, char_index_of(s, m.col));
            lemma_boundary_le(s, m.col);
            if (k as int) < s.len() {
                lemma_prefix_bytes_mono(s, k as int + 1, s.len() as int);
            }
        }
        if k < line_chars {
            let line = &mut self.lines[self.cursor_line];
            line.remove(k);
            proof {
                assert(m.col < byte_len(s));
                lemma_byte_len_remove(s, k as int);
                assert(self.abs() =~~= spec_delete(m));
                lemma_step_preserves_wf(m, EditorEvent::Delete);
                assert forall|j: int| 0 <= j < self.lines@.len() implies byte_len(
                    #[trigger] self.lines@[j]@,
                ) <= usize::MAX by {
                    if j != li {
                        assert(self.lines@[j]@ == old(self).lines@[j]@);
                    }
                }
            }
        } else if self.cursor_line + 1 < n {
            proof {
                assert(m.col == byte_len(s));
            }
            let mut removed = self.lines.remove(self.cursor_line + 1);
            let line = &mut self.lines[self.cursor_line];
            line.append(&mut removed);
            proof {
                lemma_byte_len_concat(s, old(self).lines@[li + 1]@);
                assert(self.abs() =~~= spec_delete(m));
                lemma_step_preserves_wf(m, EditorEvent::Delete);
                assert forall|j: int| 0 <= j < self.lines@.len() implies byte_len(
                    #[trigger] self.lines@[j]@,
                ) <= usize::MAX by {
                    if j < li {
                        assert(self.lines@[j]@ == old(self).lines@[j]@);
                    } else if j > li {
                        assert(self.lines@[j]@ == old(self).lines@[j + 1]@);
                    }
                }
            }
        } else {
            proof {
                assert(m.col == byte_len(s));
                assert(self.abs() =~~= spec_delete(m));
            }
        }
    }

    /// Step the cursor one character left, crossing to the end of the line
    /// above at a line start; no-op at the document start.
    fn move_left(&mut self)
        requires
            old(self).wf(),
        ensures
            final(self).wf(),
            final(self).abs() == spec_left(old(self).abs()),
    {
        let ghost m = old(self).abs();
        let ghost li = self.cursor_line as int;
        let ghost s = self.lines@[li]@;
        if self.cursor_col > 0 {
            let r = crate::text::prev_boundary(&self.lines[self.cursor_line], self.cursor_col);
            self.cursor_col = r;
            proof {
                lemma_char_index_props(s, m.col);
                let k = char_index_of(s, m.col);
                assert(k >= 1) by {
                    assert(prefix_bytes(s, 0) == 0);
                }
                assert(prefix_bytes(s, k) == prefix_bytes(s, k - 1) + char_bytes(s[k - 1]));
                assert(self.abs() =~~= spec_left(m));
                lemma_step_preserves_wf(m, EditorEvent::GoLeft);
            }
        } else if self.cursor_line > 0 {
            self.cursor_line = self.cursor_line - 1;
            let col = line_byte_len(&self.lines[self.cursor_line]);
            self.cursor_col = col;
            proof {
                assert(self.abs() =~~= spec_left(m));
                lemma_step_preserves_wf(m, EditorEvent::GoLeft);
            }
        }
    }

    /// Step the cursor one character right, crossing to the start of the
    /// line below at a line end; no-op at the document end.
    fn move_right(&mut self)
        requires
            old(self).wf(),
        ensures
            final(self).wf(),
            final(self).abs() == spec_right(old(self).abs()),
    {
        let ghost m = old(self).abs();
        let ghost li = self.cursor_line as int;
        let ghost s = self.lines@[li]@;
        let n = self.lines.len();
        let line_len = line_byte_len(&self.lines[self.cursor_line]);
        if self.cursor_col < line_len {
            let r = crate::text::next_boundary(&self.lines[self.cursor_line], self.cursor_col);
            self.cursor_col = r;
            proof {
                lemma_char_index_props(s, m.col);
                let k = char_index_of(s, m.col);
                assert(prefix_bytes(s, k + 1) == prefix_bytes(s, k) + char_bytes(s[k]));
                assert(self.abs() =~~= spec_right(m));
                lemma_step_preserves_wf(m, EditorEvent::GoRight);
            }
        } else if self.cursor_line + 1 < n {
            proof {
                lemma_boundary_le(s, m.col);
            }
            self.cursor_line = self.cursor_line + 1;
            self.cursor_col = 0;
            proof {
                assert(self.abs() =~~= spec_right(m));
                lemma_step_preserves_wf(m, EditorEvent::GoRight);
            }
        } else {
            proof {
                lemma_boundary_le(s, m.col);
                assert(self.abs() =~~= spec_right(m));
            }
        }
    }

    /// Go to another line, keeping the cursor column where a boundary of
    /// that line falls on it, else snapping down to the last boundary that
    /// fits.
    fn goto_line(&mut self, line_nr: usize)
        requires
            old(self).wf(),
            line_nr < old(self).abs().lines.len(),
        ensures
            final(self).wf(),
            final(self).abs() == spec_goto(old(self).abs(), line_nr as int),
    {
        let ghost m = old(self).abs();
        self.cursor_line = line_nr;
        let line = &self.lines[line_nr];
        let ghost s = line@;
        let b = self.cursor_col;
        let n = line.len();
        let mut k: usize = 0;
        let mut acc: usize = 0;
        proof {
            assert(prefix_bytes(s, 0) == 0);
        }
        while k < n
            invariant_except_break
                k <= n,
                n == s.len(),
                line@ == s,
                acc == prefix_bytes(s, k as int),
                acc <= b,
                floor_from(s, k as int, b as int) == floor_char_index(s, b as int),
            ensures
                acc == prefix_bytes(s, floor_char_index(s, b as int)),
            decreases n - k,
        {
            let cl = char_len(line[k]);
            proof {
                assert(prefix_bytes(s, k as int + 1) == acc + cl);
            }
            if cl <= b - acc {
                acc = acc + cl;
                k = k + 1;
            } else {
                proof {
                    assert(floor_from(s, k as int, b as int) == k as int);
                }
                break ;
            }
        }
        self.cursor_col = acc;
        proof {
            assert(self.abs() =~~= spec_goto(m, line_nr as int));
            crate::semantics::lemma_goto_wf(m, line_nr as int);
        }
    }

    /// Delete characters before the cursor up to and including the nearest
    /// delimiter, or to the start of the line; no-op at a line start.
    fn kill_word_back(&mut self)
        requires
            old(self).wf(),
        ensures
            final(self).wf(),
            final(self).abs() == spec_kill_word(old(self).abs()),
    {
        let ghost m = old(self).abs();
        let ghost li = self.cursor_line as int;
        let ghost s0 = self.lines@[li]@;
        if self.cursor_col == 0 {
            proof {
                assert(self.abs() =~~= spec_kill_word(m));
            }
            return ;
        }
        let mut k = find_char_index(&self.lines[self.cursor_line], self.cursor_col);
        let ghost k0 = k as int;
        proof {
            lemma_char_index_props(s0, m.col);
            lemma_prefix_bytes_injective(s0, k0, char_index_of(s0, m.col));
            assert(k >= 1) by {
                assert(prefix_bytes(s0, 0) == 0);
            }
        }
        loop
            invariant_except_break
                1 <= k,
                self.cursor_line == old(self).cursor_line,
                li == self.cursor_line as int,
                0 <= li < self.lines@.len(),
                self.lines@.len() == old(self).lines@.len(),
                forall|j: int|
                    0 <= j < self.lines@.len() && j != li ==> self.lines@[j] == old(
                        self,
                    ).lines@[j],
                k <= self.lines@[li]@.len(),
                self.cursor_col == prefix_bytes(self.lines@[li]@, k as int),
                byte_len(self.lines@[li]@) <= byte_len(s0),
                kill_chars(self.lines@[li]@, k as int) == kill_chars(s0, k0),
            ensures
                self.cursor_line == old(self).cursor_line,
                self.lines@.len() == old(self).lines@.len(),
                forall|j: int|
                    0 <= j < self.lines@.len() && j != li ==> self.lines@[j] == old(
                        self,
                    ).lines@[j],
                self.lines@[li]@ == kill_chars(s0, k0).0,
                self.cursor_col == prefix_bytes(kill_chars(s0, k0).0, kill_chars(s0, k0).1),
                byte_len(self.lines@[li]@) <= byte_len(s0),
            decreases k,
        {
            let ghost s_cur = self.lines@[li]@;
            let c = self.lines[self.cursor_line][k - 1];
            let cl = char_len(c);
            proof {
                assert(prefix_bytes(s_cur, k as int) == prefix_bytes(s_cur, k as int - 1)
                    + char_bytes(s_cur[k as int - 1]));
            }
            let line = &mut self.lines[self.cursor_line];
            line.remove(k - 1);
            k = k - 1;
            self.cursor_col = self.cursor_col - cl;
            proof {
                lemma_byte_len_remove(s_cur, k as int);
            }
            if c == ' ' || c == '/' || c == '\\' || c == ':' || c == '_' || c == '-' || k == 0 {
                break ;
            }
        }
        proof {
            lemma_kill_chars_props(s0, k0);
            assert(self.abs() =~~= spec_kill_word(m));
            lemma_step_preserves_wf(m, EditorEvent::KillWordBack);
            assert forall|j: int| 0 <= j < self.lines@.len() implies byte_len(
                #[trigger] self.lines@[j]@,
            ) <= usize::MAX by {
                if j != li {
                    assert(self.lines@[j]@ == old(self).lines@[j]@);
                }
            }
        }
    }

    /// Apply one edit event: the state steps as the transition table
    /// [`crate::semantics::step`] says, and the structural invariant is
    /// preserved. Events whose precondition does not hold are no-ops.
    pub fn apply_event(&mut self, event: EditorEvent)
        requires
            old(self).wf(),
            event_fits(old(self).abs(), event),
        ensures
            final(self).wf(),
            final(self).abs() == step(old(self).abs(), event),
    {
        match event {
            EditorEvent::NewCharacter(c) => self.insert_char(c),
            EditorEvent::NewLine => self.split_line(),
            EditorEvent::Backspace => self.backspace(),
            EditorEvent::Delete => self.delete_forward(),
            EditorEvent::Clear => self.clear_all(),
            EditorEvent::GoLeft => self.move_left(),
            EditorEvent::GoRight => self.move_right(),
            EditorEvent::GoUp => {
                if self.cursor_line > 0 {
                    let t = self.cursor_line - 1;
                    self.goto_line(t);
                }
            },
            EditorEvent::GoDown => {
                let n = self.lines.len();
                if self.cursor_line + 1 < n {
                    let t = self.cursor_line + 1;
                    self.goto_line(t);
                }
            },
            EditorEvent::Home => self.move_home(),
            EditorEvent::End => self.move_end(),
            EditorEvent::KillWordBack => self.kill_word_back(),
        }
    }

    /// Move to the start of the current line.
    fn move_home(&mut self)
        requires
            old(self).wf(),
        ensures
            final(self).wf(),
            final(self).abs() == step(old(self).abs(), EditorEvent::Home),
    {
        let ghost m = old(self).abs();
        self.cursor_col = 0;
        proof {
            assert(self.abs() =~~= step(m, EditorEvent::Home));
            lemma_step_preserves_wf(m, EditorEvent::Home);
        }
    }

    /// Move to the end of the current line.
    fn move_end(&mut self)
        requires
            old(self).wf(),
        ensures
            final(self).wf(),
            final(self).abs() == step(old(self).abs(), EditorEvent::End),
    {
        let ghost m = old(self).abs();
        let col = line_byte_len(&self.lines[self.cursor_line]);
        self.cursor_col = col;
        proof {
            assert(self.abs() =~~= step(m, EditorEvent::End));
            lemma_step_preserves_wf(m, EditorEvent::End);
        }
    }
}

} // verus!
