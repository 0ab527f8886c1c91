//! Whole-buffer snapshots: the representation the editor exchanges with
//! history and bookmark storage — an ordered list of plain text lines,
//! with no cursor or formatting state.

use vstd::prelude::*;

verus! {

/// One stored entry: the lines of a buffer at some moment.
#[derive(Debug, Clone)]
pub struct CommandEntry {
    lines: Vec<String>,
}

impl View for CommandEntry {
    type V = Seq<Seq<char>>;

    closed spec fn view(&self) -> Seq<Seq<char>> {
        Seq::new(self.lines@.len(), |i: int| self.lines@[i]@)
    }
}

impl CommandEntry {
    /// An entry holding a copy of the given lines.
    pub fn new(lines: &Vec<String>) -> (e: CommandEntry)
        ensures
            e@ == lines.deep_view(),
    {
        let n = lines.len();
        let mut ls: Vec<String> = Vec::new();
        let mut i: usize = 0;
        while i < n
            invariant
                i <= n,
                n == lines@.len(),
                ls@.len() == i,
                forall|j: int| 0 <= j < i ==> #[trigger] ls@[j]@ == lines@[j]@,
            decreases n - i,
        {
            ls.push(lines[i].clone());
            i = i + 1;
        }
        let e = CommandEntry { lines: ls };
        proof {
            assert(e@ =~~= lines.deep_view());
        }
        e
    }

    /// A copy of the stored lines.
    pub fn lines(&self) -> (r: Vec<String>)
        ensures
            r.deep_view() == self@,
    {
        let n = self.lines.len();
        let mut r: Vec<String> = Vec::new();
        let mut i: usize = 0;
        while i < n
            invariant
                i <= n,
                n == self.lines@.len(),
                r@.len() == i,
                forall|j: int| 0 <= j < i ==> #[trigger] r@[j]@ == self.lines@[j]@,
            decreases n - i,
        {
            r.push(self.lines[i].clone());
            i = i + 1;
        }
        proof {
            assert(r.deep_view() =~~= self@);
        }
        r
    }
}

} // verus!
