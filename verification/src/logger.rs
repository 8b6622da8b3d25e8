use vstd::prelude::*;
use crate::decimal::{int_decimal, u64_digits};
use crate::text::{chars_of, string_of, copy_str};
use crate::statics::append_chars;

verus! {

/// A record of items, in the order they were logged.
pub struct Logger {
    lines: Vec<String>,
}

/// The line of the `n`-th logged item (counting from 1).
pub open spec fn item_line(n: int, item: Seq<char>) -> Seq<char> {
    "ITEM "@ + int_decimal(n) + ": "@ + item
}

impl Logger {
    pub closed spec fn view(&self) -> Seq<Seq<char>> {
        Seq::new(self.lines@.len(), |i: int| self.lines@[i]@)
    }

    /// An empty log.
    pub fn new() -> (r: Logger)
        ensures
            r.view() == Seq::<Seq<char>>::empty(),
    {
        let r = Logger { lines: Vec::new() };
        assert(r.view() =~= Seq::<Seq<char>>::empty());
        r
    }

    /// Logs `item`.
    pub fn log(&mut self, item: String)
        ensures
            final(self).view() == old(self).view().push(item@),
    {
        let ghost it = item@;
        self.lines.push(item);
        assert(self.view() =~= old(self).view().push(it));
    }

    /// Logs `item`.
    pub fn logs(&mut self, item: &str)
        ensures
            final(self).view() == old(self).view().push(item@),
    {
        self.log(copy_str(item));
    }

    /// The lines of the log's dump: the heading, then `ITEM n: item` for each item.
    pub fn dump(&self) -> (r: Vec<String>)
        ensures
            r@.len() == self.view().len() + 1,
            r@[0]@ == "\n\u{1b}[38;2;255;255;0mLOG DUMP\u{1b}[0m"@,
            forall|i: int| 0 <= i < self.view().len() ==> (#[trigger] r@[i + 1])@ == item_line(i + 1, self.view()[i]),
    {
        let mut out: Vec<String> = Vec::new();
        out.push(copy_str("\n\u{1b}[38;2;255;255;0mLOG DUMP\u{1b}[0m"));
        let mut i: usize = 0;
        while i < self.lines.len()
            invariant
                i <= self.lines.len(),
                out@.len() == i + 1,
                out@[0]@ == "\n\u{1b}[38;2;255;255;0mLOG DUMP\u{1b}[0m"@,
                forall|j: int| 0 <= j < i ==> (#[trigger] out@[j + 1])@ == item_line(j + 1, self.view()[j]),
            decreases self.lines.len() - i,
        {
            let line = append_chars(chars_of("ITEM "), &u64_digits((i + 1) as u64));
            let line = append_chars(line, &chars_of(": "));
            let line = append_chars(line, &chars_of(self.lines[i].as_str()));
            assert(line@ =~= item_line(i + 1, self.view()[i as int]));
            out.push(string_of(&line));
            i += 1;
        }
        out
    }
}

} // verus!
