//! The one-line text buffer for the entry field above the grid: what the
//! user is typing before it is committed to a cell.
use vstd::prelude::*;

verus! {

/// The text being edited, together with the cursor column after it.
#[derive(Debug)]
pub struct Entry {
    text: String,
    pos: u16,
}

impl Entry {
    /// The buffered text.
    pub closed spec fn text_spec(self) -> Seq<char> {
        self.text@
    }

    /// The cursor column.
    pub closed spec fn cursor(self) -> int {
        self.pos as int
    }

    /// An empty entry line.
    pub fn new() -> (r: Entry)
        ensures
            r.text_spec() == Seq::<char>::empty(),
            r.cursor() == 0,
    {
        Entry { text: String::new(), pos: 0 }
    }

    /// The buffered text, for committing it to a cell.
    pub fn text(&self) -> (r: &String)
        ensures
            r@ == self.text_spec(),
    {
        &self.text
    }

    /// Appends a typed character and advances the cursor, reporting the new
    /// cursor column.
    pub fn input(&mut self, ch: char) -> (r: u16)
        requires
            old(self).cursor() < u16::MAX,
        ensures
            final(self).text_spec() == old(self).text_spec().push(ch),
            final(self).cursor() == old(self).cursor() + 1,
            r == final(self).cursor(),
    {
        crate::text::push_char(&mut self.text, ch);
        self.pos = self.pos + 1;
        self.pos
    }

    /// Removes the last buffered character, if any, and moves the cursor
    /// back, reporting the new cursor column.
    pub fn backspace(&mut self) -> (r: u16)
        ensures
            final(self).text_spec() == (if old(self).text_spec().len() > 0 {
                old(self).text_spec().drop_last()
            } else {
                old(self).text_spec()
            }),
            final(self).cursor() == (if old(self).cursor() > 0 {
                old(self).cursor() - 1
            } else {
                0
            }),
            r == final(self).cursor(),
    {
        crate::text::pop_char(&mut self.text);
        if self.pos > 0 {
            self.pos = self.pos - 1;
        }
        self.pos
    }
}

} // verus!
