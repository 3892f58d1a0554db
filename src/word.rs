use vstd::prelude::*;

verus! {

/// One handed-off token: its text and how often it has been seen.
#[derive(Clone, Debug)]
pub struct Word {
    data: String,
    count: i32,
}

impl View for Word {
    type V = (Seq<char>, int);

    closed spec fn view(&self) -> (Seq<char>, int) {
        (self.data@, self.count as int)
    }
}

impl Word {
    /// A word seen once.
    pub fn new(data: String) -> (w: Word)
        ensures
            w@ == (data@, 1int),
    {
        Word { data, count: 1 }
    }

    /// Replaces the text and keeps the count.
    pub fn set_data(&mut self, data: String)
        ensures
            final(self)@ == (data@, old(self)@.1),
    {
        self.data = data;
    }

    /// The text.
    pub fn get_data(&self) -> (r: &str)
        ensures
            r@ == self@.0,
    {
        self.data.as_str()
    }

    /// Replaces the count and keeps the text.
    pub fn set_count(&mut self, count: i32)
        ensures
            final(self)@ == (old(self)@.0, count as int),
    {
        self.count = count;
    }

    /// Whether this word carries the same text as `other`.
    pub fn same_text(&self, other: &Word) -> (r: bool)
        ensures
            r == (self@.0 == other@.0),
    {
        self.data == other.data
    }

    /// The count.
    pub fn get_count(&self) -> (r: i32)
        ensures
            r as int == self@.1,
    {
        self.count
    }
}

} // verus!
