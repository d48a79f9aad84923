use vstd::prelude::*;
use vstd::string::*;

verus! {

/// A terminal node holding one contiguous text fragment and its length in
/// characters.
pub struct Leaf {
    pub(crate) length: usize,
    pub(crate) text: String,
}

impl View for Leaf {
    type V = Seq<char>;

    /// The characters held by this leaf.
    closed spec fn view(&self) -> Seq<char> {
        self.text@
    }
}

impl Leaf {
    /// The cached length agrees with the text.
    pub open(crate) spec fn wf(&self) -> bool {
        self.length as nat == self@.len()
    }

    /// Wraps the given text; the length is counted in characters, not bytes.
    pub fn new(data: String) -> (r: Self)
        ensures
            r.wf(),
            r@ == data@,
    {
        let length = data.as_str().unicode_len();
        Leaf { length, text: data }
    }

    pub fn get_length(&self) -> (r: usize)
        requires
            self.wf(),
        ensures
            r as nat == self@.len(),
    {
        self.length
    }

    pub fn get_text(&self) -> (r: String)
        ensures
            r@ == self@,
    {
        self.text.clone()
    }
}

} // verus!
