//! A ready-made producer of tokens: the extended grapheme clusters of a text,
//! one token each.

use crate::text::texts_of;
use unicode_segmentation::UnicodeSegmentation;
use vstd::prelude::*;
use vstd::std_specs::iter::IteratorSpecImpl;

verus! {

/// The extended grapheme clusters of `text`, in order, as Unicode Standard
/// Annex #29 draws their boundaries.
pub uninterp spec fn extended_graphemes(text: Seq<char>) -> Seq<Seq<char>>;

/// `unicode_segmentation::UnicodeSegmentation::graphemes` on `input`, with
/// `is_extended` set, collected into a vector. The contract claims that the
/// slices it yields are [`extended_graphemes`] of the input's characters: it
/// names the result and says no more of it.
#[verifier::external_body]
fn graphemes_of<'a>(input: &'a str) -> (parts: Vec<&'a str>)
    ensures
        texts_of(parts@) == extended_graphemes(input@),
{
    input.graphemes(true).collect()
}

/// The grapheme clusters of a text, handed out one by one.
pub struct Input<'a> {
    data: Vec<&'a str>,
    pos: usize,
}

impl<'a> Input<'a> {
    /// The clusters that are yet to be handed out.
    pub closed spec fn pending(&self) -> Seq<&'a str> {
        if self.pos <= self.data@.len() {
            self.data@.skip(self.pos as int)
        } else {
            Seq::empty()
        }
    }

    /// A producer of the extended grapheme clusters of `input`.
    pub fn new(input: &'a str) -> (source: Self)
        ensures
            texts_of(source.pending()) == extended_graphemes(input@),
    {
        let data = graphemes_of(input);
        let source = Input { data, pos: 0 };
        assert(source.pending() =~= data@);
        source
    }
}

impl<'a> Iterator for Input<'a> {
    type Item = &'a str;

    fn next(&mut self) -> (item: Option<&'a str>)
        ensures
            final(self).pending() == (if old(self).pending().len() > 0 {
                old(self).pending().drop_first()
            } else {
                old(self).pending()
            }),
            item == (if old(self).pending().len() > 0 {
                Some(old(self).pending()[0])
            } else {
                None
            }),
    {
        if self.pos < self.data.len() {
            let item = self.data[self.pos];
            self.pos += 1;
            assert(self.pending() =~= old(self).pending().drop_first());
            Some(item)
        } else {
            None
        }
    }
}

impl<'a> IteratorSpecImpl for Input<'a> {
    open spec fn obeys_prophetic_iter_laws(&self) -> bool {
        true
    }

    open spec fn remaining(&self) -> Seq<Self::Item> {
        self.pending()
    }

    open spec fn will_return_none(&self) -> bool {
        true
    }

    open spec fn decrease(&self) -> Option<nat> {
        Some(self.pending().len())
    }

    open spec fn initial_value_relation(&self, init: &Self) -> bool {
        self.pending() == init.pending()
    }

    open spec fn peek(&self, index: int) -> Option<Self::Item> {
        if 0 <= index < self.pending().len() {
            Some(self.pending()[index])
        } else {
            None
        }
    }
}

} // verus!
