//! The token buffer: it pulls tokens lazily from a producer, retains every
//! token it has pulled, and moves a cursor over what it retains.
//!
//! The model is a fixed sequence of tokens, the *stream*, and a position in it.
//! The stream is what the buffer retains followed by what the producer has yet
//! to give. The second part is known to the verifier only as a prophecy
//! (`IteratorSpec::remaining`), and a prophecy cannot be read inside an
//! ordinary spec function; so [`Tokenizer::stream`] takes it as an argument,
//! and contracts write `t.stream(t.source().remaining())`.

use vstd::prelude::*;
use vstd::std_specs::iter::IteratorSpec;

verus! {

/// The token at `pos` of `stream`, if the stream reaches that far.
pub open spec fn token_at<T>(stream: Seq<T>, pos: int) -> Option<T> {
    if 0 <= pos < stream.len() {
        Some(stream[pos])
    } else {
        None
    }
}

/// What a buffer retains after a look at the token at `pos` of `stream`,
/// where it retained `retained` before: the same where that holds the token
/// already, else one token more, if the stream has one.
pub open spec fn retained_after_look<T>(stream: Seq<T>, retained: Seq<T>, pos: int) -> Seq<T> {
    if pos < retained.len() || pos >= stream.len() {
        retained
    } else {
        retained.push(stream[pos])
    }
}

/// A buffer of tokens over the producer `G`.
#[verifier::reject_recursive_types(T)]
#[verifier::reject_recursive_types(G)]
pub struct Tokenizer<T, G> where T: Copy + PartialEq, G: Iterator<Item = T> {
    tokengen: G,
    tokens: Vec<T>,
    pos: usize,
    /// Set once the producer has answered that it has no more tokens; it is
    /// not asked again.
    exhausted: bool,
}

impl<T, G> Tokenizer<T, G> where T: Copy + PartialEq, G: Iterator<Item = T> {
    /// The tokens pulled so far, in the order in which they came.
    pub closed spec fn buffered(&self) -> Seq<T> {
        self.tokens@
    }

    /// The producer in its present state.
    pub closed spec fn source(&self) -> G {
        self.tokengen
    }

    /// The cursor.
    pub closed spec fn spec_mark(&self) -> usize {
        self.pos
    }

    /// The whole stream, where `rest` is what the producer has yet to give.
    pub closed spec fn stream(&self, rest: Seq<T>) -> Seq<T> {
        if self.exhausted {
            self.tokens@
        } else {
            self.tokens@ + rest
        }
    }

    /// An upper bound on the length of the stream: the number of tokens
    /// retained, plus the producer's own measure of what it may still give.
    /// No operation raises it, which is what bounds the loops of a parser.
    pub closed spec fn horizon(&self) -> nat {
        if self.exhausted {
            self.tokens@.len()
        } else {
            self.tokens@.len() + self.tokengen.decrease()->0
        }
    }

    /// The cursor lies within what is retained, and the producer is one that
    /// comes to an end and then stays there.
    pub closed spec fn wf(&self) -> bool {
        &&& self.pos <= self.tokens@.len()
        &&& self.tokengen.obeys_prophetic_iter_laws()
        &&& self.tokengen.decrease() is Some
    }

    /// `self` is a state that a well-formed buffer in state `before` may have
    /// come to: nothing retained was dropped and the horizon did not rise.
    pub open spec fn follows(&self, before: &Self) -> bool {
        &&& self.wf()
        &&& before.buffered().len() <= self.buffered().len()
        &&& self.horizon() <= before.horizon()
    }

    /// `self` with its cursor at `pos`.
    pub closed spec fn moved_to(self, pos: usize) -> Self {
        Tokenizer { pos, ..self }
    }

    /// Wraps a producer, which must be one that comes to an end and then
    /// stays there. Nothing is pulled yet.
    pub fn new(tokengen: G) -> (t: Self)
        requires
            tokengen.obeys_prophetic_iter_laws(),
            tokengen.decrease() is Some,
        ensures
            t.wf(),
            t.buffered() == Seq::<T>::empty(),
            t.source() == tokengen,
            t.spec_mark() == 0,
            t.stream(tokengen.remaining()) == tokengen.remaining(),
    {
        let t = Self { tokengen, tokens: Vec::new(), pos: 0, exhausted: false };
        assert(t.tokens@ + t.tokengen.remaining() =~= t.tokengen.remaining());
        t
    }

    /// The cursor.
    #[verifier::when_used_as_spec(spec_mark)]
    pub fn mark(self: &Self) -> (pos: usize)
        ensures
            pos == self.spec_mark(),
    {
        self.pos
    }

    /// Puts the cursor at `pos`, a position within what is retained.
    pub fn reset(self: &mut Self, pos: usize)
        requires
            pos <= old(self).buffered().len(),
        ensures
            *final(self) == old(self).moved_to(pos),
            final(self).spec_mark() == pos,
            final(self).buffered() == old(self).buffered(),
            final(self).source() == old(self).source(),
            final(self).horizon() == old(self).horizon(),
            forall|rest: Seq<T>| #[trigger] final(self).stream(rest) == old(self).stream(rest),
            old(self).wf() ==> final(self).wf(),
    {
        self.pos = pos;
    }

    /// The token under the cursor, if the stream reaches that far. The cursor
    /// stays. One token is pulled where the cursor stands at the end of what
    /// is retained and the producer has not yet come to its end.
    pub fn peek_token(self: &mut Self) -> (r: Option<T>)
        requires
            old(self).wf(),
        ensures
            final(self).follows(old(self)),
            final(self).stream(final(self).source().remaining()) == old(self).stream(
                old(self).source().remaining(),
            ),
            final(self).spec_mark() == old(self).spec_mark(),
            r == token_at(
                old(self).stream(old(self).source().remaining()),
                old(self).spec_mark() as int,
            ),
            r is Some ==> final(self).spec_mark() < final(self).buffered().len(),
            old(self).spec_mark() < old(self).buffered().len() ==> *final(self) == *old(self),
            final(self).buffered() == retained_after_look(
                old(self).stream(old(self).source().remaining()),
                old(self).buffered(),
                old(self).spec_mark() as int,
            ),
    {
        while self.pos >= self.tokens.len()
            invariant
                self.follows(old(self)),
                self.stream(self.tokengen.remaining()) == old(self).stream(
                    old(self).tokengen.remaining(),
                ),
                self.pos == old(self).pos,
                self.tokens.len() == old(self).tokens.len() ==> *self == *old(self),
                self.tokens.len() != old(self).tokens.len() ==> self.pos == old(self).tokens.len()
                    && self.tokens@ == old(self).tokens@.push(self.tokens@[self.pos as int]),
            decreases
                    (if self.pos >= self.tokens.len() {
                        1int
                    } else {
                        0int
                    }),
        {
            if self.exhausted {
                return None;
            }
            match self.tokengen.next() {
                None => {
                    self.exhausted = true;
                    assert(self.tokens@ + old(self).tokengen.remaining() =~= self.tokens@);
                    return None;
                },
                Some(token) => {
                    self.tokens.push(token);
                    assert(self.tokens@ + self.tokengen.remaining() =~= old(self).tokens@ + old(
                        self,
                    ).tokengen.remaining());
                },
            }
        }
        Some(self.tokens[self.pos])
    }

    /// The token under the cursor, if the stream reaches that far; the cursor
    /// then moves past it.
    pub fn get_token(self: &mut Self) -> (r: Option<T>)
        requires
            old(self).wf(),
        ensures
            final(self).follows(old(self)),
            final(self).stream(final(self).source().remaining()) == old(self).stream(
                old(self).source().remaining(),
            ),
            r == token_at(
                old(self).stream(old(self).source().remaining()),
                old(self).spec_mark() as int,
            ),
            final(self).spec_mark() == old(self).spec_mark() + (if r is Some {
                1int
            } else {
                0int
            }),
            final(self).buffered() == retained_after_look(
                old(self).stream(old(self).source().remaining()),
                old(self).buffered(),
                old(self).spec_mark() as int,
            ),
    {
        match self.peek_token() {
            None => None,
            Some(token) => {
                assert(self.pos < self.tokens.len());
                self.pos += 1;
                Some(token)
            },
        }
    }

    /// In a well-formed buffer the cursor is within what is retained, and that
    /// is within the horizon.
    pub proof fn lemma_bounds(&self)
        requires
            self.wf(),
        ensures
            self.spec_mark() <= self.buffered().len() <= self.horizon(),
    {
    }

    /// What is retained is the beginning of the stream.
    pub proof fn lemma_buffered_begins_stream(&self, rest: Seq<T>)
        ensures
            self.buffered().len() <= self.stream(rest).len(),
            self.buffered() == self.stream(rest).take(self.buffered().len() as int),
    {
        assert(self.buffered() =~= self.stream(rest).take(self.buffered().len() as int));
    }

    /// Nothing retained is ever dropped or changed: of two states of a buffer
    /// over one stream, the one that retains more retains what the other
    /// does, in the same places.
    pub proof fn lemma_retained_stays(&self, rest: Seq<T>, before: &Self, before_rest: Seq<T>)
        requires
            self.stream(rest) == before.stream(before_rest),
            before.buffered().len() <= self.buffered().len(),
        ensures
            before.buffered() == self.buffered().take(before.buffered().len() as int),
    {
        self.lemma_buffered_begins_stream(rest);
        before.lemma_buffered_begins_stream(before_rest);
        assert(before.buffered() =~= self.buffered().take(before.buffered().len() as int));
    }

    /// Moving the cursor changes the cursor and nothing else; the buffer stays
    /// well formed where the new position is within what is retained.
    pub proof fn lemma_moved_to(self, pos: usize)
        ensures
            self.moved_to(pos).buffered() == self.buffered(),
            self.moved_to(pos).source() == self.source(),
            self.moved_to(pos).horizon() == self.horizon(),
            forall|rest: Seq<T>| #[trigger] self.moved_to(pos).stream(rest) == self.stream(rest),
            self.wf() && pos <= self.buffered().len() ==> self.moved_to(pos).wf(),
    {
    }

    /// Resetting and marking undo each other. [`Self::reset`] leaves
    /// `self.moved_to(pos)` and [`Self::mark`] returns `spec_mark()`: so a
    /// `mark` right after `reset(pos)` returns `pos`, and a `reset` to what
    /// `mark` has just returned leaves the buffer as it was.
    pub proof fn lemma_reset_then_mark(self, pos: usize)
        ensures
            self.moved_to(pos).spec_mark() == pos,
            self.moved_to(self.spec_mark()) == self,
    {
    }
}

} // verus!
