//! The parse cursor: single-token matching, bounded repetition and zero-width
//! lookahead over a [`Tokenizer`].

use crate::text::str_eq;
use crate::tokenizer::{retained_after_look, token_at, Tokenizer};
use std::marker::PhantomData;
use vstd::prelude::*;
use vstd::std_specs::iter::IteratorSpec;

verus! {

/// A node of a parse tree: a kind tag and the nodes below it.
#[derive(PartialEq, Debug)]
pub struct Node<K> {
    kind: K,
    children: Vec<Node<K>>,
}

impl<K> Node<K> {
    /// The node's tag.
    pub closed spec fn kind(&self) -> K {
        self.kind
    }

    /// The nodes below it, in order.
    pub closed spec fn children(&self) -> Seq<Node<K>> {
        self.children@
    }

    /// A node of the given kind with no children.
    pub fn new(kind: K) -> (node: Self)
        ensures
            node.kind() == kind,
            node.children() == Seq::<Node<K>>::empty(),
    {
        Self { kind, children: Vec::new() }
    }
}

/// What a call site expects of the next token.
pub trait TokenExpected<T> {
    /// Whether `token` is what is expected.
    spec fn accepts(&self, token: &T) -> bool;

    /// Decides [`Self::accepts`].
    fn matched(&self, token: &T) -> (accepted: bool)
        ensures
            accepted == self.accepts(token),
    ;
}

/// A text expects the token that holds the same characters.
impl<'a> TokenExpected<&'a str> for &'a str {
    open spec fn accepts(&self, token: &&'a str) -> bool {
        self@ == token@
    }

    fn matched(&self, token: &&'a str) -> (accepted: bool) {
        str_eq(*self, *token)
    }
}

/// What `expect` gives at `pos` of `stream`: the token there, where there is one
/// and `expected` accepts it.
pub open spec fn expected_at<T, TE: TokenExpected<T>>(
    stream: Seq<T>,
    pos: int,
    expected: TE,
) -> Option<T> {
    match token_at(stream, pos) {
        Some(token) => if expected.accepts(&token) {
            Some(token)
        } else {
            None
        },
        None => None,
    }
}

/// The position that `count` calls in a row lead to from `start`, each of
/// which does what `step` says: `step` gives, for a stream and the position at
/// which a call is made, whether the call succeeds and the position that it
/// leaves.
pub open spec fn after_calls<T>(
    step: spec_fn(Seq<T>, int) -> (bool, int),
    stream: Seq<T>,
    start: int,
    count: nat,
) -> int
    decreases count,
{
    if count == 0 {
        start
    } else {
        step(stream, after_calls(step, stream, start, (count - 1) as nat)).1
    }
}

/// From `start`, `step` succeeds `n` times in a row and then fails.
pub open spec fn succeeds_exactly<T>(
    step: spec_fn(Seq<T>, int) -> (bool, int),
    stream: Seq<T>,
    start: int,
    n: nat,
) -> bool {
    &&& forall|i: nat|
        i < n ==> (#[trigger] step(stream, after_calls(step, stream, start, i))).0
    &&& !step(stream, after_calls(step, stream, start, n)).0
}

/// What a repetition returns over a sub-parse that would succeed `n` times and
/// then fail: as many nodes as that, or `at_most` where that is fewer; and
/// nothing where these are fewer than `at_least`.
pub open spec fn repeats<V>(
    r: Option<Vec<V>>,
    at_least: usize,
    at_most: Option<usize>,
    n: nat,
) -> bool {
    let count = match at_most {
        Some(most) if most < n => most as nat,
        _ => n,
    };
    if count >= at_least {
        r matches Some(nodes) && nodes@.len() == count
    } else {
        r is None
    }
}

/// A cursor over the tokens of `G`; `K` is the kind tag of the nodes that
/// sub-parses hand to [`Parser::repeat`] and [`Parser::lookahead`].
#[verifier::reject_recursive_types(K)]
#[verifier::reject_recursive_types(T)]
#[verifier::reject_recursive_types(G)]
pub struct Parser<K, T, G> where T: Copy + PartialEq, G: Iterator<Item = T> {
    pub tokenizer: Tokenizer<T, G>,
    pub _phantom: PhantomData<K>,
}

impl<K, T, G> Parser<K, T, G> where T: Copy + PartialEq, G: Iterator<Item = T> {
    /// See [`Tokenizer::wf`].
    pub open spec fn wf(&self) -> bool {
        self.tokenizer.wf()
    }

    /// The cursor.
    pub open spec fn spec_mark(&self) -> usize {
        self.tokenizer.spec_mark()
    }

    /// The producer in its present state.
    pub open spec fn source(&self) -> G {
        self.tokenizer.source()
    }

    /// The whole stream, where `rest` is what the producer has yet to give.
    pub open spec fn stream(&self, rest: Seq<T>) -> Seq<T> {
        self.tokenizer.stream(rest)
    }

    /// See [`Tokenizer::horizon`].
    pub open spec fn horizon(&self) -> nat {
        self.tokenizer.horizon()
    }

    /// See [`Tokenizer::follows`].
    pub open spec fn follows(&self, before: &Self) -> bool {
        self.tokenizer.follows(&before.tokenizer)
    }

    /// `self` with its cursor at `pos`.
    pub open spec fn moved_to(self, pos: usize) -> Self {
        Parser { tokenizer: self.tokenizer.moved_to(pos), ..self }
    }

    /// `self` as a repetition leaves it: as it is where the repetition had
    /// successes `enough`, else with the cursor back at `mark`.
    pub open spec fn settled(self, enough: bool, mark: usize) -> Self {
        if enough {
            self
        } else {
            self.moved_to(mark)
        }
    }

    /// Resetting and marking undo each other, as on the buffer below: a
    /// `mark` right after `reset(pos)` returns `pos`, and a `reset` to what
    /// `mark` has just returned leaves the cursor's state as it was.
    pub proof fn lemma_reset_then_mark(self, pos: usize)
        ensures
            self.moved_to(pos).spec_mark() == pos,
            self.moved_to(self.spec_mark()) == self,
    {
        self.tokenizer.lemma_reset_then_mark(pos);
    }

    /// A cursor over `tokenizer`, at the tokenizer's own position.
    pub fn new(tokenizer: Tokenizer<T, G>) -> (parser: Self)
        ensures
            parser.tokenizer == tokenizer,
    {
        Self { tokenizer, _phantom: PhantomData }
    }

    /// The cursor.
    #[verifier::when_used_as_spec(spec_mark)]
    pub fn mark(&self) -> (pos: usize)
        ensures
            pos == self.spec_mark(),
    {
        self.tokenizer.mark()
    }

    /// Puts the cursor at `pos`, a position within what is retained.
    pub fn reset(&mut self, pos: usize)
        requires
            pos <= old(self).tokenizer.buffered().len(),
        ensures
            *final(self) == old(self).moved_to(pos),
            final(self).spec_mark() == pos,
            final(self).tokenizer.buffered() == old(self).tokenizer.buffered(),
            final(self).source() == old(self).source(),
            final(self).horizon() == old(self).horizon(),
            forall|rest: Seq<T>| #[trigger] final(self).stream(rest) == old(self).stream(rest),
            old(self).wf() ==> final(self).wf(),
    {
        self.tokenizer.reset(pos);
    }

    /// Calls `callback` until it fails or has succeeded `at_most` times, and
    /// returns what the successful calls returned, in order. Where they are
    /// fewer than `at_least`, it returns nothing and puts the cursor back
    /// where it was.
    ///
    /// `callback` must be callable on every well-formed cursor and leave a
    /// state that follows the one it found; where there is no upper bound, it
    /// must move the cursor forward whenever it succeeds.
    ///
    /// The contract says, in this order:
    ///
    /// * where nothing is returned, the cursor is back where it was;
    /// * what is returned has `at_least` nodes or more, and no more than
    ///   `at_most`;
    /// * over a sub-parse that would succeed `n` times and then fail, `n`
    ///   nodes are returned, or `at_most` where that is fewer, and nothing
    ///   where these are fewer than `at_least`: this for every `step` that
    ///   tells, for the stream and a position, whether `callback` succeeds
    ///   there and where it leaves the cursor;
    /// * the stream stays, where `callback` leaves it;
    /// * and, whatever `callback` does, which calls were made: `states[i]` is
    ///   the state in which the call that returned `outs[i]` was made, and
    ///   the last of `states` the one that the last success left. The
    ///   repetition ends there where that makes `at_most` successes; else it
    ///   ends with one more call, which fails.
    pub fn repeat<F>(&mut self, at_least: usize, at_most: Option<usize>, callback: &F) -> (r:
        Option<Vec<Node<K>>>) where F: Fn(&mut Self) -> Option<Node<K>>
        requires
            old(self).wf(),
            forall|p: &mut Self| p.wf() ==> #[trigger] call_requires(callback, (p,)),
            forall|p: &mut Self, out: Option<Node<K>>|
                p.wf() && #[trigger] call_ensures(callback, (p,), out) ==> final(p).follows(&*p),
            at_most is None ==> forall|p: &mut Self, out: Option<Node<K>>|
                p.wf() && #[trigger] call_ensures(callback, (p,), out) && out is Some
                    ==> p.spec_mark() < final(p).spec_mark(),
        ensures
            final(self).follows(old(self)),
            r is None ==> final(self).spec_mark() == old(self).spec_mark(),
            r matches Some(nodes) ==> at_least <= nodes.len() && (at_most matches Some(most)
                ==> nodes.len() <= most),
            forall|step: spec_fn(Seq<T>, int) -> (bool, int), n: nat|
                (forall|p: &mut Self, out: Option<Node<K>>|
                    p.wf() && #[trigger] call_ensures(callback, (p,), out) ==> final(p).stream(
                        final(p).source().remaining(),
                    ) == p.stream(p.source().remaining()) && step(
                        p.stream(p.source().remaining()),
                        p.spec_mark() as int,
                    ) == (out is Some, final(p).spec_mark() as int)) && #[trigger] succeeds_exactly(
                    step,
                    old(self).stream(old(self).source().remaining()),
                    old(self).spec_mark() as int,
                    n,
                ) ==> repeats(r, at_least, at_most, n),
            (forall|p: &mut Self, out: Option<Node<K>>|
                p.wf() && #[trigger] call_ensures(callback, (p,), out) ==> final(p).stream(
                    final(p).source().remaining(),
                ) == p.stream(p.source().remaining())) ==> final(self).stream(
                final(self).source().remaining(),
            ) == old(self).stream(old(self).source().remaining()),
            exists|states: Seq<Self>, outs: Seq<Node<K>>|
                {
                    &&& states.len() == outs.len() + 1
                    &&& states[0] == *old(self)
                    &&& forall|i: int|
                        #![trigger states[i]]
                        0 <= i < outs.len() ==> states[i].wf() && exists|p: &mut Self|
                            #![trigger call_ensures(callback, (p,), Some(outs[i]))]
                            *p == states[i] && call_ensures(callback, (p,), Some(outs[i]))
                                && *final(p) == states[i + 1]
                    &&& match at_most {
                        Some(most) if outs.len() >= most => outs.len() == most && *final(self)
                            == states.last().settled(outs.len() >= at_least, old(self).spec_mark()),
                        _ => exists|p: &mut Self|
                            *p == states.last() && #[trigger] call_ensures(
                                callback,
                                (p,),
                                None::<Node<K>>,
                            ) && *final(self) == final(p).settled(
                                outs.len() >= at_least,
                                old(self).spec_mark(),
                            ),
                    }
                    &&& if outs.len() >= at_least {
                        r matches Some(nodes) && nodes@ == outs
                    } else {
                        r is None
                    }
                },
    {
        let position = self.mark();
        let mut nodes: Vec<Node<K>> = Vec::new();
        let ghost mut states: Seq<Self> = seq![*self];
        loop
            invariant_except_break
                states.last() == *self,
            invariant
                self.follows(old(self)),
                forall|p: &mut Self| p.wf() ==> #[trigger] call_requires(callback, (p,)),
                forall|p: &mut Self, out: Option<Node<K>>|
                    p.wf() && #[trigger] call_ensures(callback, (p,), out) ==> final(p).follows(
                        &*p,
                    ),
                at_most is None ==> forall|p: &mut Self, out: Option<Node<K>>|
                    p.wf() && #[trigger] call_ensures(callback, (p,), out) && out is Some
                        ==> p.spec_mark() < final(p).spec_mark(),
                (forall|p: &mut Self, out: Option<Node<K>>|
                    p.wf() && #[trigger] call_ensures(callback, (p,), out) ==> final(p).stream(
                        final(p).source().remaining(),
                    ) == p.stream(p.source().remaining())) ==> self.stream(
                    self.source().remaining(),
                ) == old(self).stream(old(self).source().remaining()),
                at_most matches Some(most) ==> nodes.len() <= most,
                states.len() == nodes.len() + 1,
                states[0] == *old(self),
                forall|i: int|
                    #![trigger states[i]]
                    0 <= i < nodes@.len() ==> states[i].wf() && exists|p: &mut Self|
                        #![trigger call_ensures(callback, (p,), Some(nodes@[i]))]
                        *p == states[i] && call_ensures(callback, (p,), Some(nodes@[i]))
                            && *final(p) == states[i + 1],
            ensures
                match at_most {
                    Some(most) if nodes@.len() >= most => nodes@.len() == most && *self
                        == states.last(),
                    _ => states.last().wf() && exists|p: &mut Self|
                        *p == states.last() && #[trigger] call_ensures(
                            callback,
                            (p,),
                            None::<Node<K>>,
                        ) && *final(p) == *self,
                },
            decreases
                    (match at_most {
                        Some(most) => most - nodes.len(),
                        None => self.horizon() - self.spec_mark(),
                    }),
        {
            proof {
                self.tokenizer.lemma_bounds();
            }
            match at_most {
                Some(most) => {
                    if nodes.len() == most {
                        break ;
                    }
                },
                None => {},
            }
            let ghost before = nodes@;
            let ghost states_before = states;
            let ghost pre = *self;
            match callback(self) {
                None => {
                    break ;
                },
                Some(n) => {
                    nodes.push(n);
                    proof {
                        self.tokenizer.lemma_bounds();
                        states = states.push(*self);
                        assert forall|i: int|
                            #![trigger states[i]]
                            0 <= i < nodes@.len() implies states[i].wf() && exists|p: &mut Self|
                            #![trigger call_ensures(callback, (p,), Some(nodes@[i]))]
                            *p == states[i] && call_ensures(callback, (p,), Some(nodes@[i]))
                                && *final(p) == states[i + 1] by {
                            if i < before.len() {
                                assert(states[i] == states_before[i]);
                                assert(states[i + 1] == states_before[i + 1]);
                                assert(nodes@[i] == before[i]);
                            } else {
                                assert(states[i] == pre);
                                assert(states[i + 1] == *self);
                                assert(nodes@[i] == n);
                            }
                        }
                    }
                },
            }
        }
        proof {
            old(self).tokenizer.lemma_bounds();
            assert forall|step: spec_fn(Seq<T>, int) -> (bool, int), n: nat|
                (forall|p: &mut Self, out: Option<Node<K>>|
                    p.wf() && #[trigger] call_ensures(callback, (p,), out) ==> final(p).stream(
                        final(p).source().remaining(),
                    ) == p.stream(p.source().remaining()) && step(
                        p.stream(p.source().remaining()),
                        p.spec_mark() as int,
                    ) == (out is Some, final(p).spec_mark() as int)) && #[trigger] succeeds_exactly(
                    step,
                    old(self).stream(old(self).source().remaining()),
                    old(self).spec_mark() as int,
                    n,
                ) implies nodes@.len() == (
            match at_most {
                Some(most) if most < n => most as nat,
                _ => n,
            }) by {
                Self::lemma_count_of_successes(callback, step, n, at_most, states, nodes@);
            }
        }
        if nodes.len() >= at_least {
            return Some(nodes);
        }
        self.reset(position);
        None
    }

    /// The positions between the successful calls of a repetition are those
    /// that `step` leads to, where `callback` does what `step` says.
    proof fn lemma_states_follow_steps<F>(
        callback: &F,
        step: spec_fn(Seq<T>, int) -> (bool, int),
        states: Seq<Self>,
        outs: Seq<Node<K>>,
        i: nat,
    ) where F: Fn(&mut Self) -> Option<Node<K>>
        requires
            forall|p: &mut Self, out: Option<Node<K>>|
                p.wf() && #[trigger] call_ensures(callback, (p,), out) ==> final(p).stream(
                    final(p).source().remaining(),
                ) == p.stream(p.source().remaining()) && step(
                    p.stream(p.source().remaining()),
                    p.spec_mark() as int,
                ) == (out is Some, final(p).spec_mark() as int),
            states.len() == outs.len() + 1,
            forall|i: int|
                #![trigger states[i]]
                0 <= i < outs.len() ==> states[i].wf() && exists|p: &mut Self|
                    #![trigger call_ensures(callback, (p,), Some(outs[i]))]
                    *p == states[i] && call_ensures(callback, (p,), Some(outs[i])) && *final(p)
                        == states[i + 1],
            i <= outs.len(),
        ensures
            states[i as int].stream(states[i as int].source().remaining()) == states[0].stream(
                states[0].source().remaining(),
            ),
            states[i as int].spec_mark() == after_calls(
                step,
                states[0].stream(states[0].source().remaining()),
                states[0].spec_mark() as int,
                i,
            ),
            i < outs.len() ==> step(
                states[0].stream(states[0].source().remaining()),
                states[i as int].spec_mark() as int,
            ).0,
        decreases i,
    {
        if i > 0 {
            Self::lemma_states_follow_steps(callback, step, states, outs, (i - 1) as nat);
            assert(states[i - 1].wf());
        }
        if i < outs.len() {
            assert(states[i as int].wf());
        }
    }

    /// How many successes a repetition has had, over a sub-parse that would
    /// succeed `n` times and then fail: `n`, or `at_most` where that is fewer.
    proof fn lemma_count_of_successes<F>(
        callback: &F,
        step: spec_fn(Seq<T>, int) -> (bool, int),
        n: nat,
        at_most: Option<usize>,
        states: Seq<Self>,
        outs: Seq<Node<K>>,
    ) where F: Fn(&mut Self) -> Option<Node<K>>
        requires
            forall|p: &mut Self, out: Option<Node<K>>|
                p.wf() && #[trigger] call_ensures(callback, (p,), out) ==> final(p).stream(
                    final(p).source().remaining(),
                ) == p.stream(p.source().remaining()) && step(
                    p.stream(p.source().remaining()),
                    p.spec_mark() as int,
                ) == (out is Some, final(p).spec_mark() as int),
            states.len() == outs.len() + 1,
            succeeds_exactly(
                step,
                states[0].stream(states[0].source().remaining()),
                states[0].spec_mark() as int,
                n,
            ),
            forall|i: int|
                #![trigger states[i]]
                0 <= i < outs.len() ==> states[i].wf() && exists|p: &mut Self|
                    #![trigger call_ensures(callback, (p,), Some(outs[i]))]
                    *p == states[i] && call_ensures(callback, (p,), Some(outs[i])) && *final(p)
                        == states[i + 1],
            match at_most {
                Some(most) if outs.len() >= most => outs.len() == most,
                _ => states.last().wf() && exists|p: &mut Self|
                    *p == states.last() && #[trigger] call_ensures(
                        callback,
                        (p,),
                        None::<Node<K>>,
                    ),
            },
        ensures
            outs.len() == (match at_most {
                Some(most) if most < n => most as nat,
                _ => n,
            }),
    {
        let len = outs.len();
        let stream = states[0].stream(states[0].source().remaining());
        let start = states[0].spec_mark() as int;
        Self::lemma_states_follow_steps(callback, step, states, outs, len);
        if len > n {
            Self::lemma_states_follow_steps(callback, step, states, outs, n);
        }
        if len < n {
            assert(step(stream, after_calls(step, stream, start, len)).0);
        }
    }

    /// Whether `callback` succeeds here is `positive`. The cursor is left
    /// where it was, whatever `callback` consumed.
    ///
    /// `callback` must be callable on this cursor and leave a state that
    /// follows it. The contract says that the cursor stays; that the stream
    /// stays, where `callback` leaves it; what is returned where `step` tells
    /// whether `callback` succeeds here; and, whatever `callback` does, which
    /// call was made.
    pub fn lookahead<F>(&mut self, positive: bool, callback: &F) -> (r: bool) where
        F: Fn(&mut Self) -> Option<Node<K>>,

        requires
            old(self).wf(),
            forall|p: &mut Self| *p == *old(self) ==> call_requires(callback, (p,)),
            forall|p: &mut Self, out: Option<Node<K>>|
                *p == *old(self) && #[trigger] call_ensures(callback, (p,), out) ==> final(p).follows(&*p),
        ensures
            final(self).spec_mark() == old(self).spec_mark(),
            final(self).follows(old(self)),
            (forall|p: &mut Self, out: Option<Node<K>>|
                *p == *old(self) && #[trigger] call_ensures(callback, (p,), out) ==> final(p).stream(final(p).source().remaining()) == p.stream(p.source().remaining()))
                ==> final(self).stream(final(self).source().remaining()) == old(self).stream(
                old(self).source().remaining(),
            ),
            forall|step: spec_fn(Seq<T>, int) -> (bool, int)|
                (forall|p: &mut Self, out: Option<Node<K>>|
                    *p == *old(self) && #[trigger] call_ensures(callback, (p,), out) ==> step(
                        p.stream(p.source().remaining()),
                        p.spec_mark() as int,
                    ) == (out is Some, final(p).spec_mark() as int)) ==> r == ((#[trigger] step(
                    old(self).stream(old(self).source().remaining()),
                    old(self).spec_mark() as int,
                )).0 == positive),
            exists|p: &mut Self, out: Option<Node<K>>|
                {
                    &&& *p == *old(self)
                    &&& #[trigger] call_ensures(callback, (p,), out)
                    &&& r == (out.is_some() == positive)
                    &&& *final(self) == final(p).moved_to(old(self).spec_mark())
                },
    {
        let position = self.mark();
        proof {
            self.tokenizer.lemma_bounds();
        }
        let successful = callback(self).is_some();
        self.reset(position);
        successful == positive
    }

    /// Consumes the next token where `expected` accepts it, and returns it.
    /// Otherwise the cursor stays. The token is pulled from the producer
    /// where it was not retained yet, and no token beyond it.
    pub fn expect<TE: TokenExpected<T>>(&mut self, expected: TE) -> (r: Option<T>)
        requires
            old(self).wf(),
        ensures
            final(self).follows(old(self)),
            final(self).stream(final(self).source().remaining()) == old(self).stream(
                old(self).source().remaining(),
            ),
            r == expected_at(
                old(self).stream(old(self).source().remaining()),
                old(self).spec_mark() as int,
                expected,
            ),
            final(self).spec_mark() == old(self).spec_mark() + (if r is Some {
                1int
            } else {
                0int
            }),
            final(self).tokenizer.buffered() == retained_after_look(
                old(self).stream(old(self).source().remaining()),
                old(self).tokenizer.buffered(),
                old(self).spec_mark() as int,
            ),
    {
        let next = self.tokenizer.peek_token();
        match next {
            Some(t) => {
                if expected.matched(&t) {
                    self.tokenizer.get_token()
                } else {
                    None
                }
            },
            None => None,
        }
    }
}

} // verus!
