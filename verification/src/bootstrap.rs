//! The parser of the meta-grammar: it walks a stream of grammar-description
//! tokens and builds a [`Grammar`].

use crate::grammar::{Alt, Grammar, Item, ItemView, Meta, MetaValue, Rule};
use crate::grammar::{deep, lemma_deep_add, AltView, MetaView, RuleView};
use crate::metagrammar::{
    action_close, alternative_at, alts_at, alts_newline_at, bar_alt_at, bar_alts_at,
    bar_alts_newline_at, delivered, grammar_at, grammar_preceded_by, indented_alts_at,
    indented_lines_at, item_at, items_end, lemma_alternative_advances, lemma_alts_advance,
    lemma_grammar_preceded_by_nothing, lemma_grammar_preceded_twice, lemma_preceded_by_nothing,
    lemma_preceded_twice, lemma_rule_advances, meta_at, preceded_by, raw_items, rule_at,
    texts_between, Outcome,
};
use crate::parser::{Parser, TokenExpected};
use crate::text::{join_spaced, str_eq, texts_of};
use vstd::prelude::*;
use vstd::std_specs::iter::IteratorSpec;

verus! {

/// The kinds of token that a grammar description is made of.
#[derive(Copy, Clone, PartialEq, Eq, Structural, Debug)]
pub enum BootstrapTokenKind {
    Comment,
    Dedent,
    EndMarker,
    Indent,
    Name,
    Newline,
    NL,
    Number,
    String,
}

/// A token of a grammar description: its kind and its text.
#[derive(Copy, Clone, PartialEq, Debug)]
pub struct BootstrapToken<'a> {
    pub kind: BootstrapTokenKind,
    pub value: &'a str,
}

/// What the parser expects of a token: a kind, or a text.
pub enum BootstrapTokenExpected<'a> {
    Kind(BootstrapTokenKind),
    Value(&'a str),
}

impl<'a> TokenExpected<BootstrapToken<'a>> for BootstrapTokenExpected<'a> {
    open spec fn accepts(&self, token: &BootstrapToken<'a>) -> bool {
        match self {
            BootstrapTokenExpected::Kind(kind) => token.kind == *kind,
            BootstrapTokenExpected::Value(text) => token.value@ == text@,
        }
    }

    fn matched(&self, token: &BootstrapToken<'a>) -> (accepted: bool) {
        match self {
            BootstrapTokenExpected::Kind(k) => token.kind == *k,
            BootstrapTokenExpected::Value(v) => str_eq(token.value, *v),
        }
    }
}

/// Expects a token of the given kind.
pub fn _k<'a>(kind: BootstrapTokenKind) -> (expected: BootstrapTokenExpected<'a>)
    ensures
        expected == BootstrapTokenExpected::<'a>::Kind(kind),
{
    BootstrapTokenExpected::Kind(kind)
}

/// Expects a token that reads `str`.
pub fn _v<'a>(str: &'a str) -> (expected: BootstrapTokenExpected<'a>)
    ensures
        expected == BootstrapTokenExpected::Value(str),
{
    BootstrapTokenExpected::Value(str)
}

/// The parser of the meta-grammar, over a cursor on grammar-description
/// tokens.
#[verifier::reject_recursive_types(K)]
#[verifier::reject_recursive_types(G)]
pub struct BootstrapGrammarParser<'a, K, G> where G: Iterator<Item = BootstrapToken<'a>> {
    pub parser: Parser<K, BootstrapToken<'a>, G>,
}

impl<'a, K, G> BootstrapGrammarParser<'a, K, G> where G: Iterator<Item = BootstrapToken<'a>> {
    /// See [`crate::tokenizer::Tokenizer::wf`].
    pub open spec fn wf(&self) -> bool {
        self.parser.wf()
    }

    /// The cursor.
    pub open spec fn spec_mark(&self) -> usize {
        self.parser.spec_mark()
    }

    /// The producer in its present state.
    pub open spec fn source(&self) -> G {
        self.parser.source()
    }

    /// The whole stream, where `rest` is what the producer has yet to give.
    pub open spec fn stream(&self, rest: Seq<BootstrapToken<'a>>) -> Seq<BootstrapToken<'a>> {
        self.parser.stream(rest)
    }

    /// See [`crate::tokenizer::Tokenizer::follows`].
    pub open spec fn follows(&self, before: &Self) -> bool {
        self.parser.follows(&before.parser)
    }

    /// A parser that reads from `parser`, at its position.
    pub fn new(parser: Parser<K, BootstrapToken<'a>, G>) -> (p: Self)
        ensures
            p.parser == parser,
    {
        Self { parser }
    }

    /// `item := NAME | STRING`: the text of the item.
    pub fn item(&mut self) -> (r: Option<&'a str>)
        requires
            old(self).wf(),
        ensures
            final(self).follows(old(self)),
            final(self).stream(final(self).source().remaining()) == old(self).stream(
                old(self).source().remaining(),
            ),
            delivered(
                item_at(
                    old(self).stream(old(self).source().remaining()),
                    old(self).spec_mark() as int,
                ),
                r,
                old(self).spec_mark() as int,
                final(self).spec_mark() as int,
            ),
    {
        if let Some(name) = self.parser.expect(_k(BootstrapTokenKind::Name)) {
            Some(name.value)
        } else if let Some(str) = self.parser.expect(_k(BootstrapTokenKind::String)) {
            Some(str.value)
        } else {
            None
        }
    }

    /// `alternative := item+ ('{' action '}')?`.
    ///
    /// The action is scanned with a count of the braces that are open, not
    /// parsed, and the stream must hold the brace that closes it.
    pub fn alternative(&mut self) -> (r: Option<Alt<'a>>)
        requires
            old(self).wf(),
            !(alternative_at(
                old(self).stream(old(self).source().remaining()),
                old(self).spec_mark() as int,
            ) is Fatal),
        ensures
            final(self).follows(old(self)),
            final(self).stream(final(self).source().remaining()) == old(self).stream(
                old(self).source().remaining(),
            ),
            delivered(
                alternative_at(
                    old(self).stream(old(self).source().remaining()),
                    old(self).spec_mark() as int,
                ),
                r,
                old(self).spec_mark() as int,
                final(self).spec_mark() as int,
            ),
    {
        let ghost s = self.stream(self.source().remaining());
        let ghost start = self.spec_mark() as int;
        let mut items: Vec<Item<'a>> = Vec::new();
        let mut action_tokens: Vec<&'a str> = Vec::new();

        loop
            invariant
                self.follows(old(self)),
                self.stream(self.source().remaining()) == s,
                start <= self.spec_mark(),
                items_end(s, start) == items_end(s, self.spec_mark() as int),
                items.deep_view() == raw_items(s, start, self.spec_mark() as int),
            ensures
                items_end(s, start) == self.spec_mark(),
            decreases self.parser.horizon() - self.spec_mark(),
        {
            proof {
                self.parser.tokenizer.lemma_bounds();
            }
            let ghost before = items.deep_view();
            let ghost at = self.spec_mark() as int;
            match self.item() {
                Some(item) => {
                    items.push(Item::Raw(item));
                    assert(items.deep_view() =~= before.push(ItemView::Raw(item@)));
                    assert(raw_items(s, start, at + 1) =~= raw_items(s, start, at).push(
                        ItemView::Raw(s[at].value@),
                    ));
                    proof {
                        self.parser.tokenizer.lemma_bounds();
                    }
                },
                None => {
                    break ;
                },
            }
        }

        if items.is_empty() {
            return None;
        }
        let ghost q = self.spec_mark() as int;

        if self.parser.expect(_v("{")).is_some() {
            let mut level: usize = 0;
            loop
                invariant_except_break
                    q + 1 <= self.spec_mark(),
                    level <= self.spec_mark() - (q + 1),
                    action_close(s, q + 1, 0) == action_close(
                        s,
                        self.spec_mark() as int,
                        level as nat,
                    ),
                    action_close(s, q + 1, 0) is Some,
                    texts_of(action_tokens@) == texts_between(
                        s,
                        q + 1,
                        self.spec_mark() as int,
                    ),
                invariant
                    self.follows(old(self)),
                    self.stream(self.source().remaining()) == s,
                ensures
                    action_close(s, q + 1, 0) == Some(self.spec_mark() - 1),
                    texts_of(action_tokens@) == texts_between(
                        s,
                        q + 1,
                        self.spec_mark() - 1,
                    ),
                decreases self.parser.horizon() - self.spec_mark(),
            {
                proof {
                    self.parser.tokenizer.lemma_bounds();
                }
                let ghost at = self.spec_mark() as int;
                let ghost before = action_tokens@;
                let token = self.parser.tokenizer.get_token().unwrap().value;
                proof {
                    self.parser.tokenizer.lemma_bounds();
                }
                if str_eq(token, "{") {
                    level += 1;
                } else if str_eq(token, "}") {
                    if level == 0 {
                        break ;
                    }
                    level -= 1;
                }
                action_tokens.push(token);
                assert(texts_of(action_tokens@) =~= texts_of(before).push(token@));
                assert(texts_between(s, q + 1, at + 1) =~= texts_between(s, q + 1, at).push(
                    s[at].value@,
                ));
            }
        }
        let action = join_spaced(&action_tokens);
        Some(Alt { action, items })
    }
    /// `'|' alternative`. A bar with no alternative after it matches
    /// nothing, and the bar is not consumed.
    pub fn bar_alt(&mut self) -> (r: Option<Alt<'a>>)
        requires
            old(self).wf(),
            !(bar_alt_at(
                old(self).stream(old(self).source().remaining()),
                old(self).spec_mark() as int,
            ) is Fatal),
        ensures
            final(self).follows(old(self)),
            final(self).stream(final(self).source().remaining()) == old(self).stream(
                old(self).source().remaining(),
            ),
            delivered(
                bar_alt_at(
                    old(self).stream(old(self).source().remaining()),
                    old(self).spec_mark() as int,
                ),
                r,
                old(self).spec_mark() as int,
                final(self).spec_mark() as int,
            ),
    {
        let position = self.parser.mark();
        proof {
            self.parser.tokenizer.lemma_bounds();
        }
        if self.parser.expect(_v("|")).is_some() {
            if let Some(alt) = self.alternative() {
                return Some(alt);
            }
        }
        self.parser.reset(position);
        None
    }

    /// `alts := alternative ('|' alternative)*`.
    pub fn alts(&mut self) -> (r: Option<Vec<Alt<'a>>>)
        requires
            old(self).wf(),
            !(alts_at(
                old(self).stream(old(self).source().remaining()),
                old(self).spec_mark() as int,
            ) is Fatal),
        ensures
            final(self).follows(old(self)),
            final(self).stream(final(self).source().remaining()) == old(self).stream(
                old(self).source().remaining(),
            ),
            delivered(
                alts_at(
                    old(self).stream(old(self).source().remaining()),
                    old(self).spec_mark() as int,
                ),
                r,
                old(self).spec_mark() as int,
                final(self).spec_mark() as int,
            ),
    {
        let ghost s = self.stream(self.source().remaining());
        let ghost start = self.spec_mark() as int;
        let position = self.parser.mark();
        proof {
            self.parser.tokenizer.lemma_bounds();
        }
        let mut alts: Vec<Alt<'a>> = Vec::new();
        if let Some(alt) = self.alternative() {
            alts.push(alt);
            assert(alts.deep_view() =~= seq![alt.deep_view()]);
            loop
                invariant
                    self.follows(old(self)),
                    self.stream(self.source().remaining()) == s,
                    alts_at(s, start) == preceded_by(
                        alts.deep_view(),
                        bar_alts_at(s, self.spec_mark() as int),
                    ),
                    !(alts_at(s, start) is Fatal),
                ensures
                    alts_at(s, start) == (Outcome::Match {
                        value: alts.deep_view(),
                        end: self.spec_mark() as int,
                    }),
                decreases self.parser.horizon() - self.spec_mark(),
            {
                let ghost before = alts.deep_view();
                let ghost at = self.spec_mark() as int;
                proof {
                    self.parser.tokenizer.lemma_bounds();
                    lemma_alternative_advances(s, at + 1);
                }
                match self.bar_alt() {
                    Some(alt) => {
                        alts.push(alt);
                        proof {
                            self.parser.tokenizer.lemma_bounds();
                            assert(alts.deep_view() =~= before + seq![alt.deep_view()]);
                            lemma_preceded_twice(
                                before,
                                seq![alt.deep_view()],
                                bar_alts_at(s, self.spec_mark() as int),
                            );
                        }
                    },
                    None => {
                        assert(before + Seq::<AltView>::empty() =~= before);
                        break ;
                    },
                }
            }
            return Some(alts);
        }
        self.parser.reset(position);
        None
    }

    /// `alts NEWLINE`.
    pub fn alts_newline(&mut self) -> (r: Option<Vec<Alt<'a>>>)
        requires
            old(self).wf(),
            !(alts_newline_at(
                old(self).stream(old(self).source().remaining()),
                old(self).spec_mark() as int,
            ) is Fatal),
        ensures
            final(self).follows(old(self)),
            final(self).stream(final(self).source().remaining()) == old(self).stream(
                old(self).source().remaining(),
            ),
            delivered(
                alts_newline_at(
                    old(self).stream(old(self).source().remaining()),
                    old(self).spec_mark() as int,
                ),
                r,
                old(self).spec_mark() as int,
                final(self).spec_mark() as int,
            ),
    {
        let position = self.parser.mark();
        proof {
            self.parser.tokenizer.lemma_bounds();
        }
        if let Some(alts) = self.alts() {
            if self.parser.expect(_k(BootstrapTokenKind::Newline)).is_some() {
                return Some(alts);
            }
        }
        self.parser.reset(position);
        None
    }

    /// `'|' alts NEWLINE`.
    pub fn bar_alts_newline(&mut self) -> (r: Option<Vec<Alt<'a>>>)
        requires
            old(self).wf(),
            !(bar_alts_newline_at(
                old(self).stream(old(self).source().remaining()),
                old(self).spec_mark() as int,
            ) is Fatal),
        ensures
            final(self).follows(old(self)),
            final(self).stream(final(self).source().remaining()) == old(self).stream(
                old(self).source().remaining(),
            ),
            delivered(
                bar_alts_newline_at(
                    old(self).stream(old(self).source().remaining()),
                    old(self).spec_mark() as int,
                ),
                r,
                old(self).spec_mark() as int,
                final(self).spec_mark() as int,
            ),
    {
        let position = self.parser.mark();
        proof {
            self.parser.tokenizer.lemma_bounds();
        }
        if self.parser.expect(_v("|")).is_some() {
            if let Some(alts) = self.alts_newline() {
                return Some(alts);
            }
        }
        self.parser.reset(position);
        None
    }
    /// `indented_alts := INDENT ('|' alts NEWLINE | NL | COMMENT)* DEDENT`:
    /// the alternatives of all its lines. A block that no dedent closes
    /// matches nothing.
    pub fn indented_alts(&mut self) -> (r: Option<Vec<Alt<'a>>>)
        requires
            old(self).wf(),
            !(indented_alts_at(
                old(self).stream(old(self).source().remaining()),
                old(self).spec_mark() as int,
            ) is Fatal),
        ensures
            final(self).follows(old(self)),
            final(self).stream(final(self).source().remaining()) == old(self).stream(
                old(self).source().remaining(),
            ),
            delivered(
                indented_alts_at(
                    old(self).stream(old(self).source().remaining()),
                    old(self).spec_mark() as int,
                ),
                r,
                old(self).spec_mark() as int,
                final(self).spec_mark() as int,
            ),
    {
        let ghost s = self.stream(self.source().remaining());
        let ghost start = self.spec_mark() as int;
        let position = self.parser.mark();
        proof {
            self.parser.tokenizer.lemma_bounds();
        }
        if self.parser.expect(_k(BootstrapTokenKind::Indent)).is_some() {
            let mut alts: Vec<Alt<'a>> = Vec::new();
            assert(alts.deep_view() =~= Seq::<AltView>::empty());
            proof {
                lemma_preceded_twice(
                    Seq::<AltView>::empty(),
                    Seq::<AltView>::empty(),
                    indented_lines_at(s, start + 1),
                );
                lemma_preceded_by_nothing(indented_lines_at(s, start + 1));
            }
            loop
                invariant
                    self.follows(old(self)),
                    self.stream(self.source().remaining()) == s,
                    indented_lines_at(s, start + 1) == preceded_by(
                        alts.deep_view(),
                        indented_lines_at(s, self.spec_mark() as int),
                    ),
                    !(indented_lines_at(s, start + 1) is Fatal),
                ensures
                    indented_lines_at(s, start + 1) == (Outcome::Match {
                        value: alts.deep_view(),
                        end: self.spec_mark() as int,
                    }),
                decreases self.parser.horizon() - self.spec_mark(),
            {
                let ghost before = alts.deep_view();
                let ghost at = self.spec_mark() as int;
                proof {
                    self.parser.tokenizer.lemma_bounds();
                    lemma_alts_advance(s, at + 1);
                }
                if let Some(mut alts1) = self.bar_alts_newline() {
                    let ghost more = alts1.deep_view();
                    let ghost kept = alts@;
                    let ghost added = alts1@;
                    alts.append(&mut alts1);
                    proof {
                        self.parser.tokenizer.lemma_bounds();
                        lemma_deep_add(kept, added);
                        assert(alts.deep_view() =~= before + more);
                        lemma_preceded_twice(
                            before,
                            more,
                            indented_lines_at(s, self.spec_mark() as int),
                        );
                    }
                } else if self.parser.expect(_k(BootstrapTokenKind::NL)).is_some() {
                    proof {
                        self.parser.tokenizer.lemma_bounds();
                    }
                } else if self.parser.expect(_k(BootstrapTokenKind::Comment)).is_some() {
                    proof {
                        self.parser.tokenizer.lemma_bounds();
                    }
                } else {
                    assert(before + Seq::<AltView>::empty() =~= before);
                    break ;
                }
            }
            if self.parser.expect(_k(BootstrapTokenKind::Dedent)).is_some() {
                return Some(alts);
            }
        }
        self.parser.reset(position);
        None
    }

    /// `rule := NAME ':' (alts NEWLINE | NEWLINE) indented_alts?`. The
    /// alternatives of the first line come first, then those of the indented
    /// block. A rule with no alternative at all matches nothing.
    pub fn rule(&mut self) -> (r: Option<Rule<'a>>)
        requires
            old(self).wf(),
            !(rule_at(
                old(self).stream(old(self).source().remaining()),
                old(self).spec_mark() as int,
            ) is Fatal),
        ensures
            final(self).follows(old(self)),
            final(self).stream(final(self).source().remaining()) == old(self).stream(
                old(self).source().remaining(),
            ),
            delivered(
                rule_at(
                    old(self).stream(old(self).source().remaining()),
                    old(self).spec_mark() as int,
                ),
                r,
                old(self).spec_mark() as int,
                final(self).spec_mark() as int,
            ),
    {
        let ghost s = self.stream(self.source().remaining());
        let ghost start = self.spec_mark() as int;
        let position = self.parser.mark();
        proof {
            self.parser.tokenizer.lemma_bounds();
        }
        if let Some(name) = self.parser.expect(_k(BootstrapTokenKind::Name)) {
            if self.parser.expect(_v(":")).is_some() {
                let mut alts = if let Some(alts) = self.alts_newline() {
                    alts
                } else if self.parser.expect(_k(BootstrapTokenKind::Newline)).is_some() {
                    let none: Vec<Alt<'a>> = Vec::new();
                    assert(none.deep_view() =~= Seq::<AltView>::empty());
                    none
                } else {
                    self.parser.reset(position);
                    return None;
                };
                let ghost first = alts.deep_view();
                let ghost kept = alts@;
                if let Some(mut alts1) = self.indented_alts() {
                    let ghost added = alts1@;
                    alts.append(&mut alts1);
                    proof {
                        lemma_deep_add(kept, added);
                        assert(alts.deep_view() =~= first + deep(added));
                    }
                }
                if !alts.is_empty() {
                    return Some(Rule { name: name.value, alts });
                }
            }
        }
        self.parser.reset(position);
        None
    }

    /// `meta := '@' NAME (NEWLINE | NAME NEWLINE | NUMBER NEWLINE)`. The
    /// forms are tried in this order, each from the position after the key.
    /// The value of a number is its literal, as written.
    pub fn meta(&mut self) -> (r: Option<Meta<'a>>)
        requires
            old(self).wf(),
        ensures
            final(self).follows(old(self)),
            final(self).stream(final(self).source().remaining()) == old(self).stream(
                old(self).source().remaining(),
            ),
            delivered(
                meta_at(
                    old(self).stream(old(self).source().remaining()),
                    old(self).spec_mark() as int,
                ),
                r,
                old(self).spec_mark() as int,
                final(self).spec_mark() as int,
            ),
    {
        let position = self.parser.mark();
        proof {
            self.parser.tokenizer.lemma_bounds();
        }
        if self.parser.expect(_v("@")).is_some() {
            if let Some(name) = self.parser.expect(_k(BootstrapTokenKind::Name)) {
                let pos2 = self.parser.mark();
                proof {
                    self.parser.tokenizer.lemma_bounds();
                }
                if self.parser.expect(_k(BootstrapTokenKind::Newline)).is_some() {
                    return Some(Meta { key: name.value, value: MetaValue::Absent });
                }
                self.parser.reset(pos2);
                if let Some(token) = self.parser.expect(_k(BootstrapTokenKind::Name)) {
                    if self.parser.expect(_k(BootstrapTokenKind::Newline)).is_some() {
                        return Some(
                            Meta { key: name.value, value: MetaValue::String(token.value) },
                        );
                    }
                }
                self.parser.reset(pos2);
                if let Some(token) = self.parser.expect(_k(BootstrapTokenKind::Number)) {
                    if self.parser.expect(_k(BootstrapTokenKind::Newline)).is_some() {
                        return Some(
                            Meta { key: name.value, value: MetaValue::Number(token.value) },
                        );
                    }
                }
            }
        }
        self.parser.reset(position);
        None
    }

    /// `grammar := (rule | meta | NL | COMMENT)*`: the rules and the
    /// meta-directives, each in the order in which they stand. It stops at the
    /// first token that starts none of the four and leaves it unconsumed.
    pub fn grammar(&mut self) -> (g: Grammar<'a>)
        requires
            old(self).wf(),
            !(grammar_at(
                old(self).stream(old(self).source().remaining()),
                old(self).spec_mark() as int,
            ) is Fatal),
        ensures
            final(self).follows(old(self)),
            final(self).stream(final(self).source().remaining()) == old(self).stream(
                old(self).source().remaining(),
            ),
            grammar_at(
                old(self).stream(old(self).source().remaining()),
                old(self).spec_mark() as int,
            ) == (Outcome::Match { value: g.deep_view(), end: final(self).spec_mark() as int }),
    {
        let ghost s = self.stream(self.source().remaining());
        let ghost start = self.spec_mark() as int;
        let mut rules: Vec<Rule<'a>> = Vec::new();
        let mut metas: Vec<Meta<'a>> = Vec::new();
        proof {
            assert(rules.deep_view() =~= Seq::<RuleView>::empty());
            assert(metas.deep_view() =~= Seq::<MetaView>::empty());
            lemma_grammar_preceded_by_nothing(grammar_at(s, start));
        }
        loop
            invariant
                self.follows(old(self)),
                self.stream(self.source().remaining()) == s,
                s == old(self).stream(old(self).source().remaining()),
                start == old(self).spec_mark(),
                grammar_at(s, start) == grammar_preceded_by(
                    rules.deep_view(),
                    metas.deep_view(),
                    grammar_at(s, self.spec_mark() as int),
                ),
                !(grammar_at(s, start) is Fatal),
            decreases self.parser.horizon() - self.spec_mark(),
        {
            let ghost rules_before = rules.deep_view();
            let ghost metas_before = metas.deep_view();
            let ghost at = self.spec_mark() as int;
            proof {
                self.parser.tokenizer.lemma_bounds();
                lemma_rule_advances(s, at);
            }
            if let Some(rule) = self.rule() {
                rules.push(rule);
                proof {
                    self.parser.tokenizer.lemma_bounds();
                    assert(rules.deep_view() =~= rules_before + seq![rule.deep_view()]);
                    assert(metas_before + Seq::<MetaView>::empty() =~= metas_before);
                    lemma_grammar_preceded_twice(
                        rules_before,
                        metas_before,
                        seq![rule.deep_view()],
                        Seq::empty(),
                        grammar_at(s, self.spec_mark() as int),
                    );
                }
            } else if let Some(meta) = self.meta() {
                metas.push(meta);
                proof {
                    self.parser.tokenizer.lemma_bounds();
                    assert(metas.deep_view() =~= metas_before + seq![meta.deep_view()]);
                    assert(rules_before + Seq::<RuleView>::empty() =~= rules_before);
                    lemma_grammar_preceded_twice(
                        rules_before,
                        metas_before,
                        Seq::empty(),
                        seq![meta.deep_view()],
                        grammar_at(s, self.spec_mark() as int),
                    );
                }
            } else if self.parser.expect(_k(BootstrapTokenKind::NL)).is_some() {
                proof {
                    self.parser.tokenizer.lemma_bounds();
                }
            } else if self.parser.expect(_k(BootstrapTokenKind::Comment)).is_some() {
                proof {
                    self.parser.tokenizer.lemma_bounds();
                }
            } else {
                assert(rules_before + Seq::<RuleView>::empty() =~= rules_before);
                assert(metas_before + Seq::<MetaView>::empty() =~= metas_before);
                return Grammar { rules, metas };
            }
        }
    }
}

} // verus!