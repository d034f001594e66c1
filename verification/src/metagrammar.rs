//! The meta-grammar, as functions of a token stream and a position in it.
//!
//! ```text
//! grammar       := (rule | meta | NL | COMMENT)*
//! meta          := '@' NAME (NEWLINE | NAME NEWLINE | NUMBER NEWLINE)
//! rule          := NAME ':' (alts NEWLINE | NEWLINE) indented_alts?
//! alts          := alternative ('|' alternative)*
//! alternative   := item+ ('{' action '}')?
//! item          := NAME | STRING
//! indented_alts := INDENT ('|' alts NEWLINE | NL | COMMENT)* DEDENT
//! ```
//!
//! Each production is a function from the stream and a start position to an
//! [`Outcome`]: a value and the position after it, no match, or the one fatal
//! condition, an action whose closing brace the stream does not hold.

use crate::bootstrap::{BootstrapToken, BootstrapTokenKind};
use crate::grammar::{AltView, GrammarView, ItemView, MetaValueView, MetaView, RuleView};
use crate::text::joined;
use vstd::prelude::*;

verus! {

/// What a production makes of a stream from a position on.
pub enum Outcome<V> {
    /// The stream ends inside an action.
    Fatal,
    /// The production does not match here.
    NoMatch,
    /// The production matches: its value, and the position after it.
    Match { value: V, end: int },
}

/// What a production that has returned `r`, and has moved the cursor from
/// `from` to `to`, owes to its outcome: on a match the matched value and the
/// position after it, else nothing and the position it started from. On the
/// fatal condition it does not return.
pub open spec fn delivered<R: DeepView>(
    outcome: Outcome<R::V>,
    r: Option<R>,
    from: int,
    to: int,
) -> bool {
    match outcome {
        Outcome::Match { value, end } => to == end && (r matches Some(x) && x.deep_view()
            == value),
        Outcome::NoMatch => r is None && to == from,
        Outcome::Fatal => false,
    }
}

/// The stream has a token of kind `kind` at `p`.
pub open spec fn has_kind(s: Seq<BootstrapToken>, p: int, kind: BootstrapTokenKind) -> bool {
    0 <= p < s.len() && s[p].kind == kind
}

/// The stream has a token that reads `text` at `p`.
pub open spec fn has_text(s: Seq<BootstrapToken>, p: int, text: Seq<char>) -> bool {
    0 <= p < s.len() && s[p].value@ == text
}

/// `outcome`, which must be followed by a token of kind `kind`: a match
/// without it is no match, with it the match reaches past that token.
pub open spec fn followed_by<V>(
    outcome: Outcome<V>,
    s: Seq<BootstrapToken>,
    kind: BootstrapTokenKind,
) -> Outcome<V> {
    match outcome {
        Outcome::Match { value, end } => if has_kind(s, end, kind) {
            Outcome::Match { value, end: end + 1 }
        } else {
            Outcome::NoMatch
        },
        other => other,
    }
}

/// `outcome` with `first` put before the values it matched.
pub open spec fn preceded_by<V>(first: Seq<V>, outcome: Outcome<Seq<V>>) -> Outcome<Seq<V>> {
    match outcome {
        Outcome::Match { value, end } => Outcome::Match { value: first + value, end },
        other => other,
    }
}

/// `item := NAME | STRING`; the value is the token's text.
pub open spec fn item_at(s: Seq<BootstrapToken>, p: int) -> Outcome<Seq<char>> {
    if has_kind(s, p, BootstrapTokenKind::Name) || has_kind(s, p, BootstrapTokenKind::String) {
        Outcome::Match { value: s[p].value@, end: p + 1 }
    } else {
        Outcome::NoMatch
    }
}

/// Where the run of items that starts at `p` ends: the first position from `p`
/// on that holds no item.
pub open spec fn items_end(s: Seq<BootstrapToken>, p: int) -> int
    decreases s.len() - p,
{
    if item_at(s, p) is Match {
        items_end(s, p + 1)
    } else {
        p
    }
}

/// The tokens from `from` up to `to`, each as an unelaborated item.
pub open spec fn raw_items(s: Seq<BootstrapToken>, from: int, to: int) -> Seq<ItemView> {
    Seq::new((to - from) as nat, |i: int| ItemView::Raw(s[from + i].value@))
}

/// The position of the brace that closes an action, for a scan that stands at
/// `i` with `depth` braces open inside the action; `None` where the stream
/// ends first.
pub open spec fn action_close(s: Seq<BootstrapToken>, i: int, depth: nat) -> Option<int>
    decreases s.len() - i,
{
    if !(0 <= i < s.len()) {
        None
    } else if s[i].value@ == "{"@ {
        action_close(s, i + 1, depth + 1)
    } else if s[i].value@ == "}"@ {
        if depth == 0 {
            Some(i)
        } else {
            action_close(s, i + 1, (depth - 1) as nat)
        }
    } else {
        action_close(s, i + 1, depth)
    }
}

/// The texts of the tokens from `from` up to `to`.
pub open spec fn texts_between(s: Seq<BootstrapToken>, from: int, to: int) -> Seq<Seq<char>> {
    Seq::new((to - from) as nat, |i: int| s[from + i].value@)
}

/// `alternative := item+ ('{' action '}')?`. The action's text is the texts
/// of the tokens between its braces, joined by single spaces.
pub open spec fn alternative_at(s: Seq<BootstrapToken>, p: int) -> Outcome<AltView> {
    let q = items_end(s, p);
    if q == p {
        Outcome::NoMatch
    } else if has_text(s, q, "{"@) {
        match action_close(s, q + 1, 0) {
            Some(close) => Outcome::Match {
                value: AltView {
                    items: raw_items(s, p, q),
                    action: joined(texts_between(s, q + 1, close)),
                },
                end: close + 1,
            },
            None => Outcome::Fatal,
        }
    } else {
        Outcome::Match {
            value: AltView { items: raw_items(s, p, q), action: Seq::empty() },
            end: q,
        }
    }
}

/// `'|' alternative`.
pub open spec fn bar_alt_at(s: Seq<BootstrapToken>, p: int) -> Outcome<AltView> {
    if has_text(s, p, "|"@) {
        alternative_at(s, p + 1)
    } else {
        Outcome::NoMatch
    }
}

/// `('|' alternative)*`: it always matches, unless it is fatal.
pub open spec fn bar_alts_at(s: Seq<BootstrapToken>, p: int) -> Outcome<Seq<AltView>>
    decreases s.len() - p,
{
    match bar_alt_at(s, p) {
        Outcome::Fatal => Outcome::Fatal,
        Outcome::NoMatch => Outcome::Match { value: Seq::empty(), end: p },
        Outcome::Match { value, end } => {
            proof {
                lemma_alternative_advances(s, p + 1);
            }
            preceded_by(seq![value], bar_alts_at(s, end))
        },
    }
}

/// `alts := alternative ('|' alternative)*`.
pub open spec fn alts_at(s: Seq<BootstrapToken>, p: int) -> Outcome<Seq<AltView>> {
    match alternative_at(s, p) {
        Outcome::Fatal => Outcome::Fatal,
        Outcome::NoMatch => Outcome::NoMatch,
        Outcome::Match { value, end } => preceded_by(seq![value], bar_alts_at(s, end)),
    }
}

/// `alts NEWLINE`.
pub open spec fn alts_newline_at(s: Seq<BootstrapToken>, p: int) -> Outcome<Seq<AltView>> {
    followed_by(alts_at(s, p), s, BootstrapTokenKind::Newline)
}

/// `'|' alts NEWLINE`.
pub open spec fn bar_alts_newline_at(s: Seq<BootstrapToken>, p: int) -> Outcome<Seq<AltView>> {
    if has_text(s, p, "|"@) {
        alts_newline_at(s, p + 1)
    } else {
        Outcome::NoMatch
    }
}

/// `('|' alts NEWLINE | NL | COMMENT)*`: the alternatives of all the lines
/// that hold any. It always matches, unless it is fatal.
pub open spec fn indented_lines_at(s: Seq<BootstrapToken>, p: int) -> Outcome<Seq<AltView>>
    decreases s.len() - p,
{
    match bar_alts_newline_at(s, p) {
        Outcome::Fatal => Outcome::Fatal,
        Outcome::Match { value, end } => {
            proof {
                lemma_alts_advance(s, p + 1);
            }
            preceded_by(value, indented_lines_at(s, end))
        },
        Outcome::NoMatch => if has_kind(s, p, BootstrapTokenKind::NL) || has_kind(
            s,
            p,
            BootstrapTokenKind::Comment,
        ) {
            indented_lines_at(s, p + 1)
        } else {
            Outcome::Match { value: Seq::empty(), end: p }
        },
    }
}

/// `indented_alts := INDENT ('|' alts NEWLINE | NL | COMMENT)* DEDENT`.
pub open spec fn indented_alts_at(s: Seq<BootstrapToken>, p: int) -> Outcome<Seq<AltView>> {
    if has_kind(s, p, BootstrapTokenKind::Indent) {
        followed_by(indented_lines_at(s, p + 1), s, BootstrapTokenKind::Dedent)
    } else {
        Outcome::NoMatch
    }
}

/// The rule `name` with `alts`, which ends at `end`, if it has an alternative.
pub open spec fn rule_of(name: Seq<char>, alts: Seq<AltView>, end: int) -> Outcome<RuleView> {
    if alts.len() > 0 {
        Outcome::Match { value: RuleView { name, alts }, end }
    } else {
        Outcome::NoMatch
    }
}

/// The rule `name` whose first line gave `alts` and ended at `q`: an indented
/// block that follows adds its alternatives.
pub open spec fn rule_with_block(
    s: Seq<BootstrapToken>,
    name: Seq<char>,
    alts: Seq<AltView>,
    q: int,
) -> Outcome<RuleView> {
    match indented_alts_at(s, q) {
        Outcome::Fatal => Outcome::Fatal,
        Outcome::Match { value, end } => rule_of(name, alts + value, end),
        Outcome::NoMatch => rule_of(name, alts, q),
    }
}

/// `rule := NAME ':' (alts NEWLINE | NEWLINE) indented_alts?`, a match only
/// where the rule has an alternative.
pub open spec fn rule_at(s: Seq<BootstrapToken>, p: int) -> Outcome<RuleView> {
    if has_kind(s, p, BootstrapTokenKind::Name) && has_text(s, p + 1, ":"@) {
        match alts_newline_at(s, p + 2) {
            Outcome::Fatal => Outcome::Fatal,
            Outcome::Match { value, end } => rule_with_block(s, s[p].value@, value, end),
            Outcome::NoMatch => if has_kind(s, p + 2, BootstrapTokenKind::Newline) {
                rule_with_block(s, s[p].value@, Seq::empty(), p + 3)
            } else {
                Outcome::NoMatch
            },
        }
    } else {
        Outcome::NoMatch
    }
}

/// `meta := '@' NAME (NEWLINE | NAME NEWLINE | NUMBER NEWLINE)`. The three
/// forms are tried in this order; a name that follows the key is a string
/// value.
pub open spec fn meta_at(s: Seq<BootstrapToken>, p: int) -> Outcome<MetaView> {
    if has_text(s, p, "@"@) && has_kind(s, p + 1, BootstrapTokenKind::Name) {
        let key = s[p + 1].value@;
        if has_kind(s, p + 2, BootstrapTokenKind::Newline) {
            Outcome::Match { value: MetaView { key, value: MetaValueView::Absent }, end: p + 3 }
        } else if has_kind(s, p + 2, BootstrapTokenKind::Name) && has_kind(
            s,
            p + 3,
            BootstrapTokenKind::Newline,
        ) {
            Outcome::Match {
                value: MetaView { key, value: MetaValueView::String(s[p + 2].value@) },
                end: p + 4,
            }
        } else if has_kind(s, p + 2, BootstrapTokenKind::Number) && has_kind(
            s,
            p + 3,
            BootstrapTokenKind::Newline,
        ) {
            Outcome::Match {
                value: MetaView { key, value: MetaValueView::Number(s[p + 2].value@) },
                end: p + 4,
            }
        } else {
            Outcome::NoMatch
        }
    } else {
        Outcome::NoMatch
    }
}

/// `outcome` with `rules` and `metas` put before what it matched.
pub open spec fn grammar_preceded_by(
    rules: Seq<RuleView>,
    metas: Seq<MetaView>,
    outcome: Outcome<GrammarView>,
) -> Outcome<GrammarView> {
    match outcome {
        Outcome::Match { value, end } => Outcome::Match {
            value: GrammarView { rules: rules + value.rules, metas: metas + value.metas },
            end,
        },
        other => other,
    }
}

/// `grammar := (rule | meta | NL | COMMENT)*`. It stops at the first token
/// that starts none of the four, and matches what came before: it always
/// matches, unless it is fatal.
pub open spec fn grammar_at(s: Seq<BootstrapToken>, p: int) -> Outcome<GrammarView>
    decreases s.len() - p,
{
    match rule_at(s, p) {
        Outcome::Fatal => Outcome::Fatal,
        Outcome::Match { value, end } => {
            proof {
                lemma_rule_advances(s, p);
            }
            grammar_preceded_by(seq![value], Seq::empty(), grammar_at(s, end))
        },
        Outcome::NoMatch => match meta_at(s, p) {
            Outcome::Match { value, end } => grammar_preceded_by(
                Seq::empty(),
                seq![value],
                grammar_at(s, end),
            ),
            _ => if has_kind(s, p, BootstrapTokenKind::NL) || has_kind(
                s,
                p,
                BootstrapTokenKind::Comment,
            ) {
                grammar_at(s, p + 1)
            } else {
                Outcome::Match {
                    value: GrammarView { rules: Seq::empty(), metas: Seq::empty() },
                    end: p,
                }
            },
        },
    }
}

/// Putting nothing before an outcome leaves it as it is.
pub proof fn lemma_preceded_by_nothing<V>(outcome: Outcome<Seq<V>>)
    ensures
        preceded_by(Seq::empty(), outcome) == outcome,
{
    match outcome {
        Outcome::Match { value, end } => {
            assert(Seq::<V>::empty() + value =~= value);
        },
        _ => {},
    }
}

/// The same, for a grammar.
pub proof fn lemma_grammar_preceded_by_nothing(outcome: Outcome<GrammarView>)
    ensures
        grammar_preceded_by(Seq::empty(), Seq::empty(), outcome) == outcome,
{
    match outcome {
        Outcome::Match { value, end } => {
            assert(Seq::<RuleView>::empty() + value.rules =~= value.rules);
            assert(Seq::<MetaView>::empty() + value.metas =~= value.metas);
        },
        _ => {},
    }
}

/// Putting `a` before what has `b` before it puts `a + b` before it.
pub proof fn lemma_preceded_twice<V>(a: Seq<V>, b: Seq<V>, outcome: Outcome<Seq<V>>)
    ensures
        preceded_by(a, preceded_by(b, outcome)) == preceded_by(a + b, outcome),
{
    match outcome {
        Outcome::Match { value, end } => {
            assert(a + (b + value) =~= (a + b) + value);
        },
        _ => {},
    }
}

/// The same, for the rules and the meta-directives of a grammar.
pub proof fn lemma_grammar_preceded_twice(
    rules: Seq<RuleView>,
    metas: Seq<MetaView>,
    more_rules: Seq<RuleView>,
    more_metas: Seq<MetaView>,
    outcome: Outcome<GrammarView>,
)
    ensures
        grammar_preceded_by(rules, metas, grammar_preceded_by(more_rules, more_metas, outcome))
            == grammar_preceded_by(rules + more_rules, metas + more_metas, outcome),
{
    match outcome {
        Outcome::Match { value, end } => {
            assert(rules + (more_rules + value.rules) =~= (rules + more_rules) + value.rules);
            assert(metas + (more_metas + value.metas) =~= (metas + more_metas) + value.metas);
        },
        _ => {},
    }
}

/// A run of items ends at or after its start, within the stream.
pub proof fn lemma_items_end_bounds(s: Seq<BootstrapToken>, p: int)
    ensures
        p <= items_end(s, p),
        p <= s.len() ==> items_end(s, p) <= s.len(),
    decreases s.len() - p,
{
    if item_at(s, p) is Match {
        lemma_items_end_bounds(s, p + 1);
    }
}

/// The brace that closes an action stands where the scan is or after it,
/// within the stream.
pub proof fn lemma_action_close_bounds(s: Seq<BootstrapToken>, i: int, depth: nat)
    ensures
        action_close(s, i, depth) matches Some(close) ==> i <= close < s.len(),
    decreases s.len() - i,
{
    if 0 <= i < s.len() {
        if s[i].value@ == "{"@ {
            lemma_action_close_bounds(s, i + 1, depth + 1);
        } else if s[i].value@ == "}"@ {
            if depth != 0 {
                lemma_action_close_bounds(s, i + 1, (depth - 1) as nat);
            }
        } else {
            lemma_action_close_bounds(s, i + 1, depth);
        }
    }
}

/// An alternative that matches consumes at least one token.
pub proof fn lemma_alternative_advances(s: Seq<BootstrapToken>, p: int)
    ensures
        alternative_at(s, p) matches Outcome::Match { end, .. } ==> p < end <= s.len(),
{
    lemma_items_end_bounds(s, p);
    lemma_action_close_bounds(s, items_end(s, p) + 1, 0);
}

/// A run of bar-prefixed alternatives ends at or after its start.
pub proof fn lemma_bar_alts_bounds(s: Seq<BootstrapToken>, p: int)
    ensures
        bar_alts_at(s, p) matches Outcome::Match { end, .. } ==> p <= end && (p <= s.len()
            ==> end <= s.len()),
    decreases s.len() - p,
{
    match bar_alt_at(s, p) {
        Outcome::Match { value, end } => {
            lemma_alternative_advances(s, p + 1);
            lemma_bar_alts_bounds(s, end);
        },
        _ => {},
    }
}

/// A list of alternatives that matches consumes at least one token.
pub proof fn lemma_alts_advance(s: Seq<BootstrapToken>, p: int)
    ensures
        alts_at(s, p) matches Outcome::Match { end, .. } ==> p < end <= s.len(),
        alts_newline_at(s, p) matches Outcome::Match { end, .. } ==> p < end <= s.len(),
{
    lemma_alternative_advances(s, p);
    match alternative_at(s, p) {
        Outcome::Match { value, end } => {
            lemma_bar_alts_bounds(s, end);
        },
        _ => {},
    }
}

/// The lines of an indented block end at or after their start.
pub proof fn lemma_indented_lines_bounds(s: Seq<BootstrapToken>, p: int)
    ensures
        indented_lines_at(s, p) matches Outcome::Match { end, .. } ==> p <= end && (p
            <= s.len() ==> end <= s.len()),
    decreases s.len() - p,
{
    match bar_alts_newline_at(s, p) {
        Outcome::Fatal => {},
        Outcome::Match { value, end } => {
            lemma_alts_advance(s, p + 1);
            lemma_indented_lines_bounds(s, end);
        },
        Outcome::NoMatch => {
            if has_kind(s, p, BootstrapTokenKind::NL) || has_kind(
                s,
                p,
                BootstrapTokenKind::Comment,
            ) {
                lemma_indented_lines_bounds(s, p + 1);
            }
        },
    }
}

/// A rule that matches consumes at least one token.
pub proof fn lemma_rule_advances(s: Seq<BootstrapToken>, p: int)
    ensures
        rule_at(s, p) matches Outcome::Match { end, .. } ==> p < end <= s.len(),
{
    if has_kind(s, p, BootstrapTokenKind::Name) && has_text(s, p + 1, ":"@) {
        lemma_alts_advance(s, p + 2);
        let q = match alts_newline_at(s, p + 2) {
            Outcome::Match { value, end } => end,
            _ => p + 3,
        };
        if 0 <= q < s.len() {
            lemma_indented_lines_bounds(s, q + 1);
        }
    }
}

/// An alternative as this parser builds them: it has an item, and its items
/// are unelaborated symbols.
pub open spec fn is_plain_alt(alt: AltView) -> bool {
    &&& alt.items.len() > 0
    &&& forall|i: int| 0 <= i < alt.items.len() ==> #[trigger] alt.items[i] is Raw
}

/// Each of `alts` is as this parser builds them.
pub open spec fn are_plain_alts(alts: Seq<AltView>) -> bool {
    forall|i: int| 0 <= i < alts.len() ==> is_plain_alt(#[trigger] alts[i])
}

/// A rule as this parser builds them: it has an alternative, and each of its
/// alternatives has an item.
pub open spec fn is_plain_rule(rule: RuleView) -> bool {
    rule.alts.len() > 0 && are_plain_alts(rule.alts)
}

/// An alternative that is matched has an item, and only unelaborated items.
pub proof fn lemma_alternative_is_plain(s: Seq<BootstrapToken>, p: int)
    ensures
        alternative_at(s, p) matches Outcome::Match { value, .. } ==> is_plain_alt(value),
{
    lemma_items_end_bounds(s, p);
}

/// So have the alternatives of a run of bar-prefixed ones.
pub proof fn lemma_bar_alts_are_plain(s: Seq<BootstrapToken>, p: int)
    ensures
        bar_alts_at(s, p) matches Outcome::Match { value, .. } ==> are_plain_alts(value),
    decreases s.len() - p,
{
    match bar_alt_at(s, p) {
        Outcome::Match { value, end } => {
            lemma_alternative_advances(s, p + 1);
            lemma_alternative_is_plain(s, p + 1);
            lemma_bar_alts_are_plain(s, end);
        },
        _ => {},
    }
}

/// A list of alternatives that is matched holds one at least, and each of
/// them has an item.
pub proof fn lemma_alts_are_plain(s: Seq<BootstrapToken>, p: int)
    ensures
        alts_at(s, p) matches Outcome::Match { value, .. } ==> value.len() > 0 && are_plain_alts(
            value,
        ),
        alts_newline_at(s, p) matches Outcome::Match { value, .. } ==> value.len() > 0
            && are_plain_alts(value),
{
    lemma_alternative_is_plain(s, p);
    match alternative_at(s, p) {
        Outcome::Match { value, end } => {
            lemma_bar_alts_are_plain(s, end);
        },
        _ => {},
    }
}

/// The alternatives of the lines of an indented block have an item each.
pub proof fn lemma_indented_lines_are_plain(s: Seq<BootstrapToken>, p: int)
    ensures
        indented_lines_at(s, p) matches Outcome::Match { value, .. } ==> are_plain_alts(value),
    decreases s.len() - p,
{
    match bar_alts_newline_at(s, p) {
        Outcome::Fatal => {},
        Outcome::Match { value, end } => {
            lemma_alts_advance(s, p + 1);
            lemma_alts_are_plain(s, p + 1);
            lemma_indented_lines_are_plain(s, end);
        },
        Outcome::NoMatch => {
            if has_kind(s, p, BootstrapTokenKind::NL) || has_kind(
                s,
                p,
                BootstrapTokenKind::Comment,
            ) {
                lemma_indented_lines_are_plain(s, p + 1);
            }
        },
    }
}

/// So have the alternatives of an indented block.
pub proof fn lemma_indented_alts_are_plain(s: Seq<BootstrapToken>, p: int)
    ensures
        indented_alts_at(s, p) matches Outcome::Match { value, .. } ==> are_plain_alts(value),
{
    lemma_indented_lines_are_plain(s, p + 1);
}

/// A rule that is matched has an alternative, and each of its alternatives
/// has an item.
pub proof fn lemma_rule_is_plain(s: Seq<BootstrapToken>, p: int)
    ensures
        rule_at(s, p) matches Outcome::Match { value, .. } ==> is_plain_rule(value),
{
    if has_kind(s, p, BootstrapTokenKind::Name) && has_text(s, p + 1, ":"@) {
        lemma_alts_are_plain(s, p + 2);
        let q = match alts_newline_at(s, p + 2) {
            Outcome::Match { value, end } => end,
            _ => p + 3,
        };
        lemma_indented_alts_are_plain(s, q);
    }
}

/// So has every rule of a grammar that is matched.
pub proof fn lemma_grammar_is_plain(s: Seq<BootstrapToken>, p: int)
    ensures
        grammar_at(s, p) matches Outcome::Match { value, .. } ==> forall|i: int|
            0 <= i < value.rules.len() ==> is_plain_rule(#[trigger] value.rules[i]),
    decreases s.len() - p,
{
    match rule_at(s, p) {
        Outcome::Fatal => {},
        Outcome::Match { value, end } => {
            lemma_rule_advances(s, p);
            lemma_rule_is_plain(s, p);
            lemma_grammar_is_plain(s, end);
        },
        Outcome::NoMatch => match meta_at(s, p) {
            Outcome::Match { value, end } => {
                lemma_grammar_is_plain(s, end);
            },
            _ => {
                if has_kind(s, p, BootstrapTokenKind::NL) || has_kind(
                    s,
                    p,
                    BootstrapTokenKind::Comment,
                ) {
                    lemma_grammar_is_plain(s, p + 1);
                }
            },
        },
    }
}

} // verus!