use peg_bootstrap::bootstrap::{
    BootstrapGrammarParser, BootstrapToken, BootstrapTokenExpected, BootstrapTokenKind, _k, _v,
};
use peg_bootstrap::grammar::{
    Alt, Grammar, Item, Lookahead, Meta, MetaValue, NamedItem, Repeat, Rule,
};
use peg_bootstrap::parser::{Parser, TokenExpected};
use peg_bootstrap::tokenizer::Tokenizer;

type Tokens = std::vec::IntoIter<BootstrapToken<'static>>;
type Bootstrap = BootstrapGrammarParser<'static, (), Tokens>;

fn token(kind: BootstrapTokenKind, value: &'static str) -> BootstrapToken<'static> {
    BootstrapToken { kind, value }
}

fn name(value: &'static str) -> BootstrapToken<'static> {
    token(BootstrapTokenKind::Name, value)
}

fn string(value: &'static str) -> BootstrapToken<'static> {
    token(BootstrapTokenKind::String, value)
}

fn number(value: &'static str) -> BootstrapToken<'static> {
    token(BootstrapTokenKind::Number, value)
}

/// A punctuation token. The parser finds these by their text; the kind only
/// has to be one that is no item.
fn sym(value: &'static str) -> BootstrapToken<'static> {
    token(BootstrapTokenKind::EndMarker, value)
}

fn newline() -> BootstrapToken<'static> {
    token(BootstrapTokenKind::Newline, "\n")
}

fn nl() -> BootstrapToken<'static> {
    token(BootstrapTokenKind::NL, "\n")
}

fn comment(value: &'static str) -> BootstrapToken<'static> {
    token(BootstrapTokenKind::Comment, value)
}

fn indent() -> BootstrapToken<'static> {
    token(BootstrapTokenKind::Indent, "    ")
}

fn dedent() -> BootstrapToken<'static> {
    token(BootstrapTokenKind::Dedent, "")
}

fn end() -> BootstrapToken<'static> {
    token(BootstrapTokenKind::EndMarker, "")
}

fn bootstrap(tokens: Vec<BootstrapToken<'static>>) -> Bootstrap {
    BootstrapGrammarParser::new(Parser::new(Tokenizer::new(tokens.into_iter())))
}

fn raw(texts: &[&'static str]) -> Vec<Item<'static>> {
    texts.iter().map(|text| Item::Raw(*text)).collect()
}

fn alt(texts: &[&'static str], action: &str) -> Alt<'static> {
    Alt { items: raw(texts), action: action.to_string() }
}

// "@x\n"
#[test]
fn meta_with_no_value() {
    let mut p = bootstrap(vec![sym("@"), name("x"), newline()]);
    assert_eq!(Some(Meta { key: "x", value: MetaValue::Absent }), p.meta());
    assert_eq!(3, p.parser.mark());
}

// "@x y\n"
#[test]
fn meta_with_a_name_is_a_string_value() {
    let mut p = bootstrap(vec![sym("@"), name("x"), name("y"), newline()]);
    assert_eq!(Some(Meta { key: "x", value: MetaValue::String("y") }), p.meta());
    assert_eq!(4, p.parser.mark());
}

// "@x 5\n"
#[test]
fn meta_with_a_number() {
    let mut p = bootstrap(vec![sym("@"), name("x"), number("5"), newline()]);
    let meta = p.meta().unwrap();
    assert_eq!(Meta { key: "x", value: MetaValue::Number("5") }, meta);
    match meta.value {
        MetaValue::Number(literal) => assert_eq!(5.0, literal.parse::<f64>().unwrap()),
        _ => unreachable!(),
    }
    assert_eq!(4, p.parser.mark());
}

#[test]
fn meta_that_does_not_match_consumes_nothing() {
    // A string literal is no value.
    let mut p = bootstrap(vec![sym("@"), name("x"), string("'y'"), newline()]);
    assert_eq!(None, p.meta());
    assert_eq!(0, p.parser.mark());
    // The value is not followed by a newline.
    let mut p = bootstrap(vec![sym("@"), name("x"), name("y"), name("z"), newline()]);
    assert_eq!(None, p.meta());
    assert_eq!(0, p.parser.mark());
    let mut p = bootstrap(vec![sym("@"), name("x"), number("5"), number("6"), newline()]);
    assert_eq!(None, p.meta());
    assert_eq!(0, p.parser.mark());
    // The key is no name.
    let mut p = bootstrap(vec![sym("@"), number("5"), newline()]);
    assert_eq!(None, p.meta());
    assert_eq!(0, p.parser.mark());
    // No '@'.
    let mut p = bootstrap(vec![name("x"), newline()]);
    assert_eq!(None, p.meta());
    assert_eq!(0, p.parser.mark());
    // The stream ends early.
    let mut p = bootstrap(vec![sym("@"), name("x")]);
    assert_eq!(None, p.meta());
    assert_eq!(0, p.parser.mark());
    let mut p = bootstrap(vec![sym("@")]);
    assert_eq!(None, p.meta());
    assert_eq!(0, p.parser.mark());
    let mut p = bootstrap(vec![]);
    assert_eq!(None, p.meta());
    assert_eq!(0, p.parser.mark());
}

#[test]
fn meta_is_found_by_the_text_of_its_first_token() {
    let mut p = bootstrap(vec![name("@"), name("x"), newline()]);
    assert_eq!(Some(Meta { key: "x", value: MetaValue::Absent }), p.meta());
}

#[test]
fn item_is_a_name_or_a_string() {
    let mut p = bootstrap(vec![name("a"), string("'b'"), number("1")]);
    assert_eq!(Some("a"), p.item());
    assert_eq!(1, p.parser.mark());
    assert_eq!(Some("'b'"), p.item());
    assert_eq!(2, p.parser.mark());
    assert_eq!(None, p.item());
    assert_eq!(2, p.parser.mark());
    let mut p = bootstrap(vec![]);
    assert_eq!(None, p.item());
    assert_eq!(0, p.parser.mark());
}

// "a b { foo { 1 } bar }"
#[test]
fn action_text_keeps_inner_braces() {
    let mut p = bootstrap(vec![
        name("a"),
        name("b"),
        sym("{"),
        name("foo"),
        sym("{"),
        number("1"),
        sym("}"),
        name("bar"),
        sym("}"),
    ]);
    let found = p.alternative().unwrap();
    assert_eq!(vec![Item::Raw("a"), Item::Raw("b")], found.items);
    assert_eq!("foo { 1 } bar", found.action);
    assert_eq!(9, p.parser.mark());
}

#[test]
fn alternative_without_an_action() {
    let mut p = bootstrap(vec![name("a"), string("'+'"), name("b"), newline()]);
    assert_eq!(Some(alt(&["a", "'+'", "b"], "")), p.alternative());
    assert_eq!(3, p.parser.mark());
    let mut p = bootstrap(vec![name("a")]);
    assert_eq!(Some(alt(&["a"], "")), p.alternative());
    assert_eq!(1, p.parser.mark());
}

#[test]
fn alternative_with_an_empty_action() {
    let mut p = bootstrap(vec![name("a"), sym("{"), sym("}"), name("b")]);
    assert_eq!(Some(alt(&["a"], "")), p.alternative());
    assert_eq!(3, p.parser.mark());
}

#[test]
fn action_takes_tokens_of_every_kind() {
    let mut p = bootstrap(vec![
        name("a"),
        sym("{"),
        sym("{"),
        sym("{"),
        sym("}"),
        newline(),
        sym("|"),
        sym("}"),
        string("'}'"),
        sym("}"),
        sym("}"),
    ]);
    let found = p.alternative().unwrap();
    assert_eq!("{ { } \n | } '}'", found.action);
    assert_eq!(10, p.parser.mark());
}

#[test]
fn alternative_needs_an_item() {
    let mut p = bootstrap(vec![sym("{"), name("a"), sym("}")]);
    assert_eq!(None, p.alternative());
    assert_eq!(0, p.parser.mark());
    let mut p = bootstrap(vec![newline()]);
    assert_eq!(None, p.alternative());
    assert_eq!(0, p.parser.mark());
    let mut p = bootstrap(vec![]);
    assert_eq!(None, p.alternative());
    assert_eq!(0, p.parser.mark());
}

#[test]
fn bar_alt_takes_the_bar_with_its_alternative() {
    let mut p = bootstrap(vec![sym("|"), name("a"), name("b"), sym("|")]);
    assert_eq!(Some(alt(&["a", "b"], "")), p.bar_alt());
    assert_eq!(3, p.parser.mark());
    // A bar with no alternative after it.
    assert_eq!(None, p.bar_alt());
    assert_eq!(3, p.parser.mark());
    let mut p = bootstrap(vec![name("a")]);
    assert_eq!(None, p.bar_alt());
    assert_eq!(0, p.parser.mark());
}

#[test]
fn alts_end_at_a_dangling_bar() {
    let mut p = bootstrap(vec![name("a"), sym("|"), name("b"), name("c"), sym("|"), newline()]);
    assert_eq!(Some(vec![alt(&["a"], ""), alt(&["b", "c"], "")]), p.alts());
    assert_eq!(4, p.parser.mark());
    let mut p = bootstrap(vec![sym("|"), name("a")]);
    assert_eq!(None, p.alts());
    assert_eq!(0, p.parser.mark());
}

#[test]
fn alts_with_actions() {
    let mut p = bootstrap(vec![
        name("a"),
        sym("{"),
        name("x"),
        sym("}"),
        sym("|"),
        name("b"),
        sym("{"),
        name("y"),
        name("z"),
        sym("}"),
    ]);
    assert_eq!(Some(vec![alt(&["a"], "x"), alt(&["b"], "y z")]), p.alts());
    assert_eq!(10, p.parser.mark());
}

#[test]
fn alts_newline_needs_the_newline() {
    let mut p = bootstrap(vec![name("a"), sym("|"), name("b"), newline()]);
    assert_eq!(Some(vec![alt(&["a"], ""), alt(&["b"], "")]), p.alts_newline());
    assert_eq!(4, p.parser.mark());
    let mut p = bootstrap(vec![name("a"), sym("|"), name("b")]);
    assert_eq!(None, p.alts_newline());
    assert_eq!(0, p.parser.mark());
    let mut p = bootstrap(vec![name("a"), sym("|"), newline()]);
    assert_eq!(None, p.alts_newline());
    assert_eq!(0, p.parser.mark());
}

#[test]
fn bar_alts_newline_takes_a_whole_line() {
    let mut p = bootstrap(vec![sym("|"), name("a"), sym("|"), name("b"), newline(), name("c")]);
    assert_eq!(Some(vec![alt(&["a"], ""), alt(&["b"], "")]), p.bar_alts_newline());
    assert_eq!(5, p.parser.mark());
    assert_eq!(None, p.bar_alts_newline());
    assert_eq!(5, p.parser.mark());
    let mut p = bootstrap(vec![sym("|"), name("a"), name("b")]);
    assert_eq!(None, p.bar_alts_newline());
    assert_eq!(0, p.parser.mark());
}

#[test]
fn indented_alts_gathers_the_lines() {
    let mut p = bootstrap(vec![
        indent(),
        nl(),
        sym("|"),
        name("a"),
        newline(),
        comment("# note"),
        sym("|"),
        name("b"),
        sym("|"),
        name("c"),
        newline(),
        nl(),
        dedent(),
        name("next"),
    ]);
    assert_eq!(
        Some(vec![alt(&["a"], ""), alt(&["b"], ""), alt(&["c"], "")]),
        p.indented_alts()
    );
    assert_eq!(13, p.parser.mark());
}

#[test]
fn indented_alts_may_hold_no_alternative() {
    let mut p = bootstrap(vec![indent(), nl(), comment("#"), dedent()]);
    assert_eq!(Some(vec![]), p.indented_alts());
    assert_eq!(4, p.parser.mark());
    let mut p = bootstrap(vec![indent(), dedent()]);
    assert_eq!(Some(vec![]), p.indented_alts());
    assert_eq!(2, p.parser.mark());
}

#[test]
fn indented_alts_without_a_dedent_matches_nothing() {
    let mut p = bootstrap(vec![indent(), sym("|"), name("a"), newline(), name("b")]);
    assert_eq!(None, p.indented_alts());
    assert_eq!(0, p.parser.mark());
    let mut p = bootstrap(vec![indent(), sym("|"), name("a"), newline()]);
    assert_eq!(None, p.indented_alts());
    assert_eq!(0, p.parser.mark());
    let mut p = bootstrap(vec![sym("|"), name("a"), newline(), dedent()]);
    assert_eq!(None, p.indented_alts());
    assert_eq!(0, p.parser.mark());
}

// "start:\n"
#[test]
fn rule_with_no_alternative_is_no_rule() {
    let mut p = bootstrap(vec![name("start"), sym(":"), newline()]);
    assert_eq!(None, p.rule());
    assert_eq!(0, p.parser.mark());
    // Nor is one whose block holds none.
    let mut p = bootstrap(vec![name("start"), sym(":"), newline(), indent(), nl(), dedent()]);
    assert_eq!(None, p.rule());
    assert_eq!(0, p.parser.mark());
}

// "start:\n    | a\n"
#[test]
fn rule_with_an_indented_body() {
    let mut p = bootstrap(vec![
        name("start"),
        sym(":"),
        newline(),
        indent(),
        sym("|"),
        name("a"),
        newline(),
        dedent(),
    ]);
    assert_eq!(Some(Rule { name: "start", alts: vec![alt(&["a"], "")] }), p.rule());
    assert_eq!(8, p.parser.mark());
}

// "start: a | b\n"
#[test]
fn rule_with_two_alternatives() {
    let mut p = bootstrap(vec![name("start"), sym(":"), name("a"), sym("|"), name("b"), newline()]);
    let rule = p.rule().unwrap();
    assert_eq!("start", rule.name);
    assert_eq!(2, rule.alts.len());
    assert_eq!(vec![Item::Raw("a")], rule.alts[0].items);
    assert_eq!(vec![Item::Raw("b")], rule.alts[1].items);
    assert_eq!(6, p.parser.mark());
}

#[test]
fn rule_with_a_first_line_and_a_block() {
    let mut p = bootstrap(vec![
        name("sum"),
        sym(":"),
        name("a"),
        newline(),
        indent(),
        sym("|"),
        name("b"),
        sym("{"),
        name("x"),
        sym("}"),
        newline(),
        sym("|"),
        name("c"),
        newline(),
        dedent(),
        name("next"),
    ]);
    assert_eq!(
        Some(Rule { name: "sum", alts: vec![alt(&["a"], ""), alt(&["b"], "x"), alt(&["c"], "")] }),
        p.rule()
    );
    assert_eq!(15, p.parser.mark());
}

#[test]
fn rule_keeps_its_first_line_where_the_block_is_not_closed() {
    let mut p = bootstrap(vec![
        name("r"),
        sym(":"),
        name("a"),
        newline(),
        indent(),
        sym("|"),
        name("b"),
        newline(),
    ]);
    assert_eq!(Some(Rule { name: "r", alts: vec![alt(&["a"], "")] }), p.rule());
    assert_eq!(4, p.parser.mark());
}

#[test]
fn rule_that_does_not_match_consumes_nothing() {
    let mut p = bootstrap(vec![name("start"), name("a"), newline()]);
    assert_eq!(None, p.rule());
    assert_eq!(0, p.parser.mark());
    let mut p = bootstrap(vec![name("start"), sym(":"), name("a")]);
    assert_eq!(None, p.rule());
    assert_eq!(0, p.parser.mark());
    let mut p = bootstrap(vec![name("start"), sym(":"), sym("|"), newline()]);
    assert_eq!(None, p.rule());
    assert_eq!(0, p.parser.mark());
    let mut p = bootstrap(vec![string("'start'"), sym(":"), name("a"), newline()]);
    assert_eq!(None, p.rule());
    assert_eq!(0, p.parser.mark());
    let mut p = bootstrap(vec![name("start")]);
    assert_eq!(None, p.rule());
    assert_eq!(0, p.parser.mark());
}

#[test]
fn grammar_keeps_the_order_of_rules_and_metas() {
    let mut p = bootstrap(vec![
        comment("# a grammar"),
        nl(),
        sym("@"),
        name("header"),
        name("h"),
        newline(),
        name("start"),
        sym(":"),
        name("a"),
        sym("|"),
        name("b"),
        newline(),
        nl(),
        sym("@"),
        name("depth"),
        number("5"),
        newline(),
        name("a"),
        sym(":"),
        string("'x'"),
        sym("{"),
        name("one"),
        sym("}"),
        newline(),
        sym("@"),
        name("trailer"),
        newline(),
        end(),
    ]);
    let grammar = p.grammar();
    assert_eq!(
        Grammar {
            rules: vec![
                Rule { name: "start", alts: vec![alt(&["a"], ""), alt(&["b"], "")] },
                Rule { name: "a", alts: vec![alt(&["'x'"], "one")] },
            ],
            metas: vec![
                Meta { key: "header", value: MetaValue::String("h") },
                Meta { key: "depth", value: MetaValue::Number("5") },
                Meta { key: "trailer", value: MetaValue::Absent },
            ],
        },
        grammar
    );
    assert_eq!(27, p.parser.mark());
}

#[test]
fn grammar_keeps_duplicates() {
    let mut p = bootstrap(vec![
        name("r"),
        sym(":"),
        name("a"),
        newline(),
        name("r"),
        sym(":"),
        name("a"),
        newline(),
        sym("@"),
        name("k"),
        newline(),
        sym("@"),
        name("k"),
        newline(),
    ]);
    let grammar = p.grammar();
    assert_eq!(2, grammar.rules.len());
    assert_eq!(grammar.rules[0], grammar.rules[1]);
    assert_eq!(2, grammar.metas.len());
    assert_eq!(grammar.metas[0], grammar.metas[1]);
    assert_eq!(14, p.parser.mark());
}

#[test]
fn grammar_stops_at_what_it_does_not_know() {
    let mut p = bootstrap(vec![
        name("r"),
        sym(":"),
        name("a"),
        newline(),
        number("7"),
        name("s"),
        sym(":"),
        name("b"),
        newline(),
    ]);
    let grammar = p.grammar();
    assert_eq!(vec![Rule { name: "r", alts: vec![alt(&["a"], "")] }], grammar.rules);
    assert!(grammar.metas.is_empty());
    assert_eq!(4, p.parser.mark());
    // A rule with no alternative stops it too.
    let mut p = bootstrap(vec![name("r"), sym(":"), newline(), name("s"), sym(":"), name("b")]);
    let grammar = p.grammar();
    assert!(grammar.rules.is_empty());
    assert_eq!(0, p.parser.mark());
}

#[test]
fn grammar_of_nothing() {
    let mut p = bootstrap(vec![]);
    assert_eq!(Grammar { rules: vec![], metas: vec![] }, p.grammar());
    assert_eq!(0, p.parser.mark());
    let mut p = bootstrap(vec![nl(), comment("#"), nl()]);
    assert_eq!(Grammar { rules: vec![], metas: vec![] }, p.grammar());
    assert_eq!(3, p.parser.mark());
}

#[test]
fn expectations_match_by_kind_or_by_text() {
    let colon = sym(":");
    assert!(_k(BootstrapTokenKind::EndMarker).matched(&colon));
    assert!(!_k(BootstrapTokenKind::Name).matched(&colon));
    assert!(_v(":").matched(&colon));
    assert!(!_v("::").matched(&colon));
    assert!(_v(":").matched(&name(":")));
    assert!(BootstrapTokenExpected::Kind(BootstrapTokenKind::NL).matched(&nl()));
    assert!(!BootstrapTokenExpected::Kind(BootstrapTokenKind::NL).matched(&newline()));
    assert!(BootstrapTokenExpected::Value("\n").matched(&newline()));
}

#[test]
fn items_other_than_raw_can_be_built() {
    let items = vec![
        Item::NamedItem(NamedItem { name: "n", item: "a" }),
        Item::Repeat(Repeat { at_least: 1, at_most: None, item: "a" }),
        Item::Repeat(Repeat { at_least: 0, at_most: Some(1), item: "a" }),
        Item::Lookahead(Lookahead { positive: false, item: "a" }),
        Item::Cut,
        Item::Raw("a"),
    ];
    for (i, left) in items.iter().enumerate() {
        for (j, right) in items.iter().enumerate() {
            assert_eq!(i == j, left == right);
        }
    }
}
