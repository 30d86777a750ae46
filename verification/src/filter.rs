//! The rule language: tokenizer, recursive-descent parser, the rule AST and
//! its evaluation against window records, and the `Filter` evaluation
//! contract.

use vstd::prelude::*;
use std::collections::VecDeque;
use crate::text::{lower_seq, is_space_char, str_chars, chars_to_string, lower_range};

verus! {

/// Comparison operator of a leaf rule.
#[derive(Debug, Clone, Copy, PartialEq, Eq, Structural)]
pub enum Op {
    Eq,
    Neq,
    GT,
    LT,
    GE,
    LE,
}

/// What a parsed rule statement does: filter windows out, or pin them.
#[derive(Debug, Clone, Copy, PartialEq, Eq, Structural)]
pub enum Action {
    FilterOut,
    Pin,
}

/// One token of rule source text.
#[derive(Debug, Clone, PartialEq, Eq)]
pub enum Token {
    OP(Op),
    StrLit(String),
    ACTION(Action),
    ANY,
    ALL,
    NOT,
    LBRACE,
    RBRACE,
    COMMA,
    COLON,
    SEMICOLON,
    DOT,
    EOT,
}

/// Mathematical image of a token: string literals as character sequences.
pub enum TokenView {
    OP(Op),
    StrLit(Seq<char>),
    ACTION(Action),
    ANY,
    ALL,
    NOT,
    LBRACE,
    RBRACE,
    COMMA,
    COLON,
    SEMICOLON,
    DOT,
    EOT,
}

impl View for Token {
    type V = TokenView;

    open spec fn view(&self) -> TokenView {
        match self {
            Token::OP(op) => TokenView::OP(*op),
            Token::StrLit(s) => TokenView::StrLit(s@),
            Token::ACTION(a) => TokenView::ACTION(*a),
            Token::ANY => TokenView::ANY,
            Token::ALL => TokenView::ALL,
            Token::NOT => TokenView::NOT,
            Token::LBRACE => TokenView::LBRACE,
            Token::RBRACE => TokenView::RBRACE,
            Token::COMMA => TokenView::COMMA,
            Token::COLON => TokenView::COLON,
            Token::SEMICOLON => TokenView::SEMICOLON,
            Token::DOT => TokenView::DOT,
            Token::EOT => TokenView::EOT,
        }
    }
}

/// The token stream handed from the tokenizer to the parser.
pub type Tokens = VecDeque<Token>;

/// View of a token sequence.
pub open spec fn toks_view(s: Seq<Token>) -> Seq<TokenView> {
    s.map_values(|t: Token| t@)
}

/// The characters that end an unquoted literal and stand for themselves.
pub open spec fn is_meta_char(c: char) -> bool {
    c == '.' || c == ',' || c == ';' || c == ':' || c == '(' || c == ')' || c == '<' || c == '>'
        || c == '='
}

/// Quote characters that start a verbatim literal.
pub open spec fn is_quote_char(c: char) -> bool {
    c == '\'' || c == '"'
}

/// Length of the unquoted literal that starts at the head of `s`: characters
/// up to the first meta character or whitespace.
pub open spec fn plain_lit_len(s: Seq<char>) -> nat
    decreases s.len(),
{
    if s.len() == 0 || is_meta_char(s[0]) || is_space_char(s[0]) {
        0
    } else {
        1 + plain_lit_len(s.skip(1))
    }
}

/// Length of the quoted literal at the head of `s`: characters up to the
/// matching quote `q`, or all of `s` when the quote never closes.
pub open spec fn quoted_len(s: Seq<char>, q: char) -> nat
    decreases s.len(),
{
    if s.len() == 0 || s[0] == q {
        0
    } else {
        1 + quoted_len(s.skip(1), q)
    }
}

pub proof fn lemma_plain_lit_len_le(s: Seq<char>)
    ensures
        plain_lit_len(s) <= s.len(),
    decreases s.len(),
{
    if !(s.len() == 0 || is_meta_char(s[0]) || is_space_char(s[0])) {
        lemma_plain_lit_len_le(s.skip(1));
    }
}

pub proof fn lemma_quoted_len_le(s: Seq<char>, q: char)
    ensures
        quoted_len(s, q) <= s.len(),
    decreases s.len(),
{
    if !(s.len() == 0 || s[0] == q) {
        lemma_quoted_len_le(s.skip(1), q);
    }
}

/// Classify a lower-cased literal: structural keywords always, action
/// keywords only in action position (after a `:`), anything else a string
/// literal carrying the lower-cased text.
pub open spec fn classify_spec(w: Seq<char>, need_act: bool) -> TokenView {
    if w == seq!['a', 'l', 'l'] {
        TokenView::ALL
    } else if w == seq!['a', 'n', 'y'] {
        TokenView::ANY
    } else if w == seq!['n', 'o', 't'] {
        TokenView::NOT
    } else if need_act && w == seq!['p', 'i', 'n'] {
        TokenView::ACTION(Action::Pin)
    } else if need_act && w == seq!['f', 'i', 'l', 't', 'e', 'r'] {
        TokenView::ACTION(Action::FilterOut)
    } else {
        TokenView::StrLit(w)
    }
}

/// The token sequence of the rule source `cs`, scanned with the
/// "expecting action" flag `na`; always ends with the end-of-input token.
pub open spec fn scan_spec(cs: Seq<char>, na: bool) -> Seq<TokenView>
    decreases cs.len(),
    via scan_spec_dec
{
    if cs.len() == 0 {
        seq![TokenView::EOT]
    } else {
        let c = cs[0];
        if c == '=' {
            seq![TokenView::OP(Op::Eq)] + scan_spec(cs.skip(1), na)
        } else if c == '>' {
            if cs.len() >= 2 && cs[1] == '=' {
                seq![TokenView::OP(Op::GE)] + scan_spec(cs.skip(2), na)
            } else {
                seq![TokenView::OP(Op::GT)] + scan_spec(cs.skip(1), na)
            }
        } else if c == '<' {
            if cs.len() >= 2 && cs[1] == '=' {
                seq![TokenView::OP(Op::LE)] + scan_spec(cs.skip(2), na)
            } else if cs.len() >= 2 && cs[1] == '>' {
                seq![TokenView::OP(Op::Neq)] + scan_spec(cs.skip(2), na)
            } else {
                seq![TokenView::OP(Op::LT)] + scan_spec(cs.skip(1), na)
            }
        } else if c == '.' {
            seq![TokenView::DOT] + scan_spec(cs.skip(1), na)
        } else if c == ',' {
            seq![TokenView::COMMA] + scan_spec(cs.skip(1), na)
        } else if c == ';' {
            seq![TokenView::SEMICOLON] + scan_spec(cs.skip(1), false)
        } else if c == ':' {
            seq![TokenView::COLON] + scan_spec(cs.skip(1), true)
        } else if c == '(' {
            seq![TokenView::LBRACE] + scan_spec(cs.skip(1), na)
        } else if c == ')' {
            seq![TokenView::RBRACE] + scan_spec(cs.skip(1), na)
        } else if is_space_char(c) {
            scan_spec(cs.skip(1), na)
        } else if is_quote_char(c) {
            let m = quoted_len(cs.skip(1), c);
            let w = lower_seq(cs.skip(1).take(m as int));
            if 1 + m < cs.len() {
                seq![classify_spec(w, na)] + scan_spec(cs.skip(2 + m as int), na)
            } else {
                seq![classify_spec(w, na), TokenView::EOT]
            }
        } else {
            let n = 1 + plain_lit_len(cs.skip(1));
            let w = lower_seq(cs.take(n as int));
            seq![classify_spec(w, na)] + scan_spec(cs.skip(n as int), na)
        }
    }
}

#[via_fn]
proof fn scan_spec_dec(cs: Seq<char>, na: bool) {
    if cs.len() > 0 {
        lemma_plain_lit_len_le(cs.skip(1));
        lemma_quoted_len_le(cs.skip(1), cs[0]);
    }
}

/// Is `c` a meta character?
fn is_meta_exec(c: char) -> (r: bool)
    ensures
        r == is_meta_char(c),
{
    c == '.' || c == ',' || c == ';' || c == ':' || c == '(' || c == ')' || c == '<' || c == '>'
        || c == '='
}

/// Is `c` ASCII whitespace?
fn is_space_exec(c: char) -> (r: bool)
    ensures
        r == is_space_char(c),
{
    c == ' ' || c == '\t' || c == '\n' || c == '\r'
}

/// First index at or after `start` that ends an unquoted literal.
fn plain_lit_end(cs: &Vec<char>, start: usize) -> (e: usize)
    requires
        start <= cs.len(),
    ensures
        start <= e <= cs.len(),
        e - start == plain_lit_len(cs@.skip(start as int)),
{
    let mut j: usize = start;
    while j < cs.len() && !is_meta_exec(cs[j]) && !is_space_exec(cs[j])
        invariant
            start <= j <= cs.len(),
            plain_lit_len(cs@.skip(start as int)) == j - start + plain_lit_len(
                cs@.skip(j as int),
            ),
        decreases cs.len() - j,
    {
        proof {
            assert(cs@.skip(j as int)[0] == cs@[j as int]);
            assert(cs@.skip(j as int).skip(1) =~= cs@.skip(j as int + 1));
        }
        j = j + 1;
    }
    proof {
        if j < cs.len() {
            assert(cs@.skip(j as int)[0] == cs@[j as int]);
        }
        assert(plain_lit_len(cs@.skip(j as int)) == 0);
    }
    j
}

/// First index at or after `start` that holds the closing quote `q`, or the
/// end of the text when the quote never closes.
fn quoted_end(cs: &Vec<char>, start: usize, q: char) -> (e: usize)
    requires
        start <= cs.len(),
    ensures
        start <= e <= cs.len(),
        e - start == quoted_len(cs@.skip(start as int), q),
{
    let mut j: usize = start;
    while j < cs.len() && cs[j] != q
        invariant
            start <= j <= cs.len(),
            quoted_len(cs@.skip(start as int), q) == j - start + quoted_len(
                cs@.skip(j as int),
                q,
            ),
        decreases cs.len() - j,
    {
        proof {
            assert(cs@.skip(j as int)[0] == cs@[j as int]);
            assert(cs@.skip(j as int).skip(1) =~= cs@.skip(j as int + 1));
        }
        j = j + 1;
    }
    proof {
        if j < cs.len() {
            assert(cs@.skip(j as int)[0] == cs@[j as int]);
        }
        assert(quoted_len(cs@.skip(j as int), q) == 0);
    }
    j
}

/// Compare a character vector with a short keyword given as characters.
fn word_eq(w: &Vec<char>, kw: &Vec<char>) -> (r: bool)
    ensures
        r == (w@ == kw@),
{
    if w.len() != kw.len() {
        proof {
            assert(w@.len() != kw@.len());
        }
        return false;
    }
    let mut i: usize = 0;
    while i < w.len()
        invariant
            0 <= i <= w.len(),
            w.len() == kw.len(),
            forall|k: int| 0 <= k < i ==> w@[k] == kw@[k],
        decreases w.len() - i,
    {
        if w[i] != kw[i] {
            return false;
        }
        i = i + 1;
    }
    proof {
        assert(w@ =~= kw@);
    }
    true
}

/// Classify a lower-cased literal into its token.
fn classify(w: Vec<char>, need_act: bool) -> (t: Token)
    ensures
        t@ == classify_spec(w@, need_act),
{
    let kw_all: Vec<char> = vec!['a', 'l', 'l'];
    let kw_any: Vec<char> = vec!['a', 'n', 'y'];
    let kw_not: Vec<char> = vec!['n', 'o', 't'];
    let kw_pin: Vec<char> = vec!['p', 'i', 'n'];
    let kw_filter: Vec<char> = vec!['f', 'i', 'l', 't', 'e', 'r'];
    proof {
        assert(kw_all@ =~= seq!['a', 'l', 'l']);
        assert(kw_any@ =~= seq!['a', 'n', 'y']);
        assert(kw_not@ =~= seq!['n', 'o', 't']);
        assert(kw_pin@ =~= seq!['p', 'i', 'n']);
        assert(kw_filter@ =~= seq!['f', 'i', 'l', 't', 'e', 'r']);
    }
    if word_eq(&w, &kw_all) {
        Token::ALL
    } else if word_eq(&w, &kw_any) {
        Token::ANY
    } else if word_eq(&w, &kw_not) {
        Token::NOT
    } else if need_act && word_eq(&w, &kw_pin) {
        Token::ACTION(Action::Pin)
    } else if need_act && word_eq(&w, &kw_filter) {
        Token::ACTION(Action::FilterOut)
    } else {
        Token::StrLit(chars_to_string(&w))
    }
}

/// Scan rule source text into its token sequence, always terminated by the
/// end-of-input token. Scanning never fails: unrecognized input becomes a
/// lower-cased string literal.
#[verifier::loop_isolation(false)]
pub fn scan_tokens(rule: &str) -> (tokens: Tokens)
    ensures
        toks_view(tokens@) == scan_spec(rule@, false),
{
    let cs = str_chars(rule);
    let mut tokens: Tokens = VecDeque::new();
    let mut i: usize = 0;
    let mut need_act = false;
    proof {
        assert(cs@.skip(0) =~= cs@);
        assert(toks_view(tokens@) =~= Seq::<TokenView>::empty());
    }
    while i < cs.len()
        invariant
            0 <= i <= cs.len(),
            scan_spec(cs@, false) == toks_view(tokens@) + scan_spec(cs@.skip(i as int), need_act),
        decreases cs.len() - i,
    {
        let ghost pre = tokens@;
        let ghost rest = cs@.skip(i as int);
        proof {
            assert(rest[0] == cs@[i as int]);
            assert(rest.skip(1) =~= cs@.skip(i as int + 1));
            if i + 1 < cs.len() {
                assert(rest[1] == cs@[i as int + 1]);
            }
        }
        let c = cs[i];
        if c == '=' {
            tokens.push_back(Token::OP(Op::Eq));
            i = i + 1;
        } else if c == '>' {
            if i + 1 < cs.len() && cs[i + 1] == '=' {
                proof {
                    assert(rest.skip(2) =~= cs@.skip(i as int + 2));
                }
                tokens.push_back(Token::OP(Op::GE));
                i = i + 2;
            } else {
                tokens.push_back(Token::OP(Op::GT));
                i = i + 1;
            }
        } else if c == '<' {
            if i + 1 < cs.len() && cs[i + 1] == '=' {
                proof {
                    assert(rest.skip(2) =~= cs@.skip(i as int + 2));
                }
                tokens.push_back(Token::OP(Op::LE));
                i = i + 2;
            } else if i + 1 < cs.len() && cs[i + 1] == '>' {
                proof {
                    assert(rest.skip(2) =~= cs@.skip(i as int + 2));
                }
                tokens.push_back(Token::OP(Op::Neq));
                i = i + 2;
            } else {
                tokens.push_back(Token::OP(Op::LT));
                i = i + 1;
            }
        } else if c == '.' {
            tokens.push_back(Token::DOT);
            i = i + 1;
        } else if c == ',' {
            tokens.push_back(Token::COMMA);
            i = i + 1;
        } else if c == ';' {
            tokens.push_back(Token::SEMICOLON);
            need_act = false;
            i = i + 1;
        } else if c == ':' {
            tokens.push_back(Token::COLON);
            need_act = true;
            i = i + 1;
        } else if c == '(' {
            tokens.push_back(Token::LBRACE);
            i = i + 1;
        } else if c == ')' {
            tokens.push_back(Token::RBRACE);
            i = i + 1;
        } else if is_space_exec(c) {
            i = i + 1;
        } else if c == '\'' || c == '"' {
            let e = quoted_end(&cs, i + 1, c);
            proof {
                assert(cs@.skip(i as int + 1) =~= rest.skip(1));
                assert(rest.skip(1).take(e - (i + 1)) =~= cs@.subrange(i as int + 1, e as int));
            }
            let w = lower_range(&cs, i + 1, e);
            let t = classify(w, need_act);
            tokens.push_back(t);
            if e < cs.len() {
                proof {
                    assert(rest.skip(2 + (e - (i + 1))) =~= cs@.skip(e as int + 1));
                }
                i = e + 1;
            } else {
                proof {
                    assert(toks_view(pre.push(t)) =~= toks_view(pre) + seq![t@]);
                    assert(scan_spec(rest, need_act) == seq![t@, TokenView::EOT]);
                    assert(scan_spec(cs@.skip(cs@.len() as int), need_act) == seq![
                        TokenView::EOT,
                    ]);
                    assert(toks_view(pre) + seq![t@, TokenView::EOT] =~= (toks_view(pre) + seq![
                        t@,
                    ]) + seq![TokenView::EOT]);
                }
                i = cs.len();
            }
        } else {
            let e = plain_lit_end(&cs, i + 1);
            proof {
                assert(cs@.skip(i as int + 1) =~= rest.skip(1));
                assert(rest.take(1 + (e - (i + 1))) =~= cs@.subrange(i as int, e as int));
                assert(rest.skip(1 + (e - (i + 1))) =~= cs@.skip(e as int));
            }
            let w = lower_range(&cs, i, e);
            let t = classify(w, need_act);
            tokens.push_back(t);
            i = e;
        }
        proof {
            assert(toks_view(pre.push(tokens@.last())) =~= toks_view(pre) + seq![
                tokens@.last()@,
            ]);
            assert(toks_view(tokens@) + scan_spec(cs@.skip(i as int), need_act) =~= scan_spec(
                cs@,
                false,
            ));
        }
    }
    tokens.push_back(Token::EOT);
    proof {
        assert(scan_spec(cs@.skip(cs@.len() as int), need_act) == seq![TokenView::EOT]);
        assert(toks_view(tokens@) =~= scan_spec(cs@, false));
    }
    tokens
}

} // verus!

// ---------------------------------------------------------------------------
// The rule AST and its mathematical image.
// ---------------------------------------------------------------------------

verus! {

use crate::types::MapState;

/// Which part of a window a leaf comparison inspects.
#[derive(Debug, Clone, PartialEq, Eq)]
pub enum Predicate {
    Id,
    Name,
    /// Attribute name: `map_state` or `override_redirect`.
    Attr(String),
    /// Geometry field name: `x`, `y`, `width` or `height`.
    Geom(String),
}

/// The right-hand side a leaf comparison tests against.
#[derive(Debug, Clone, PartialEq, Eq)]
pub enum Matcher {
    IntegralValue(i16),
    BoolValue(bool),
    MapStateValue(MapState),
    /// Every string value is a wildcard matcher.
    Wildcard(String),
}

/// A predicate tree over window records.
#[derive(Debug, PartialEq, Eq)]
pub enum FilterRule {
    /// Host-injected rule slot; always true at this layer.
    Adhoc,
    /// Stands for "managed clients only": always true at this layer; the
    /// host holds the live client list.
    ClientsOnly,
    Single { pred: Predicate, op: Op, matcher: Matcher },
    All(Vec<FilterRule>),
    Any(Vec<FilterRule>),
    Not(Box<FilterRule>),
}

/// The unit produced by parsing one top-level rule statement.
#[derive(Debug, PartialEq, Eq)]
pub struct FilterItem {
    pub action: Action,
    pub rule: FilterRule,
}

/// Mathematical image of a predicate target.
pub enum PredView {
    Id,
    Name,
    Attr(Seq<char>),
    Geom(Seq<char>),
}

/// Mathematical image of a matcher.
pub enum MatchView {
    IntegralValue(i16),
    BoolValue(bool),
    MapStateValue(MapState),
    Wildcard(Seq<char>),
}

/// Mathematical image of a rule tree.
pub enum RuleView {
    Adhoc,
    ClientsOnly,
    Single { pred: PredView, op: Op, matcher: MatchView },
    All(Seq<RuleView>),
    Any(Seq<RuleView>),
    Not(Box<RuleView>),
}

/// Mathematical image of a rule statement.
pub struct ItemView {
    pub action: Action,
    pub rule: RuleView,
}

impl View for Predicate {
    type V = PredView;

    open spec fn view(&self) -> PredView {
        match self {
            Predicate::Id => PredView::Id,
            Predicate::Name => PredView::Name,
            Predicate::Attr(s) => PredView::Attr(s@),
            Predicate::Geom(s) => PredView::Geom(s@),
        }
    }
}

impl View for Matcher {
    type V = MatchView;

    open spec fn view(&self) -> MatchView {
        match self {
            Matcher::IntegralValue(i) => MatchView::IntegralValue(*i),
            Matcher::BoolValue(b) => MatchView::BoolValue(*b),
            Matcher::MapStateValue(m) => MatchView::MapStateValue(*m),
            Matcher::Wildcard(s) => MatchView::Wildcard(s@),
        }
    }
}

/// Image of a rule tree.
pub open spec fn rule_view(r: FilterRule) -> RuleView
    decreases r,
{
    match r {
        FilterRule::Adhoc => RuleView::Adhoc,
        FilterRule::ClientsOnly => RuleView::ClientsOnly,
        FilterRule::Single { pred, op, matcher } => RuleView::Single {
            pred: pred@,
            op,
            matcher: matcher@,
        },
        FilterRule::All(cs) => RuleView::All(rules_view(cs@)),
        FilterRule::Any(cs) => RuleView::Any(rules_view(cs@)),
        FilterRule::Not(b) => RuleView::Not(Box::new(rule_view(*b))),
    }
}

/// Image of a sequence of rule trees.
pub open spec fn rules_view(s: Seq<FilterRule>) -> Seq<RuleView>
    decreases s,
{
    if s.len() == 0 {
        Seq::empty()
    } else {
        seq![rule_view(s[0])] + rules_view(s.skip(1))
    }
}

pub proof fn lemma_rules_view_index(s: Seq<FilterRule>)
    ensures
        rules_view(s).len() == s.len(),
        forall|i: int| 0 <= i < s.len() ==> rules_view(s)[i] == rule_view(s[i]),
    decreases s.len(),
{
    if s.len() > 0 {
        lemma_rules_view_index(s.skip(1));
        assert forall|i: int| 0 <= i < s.len() implies rules_view(s)[i] == rule_view(s[i]) by {
            if i > 0 {
                assert(s.skip(1)[i - 1] == s[i]);
            }
        }
    }
}

impl View for FilterRule {
    type V = RuleView;

    open spec fn view(&self) -> RuleView {
        rule_view(*self)
    }
}

impl View for FilterItem {
    type V = ItemView;

    open spec fn view(&self) -> ItemView {
        ItemView { action: self.action, rule: rule_view(self.rule) }
    }
}

/// View of a sequence of rule statements.
pub open spec fn items_view(s: Seq<FilterItem>) -> Seq<ItemView> {
    s.map_values(|it: FilterItem| it@)
}

} // verus!

// ---------------------------------------------------------------------------
// Parsing: grammar over token sequences, remainder style.
// ---------------------------------------------------------------------------

verus! {

pub open spec fn kw_attrs() -> Seq<char> {
    seq!['a', 't', 't', 'r', 's']
}

pub open spec fn kw_geom() -> Seq<char> {
    seq!['g', 'e', 'o', 'm']
}

pub open spec fn kw_id() -> Seq<char> {
    seq!['i', 'd']
}

pub open spec fn kw_name() -> Seq<char> {
    seq!['n', 'a', 'm', 'e']
}

pub open spec fn kw_clients() -> Seq<char> {
    seq!['c', 'l', 'i', 'e', 'n', 't', 's']
}

pub open spec fn kw_map_state() -> Seq<char> {
    seq!['m', 'a', 'p', '_', 's', 't', 'a', 't', 'e']
}

pub open spec fn kw_override_redirect() -> Seq<char> {
    seq!['o', 'v', 'e', 'r', 'r', 'i', 'd', 'e', '_', 'r', 'e', 'd', 'i', 'r', 'e', 'c', 't']
}

pub open spec fn kw_x() -> Seq<char> {
    seq!['x']
}

pub open spec fn kw_y() -> Seq<char> {
    seq!['y']
}

pub open spec fn kw_width() -> Seq<char> {
    seq!['w', 'i', 'd', 't', 'h']
}

pub open spec fn kw_height() -> Seq<char> {
    seq!['h', 'e', 'i', 'g', 'h', 't']
}

pub open spec fn kw_false() -> Seq<char> {
    seq!['f', 'a', 'l', 's', 'e']
}

pub open spec fn kw_zero() -> Seq<char> {
    seq!['0']
}

pub open spec fn kw_viewable() -> Seq<char> {
    seq!['v', 'i', 'e', 'w', 'a', 'b', 'l', 'e']
}

pub open spec fn kw_unmapped() -> Seq<char> {
    seq!['u', 'n', 'm', 'a', 'p', 'p', 'e', 'd']
}

pub open spec fn kw_unviewable() -> Seq<char> {
    seq!['u', 'n', 'v', 'i', 'e', 'w', 'a', 'b', 'l', 'e']
}

/// Decimal digit.
pub open spec fn is_digit(c: char) -> bool {
    48 <= c as u32 && c as u32 <= 57
}

pub open spec fn digit_val(c: char) -> int {
    c as u32 - 48
}

pub open spec fn all_digits(s: Seq<char>) -> bool {
    forall|i: int| 0 <= i < s.len() ==> is_digit(#[trigger] s[i])
}

/// Value of a decimal digit string.
pub open spec fn digits_val(s: Seq<char>) -> int
    decreases s.len(),
{
    if s.len() == 0 {
        0
    } else {
        digits_val(s.take(s.len() - 1)) * 10 + digit_val(s.last())
    }
}

/// What `str::parse::<i16>` accepts of a matcher value, with the lenient
/// policy of the rule language: anything unparsable is the integer zero.
pub open spec fn parse_i16_spec(s: Seq<char>) -> i16 {
    if s.len() >= 1 && (s[0] == '-' || s[0] == '+') {
        let ds = s.skip(1);
        if ds.len() > 0 && all_digits(ds) {
            if s[0] == '-' {
                if -digits_val(ds) >= -32768 {
                    (-digits_val(ds)) as i16
                } else {
                    0
                }
            } else {
                if digits_val(ds) <= 32767 {
                    digits_val(ds) as i16
                } else {
                    0
                }
            }
        } else {
            0
        }
    } else if s.len() > 0 && all_digits(s) {
        if digits_val(s) <= 32767 {
            digits_val(s) as i16
        } else {
            0
        }
    } else {
        0
    }
}

/// The matcher a value literal builds for a predicate target, lower-casing
/// the literal where the target is textual/boolean/enum; `None` where the
/// value is not legal for the target (an unrecognized map state).
pub open spec fn single_matcher_spec(pred: PredView, v: Seq<char>) -> Option<MatchView> {
    match pred {
        PredView::Id => Some(MatchView::Wildcard(v)),
        PredView::Name => Some(MatchView::Wildcard(v)),
        PredView::Attr(a) => {
            if a == kw_override_redirect() {
                let lv = lower_seq(v);
                Some(MatchView::BoolValue(!(lv == kw_zero() || lv == kw_false())))
            } else if a == kw_map_state() {
                let lv = lower_seq(v);
                if lv == kw_viewable() {
                    Some(MatchView::MapStateValue(MapState::Viewable))
                } else if lv == kw_unmapped() {
                    Some(MatchView::MapStateValue(MapState::Unmapped))
                } else if lv == kw_unviewable() {
                    Some(MatchView::MapStateValue(MapState::Unviewable))
                } else {
                    None
                }
            } else {
                None
            }
        },
        PredView::Geom(_) => Some(MatchView::IntegralValue(parse_i16_spec(v))),
    }
}

/// Parse `pred op VALUE` once the predicate target is resolved: `rest` holds
/// the tokens after the target.
pub open spec fn parse_single_spec(pred: PredView, rest: Seq<TokenView>) -> Option<
    (RuleView, Seq<TokenView>),
> {
    if rest.len() >= 2 {
        match (rest[0], rest[1]) {
            (TokenView::OP(op), TokenView::StrLit(v)) => {
                match single_matcher_spec(pred, v) {
                    Some(m) => Some((RuleView::Single { pred, op, matcher: m }, rest.skip(2))),
                    None => None,
                }
            },
            _ => None,
        }
    } else {
        None
    }
}

/// Parse one condition from the head of `ts`; `None` on malformed structure.
pub open spec fn parse_cond_spec(ts: Seq<TokenView>) -> Option<(RuleView, Seq<TokenView>)>
    decreases ts.len(), 0int,
{
    if ts.len() == 0 {
        None
    } else {
        match ts[0] {
            TokenView::StrLit(s) => {
                if s == kw_clients() {
                    Some((RuleView::ClientsOnly, ts.skip(1)))
                } else if s == kw_attrs() {
                    if ts.len() >= 3 && ts[1] is DOT {
                        match ts[2] {
                            TokenView::StrLit(n) => {
                                if n == kw_map_state() || n == kw_override_redirect() {
                                    parse_single_spec(PredView::Attr(n), ts.skip(3))
                                } else {
                                    None
                                }
                            },
                            _ => None,
                        }
                    } else {
                        None
                    }
                } else if s == kw_geom() {
                    if ts.len() >= 3 && ts[1] is DOT {
                        match ts[2] {
                            TokenView::StrLit(n) => {
                                if n == kw_x() || n == kw_y() || n == kw_width() || n
                                    == kw_height() {
                                    parse_single_spec(PredView::Geom(n), ts.skip(3))
                                } else {
                                    None
                                }
                            },
                            _ => None,
                        }
                    } else {
                        None
                    }
                } else if s == kw_id() {
                    parse_single_spec(PredView::Id, ts.skip(1))
                } else if s == kw_name() {
                    parse_single_spec(PredView::Name, ts.skip(1))
                } else {
                    None
                }
            },
            TokenView::ANY => {
                if ts.len() >= 2 && ts[1] is LBRACE {
                    match parse_conds_spec(ts.skip(2)) {
                        Some((cs, rem)) => Some((RuleView::Any(cs), rem)),
                        None => None,
                    }
                } else {
                    None
                }
            },
            TokenView::ALL => {
                if ts.len() >= 2 && ts[1] is LBRACE {
                    match parse_conds_spec(ts.skip(2)) {
                        Some((cs, rem)) => Some((RuleView::All(cs), rem)),
                        None => None,
                    }
                } else {
                    None
                }
            },
            TokenView::NOT => {
                if ts.len() >= 2 && ts[1] is LBRACE {
                    match parse_cond_spec(ts.skip(2)) {
                        Some((r, rem)) => {
                            if rem.len() > 0 && rem[0] is RBRACE {
                                Some((RuleView::Not(Box::new(r)), rem.skip(1)))
                            } else {
                                None
                            }
                        },
                        None => None,
                    }
                } else {
                    None
                }
            },
            _ => None,
        }
    }
}

/// Parse the comma-separated children of an `any`/`all` up to the closing
/// parenthesis, which is consumed; at least one child is required.
pub open spec fn parse_conds_spec(ts: Seq<TokenView>) -> Option<(Seq<RuleView>, Seq<TokenView>)>
    decreases ts.len(), 1int,
{
    match parse_cond_spec(ts) {
        None => None,
        Some((r, rem)) => {
            if rem.len() >= ts.len() {
                None
            } else if rem.len() == 0 {
                None
            } else if rem[0] is RBRACE {
                Some((seq![r], rem.skip(1)))
            } else if rem[0] is COMMA {
                match parse_conds_spec(rem.skip(1)) {
                    Some((more, rem2)) => Some((seq![r] + more, rem2)),
                    None => None,
                }
            } else {
                None
            }
        },
    }
}

/// A successful condition parse consumes at least one token.
pub proof fn lemma_parse_cond_consumes(ts: Seq<TokenView>)
    ensures
        parse_cond_spec(ts) matches Some((r, rem)) ==> rem.len() < ts.len(),
    decreases ts.len(), 0int,
{
    if ts.len() > 0 {
        match ts[0] {
            TokenView::ANY | TokenView::ALL => {
                if ts.len() >= 2 && ts[1] is LBRACE {
                    lemma_parse_conds_consumes(ts.skip(2));
                }
            },
            TokenView::NOT => {
                if ts.len() >= 2 && ts[1] is LBRACE {
                    lemma_parse_cond_consumes(ts.skip(2));
                }
            },
            _ => {},
        }
    }
}

pub proof fn lemma_parse_conds_consumes(ts: Seq<TokenView>)
    ensures
        parse_conds_spec(ts) matches Some((cs, rem)) ==> rem.len() < ts.len(),
    decreases ts.len(), 1int,
{
    lemma_parse_cond_consumes(ts);
    match parse_cond_spec(ts) {
        None => {},
        Some((r, rem)) => {
            if rem.len() < ts.len() && rem.len() > 0 && rem[0] is COMMA {
                lemma_parse_conds_consumes(rem.skip(1));
            }
        },
    }
}

/// Parse one rule statement: a condition with an optional `: action` suffix,
/// the action defaulting to filter-out.
pub open spec fn parse_item_spec(ts: Seq<TokenView>) -> Option<(ItemView, Seq<TokenView>)> {
    match parse_cond_spec(ts) {
        None => None,
        Some((rule, rem)) => {
            if rem.len() > 0 && rem[0] is COLON {
                if rem.len() >= 2 {
                    match rem[1] {
                        TokenView::ACTION(a) => Some((ItemView { action: a, rule }, rem.skip(2))),
                        _ => None,
                    }
                } else {
                    None
                }
            } else {
                Some((ItemView { action: Action::FilterOut, rule }, rem))
            }
        },
    }
}

/// A successful statement parse consumes at least one token.
pub proof fn lemma_parse_item_consumes(ts: Seq<TokenView>)
    ensures
        parse_item_spec(ts) matches Some((it, rem)) ==> rem.len() < ts.len(),
{
    lemma_parse_cond_consumes(ts);
}

/// Parse a whole token sequence into its rule statements: statements
/// separated by `;` or `,`, ended by the end-of-input token; `None` as soon
/// as one statement is malformed.
pub open spec fn parse_rule_spec(ts: Seq<TokenView>) -> Option<Seq<ItemView>>
    decreases ts.len(),
    via parse_rule_spec_dec
{
    if ts.len() == 0 {
        None
    } else if ts[0] is EOT {
        Some(Seq::empty())
    } else {
        match parse_item_spec(ts) {
            None => None,
            Some((item, rem)) => {
                if rem.len() == 0 {
                    None
                } else if rem[0] is EOT {
                    Some(seq![item])
                } else if rem[0] is SEMICOLON || rem[0] is COMMA {
                    match parse_rule_spec(rem.skip(1)) {
                        Some(rest) => Some(seq![item] + rest),
                        None => None,
                    }
                } else {
                    None
                }
            },
        }
    }
}

#[via_fn]
proof fn parse_rule_spec_dec(ts: Seq<TokenView>) {
    lemma_parse_item_consumes(ts);
}

} // verus!

// ---------------------------------------------------------------------------
// The executable parser.
// ---------------------------------------------------------------------------

verus! {

/// Parse a matcher value as `str::parse::<i16>` would, any failure giving 0.
#[verifier::loop_isolation(false)]
fn parse_i16_vec(v: &Vec<char>) -> (r: i16)
    ensures
        r == parse_i16_spec(v@),
{
    let neg = v.len() >= 1 && v[0] == '-';
    let signed = v.len() >= 1 && (v[0] == '-' || v[0] == '+');
    let start: usize = if signed {
        1
    } else {
        0
    };
    let ghost ds = v@.skip(start as int);
    proof {
        assert(ds =~= v@.subrange(start as int, v@.len() as int));
        if start == 0 {
            assert(ds =~= v@);
        }
    }
    if v.len() == start {
        return 0;
    }
    let mut acc: u64 = 0;
    let mut k: usize = start;
    proof {
        assert(v@.subrange(start as int, start as int) =~= Seq::<char>::empty());
    }
    while k < v.len()
        invariant
            start <= k <= v.len(),
            start <= 1,
            all_digits(v@.subrange(start as int, k as int)),
            digits_val(v@.subrange(start as int, k as int)) < 100000 ==> acc == digits_val(
                v@.subrange(start as int, k as int),
            ),
            digits_val(v@.subrange(start as int, k as int)) >= 100000 ==> acc >= 100000,
            acc <= 1000008,
        decreases v.len() - k,
    {
        let c = v[k];
        let u = c as u32;
        if u < 48 || u > 57 {
            proof {
                assert(ds[k - start] == v@[k as int]);
                assert(!is_digit(ds[k - start]));
                assert(!all_digits(ds));
            }
            return 0;
        }
        let ghost pre = v@.subrange(start as int, k as int);
        let ghost cur = v@.subrange(start as int, k as int + 1);
        proof {
            assert(cur.last() == v@[k as int]);
            assert(cur.take(cur.len() - 1) =~= pre);
            assert(digits_val(cur) == digits_val(pre) * 10 + digit_val(v@[k as int]));
            assert forall|i: int| 0 <= i < cur.len() implies is_digit(#[trigger] cur[i]) by {
                if i < pre.len() {
                    assert(cur[i] == pre[i]);
                }
            }
        }
        if acc < 100000 {
            acc = acc * 10 + ((u - 48) as u64);
        }
        k = k + 1;
    }
    proof {
        assert(v@.subrange(start as int, v@.len() as int) =~= ds);
        assert(ds.len() > 0);
        assert(all_digits(ds));
    }
    if neg {
        if acc <= 32768 {
            proof {
                assert(digits_val(ds) == acc);
            }
            (-(acc as i32)) as i16
        } else {
            0
        }
    } else {
        if acc <= 32767 {
            proof {
                assert(digits_val(ds) == acc);
            }
            acc as i16
        } else {
            0
        }
    }
}

/// Does the token hold a string literal equal to the keyword characters?
fn strlit_is(s: &String, kw: &Vec<char>) -> (r: bool)
    ensures
        r == (s@ == kw@),
{
    let sc = str_chars(s.as_str());
    let mut i: usize = 0;
    if sc.len() != kw.len() {
        proof {
            assert(s@.len() != kw@.len());
        }
        return false;
    }
    while i < sc.len()
        invariant
            0 <= i <= sc.len(),
            sc@ == s@,
            sc.len() == kw.len(),
            forall|m: int| 0 <= m < i ==> sc@[m] == kw@[m],
        decreases sc.len() - i,
    {
        if sc[i] != kw[i] {
            return false;
        }
        i = i + 1;
    }
    proof {
        assert(s@ =~= kw@);
    }
    true
}

/// Build the matcher for a resolved predicate target and a value literal.
fn single_matcher(pred: &Predicate, v: &String) -> (res: Option<Matcher>)
    ensures
        match single_matcher_spec(pred@, v@) {
            Some(mv) => res matches Some(m) && m@ == mv,
            None => res is None,
        },
{
    match pred {
        Predicate::Id => Some(Matcher::Wildcard(v.clone())),
        Predicate::Name => Some(Matcher::Wildcard(v.clone())),
        Predicate::Attr(a) => {
            let kw_or: Vec<char> = vec![
                'o', 'v', 'e', 'r', 'r', 'i', 'd', 'e', '_', 'r', 'e', 'd', 'i', 'r', 'e', 'c',
                't',
            ];
            let kw_ms: Vec<char> = vec!['m', 'a', 'p', '_', 's', 't', 'a', 't', 'e'];
            proof {
                assert(kw_or@ =~= kw_override_redirect());
                assert(kw_ms@ =~= kw_map_state());
            }
            let vc = str_chars(v.as_str());
            let lv = lower_range(&vc, 0, vc.len());
            proof {
                assert(vc@.subrange(0, vc@.len() as int) =~= v@);
            }
            if strlit_is(a, &kw_or) {
                let kw_f: Vec<char> = vec!['f', 'a', 'l', 's', 'e'];
                let kw_z: Vec<char> = vec!['0'];
                proof {
                    assert(kw_f@ =~= kw_false());
                    assert(kw_z@ =~= kw_zero());
                }
                let is_false = word_eq(&lv, &kw_z) || word_eq(&lv, &kw_f);
                Some(Matcher::BoolValue(!is_false))
            } else if strlit_is(a, &kw_ms) {
                let kw_v: Vec<char> = vec!['v', 'i', 'e', 'w', 'a', 'b', 'l', 'e'];
                let kw_um: Vec<char> = vec!['u', 'n', 'm', 'a', 'p', 'p', 'e', 'd'];
                let kw_uv: Vec<char> = vec!['u', 'n', 'v', 'i', 'e', 'w', 'a', 'b', 'l', 'e'];
                proof {
                    assert(kw_v@ =~= kw_viewable());
                    assert(kw_um@ =~= kw_unmapped());
                    assert(kw_uv@ =~= kw_unviewable());
                }
                if word_eq(&lv, &kw_v) {
                    Some(Matcher::MapStateValue(MapState::Viewable))
                } else if word_eq(&lv, &kw_um) {
                    Some(Matcher::MapStateValue(MapState::Unmapped))
                } else if word_eq(&lv, &kw_uv) {
                    Some(Matcher::MapStateValue(MapState::Unviewable))
                } else {
                    None
                }
            } else {
                None
            }
        },
        Predicate::Geom(_) => {
            let vc = str_chars(v.as_str());
            Some(Matcher::IntegralValue(parse_i16_vec(&vc)))
        },
    }
}

/// Parse `op VALUE` for a resolved predicate target, starting at `pos`.
fn parse_single_at(ts: &Vec<Token>, pos: usize, pred: Predicate) -> (res: Option<
    (FilterRule, usize),
>)
    requires
        pos <= ts.len(),
    ensures
        match parse_single_spec(pred@, toks_view(ts@).skip(pos as int)) {
            Some((rv, rem)) => res matches Some((r, p2)) && r@ == rv && pos <= p2 <= ts.len()
                && rem == toks_view(ts@).skip(p2 as int),
            None => res is None,
        },
{
    let ghost rest = toks_view(ts@).skip(pos as int);
    if ts.len() - pos < 2 {
        return None;
    }
    proof {
        assert(rest[0] == ts@[pos as int]@);
        assert(rest[1] == ts@[pos as int + 1]@);
        assert(rest.skip(2) =~= toks_view(ts@).skip(pos as int + 2));
    }
    let op: Op = match &ts[pos] {
        Token::OP(op) => *op,
        _ => {
            return None;
        },
    };
    let v: &String = match &ts[pos + 1] {
        Token::StrLit(v) => v,
        _ => {
            return None;
        },
    };
    match single_matcher(&pred, v) {
        Some(m) => Some((FilterRule::Single { pred, op, matcher: m }, pos + 2)),
        None => None,
    }
}

/// Parse one condition starting at `pos`.
fn parse_cond_at(ts: &Vec<Token>, pos: usize) -> (res: Option<(FilterRule, usize)>)
    requires
        pos <= ts.len(),
    ensures
        match parse_cond_spec(toks_view(ts@).skip(pos as int)) {
            Some((rv, rem)) => res matches Some((r, p2)) && r@ == rv && pos <= p2 <= ts.len()
                && rem == toks_view(ts@).skip(p2 as int),
            None => res is None,
        },
    decreases ts.len() - pos, 0int,
{
    let ghost rest = toks_view(ts@).skip(pos as int);
    if pos == ts.len() {
        return None;
    }
    proof {
        assert(rest[0] == ts@[pos as int]@);
        assert(rest.skip(1) =~= toks_view(ts@).skip(pos as int + 1));
        if pos + 1 < ts.len() {
            assert(rest[1] == ts@[pos as int + 1]@);
            assert(rest.skip(2) =~= toks_view(ts@).skip(pos as int + 2));
        }
    }
    match &ts[pos] {
        Token::StrLit(s) => {
            let kwc: Vec<char> = vec!['c', 'l', 'i', 'e', 'n', 't', 's'];
            let kwa: Vec<char> = vec!['a', 't', 't', 'r', 's'];
            let kwg: Vec<char> = vec!['g', 'e', 'o', 'm'];
            let kwi: Vec<char> = vec!['i', 'd'];
            let kwn: Vec<char> = vec!['n', 'a', 'm', 'e'];
            proof {
                assert(kwc@ =~= kw_clients());
                assert(kwa@ =~= kw_attrs());
                assert(kwg@ =~= kw_geom());
                assert(kwi@ =~= kw_id());
                assert(kwn@ =~= kw_name());
            }
            if strlit_is(s, &kwc) {
                Some((FilterRule::ClientsOnly, pos + 1))
            } else if strlit_is(s, &kwa) || strlit_is(s, &kwg) {
                let is_attrs = strlit_is(s, &kwa);
                if ts.len() - pos < 3 {
                    return None;
                }
                proof {
                    assert(rest[2] == ts@[pos as int + 2]@);
                    assert(rest.skip(3) =~= toks_view(ts@).skip(pos as int + 3));
                }
                match &ts[pos + 1] {
                    Token::DOT => {},
                    _ => {
                        return None;
                    },
                }
                let n: &String = match &ts[pos + 2] {
                    Token::StrLit(n) => n,
                    _ => {
                        return None;
                    },
                };
                if is_attrs {
                    let kw_or: Vec<char> = vec![
                        'o', 'v', 'e', 'r', 'r', 'i', 'd', 'e', '_', 'r', 'e', 'd', 'i', 'r',
                        'e', 'c', 't',
                    ];
                    let kw_ms: Vec<char> = vec!['m', 'a', 'p', '_', 's', 't', 'a', 't', 'e'];
                    proof {
                        assert(kw_or@ =~= kw_override_redirect());
                        assert(kw_ms@ =~= kw_map_state());
                    }
                    if strlit_is(n, &kw_ms) || strlit_is(n, &kw_or) {
                        parse_single_at(ts, pos + 3, Predicate::Attr(n.clone()))
                    } else {
                        None
                    }
                } else {
                    let kw_xx: Vec<char> = vec!['x'];
                    let kw_yy: Vec<char> = vec!['y'];
                    let kw_w: Vec<char> = vec!['w', 'i', 'd', 't', 'h'];
                    let kw_h: Vec<char> = vec!['h', 'e', 'i', 'g', 'h', 't'];
                    proof {
                        assert(kw_xx@ =~= kw_x());
                        assert(kw_yy@ =~= kw_y());
                        assert(kw_w@ =~= kw_width());
                        assert(kw_h@ =~= kw_height());
                    }
                    if strlit_is(n, &kw_xx) || strlit_is(n, &kw_yy) || strlit_is(n, &kw_w)
                        || strlit_is(n, &kw_h) {
                        parse_single_at(ts, pos + 3, Predicate::Geom(n.clone()))
                    } else {
                        None
                    }
                }
            } else if strlit_is(s, &kwi) {
                parse_single_at(ts, pos + 1, Predicate::Id)
            } else if strlit_is(s, &kwn) {
                parse_single_at(ts, pos + 1, Predicate::Name)
            } else {
                None
            }
        },
        Token::ANY | Token::ALL => {
            let is_any = match &ts[pos] {
                Token::ANY => true,
                _ => false,
            };
            if ts.len() - pos < 2 {
                return None;
            }
            match &ts[pos + 1] {
                Token::LBRACE => {},
                _ => {
                    return None;
                },
            }
            match parse_conds_at(ts, pos + 2) {
                Some((children, p2)) => {
                    if is_any {
                        Some((FilterRule::Any(children), p2))
                    } else {
                        Some((FilterRule::All(children), p2))
                    }
                },
                None => None,
            }
        },
        Token::NOT => {
            if ts.len() - pos < 2 {
                return None;
            }
            match &ts[pos + 1] {
                Token::LBRACE => {},
                _ => {
                    return None;
                },
            }
            match parse_cond_at(ts, pos + 2) {
                Some((r, p2)) => {
                    proof {
                        if p2 < ts.len() {
                            assert(toks_view(ts@).skip(p2 as int).skip(1) =~= toks_view(
                                ts@,
                            ).skip(p2 as int + 1));
                            assert(toks_view(ts@).skip(p2 as int)[0] == ts@[p2 as int]@);
                        }
                    }
                    if p2 < ts.len() {
                        match &ts[p2] {
                            Token::RBRACE => Some((FilterRule::Not(Box::new(r)), p2 + 1)),
                            _ => None,
                        }
                    } else {
                        None
                    }
                },
                None => None,
            }
        },
        _ => None,
    }
}

/// Parse the children of an `any`/`all` starting at `pos`, up to and past the
/// closing parenthesis.
fn parse_conds_at(ts: &Vec<Token>, pos: usize) -> (res: Option<(Vec<FilterRule>, usize)>)
    requires
        pos <= ts.len(),
    ensures
        match parse_conds_spec(toks_view(ts@).skip(pos as int)) {
            Some((cvs, rem)) => res matches Some((cs, p2)) && rules_view(cs@) == cvs && pos <= p2
                <= ts.len() && rem == toks_view(ts@).skip(p2 as int),
            None => res is None,
        },
    decreases ts.len() - pos, 1int,
{
    let ghost rest = toks_view(ts@).skip(pos as int);
    proof {
        lemma_parse_cond_consumes(rest);
    }
    match parse_cond_at(ts, pos) {
        None => None,
        Some((r, p2)) => {
            let ghost rem = toks_view(ts@).skip(p2 as int);
            proof {
                assert(rem.len() < rest.len());
                if p2 < ts.len() {
                    assert(rem[0] == ts@[p2 as int]@);
                    assert(rem.skip(1) =~= toks_view(ts@).skip(p2 as int + 1));
                }
            }
            if p2 == ts.len() {
                return None;
            }
            match &ts[p2] {
                Token::RBRACE => {
                    let mut cs: Vec<FilterRule> = Vec::new();
                    cs.push(r);
                    proof {
                        assert(cs@ =~= seq![r]);
                        assert(cs@.skip(1) =~= Seq::<FilterRule>::empty());
                        assert(rules_view(cs@.skip(1)) =~= Seq::<RuleView>::empty());
                        assert(rules_view(cs@) =~= seq![rule_view(r)]);
                    }
                    Some((cs, p2 + 1))
                },
                Token::COMMA => {
                    match parse_conds_at(ts, p2 + 1) {
                        Some((more, p3)) => {
                            let mut cs: Vec<FilterRule> = Vec::new();
                            let ghost more0 = more@;
                            cs.push(r);
                            let mut more = more;
                            cs.append(&mut more);
                            proof {
                                assert(cs@ =~= seq![r] + more0);
                                lemma_rules_view_index(cs@);
                                lemma_rules_view_index(more0);
                                assert forall|i: int| 0 <= i < cs@.len() implies rules_view(
                                    cs@,
                                )[i] == (seq![rule_view(r)] + rules_view(more0))[i] by {
                                    if i > 0 {
                                        assert(cs@[i] == more0[i - 1]);
                                    }
                                }
                                assert(rules_view(cs@) =~= seq![rule_view(r)] + rules_view(
                                    more0,
                                ));
                            }
                            Some((cs, p3))
                        },
                        None => None,
                    }
                },
                _ => None,
            }
        },
    }
}

/// Parse one rule statement starting at `pos`.
fn parse_item_at(ts: &Vec<Token>, pos: usize) -> (res: Option<(FilterItem, usize)>)
    requires
        pos <= ts.len(),
    ensures
        match parse_item_spec(toks_view(ts@).skip(pos as int)) {
            Some((iv, rem)) => res matches Some((it, p2)) && it@ == iv && pos <= p2 <= ts.len()
                && rem == toks_view(ts@).skip(p2 as int),
            None => res is None,
        },
{
    match parse_cond_at(ts, pos) {
        None => None,
        Some((rule, p2)) => {
            let ghost rem = toks_view(ts@).skip(p2 as int);
            proof {
                if p2 < ts.len() {
                    assert(rem[0] == ts@[p2 as int]@);
                }
                if p2 + 1 < ts.len() {
                    assert(rem[1] == ts@[p2 as int + 1]@);
                }
                if p2 + 2 <= ts.len() {
                    assert(rem.skip(2) =~= toks_view(ts@).skip(p2 as int + 2));
                }
            }
            let has_colon = p2 < ts.len() && match &ts[p2] {
                Token::COLON => true,
                _ => false,
            };
            if has_colon {
                if ts.len() - p2 < 2 {
                    return None;
                }
                match &ts[p2 + 1] {
                    Token::ACTION(a) => Some(
                        (FilterItem { action: *a, rule }, p2 + 2),
                    ),
                    _ => None,
                }
            } else {
                Some((FilterItem { action: Action::FilterOut, rule }, p2))
            }
        },
    }
}

/// Parse a whole token sequence into rule statements starting at `pos`.
fn parse_rule_at(ts: &Vec<Token>, pos: usize) -> (res: Option<(Vec<FilterItem>, usize)>)
    requires
        pos <= ts.len(),
    ensures
        match parse_rule_spec(toks_view(ts@).skip(pos as int)) {
            Some(ivs) => res matches Some((items, p2)) && items_view(items@) == ivs && pos <= p2
                <= ts.len(),
            None => res is None,
        },
    decreases ts.len() - pos,
{
    let ghost rest = toks_view(ts@).skip(pos as int);
    if pos == ts.len() {
        return None;
    }
    proof {
        assert(rest[0] == ts@[pos as int]@);
        lemma_parse_item_consumes(rest);
    }
    let at_eot = match &ts[pos] {
        Token::EOT => true,
        _ => false,
    };
    if at_eot {
        let items: Vec<FilterItem> = Vec::new();
        proof {
            assert(items_view(items@) =~= Seq::<ItemView>::empty());
        }
        return Some((items, pos));
    }
    match parse_item_at(ts, pos) {
        None => None,
        Some((item, p2)) => {
            let ghost rem = toks_view(ts@).skip(p2 as int);
            proof {
                assert(rem.len() < rest.len());
                if p2 < ts.len() {
                    assert(rem[0] == ts@[p2 as int]@);
                    assert(rem.skip(1) =~= toks_view(ts@).skip(p2 as int + 1));
                }
            }
            if p2 == ts.len() {
                return None;
            }
            match &ts[p2] {
                Token::EOT => {
                    let mut items: Vec<FilterItem> = Vec::new();
                    items.push(item);
                    proof {
                        assert(items_view(items@) =~= seq![item@]);
                    }
                    Some((items, p2))
                },
                Token::SEMICOLON | Token::COMMA => {
                    match parse_rule_at(ts, p2 + 1) {
                        Some((more, p3)) => {
                            let mut items: Vec<FilterItem> = Vec::new();
                            let ghost more0 = more@;
                            items.push(item);
                            let mut more = more;
                            items.append(&mut more);
                            proof {
                                assert(items@ =~= seq![item] + more0);
                                assert(items_view(items@) =~= seq![item@] + items_view(more0));
                            }
                            Some((items, p3))
                        },
                        None => None,
                    }
                },
                _ => None,
            }
        },
    }
}

/// Parse a token stream into its rule statement list; `None` as soon as one
/// statement is malformed. The stream is consumed.
pub fn parse_rule(tokens: &mut Tokens) -> (res: Option<Vec<FilterItem>>)
    ensures
        match parse_rule_spec(toks_view(old(tokens)@)) {
            Some(ivs) => res matches Some(items) && items_view(items@) == ivs,
            None => res is None,
        },
{
    let ts = drain_tokens(tokens);
    match parse_rule_at(&ts, 0) {
        Some((items, _)) => {
            proof {
                assert(toks_view(ts@).skip(0) =~= toks_view(ts@));
            }
            Some(items)
        },
        None => {
            proof {
                assert(toks_view(ts@).skip(0) =~= toks_view(ts@));
            }
            None
        },
    }
}

/// Parse one rule statement from the front of the stream; the stream is
/// consumed.
pub fn parse_item(tokens: &mut Tokens) -> (res: Option<FilterItem>)
    ensures
        match parse_item_spec(toks_view(old(tokens)@)) {
            Some((iv, rem)) => res matches Some(it) && it@ == iv,
            None => res is None,
        },
{
    let ts = drain_tokens(tokens);
    proof {
        assert(toks_view(ts@).skip(0) =~= toks_view(ts@));
    }
    match parse_item_at(&ts, 0) {
        Some((item, _)) => Some(item),
        None => None,
    }
}

/// Parse one condition from the front of the stream; the stream is consumed.
pub fn parse_cond(tokens: &mut Tokens) -> (res: Option<FilterRule>)
    ensures
        match parse_cond_spec(toks_view(old(tokens)@)) {
            Some((rv, rem)) => res matches Some(r) && r@ == rv,
            None => res is None,
        },
{
    let ts = drain_tokens(tokens);
    proof {
        assert(toks_view(ts@).skip(0) =~= toks_view(ts@));
    }
    match parse_cond_at(&ts, 0) {
        Some((r, _)) => Some(r),
        None => None,
    }
}

/// Move all tokens of the stream into a vector.
fn drain_tokens(tokens: &mut Tokens) -> (ts: Vec<Token>)
    ensures
        ts@ == old(tokens)@,
{
    let mut ts: Vec<Token> = Vec::new();
    let ghost orig = tokens@;
    loop
        invariant
            orig == ts@ + tokens@,
        ensures
            tokens@.len() == 0,
        decreases tokens@.len(),
    {
        match tokens.pop_front() {
            Some(t) => {
                ts.push(t);
                proof {
                    assert(orig =~= ts@ + tokens@);
                }
            },
            None => {
                break;
            },
        }
    }
    proof {
        assert(tokens@.len() == 0);
        assert(ts@ =~= orig);
    }
    ts
}

} // verus!

// ---------------------------------------------------------------------------
// Rule evaluation over window records, and the Filter contract.
// ---------------------------------------------------------------------------

verus! {

use crate::types::Window;
use crate::text::{id_hex_seq, id_hex_string, parse_id_spec, parse_id};
use crate::wildcard::{wild_matches, has_wildcards, wild_match, is_wild_string};

/// Comparison of signed geometry fields.
pub open spec fn cmp_i16(a: i16, op: Op, b: i16) -> bool {
    match op {
        Op::Eq => a == b,
        Op::Neq => a != b,
        Op::GT => a > b,
        Op::LT => a < b,
        Op::GE => a >= b,
        Op::LE => a <= b,
    }
}

/// Comparison of unsigned geometry fields.
pub open spec fn cmp_u16(a: u16, op: Op, b: u16) -> bool {
    match op {
        Op::Eq => a == b,
        Op::Neq => a != b,
        Op::GT => a > b,
        Op::LT => a < b,
        Op::GE => a >= b,
        Op::LE => a <= b,
    }
}

/// The `(target, operator, matcher)` combinations the compiler accepts:
/// textual, boolean and enum targets take only equality operators, and the
/// attribute/geometry names must be the recognized ones.
pub open spec fn single_wf(pred: PredView, op: Op, m: MatchView) -> bool {
    match (pred, m) {
        (PredView::Name, MatchView::Wildcard(_)) => op == Op::Eq || op == Op::Neq,
        (PredView::Id, MatchView::Wildcard(_)) => op == Op::Eq,
        (PredView::Attr(a), MatchView::MapStateValue(_)) => a == kw_map_state() && (op == Op::Eq
            || op == Op::Neq),
        (PredView::Attr(a), MatchView::BoolValue(_)) => a == kw_override_redirect() && (op
            == Op::Eq || op == Op::Neq),
        (PredView::Geom(g), MatchView::IntegralValue(_)) => g == kw_x() || g == kw_y() || g
            == kw_width() || g == kw_height(),
        _ => false,
    }
}

/// A rule tree the compiler accepts: every leaf combination is recognized.
pub open spec fn rule_wf(r: RuleView) -> bool
    decreases r,
{
    match r {
        RuleView::Adhoc => true,
        RuleView::ClientsOnly => true,
        RuleView::Single { pred, op, matcher } => single_wf(pred, op, matcher),
        RuleView::All(cs) => rules_wf(cs),
        RuleView::Any(cs) => rules_wf(cs),
        RuleView::Not(b) => rule_wf(*b),
    }
}

pub open spec fn rules_wf(s: Seq<RuleView>) -> bool
    decreases s,
{
    if s.len() == 0 {
        true
    } else {
        rule_wf(s[0]) && rules_wf(s.skip(1))
    }
}

pub proof fn lemma_rules_wf_index(s: Seq<RuleView>)
    ensures
        rules_wf(s) <==> (forall|i: int| 0 <= i < s.len() ==> rule_wf(#[trigger] s[i])),
    decreases s.len(),
{
    if s.len() > 0 {
        lemma_rules_wf_index(s.skip(1));
        if rules_wf(s) {
            assert forall|i: int| 0 <= i < s.len() implies rule_wf(#[trigger] s[i]) by {
                if i > 0 {
                    assert(s.skip(1)[i - 1] == s[i]);
                }
            }
        }
        if forall|i: int| 0 <= i < s.len() ==> rule_wf(#[trigger] s[i]) {
            assert(rule_wf(s[0]));
            assert forall|j: int| 0 <= j < s.skip(1).len() implies rule_wf(
                #[trigger] s.skip(1)[j],
            ) by {
                assert(s.skip(1)[j] == s[j + 1]);
            }
        }
    }
}

/// What a leaf comparison means on a window.
pub open spec fn single_holds(pred: PredView, op: Op, m: MatchView, w: Window) -> bool {
    match (pred, m) {
        (PredView::Name, MatchView::Wildcard(p)) => {
            let mm = wild_matches(p, w.name@);
            if op == Op::Neq {
                !mm
            } else {
                mm
            }
        },
        (PredView::Id, MatchView::Wildcard(p)) => {
            if has_wildcards(p) {
                wild_matches(p, id_hex_seq(w.id))
            } else {
                w.id == parse_id_spec(p)
            }
        },
        (PredView::Attr(a), MatchView::MapStateValue(v)) => {
            let mm = w.attrs.map_state == v;
            if op == Op::Neq {
                !mm
            } else {
                mm
            }
        },
        (PredView::Attr(a), MatchView::BoolValue(b)) => {
            let mm = w.attrs.override_redirect == b;
            if op == Op::Neq {
                !mm
            } else {
                mm
            }
        },
        (PredView::Geom(g), MatchView::IntegralValue(i)) => {
            if g == kw_x() {
                cmp_i16(w.geom.x, op, i)
            } else if g == kw_y() {
                cmp_i16(w.geom.y, op, i)
            } else if g == kw_width() {
                cmp_u16(w.geom.width, op, i as u16)
            } else {
                cmp_u16(w.geom.height, op, i as u16)
            }
        },
        _ => false,
    }
}

/// What a rule tree means on a window: `Adhoc` and `ClientsOnly` are true at
/// this layer, `All` is conjunction, `Any` disjunction, `Not` negation.
pub open spec fn rule_holds(r: RuleView, w: Window) -> bool
    decreases r,
{
    match r {
        RuleView::Adhoc => true,
        RuleView::ClientsOnly => true,
        RuleView::Single { pred, op, matcher } => single_holds(pred, op, matcher, w),
        RuleView::All(cs) => all_rules_hold(cs, w),
        RuleView::Any(cs) => any_rule_holds(cs, w),
        RuleView::Not(b) => !rule_holds(*b, w),
    }
}

pub open spec fn all_rules_hold(s: Seq<RuleView>, w: Window) -> bool
    decreases s,
{
    if s.len() == 0 {
        true
    } else {
        rule_holds(s[0], w) && all_rules_hold(s.skip(1), w)
    }
}

pub open spec fn any_rule_holds(s: Seq<RuleView>, w: Window) -> bool
    decreases s,
{
    if s.len() == 0 {
        false
    } else {
        rule_holds(s[0], w) || any_rule_holds(s.skip(1), w)
    }
}

pub proof fn lemma_all_rules_hold_index(s: Seq<RuleView>, w: Window)
    ensures
        all_rules_hold(s, w) <==> (forall|i: int|
            0 <= i < s.len() ==> rule_holds(#[trigger] s[i], w)),
    decreases s.len(),
{
    if s.len() > 0 {
        lemma_all_rules_hold_index(s.skip(1), w);
        if all_rules_hold(s, w) {
            assert forall|i: int| 0 <= i < s.len() implies rule_holds(#[trigger] s[i], w) by {
                if i > 0 {
                    assert(s.skip(1)[i - 1] == s[i]);
                }
            }
        }
        if forall|i: int| 0 <= i < s.len() ==> rule_holds(#[trigger] s[i], w) {
            assert(rule_holds(s[0], w));
            assert forall|j: int| 0 <= j < s.skip(1).len() implies rule_holds(
                #[trigger] s.skip(1)[j],
                w,
            ) by {
                assert(s.skip(1)[j] == s[j + 1]);
            }
        }
    }
}

pub proof fn lemma_any_rule_holds_index(s: Seq<RuleView>, w: Window)
    ensures
        any_rule_holds(s, w) <==> (exists|i: int|
            0 <= i < s.len() && rule_holds(#[trigger] s[i], w)),
    decreases s.len(),
{
    if s.len() > 0 {
        lemma_any_rule_holds_index(s.skip(1), w);
        if any_rule_holds(s, w) {
            if rule_holds(s[0], w) {
                assert(0 <= 0 < s.len() && rule_holds(s[0], w));
            } else {
                let j = choose|j: int|
                    0 <= j < s.skip(1).len() && rule_holds(#[trigger] s.skip(1)[j], w);
                assert(s.skip(1)[j] == s[j + 1]);
                assert(rule_holds(s[j + 1], w));
            }
        }
        if exists|i: int| 0 <= i < s.len() && rule_holds(#[trigger] s[i], w) {
            let i = choose|i: int| 0 <= i < s.len() && rule_holds(#[trigger] s[i], w);
            if i > 0 {
                assert(s.skip(1)[i - 1] == s[i]);
                assert(any_rule_holds(s.skip(1), w));
            }
        }
    }
}

/// Law: the empty conjunction is true for every window.
pub proof fn lemma_empty_all_true(w: Window)
    ensures
        rule_holds(RuleView::All(Seq::empty()), w),
{
    assert(all_rules_hold(Seq::empty(), w));
}

/// Law: the empty disjunction is false for every window.
pub proof fn lemma_empty_any_false(w: Window)
    ensures
        !rule_holds(RuleView::Any(Seq::empty()), w),
{
    assert(!any_rule_holds(Seq::empty(), w));
}

/// Law: double negation behaves identically to the rule itself, on every
/// window.
pub proof fn lemma_not_not(r: RuleView, w: Window)
    ensures
        rule_holds(RuleView::Not(Box::new(RuleView::Not(Box::new(r)))), w) == rule_holds(r, w),
{
    assert(rule_holds(RuleView::Not(Box::new(r)), w) == !rule_holds(r, w));
}

/// Law: parsing is a function of the source text alone, so re-running the
/// parser on the same source yields structurally equal statement lists.
pub proof fn lemma_parse_deterministic(src1: Seq<char>, src2: Seq<char>)
    requires
        src1 == src2,
    ensures
        parse_rule_spec(scan_spec(src1, false)) == parse_rule_spec(scan_spec(src2, false)),
{
}

/// Does the compiler accept this rule tree?
#[verifier::loop_isolation(false)]
pub fn is_rule_wf(r: &FilterRule) -> (res: bool)
    ensures
        res == rule_wf(rule_view(*r)),
    decreases *r, 0int,
{
    match r {
        FilterRule::Adhoc => true,
        FilterRule::ClientsOnly => true,
        FilterRule::Single { pred, op, matcher } => {
            match (pred, matcher) {
                (Predicate::Name, Matcher::Wildcard(_)) => match op {
                    Op::Eq | Op::Neq => true,
                    _ => false,
                },
                (Predicate::Id, Matcher::Wildcard(_)) => match op {
                    Op::Eq => true,
                    _ => false,
                },
                (Predicate::Attr(a), Matcher::MapStateValue(_)) => {
                    let kw_ms: Vec<char> = vec!['m', 'a', 'p', '_', 's', 't', 'a', 't', 'e'];
                    proof {
                        assert(kw_ms@ =~= kw_map_state());
                    }
                    strlit_is(a, &kw_ms) && match op {
                        Op::Eq | Op::Neq => true,
                        _ => false,
                    }
                },
                (Predicate::Attr(a), Matcher::BoolValue(_)) => {
                    let kw_or: Vec<char> = vec![
                        'o', 'v', 'e', 'r', 'r', 'i', 'd', 'e', '_', 'r', 'e', 'd', 'i', 'r',
                        'e', 'c', 't',
                    ];
                    proof {
                        assert(kw_or@ =~= kw_override_redirect());
                    }
                    strlit_is(a, &kw_or) && match op {
                        Op::Eq | Op::Neq => true,
                        _ => false,
                    }
                },
                (Predicate::Geom(g), Matcher::IntegralValue(_)) => {
                    let kw_xx: Vec<char> = vec!['x'];
                    let kw_yy: Vec<char> = vec!['y'];
                    let kw_w: Vec<char> = vec!['w', 'i', 'd', 't', 'h'];
                    let kw_h: Vec<char> = vec!['h', 'e', 'i', 'g', 'h', 't'];
                    proof {
                        assert(kw_xx@ =~= kw_x());
                        assert(kw_yy@ =~= kw_y());
                        assert(kw_w@ =~= kw_width());
                        assert(kw_h@ =~= kw_height());
                    }
                    strlit_is(g, &kw_xx) || strlit_is(g, &kw_yy) || strlit_is(g, &kw_w)
                        || strlit_is(g, &kw_h)
                },
                _ => false,
            }
        },
        FilterRule::All(cs) => {
            proof {
                assert(decreases_to!(*r => (*r)->All_0));
                assert(decreases_to!(*cs => cs@));
            }
            are_rules_wf(cs)
        },
        FilterRule::Any(cs) => {
            proof {
                assert(decreases_to!(*r => (*r)->Any_0));
                assert(decreases_to!(*cs => cs@));
            }
            are_rules_wf(cs)
        },
        FilterRule::Not(b) => is_rule_wf(b),
    }
}

/// Does the compiler accept every rule of the list?
#[verifier::loop_isolation(false)]
fn are_rules_wf(cs: &Vec<FilterRule>) -> (res: bool)
    ensures
        res == rules_wf(rules_view(cs@)),
    decreases cs@, 1int,
{
    let mut i: usize = 0;
    let mut ok = true;
    proof {
        assert(rules_view(cs@).skip(0) =~= rules_view(cs@));
        lemma_rules_view_index(cs@);
    }
    while i < cs.len()
        invariant
            0 <= i <= cs.len(),
            rules_wf(rules_view(cs@)) == (ok && rules_wf(rules_view(cs@).skip(i as int))),
        decreases cs.len() - i,
    {
        proof {
            assert(decreases_to!(cs@ => cs@[i as int]));
            let rv = rules_view(cs@);
            assert(rv.skip(i as int)[0] == rv[i as int]);
            assert(rv.skip(i as int).skip(1) =~= rv.skip(i as int + 1));
        }
        let h = is_rule_wf(&cs[i]);
        ok = ok && h;
        i = i + 1;
    }
    proof {
        assert(rules_view(cs@).skip(rules_view(cs@).len() as int) =~= Seq::<RuleView>::empty());
    }
    ok
}

/// Executable comparison of signed geometry fields.
fn cmp_i16_exec(a: i16, op: Op, b: i16) -> (r: bool)
    ensures
        r == cmp_i16(a, op, b),
{
    match op {
        Op::Eq => a == b,
        Op::Neq => a != b,
        Op::GT => a > b,
        Op::LT => a < b,
        Op::GE => a >= b,
        Op::LE => a <= b,
    }
}

/// Executable comparison of unsigned geometry fields.
fn cmp_u16_exec(a: u16, op: Op, b: u16) -> (r: bool)
    ensures
        r == cmp_u16(a, op, b),
{
    match op {
        Op::Eq => a == b,
        Op::Neq => a != b,
        Op::GT => a > b,
        Op::LT => a < b,
        Op::GE => a >= b,
        Op::LE => a <= b,
    }
}

/// Evaluate a rule tree on a window, with short-circuit evaluation of
/// conjunctions and disjunctions in child order.
#[verifier::loop_isolation(false)]
pub fn eval_rule(r: &FilterRule, w: &Window) -> (res: bool)
    requires
        rule_wf(rule_view(*r)),
    ensures
        res == rule_holds(rule_view(*r), *w),
    decreases *r,
{
    match r {
        FilterRule::Adhoc => true,
        FilterRule::ClientsOnly => true,
        FilterRule::Single { pred, op, matcher } => {
            match (pred, matcher) {
                (Predicate::Name, Matcher::Wildcard(p)) => {
                    let mm = wild_match(p.as_str(), w.name.as_str());
                    match op {
                        Op::Neq => !mm,
                        _ => mm,
                    }
                },
                (Predicate::Id, Matcher::Wildcard(p)) => {
                    if is_wild_string(p.as_str()) {
                        let hx = id_hex_string(w.id);
                        wild_match(p.as_str(), hx.as_str())
                    } else {
                        w.id == parse_id(p.as_str())
                    }
                },
                (Predicate::Attr(_), Matcher::MapStateValue(v)) => {
                    let mm = match (w.attrs.map_state, v) {
                        (MapState::Unmapped, MapState::Unmapped) => true,
                        (MapState::Viewable, MapState::Viewable) => true,
                        (MapState::Unviewable, MapState::Unviewable) => true,
                        _ => false,
                    };
                    match op {
                        Op::Neq => !mm,
                        _ => mm,
                    }
                },
                (Predicate::Attr(_), Matcher::BoolValue(b)) => {
                    let mm = w.attrs.override_redirect == *b;
                    match op {
                        Op::Neq => !mm,
                        _ => mm,
                    }
                },
                (Predicate::Geom(g), Matcher::IntegralValue(i)) => {
                    let kw_xx: Vec<char> = vec!['x'];
                    let kw_yy: Vec<char> = vec!['y'];
                    let kw_w: Vec<char> = vec!['w', 'i', 'd', 't', 'h'];
                    proof {
                        assert(kw_xx@ =~= kw_x());
                        assert(kw_yy@ =~= kw_y());
                        assert(kw_w@ =~= kw_width());
                    }
                    if strlit_is(g, &kw_xx) {
                        cmp_i16_exec(w.geom.x, *op, *i)
                    } else if strlit_is(g, &kw_yy) {
                        cmp_i16_exec(w.geom.y, *op, *i)
                    } else if strlit_is(g, &kw_w) {
                        cmp_u16_exec(w.geom.width, *op, *i as u16)
                    } else {
                        cmp_u16_exec(w.geom.height, *op, *i as u16)
                    }
                },
                _ => {
                    proof {
                        assert(false);
                    }
                    false
                },
            }
        },
        FilterRule::All(cs) => {
            let mut i: usize = 0;
            proof {
                assert(rules_view(cs@).skip(0) =~= rules_view(cs@));
                lemma_rules_view_index(cs@);
                lemma_rules_wf_index(rules_view(cs@));
            }
            while i < cs.len()
                invariant
                    0 <= i <= cs.len(),
                    all_rules_hold(rules_view(cs@), *w) == all_rules_hold(
                        rules_view(cs@).skip(i as int),
                        *w,
                    ),
                decreases cs.len() - i,
            {
                proof {
                    assert(decreases_to!(*r => (*r)->All_0));
                    assert(decreases_to!(*cs => cs@));
                    assert(decreases_to!(cs@ => cs@[i as int]));
                    let rv = rules_view(cs@);
                    assert(rv.skip(i as int)[0] == rv[i as int]);
                    assert(rv.skip(i as int).skip(1) =~= rv.skip(i as int + 1));
                }
                let h = eval_rule(&cs[i], w);
                if !h {
                    return false;
                }
                i = i + 1;
            }
            proof {
                assert(rules_view(cs@).skip(cs@.len() as int) =~= Seq::<RuleView>::empty());
            }
            true
        },
        FilterRule::Any(cs) => {
            let mut i: usize = 0;
            proof {
                assert(rules_view(cs@).skip(0) =~= rules_view(cs@));
                lemma_rules_view_index(cs@);
                lemma_rules_wf_index(rules_view(cs@));
            }
            while i < cs.len()
                invariant
                    0 <= i <= cs.len(),
                    any_rule_holds(rules_view(cs@), *w) == any_rule_holds(
                        rules_view(cs@).skip(i as int),
                        *w,
                    ),
                decreases cs.len() - i,
            {
                proof {
                    assert(decreases_to!(*r => (*r)->Any_0));
                    assert(decreases_to!(*cs => cs@));
                    assert(decreases_to!(cs@ => cs@[i as int]));
                    let rv = rules_view(cs@);
                    assert(rv.skip(i as int)[0] == rv[i as int]);
                    assert(rv.skip(i as int).skip(1) =~= rv.skip(i as int + 1));
                }
                let h = eval_rule(&cs[i], w);
                if h {
                    return true;
                }
                i = i + 1;
            }
            proof {
                assert(rules_view(cs@).skip(cs@.len() as int) =~= Seq::<RuleView>::empty());
            }
            false
        },
        FilterRule::Not(b) => !eval_rule(b, w),
    }
}

/// One compiled rule of a filter: the action and the retained rule tree,
/// which is its own executable predicate through `eval_rule`.
#[derive(Debug)]
pub struct ActionFuncPair {
    pub action: Action,
    pub rule: FilterRule,
}

impl View for ActionFuncPair {
    type V = ItemView;

    open spec fn view(&self) -> ItemView {
        ItemView { action: self.action, rule: rule_view(self.rule) }
    }
}

/// An ordered collection of compiled rules, evaluated against windows.
#[derive(Debug)]
pub struct Filter {
    pub rules: Vec<ActionFuncPair>,
}

impl View for Filter {
    type V = Seq<ItemView>;

    open spec fn view(&self) -> Seq<ItemView> {
        self.rules@.map_values(|p: ActionFuncPair| p@)
    }
}

/// The statements of a parsed list whose rules the compiler accepts.
pub open spec fn wf_items(s: Seq<ItemView>) -> Seq<ItemView>
    decreases s,
{
    if s.len() == 0 {
        Seq::empty()
    } else if rule_wf(s[0].rule) {
        seq![s[0]] + wf_items(s.skip(1))
    } else {
        wf_items(s.skip(1))
    }
}

/// A window passes the filter when every filter-out rule holds for it; pin
/// rules take no part in this.
pub open spec fn filter_passes(rules: Seq<ItemView>, w: Window) -> bool {
    forall|i: int|
        0 <= i < rules.len() && (#[trigger] rules[i]).action == Action::FilterOut ==> rule_holds(
            rules[i].rule,
            w,
        )
}

/// A window is pinned when some pin rule holds for it.
pub open spec fn filter_pins(rules: Seq<ItemView>, w: Window) -> bool {
    exists|i: int|
        0 <= i < rules.len() && (#[trigger] rules[i]).action == Action::Pin && rule_holds(
            rules[i].rule,
            w,
        )
}

impl Filter {
    /// All held rules are accepted by the compiler.
    pub open spec fn wf(&self) -> bool {
        forall|i: int| 0 <= i < self@.len() ==> rule_wf((#[trigger] self@[i]).rule)
    }

    /// The empty filter: accepts every window, pins none.
    pub fn new() -> (f: Filter)
        ensures
            f@.len() == 0,
            f.wf(),
    {
        let f = Filter { rules: Vec::new() };
        proof {
            assert(f@ =~= Seq::<ItemView>::empty());
        }
        f
    }

    /// Parse rule source text into a filter. A malformed source yields the
    /// empty filter; statements whose rules the compiler rejects are dropped,
    /// the rest are kept in order.
    pub fn parse(rule: &str) -> (f: Filter)
        ensures
            f.wf(),
            match parse_rule_spec(scan_spec(rule@, false)) {
                Some(ivs) => f@ == wf_items(ivs),
                None => f@.len() == 0,
            },
    {
        let mut f = Filter::new();
        f.extend_parsed(rule);
        f
    }

    /// Append the statements of `rule` to this filter, as `parse` does;
    /// reports whether the source parsed.
    pub fn extend_parsed(&mut self, rule: &str) -> (loaded: bool)
        requires
            old(self).wf(),
        ensures
            final(self).wf(),
            match parse_rule_spec(scan_spec(rule@, false)) {
                Some(ivs) => loaded && final(self)@ == old(self)@ + wf_items(ivs),
                None => !loaded && final(self)@ == old(self)@,
            },
    {
        let mut tokens = scan_tokens(rule);
        match parse_rule(&mut tokens) {
            Some(items) => {
                self.push_wf_items(items);
                true
            },
            None => false,
        }
    }

    /// Append the well-formed statements of a parsed list.
    #[verifier::loop_isolation(false)]
    pub(crate) fn push_wf_items(&mut self, items: Vec<FilterItem>)
        requires
            old(self).wf(),
        ensures
            final(self).wf(),
            final(self)@ == old(self)@ + wf_items(items_view(items@)),
    {
        let ghost ivs = items_view(items@);
        let ghost orig = self@;
        let mut rest = items;
        proof {
            assert(self@ + wf_items(items_view(rest@)) =~= orig + wf_items(ivs));
        }
        while rest.len() > 0
            invariant
                self.wf(),
                self@ + wf_items(items_view(rest@)) == orig + wf_items(ivs),
            decreases rest@.len(),
        {
            let ghost prev = rest@;
            let item = rest.remove(0);
            proof {
                assert(items_view(prev)[0] == item@);
                assert(rest@ =~= prev.skip(1));
                assert(items_view(prev).skip(1) =~= items_view(rest@));
            }
            let wf_ok = is_rule_wf(&item.rule);
            let ghost pre = self@;
            if wf_ok {
                self.rules.push(ActionFuncPair { action: item.action, rule: item.rule });
                proof {
                    assert(self@ =~= pre.push(item@));
                    assert(pre.push(item@) + wf_items(items_view(rest@)) =~= pre + wf_items(
                        items_view(prev),
                    ));
                }
            }
        }
        proof {
            assert(items_view(rest@) =~= Seq::<ItemView>::empty());
            assert(self@ + Seq::<ItemView>::empty() =~= self@);
        }
    }

    /// A window passes the filter exactly when every filter-out rule holds
    /// for it; the empty filter accepts every window.
    #[verifier::loop_isolation(false)]
    pub fn apply_to(&self, w: &Window) -> (r: bool)
        requires
            self.wf(),
        ensures
            r == filter_passes(self@, *w),
    {
        let mut i: usize = 0;
        while i < self.rules.len()
            invariant
                0 <= i <= self.rules.len(),
                forall|k: int|
                    0 <= k < i && (#[trigger] self@[k]).action == Action::FilterOut
                        ==> rule_holds(self@[k].rule, *w),
            decreases self.rules.len() - i,
        {
            let is_out = match self.rules[i].action {
                Action::FilterOut => true,
                _ => false,
            };
            if is_out {
                let h = eval_rule(&self.rules[i].rule, w);
                if !h {
                    proof {
                        assert(self@[i as int].action == Action::FilterOut && !rule_holds(
                            self@[i as int].rule,
                            *w,
                        ));
                    }
                    return false;
                }
            }
            i = i + 1;
        }
        true
    }

    /// A window is pinned exactly when some pin rule holds for it; the empty
    /// filter pins none.
    #[verifier::loop_isolation(false)]
    pub fn is_pinned(&self, w: &Window) -> (r: bool)
        requires
            self.wf(),
        ensures
            r == filter_pins(self@, *w),
    {
        let mut i: usize = 0;
        while i < self.rules.len()
            invariant
                0 <= i <= self.rules.len(),
                forall|k: int|
                    0 <= k < i ==> !((#[trigger] self@[k]).action == Action::Pin && rule_holds(
                        self@[k].rule,
                        *w,
                    )),
            decreases self.rules.len() - i,
        {
            let is_pin = match self.rules[i].action {
                Action::Pin => true,
                _ => false,
            };
            if is_pin {
                let h = eval_rule(&self.rules[i].rule, w);
                if h {
                    proof {
                        assert(self@[i as int].action == Action::Pin && rule_holds(
                            self@[i as int].rule,
                            *w,
                        ));
                    }
                    return true;
                }
            }
            i = i + 1;
        }
        false
    }

    /// Append one compiled rule, such as a host-injected adhoc condition.
    pub fn add_live_rule(&mut self, item: ActionFuncPair)
        requires
            old(self).wf(),
            rule_wf(item@.rule),
        ensures
            final(self).wf(),
            final(self)@ == old(self)@.push(item@),
    {
        self.rules.push(item);
        proof {
            assert(self@ =~= old(self)@.push(item@));
        }
    }
}

} // verus!

verus! {

/// A human-readable rendering of the rule grammar, for a grammar-help
/// command.
pub fn filter_grammar() -> &'static str {
    "grammar:
    top -> ( item ( ';' item )* )?
    item -> cond ( ':' action)?
        | 'clients'
    cond -> pred op VAL
        | ANY '(' cond (',' cond )* ')'
        | ALL '(' cond (',' cond )* ')'
        | NOT '(' cond ')'
        | 'clients'
    pred -> ID ('.' ID)*
    op -> '=' | '>' | '<' | '>=' | '<=' | '<>'
    action -> 'filter' | 'pin'
    ID -> STRING_LIT
    VAL -> STRING_LIT

pred could be:
    attrs.(map_state|override_redirect)
    geom.(x|y|width|height)
    id
    name
"
}

} // verus!
