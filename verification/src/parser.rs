//! The parser: from tokens to the syntax tree of an expression.
//!
//! The grammar has two levels of left-associative binary operators above the
//! numbers:
//!
//! ```text
//! expr    = mul ("+" mul | "-" mul)*
//! mul     = primary ("*" primary | "/" primary)*
//! primary = number
//! ```

use vstd::prelude::*;
use crate::ast::{AstNode, AstNodeView, NodeKind, Syntax, branch, is_product, is_sum, leaf};
use crate::binary_tree::BinaryTree;
use crate::diagnostics::{Diagnostic, DiagnosticView, ErrorKind};
use crate::scanner::{Token, TokenKind, TokenView, same_words};

verus! {

/// The operator that a token denotes, if it denotes one: a punctuation token
/// whose text is one of the four operator symbols.
pub open spec fn operator_of(token: TokenView) -> Option<NodeKind> {
    if token.kind == TokenKind::Punck && token.text.len() == 1 {
        let symbol = token.text[0];
        if symbol == '+' {
            Some(NodeKind::Add)
        } else if symbol == '-' {
            Some(NodeKind::Sub)
        } else if symbol == '*' {
            Some(NodeKind::Mul)
        } else if symbol == '/' {
            Some(NodeKind::Div)
        } else {
            None
        }
    } else {
        None
    }
}

/// The operator at position `p`, if it is `+` or `-`.
pub open spec fn additive_at(ts: Seq<TokenView>, p: int) -> Option<NodeKind> {
    if 0 <= p < ts.len() && (operator_of(ts[p]) == Some(NodeKind::Add) || operator_of(ts[p])
        == Some(NodeKind::Sub)) {
        operator_of(ts[p])
    } else {
        None
    }
}

/// The operator at position `p`, if it is `*` or `/`.
pub open spec fn multiplicative_at(ts: Seq<TokenView>, p: int) -> Option<NodeKind> {
    if 0 <= p < ts.len() && (operator_of(ts[p]) == Some(NodeKind::Mul) || operator_of(ts[p])
        == Some(NodeKind::Div)) {
        operator_of(ts[p])
    } else {
        None
    }
}

/// What parsing from some position gives: the tree and the position behind
/// the tokens it was built from, or the position at which an operand is
/// missing.
pub type Parsed = Result<(Syntax, int), int>;

/// `primary` at position `p`: the leaf of the number that stands there.
pub open spec fn parse_primary(ts: Seq<TokenView>, p: int) -> Option<Syntax> {
    if 0 <= p < ts.len() && ts[p].kind == TokenKind::Num {
        Some(leaf(ts[p].text))
    } else {
        None
    }
}

/// The rest of a `mul` at position `p`, with `acc` the tree of what was read
/// of it so far: each further operator takes `acc` as its left operand.
pub open spec fn parse_mul_tail(ts: Seq<TokenView>, p: int, acc: Syntax) -> Parsed
    decreases ts.len() - p,
{
    match multiplicative_at(ts, p) {
        Some(kind) => match parse_primary(ts, p + 1) {
            Some(right) => parse_mul_tail(ts, p + 2, branch(kind, ts[p].text, acc, right)),
            None => Err(p + 1),
        },
        None => Ok((acc, p)),
    }
}

/// `mul` at position `p`.
pub open spec fn parse_mul(ts: Seq<TokenView>, p: int) -> Parsed {
    match parse_primary(ts, p) {
        Some(first) => parse_mul_tail(ts, p + 1, first),
        None => Err(p),
    }
}

/// The rest of an `expr` at position `p`, with `acc` the tree of what was
/// read of it so far.
pub open spec fn parse_expr_tail(ts: Seq<TokenView>, p: int, acc: Syntax) -> Parsed
    decreases ts.len() - p,
    via parse_expr_tail_decreases
{
    match additive_at(ts, p) {
        Some(kind) => match parse_mul(ts, p + 1) {
            Ok((right, rest)) => parse_expr_tail(ts, rest, branch(kind, ts[p].text, acc, right)),
            Err(at) => Err(at),
        },
        None => Ok((acc, p)),
    }
}

#[via_fn]
proof fn parse_expr_tail_decreases(ts: Seq<TokenView>, p: int, acc: Syntax) {
    if additive_at(ts, p) is Some {
        lemma_parse_mul_advances(ts, p + 1);
    }
}

/// `expr` at position `p`.
pub open spec fn parse_expr(ts: Seq<TokenView>, p: int) -> Parsed {
    match parse_mul(ts, p) {
        Ok((first, rest)) => parse_expr_tail(ts, rest, first),
        Err(at) => Err(at),
    }
}

/// The failure reported when an operand is missing at position `at` of the
/// tokens: it points at the token that stands there, or at `end` when the
/// tokens have run out.
pub open spec fn missing_operand(ts: Seq<TokenView>, at: int, end: int) -> DiagnosticView {
    if 0 <= at < ts.len() {
        DiagnosticView { kind: ErrorKind::ExpectedNumber, index: ts[at].index }
    } else {
        DiagnosticView { kind: ErrorKind::UnexpectedEndOfInput, index: end }
    }
}

/// The rest of a `mul` ends within the tokens, and fails within them or just
/// behind them.
pub proof fn lemma_parse_mul_tail_advances(ts: Seq<TokenView>, p: int, acc: Syntax)
    requires
        0 <= p <= ts.len(),
    ensures
        match parse_mul_tail(ts, p, acc) {
            Ok((_, rest)) => p <= rest <= ts.len(),
            Err(at) => p < at <= ts.len(),
        },
    decreases ts.len() - p,
{
    match multiplicative_at(ts, p) {
        Some(kind) => match parse_primary(ts, p + 1) {
            Some(right) => {
                lemma_parse_mul_tail_advances(ts, p + 2, branch(kind, ts[p].text, acc, right));
            },
            None => {},
        },
        None => {},
    }
}

/// A `mul` takes at least one token.
pub proof fn lemma_parse_mul_advances(ts: Seq<TokenView>, p: int)
    ensures
        match parse_mul(ts, p) {
            Ok((_, rest)) => 0 <= p < rest <= ts.len(),
            Err(at) => p <= at && (0 <= p <= ts.len() ==> at <= ts.len()),
        },
{
    match parse_primary(ts, p) {
        Some(first) => {
            lemma_parse_mul_tail_advances(ts, p + 1, first);
        },
        None => {},
    }
}

/// Whether a node is what a token says: the same text, and a number for a
/// number token, the token's operator otherwise.
pub open spec fn reads_as(node: AstNodeView, token: TokenView) -> bool {
    &&& node.text == token.text
    &&& if node.kind == NodeKind::Num {
        token.kind == TokenKind::Num
    } else {
        operator_of(token) == Some(node.kind)
    }
}

/// Whether the nodes of `tree`, from left to right, are the tokens `ts`, one
/// node for each token.
pub open spec fn spells(tree: Syntax, ts: Seq<TokenView>) -> bool {
    &&& tree.in_order().len() == ts.len()
    &&& forall|i: int| 0 <= i < ts.len() ==> reads_as(#[trigger] tree.in_order()[i], ts[i])
}

/// Whether an operand is missing at position `at`: no number stands there,
/// and the position is `from` or follows an operator.
pub open spec fn operand_missing(ts: Seq<TokenView>, from: int, at: int) -> bool {
    &&& 0 <= from <= at <= ts.len()
    &&& parse_primary(ts, at) is None
    &&& at == from || operator_of(ts[at - 1]) is Some
}

/// What the rest of a `mul` adds to a product that spells the tokens read
/// so far.
pub proof fn lemma_parse_mul_tail(ts: Seq<TokenView>, from: int, p: int, acc: Syntax)
    requires
        0 <= from <= p <= ts.len(),
        is_product(acc),
        spells(acc, ts.subrange(from, p)),
    ensures
        match parse_mul_tail(ts, p, acc) {
            Ok((tree, rest)) => {
                &&& p <= rest <= ts.len()
                &&& is_product(tree)
                &&& spells(tree, ts.subrange(from, rest))
                &&& multiplicative_at(ts, rest) is None
            },
            Err(at) => p < at && operand_missing(ts, from, at),
        },
    decreases ts.len() - p,
{
    match multiplicative_at(ts, p) {
        Some(kind) => match parse_primary(ts, p + 1) {
            Some(right) => {
                let next = branch(kind, ts[p].text, acc, right);
                assert(right.in_order() =~= seq![right.key]);
                assert(next.in_order() =~= acc.in_order() + seq![next.key] + seq![right.key]);
                assert forall|i: int| 0 <= i < p + 2 - from implies reads_as(
                    #[trigger] next.in_order()[i],
                    ts.subrange(from, p + 2)[i],
                ) by {
                    if i < p - from {
                        assert(next.in_order()[i] == acc.in_order()[i]);
                        assert(ts.subrange(from, p)[i] == ts[from + i]);
                    }
                }
                lemma_parse_mul_tail(ts, from, p + 2, next);
            },
            None => {},
        },
        None => {},
    }
}

/// A `mul` that succeeds gives a product that spells the tokens it read and
/// stops in front of a token that is neither `*` nor `/`. One that fails
/// points at a missing operand.
pub proof fn lemma_parse_mul(ts: Seq<TokenView>, p: int)
    requires
        0 <= p <= ts.len(),
    ensures
        match parse_mul(ts, p) {
            Ok((tree, rest)) => {
                &&& p < rest <= ts.len()
                &&& is_product(tree)
                &&& spells(tree, ts.subrange(p, rest))
                &&& multiplicative_at(ts, rest) is None
            },
            Err(at) => operand_missing(ts, p, at),
        },
{
    match parse_primary(ts, p) {
        Some(first) => {
            assert(first.in_order() =~= seq![first.key]);
            lemma_parse_mul_tail(ts, p, p + 1, first);
        },
        None => {},
    }
}

/// What the rest of an `expr` adds to a sum that spells the tokens read so
/// far.
pub proof fn lemma_parse_expr_tail(ts: Seq<TokenView>, from: int, p: int, acc: Syntax)
    requires
        0 <= from <= p <= ts.len(),
        is_sum(acc),
        spells(acc, ts.subrange(from, p)),
        multiplicative_at(ts, p) is None,
    ensures
        match parse_expr_tail(ts, p, acc) {
            Ok((tree, rest)) => {
                &&& p <= rest <= ts.len()
                &&& is_sum(tree)
                &&& spells(tree, ts.subrange(from, rest))
                &&& multiplicative_at(ts, rest) is None
                &&& additive_at(ts, rest) is None
            },
            Err(at) => p < at && operand_missing(ts, from, at),
        },
    decreases ts.len() - p,
{
    match additive_at(ts, p) {
        Some(kind) => {
            lemma_parse_mul(ts, p + 1);
            match parse_mul(ts, p + 1) {
                Ok((right, rest)) => {
                    let next = branch(kind, ts[p].text, acc, right);
                    assert(next.in_order() =~= acc.in_order() + seq![next.key]
                        + right.in_order());
                    assert forall|i: int| 0 <= i < rest - from implies reads_as(
                        #[trigger] next.in_order()[i],
                        ts.subrange(from, rest)[i],
                    ) by {
                        if i < p - from {
                            assert(next.in_order()[i] == acc.in_order()[i]);
                            assert(ts.subrange(from, p)[i] == ts[from + i]);
                        } else if i > p - from {
                            let j = i - (p + 1 - from);
                            assert(next.in_order()[i] == right.in_order()[j]);
                            assert(ts.subrange(p + 1, rest)[j] == ts[from + i]);
                        }
                    }
                    lemma_parse_expr_tail(ts, from, rest, next);
                },
                Err(at) => {},
            }
        },
        None => {},
    }
}

/// An `expr` that succeeds gives a sum that spells the tokens it read and
/// stops in front of a token that is no operator. One that fails points at a
/// missing operand.
pub proof fn lemma_parse_expr(ts: Seq<TokenView>, p: int)
    requires
        0 <= p <= ts.len(),
    ensures
        match parse_expr(ts, p) {
            Ok((tree, rest)) => {
                &&& p < rest <= ts.len()
                &&& is_sum(tree)
                &&& spells(tree, ts.subrange(p, rest))
                &&& multiplicative_at(ts, rest) is None
                &&& additive_at(ts, rest) is None
            },
            Err(at) => operand_missing(ts, p, at),
        },
{
    lemma_parse_mul(ts, p);
    match parse_mul(ts, p) {
        Ok((first, rest)) => {
            assert(is_sum(first));
            lemma_parse_expr_tail(ts, p, rest, first);
        },
        Err(at) => {},
    }
}

/// Whether the tokens are an expression and nothing else: numbers and
/// operators in turn, with a number at each end.
pub open spec fn is_flat_expression(ts: Seq<TokenView>) -> bool {
    &&& ts.len() % 2 == 1
    &&& forall|i: int|
        0 <= i < ts.len() ==> if i % 2 == 0 {
            (#[trigger] ts[i]).kind == TokenKind::Num
        } else {
            operator_of(ts[i]) is Some
        }
}

/// Within an expression, the rest of a `mul` succeeds and stops in front of
/// an operator or at the end.
pub proof fn lemma_flat_mul_tail(ts: Seq<TokenView>, p: int, acc: Syntax)
    requires
        is_flat_expression(ts),
        0 <= p <= ts.len(),
        p % 2 == 1,
    ensures
        parse_mul_tail(ts, p, acc) matches Ok((_, rest)) && p <= rest <= ts.len() && rest % 2 == 1,
    decreases ts.len() - p,
{
    match multiplicative_at(ts, p) {
        Some(kind) => {
            assert(ts[p + 1].kind == TokenKind::Num);
            let right = parse_primary(ts, p + 1)->0;
            lemma_flat_mul_tail(ts, p + 2, branch(kind, ts[p].text, acc, right));
        },
        None => {},
    }
}

/// Within an expression, the rest of an `expr` succeeds and reads all that
/// is left.
pub proof fn lemma_flat_expr_tail(ts: Seq<TokenView>, p: int, acc: Syntax)
    requires
        is_flat_expression(ts),
        0 <= p <= ts.len(),
        p % 2 == 1,
        multiplicative_at(ts, p) is None,
    ensures
        parse_expr_tail(ts, p, acc) matches Ok((_, rest)) && rest == ts.len(),
    decreases ts.len() - p,
{
    match additive_at(ts, p) {
        Some(kind) => {
            assert(ts[p + 1].kind == TokenKind::Num);
            let first = parse_primary(ts, p + 1)->0;
            lemma_flat_mul_tail(ts, p + 2, first);
            lemma_parse_mul(ts, p + 1);
            let (right, rest) = parse_mul(ts, p + 1)->Ok_0;
            lemma_flat_expr_tail(ts, rest, branch(kind, ts[p].text, acc, right));
        },
        None => {
            if p < ts.len() {
                assert(operator_of(ts[p]) is Some);
            }
        },
    }
}

/// Tokens that are an expression and nothing else are parsed to the last.
pub proof fn lemma_flat_expression_is_read(ts: Seq<TokenView>)
    requires
        is_flat_expression(ts),
    ensures
        parse_expr(ts, 0) matches Ok((_, rest)) && rest == ts.len(),
{
    assert(ts[0].kind == TokenKind::Num);
    let first = parse_primary(ts, 0)->0;
    lemma_flat_mul_tail(ts, 1, first);
    lemma_parse_mul(ts, 0);
    let (tree, rest) = parse_mul(ts, 0)->Ok_0;
    lemma_flat_expr_tail(ts, rest, tree);
}

/// The rest of a `mul` reads kinds and texts only.
pub proof fn lemma_parse_mul_tail_same_words(
    x: Seq<TokenView>,
    y: Seq<TokenView>,
    p: int,
    acc: Syntax,
)
    requires
        same_words(x, y),
    ensures
        parse_mul_tail(x, p, acc) == parse_mul_tail(y, p, acc),
    decreases x.len() - p,
{
    if 0 <= p < x.len() {
        assert(x[p].kind == y[p].kind && x[p].text == y[p].text);
        assert(operator_of(x[p]) == operator_of(y[p]));
        if p + 1 < x.len() {
            assert(x[p + 1].kind == y[p + 1].kind && x[p + 1].text == y[p + 1].text);
        }
        match multiplicative_at(x, p) {
            Some(kind) => match parse_primary(x, p + 1) {
                Some(right) => {
                    lemma_parse_mul_tail_same_words(
                        x,
                        y,
                        p + 2,
                        branch(kind, x[p].text, acc, right),
                    );
                },
                None => {},
            },
            None => {},
        }
    }
}

/// A `mul` reads kinds and texts only.
pub proof fn lemma_parse_mul_same_words(x: Seq<TokenView>, y: Seq<TokenView>, p: int)
    requires
        same_words(x, y),
    ensures
        parse_mul(x, p) == parse_mul(y, p),
{
    if 0 <= p < x.len() {
        assert(x[p].kind == y[p].kind && x[p].text == y[p].text);
        match parse_primary(x, p) {
            Some(first) => lemma_parse_mul_tail_same_words(x, y, p + 1, first),
            None => {},
        }
    }
}

/// The rest of an `expr` reads kinds and texts only.
pub proof fn lemma_parse_expr_tail_same_words(
    x: Seq<TokenView>,
    y: Seq<TokenView>,
    p: int,
    acc: Syntax,
)
    requires
        same_words(x, y),
    ensures
        parse_expr_tail(x, p, acc) == parse_expr_tail(y, p, acc),
    decreases x.len() - p,
{
    if 0 <= p < x.len() {
        assert(x[p].kind == y[p].kind && x[p].text == y[p].text);
        assert(operator_of(x[p]) == operator_of(y[p]));
        match additive_at(x, p) {
            Some(kind) => {
                lemma_parse_mul_same_words(x, y, p + 1);
                lemma_parse_mul_advances(x, p + 1);
                match parse_mul(x, p + 1) {
                    Ok((right, rest)) => {
                        lemma_parse_expr_tail_same_words(
                            x,
                            y,
                            rest,
                            branch(kind, x[p].text, acc, right),
                        );
                    },
                    Err(at) => {},
                }
            },
            None => {},
        }
    }
}

/// An `expr` reads kinds and texts only: where the tokens stand in the input
/// makes no difference to the tree, nor to the place where an operand is
/// missing.
pub proof fn lemma_parse_expr_same_words(x: Seq<TokenView>, y: Seq<TokenView>, p: int)
    requires
        same_words(x, y),
    ensures
        parse_expr(x, p) == parse_expr(y, p),
{
    lemma_parse_mul_same_words(x, y, p);
    match parse_mul(x, p) {
        Ok((first, rest)) => lemma_parse_expr_tail_same_words(x, y, rest, first),
        Err(at) => {},
    }
}

/// A forward-only reader of a token sequence with one token of lookahead.
pub struct Cursor<'a> {
    tokens: &'a [Token],
    pos: usize,
    end: usize,
}

impl<'a> Cursor<'a> {
    #[verifier::type_invariant]
    spec fn in_bounds(self) -> bool {
        self.pos <= self.tokens@.len()
    }

    /// All the tokens, read and unread.
    pub closed spec fn tokens(self) -> Seq<TokenView> {
        self.tokens.deep_view()
    }

    /// How many of the tokens have been read.
    pub closed spec fn position(self) -> int {
        self.pos as int
    }

    /// The position in the input that is reported when the tokens run out.
    pub closed spec fn end(self) -> int {
        self.end as int
    }

    /// A reader in front of the first of `tokens`. `end` is the position
    /// reported for a failure behind the last token: the length of the input
    /// that the tokens were read from.
    pub fn new(tokens: &'a [Token], end: usize) -> (cursor: Self)
        ensures
            cursor.tokens() == tokens.deep_view(),
            cursor.position() == 0,
            cursor.end() == end,
    {
        Cursor { tokens, pos: 0, end }
    }

    /// How many of the tokens have been read.
    pub fn consumed(&self) -> (count: usize)
        ensures
            count == self.position(),
            count <= self.tokens().len(),
    {
        proof {
            use_type_invariant(self);
        }
        self.pos
    }

    /// The next token, which stays unread.
    pub fn peek(&self) -> (token: Option<&'a Token>)
        ensures
            0 <= self.position() <= self.tokens().len(),
            match token {
                Some(t) => self.position() < self.tokens().len() && t.deep_view()
                    == self.tokens()[self.position()],
                None => self.position() == self.tokens().len(),
            },
    {
        proof {
            use_type_invariant(self);
        }
        if self.pos < self.tokens.len() {
            Some(&self.tokens[self.pos])
        } else {
            None
        }
    }

    /// Reads the next token.
    pub fn next(&mut self) -> (token: Option<&'a Token>)
        ensures
            final(self).tokens() == old(self).tokens(),
            final(self).end() == old(self).end(),
            0 <= old(self).position() <= old(self).tokens().len(),
            match token {
                Some(t) => {
                    &&& old(self).position() < old(self).tokens().len()
                    &&& t.deep_view() == old(self).tokens()[old(self).position()]
                    &&& final(self).position() == old(self).position() + 1
                },
                None => {
                    &&& old(self).position() == old(self).tokens().len()
                    &&& final(self).position() == old(self).position()
                },
            },
    {
        proof {
            use_type_invariant(&*self);
        }
        if self.pos < self.tokens.len() {
            let token = &self.tokens[self.pos];
            self.pos = self.pos + 1;
            Some(token)
        } else {
            None
        }
    }

    /// The failure to report when the next token should be a number and is
    /// none, or when there is no next token.
    pub fn expected_number(&self) -> (diagnostic: Diagnostic)
        ensures
            diagnostic@ == missing_operand(self.tokens(), self.position(), self.end()),
    {
        proof {
            use_type_invariant(self);
        }
        if self.pos < self.tokens.len() {
            Diagnostic { kind: ErrorKind::ExpectedNumber, index: self.tokens[self.pos].index }
        } else {
            Diagnostic { kind: ErrorKind::UnexpectedEndOfInput, index: self.end }
        }
    }
}

/// The operator that a token denotes, if it denotes one.
pub fn operator(token: &Token) -> (kind: Option<NodeKind>)
    ensures
        kind == operator_of(token@),
{
    if token.kind != TokenKind::Punck {
        return None;
    }
    let text = token.value.as_str();
    if text.unicode_len() != 1 {
        return None;
    }
    let symbol = text.get_char(0);
    if symbol == '+' {
        Some(NodeKind::Add)
    } else if symbol == '-' {
        Some(NodeKind::Sub)
    } else if symbol == '*' {
        Some(NodeKind::Mul)
    } else if symbol == '/' {
        Some(NodeKind::Div)
    } else {
        None
    }
}

/// Whether `result`, with the reader moved from `before` to `after`, is what
/// `parsed` describes: on success the tree, with the reader behind the tokens
/// it was built from; on failure the diagnostic for the missing operand, with
/// the reader in front of the place where it is missing.
pub open spec fn agrees(
    result: Result<BinaryTree<AstNode>, Diagnostic>,
    before: Cursor,
    after: Cursor,
    parsed: Parsed,
) -> bool {
    &&& after.tokens() == before.tokens()
    &&& after.end() == before.end()
    &&& match parsed {
        Ok((tree, rest)) => {
            &&& result matches Ok(built)
            &&& built.deep_view() == tree
            &&& after.position() == rest
        },
        Err(at) => {
            &&& result matches Err(diagnostic)
            &&& diagnostic@ == missing_operand(before.tokens(), at, before.end())
            &&& after.position() == at
        },
    }
}

/// Reads a number and gives its leaf. Where the next token is no number, or
/// there is none, nothing is read and there is no tree.
pub fn primary(tokens: &mut Cursor<'_>) -> (node: Option<BinaryTree<AstNode>>)
    ensures
        final(tokens).tokens() == old(tokens).tokens(),
        final(tokens).end() == old(tokens).end(),
        0 <= old(tokens).position() <= old(tokens).tokens().len(),
        match parse_primary(old(tokens).tokens(), old(tokens).position()) {
            Some(tree) => {
                &&& node matches Some(built)
                &&& built.deep_view() == tree
                &&& final(tokens).position() == old(tokens).position() + 1
            },
            None => node is None && final(tokens).position() == old(tokens).position(),
        },
{
    let token = match tokens.peek() {
        Some(t) => t,
        None => return None,
    };
    match token.kind {
        TokenKind::Num => {
            tokens.next();
            Some(BinaryTree::new(AstNode { kind: NodeKind::Num, value: token.value.clone() }))
        },
        TokenKind::Punck => None,
        TokenKind::Ignore => None,
    }
}

/// Parses a product: numbers joined by `*` and `/`, grouped from the left.
///
/// The tree is the product that spells the tokens read, and reading stops in
/// front of the first token that does not continue the product.
pub fn mul(tokens: &mut Cursor<'_>) -> (result: Result<BinaryTree<AstNode>, Diagnostic>)
    ensures
        agrees(
            result,
            *old(tokens),
            *final(tokens),
            parse_mul(old(tokens).tokens(), old(tokens).position()),
        ),
        result matches Ok(tree) ==> {
            &&& is_product(tree.deep_view())
            &&& 0 <= old(tokens).position() < final(tokens).position() <= old(tokens).tokens().len()
            &&& spells(
                tree.deep_view(),
                old(tokens).tokens().subrange(old(tokens).position(), final(tokens).position()),
            )
            &&& multiplicative_at(old(tokens).tokens(), final(tokens).position()) is None
        },
        result is Err ==> operand_missing(
            old(tokens).tokens(),
            old(tokens).position(),
            final(tokens).position(),
        ),
{
    proof {
        use_type_invariant(&*tokens);
        lemma_parse_mul(tokens.tokens(), tokens.position());
    }
    let mut node = match primary(tokens) {
        Some(node) => node,
        None => return Err(tokens.expected_number()),
    };
    loop
        invariant
            tokens.tokens() == old(tokens).tokens(),
            tokens.end() == old(tokens).end(),
            0 <= old(tokens).position() <= tokens.position() <= tokens.tokens().len(),
            parse_mul_tail(tokens.tokens(), tokens.position(), node.deep_view()) == parse_mul(
                old(tokens).tokens(),
                old(tokens).position(),
            ),
        decreases tokens.tokens().len() - tokens.position(),
    {
        proof {
            lemma_parse_mul(old(tokens).tokens(), old(tokens).position());
        }
        let token = match tokens.peek() {
            Some(t) => t,
            None => return Ok(node),
        };
        let kind = match operator(token) {
            Some(NodeKind::Mul) => NodeKind::Mul,
            Some(NodeKind::Div) => NodeKind::Div,
            _ => return Ok(node),
        };
        tokens.next();
        let right = match primary(tokens) {
            Some(right) => right,
            None => return Err(tokens.expected_number()),
        };
        let mut bt = BinaryTree::new(AstNode { kind, value: token.value.clone() });
        bt.set_left(Some(Box::new(node)));
        bt.set_right(Some(Box::new(right)));
        node = bt;
    }
}

/// Parses a sum: products joined by `+` and `-`, grouped from the left.
///
/// The tree is the sum that spells the tokens read, and reading stops in
/// front of the first token that is no operator. An operator that no number
/// follows is a failure.
pub fn expr(tokens: &mut Cursor<'_>) -> (result: Result<BinaryTree<AstNode>, Diagnostic>)
    ensures
        agrees(
            result,
            *old(tokens),
            *final(tokens),
            parse_expr(old(tokens).tokens(), old(tokens).position()),
        ),
        result matches Ok(tree) ==> {
            &&& is_sum(tree.deep_view())
            &&& 0 <= old(tokens).position() < final(tokens).position() <= old(tokens).tokens().len()
            &&& spells(
                tree.deep_view(),
                old(tokens).tokens().subrange(old(tokens).position(), final(tokens).position()),
            )
            &&& multiplicative_at(old(tokens).tokens(), final(tokens).position()) is None
            &&& additive_at(old(tokens).tokens(), final(tokens).position()) is None
        },
        result is Err ==> operand_missing(
            old(tokens).tokens(),
            old(tokens).position(),
            final(tokens).position(),
        ),
{
    proof {
        use_type_invariant(&*tokens);
        lemma_parse_expr(tokens.tokens(), tokens.position());
    }
    let mut node = match self::mul(tokens) {
        Ok(node) => node,
        Err(diagnostic) => return Err(diagnostic),
    };
    proof {
        use_type_invariant(&*tokens);
    }
    loop
        invariant
            tokens.tokens() == old(tokens).tokens(),
            tokens.end() == old(tokens).end(),
            0 <= old(tokens).position() <= tokens.position() <= tokens.tokens().len(),
            parse_expr_tail(tokens.tokens(), tokens.position(), node.deep_view()) == parse_expr(
                old(tokens).tokens(),
                old(tokens).position(),
            ),
        decreases tokens.tokens().len() - tokens.position(),
    {
        proof {
            lemma_parse_expr(old(tokens).tokens(), old(tokens).position());
        }
        let token = match tokens.peek() {
            Some(t) => t,
            None => return Ok(node),
        };
        let kind = match operator(token) {
            Some(NodeKind::Add) => NodeKind::Add,
            Some(NodeKind::Sub) => NodeKind::Sub,
            _ => return Ok(node),
        };
        tokens.next();
        proof {
            lemma_parse_mul_advances(tokens.tokens(), tokens.position());
        }
        let right = match self::mul(tokens) {
            Ok(right) => right,
            Err(diagnostic) => return Err(diagnostic),
        };
        let mut bt = BinaryTree::new(AstNode { kind, value: token.value.clone() });
        bt.set_left(Some(Box::new(node)));
        bt.set_right(Some(Box::new(right)));
        node = bt;
    }
}

} // verus!
