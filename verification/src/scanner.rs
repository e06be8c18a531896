//! The scanner: from the characters of an expression to its tokens.
//!
//! A token is a maximal run of decimal digits or a single punctuation
//! character. Every other character separates tokens and leaves no trace in
//! the output.

use vstd::prelude::*;

verus! {

/// The class of a character, and of the token it belongs to.
#[derive(Debug, PartialEq, Eq, Clone, Copy, Structural)]
pub enum TokenKind {
    /// Blank space and every character that is neither a digit nor punctuation.
    Ignore,
    /// One of `+ - * / ( )`.
    Punck,
    /// A decimal digit, or a run of them.
    Num,
}

/// A classified piece of the input.
#[derive(Debug, Clone)]
pub struct Token {
    pub kind: TokenKind,
    /// The matched characters: a run of digits, or one punctuation character.
    pub value: String,
    /// The position of the first matched character, counted in characters.
    pub index: usize,
}

/// What a token says, as plain values.
pub struct TokenView {
    pub kind: TokenKind,
    pub text: Seq<char>,
    pub index: int,
}

impl View for Token {
    type V = TokenView;

    open spec fn view(&self) -> TokenView {
        TokenView { kind: self.kind, text: self.value@, index: self.index as int }
    }
}

impl DeepView for Token {
    type V = TokenView;

    open spec fn deep_view(&self) -> TokenView {
        self.view()
    }
}

/// A decimal digit.
pub open spec fn is_digit(c: char) -> bool {
    '0' <= c && c <= '9'
}

/// A punctuation character: an operator symbol or a parenthesis.
pub open spec fn is_punctuation(c: char) -> bool {
    c == '+' || c == '-' || c == '*' || c == '/' || c == '(' || c == ')'
}

/// The class of a single character.
pub open spec fn char_kind(c: char) -> TokenKind {
    if is_digit(c) {
        TokenKind::Num
    } else if is_punctuation(c) {
        TokenKind::Punck
    } else {
        TokenKind::Ignore
    }
}

/// Where the run of digits that covers position `i` ends: the first position
/// from `i` on that holds no digit, or the length of `s`.
pub open spec fn run_end(s: Seq<char>, i: int) -> int
    decreases s.len() - i,
{
    if 0 <= i < s.len() && is_digit(s[i]) {
        run_end(s, i + 1)
    } else {
        i
    }
}

/// The tokens of `s` from position `i` on.
pub open spec fn scan_from(s: Seq<char>, i: int) -> Seq<TokenView>
    decreases s.len() - i,
    via scan_from_decreases
{
    if i < 0 || i >= s.len() {
        Seq::empty()
    } else if is_digit(s[i]) {
        let j = run_end(s, i);
        seq![TokenView { kind: TokenKind::Num, text: s.subrange(i, j), index: i }]
            + scan_from(s, j)
    } else if is_punctuation(s[i]) {
        seq![TokenView { kind: TokenKind::Punck, text: seq![s[i]], index: i }]
            + scan_from(s, i + 1)
    } else {
        scan_from(s, i + 1)
    }
}

#[via_fn]
proof fn scan_from_decreases(s: Seq<char>, i: int) {
    if 0 <= i < s.len() && is_digit(s[i]) {
        lemma_run_end_bounds(s, i);
    }
}

/// The tokens of `s`: its maximal digit runs and its punctuation characters,
/// in the order in which they stand.
pub open spec fn scan(s: Seq<char>) -> Seq<TokenView> {
    scan_from(s, 0)
}

/// A run of digits ends after its first digit at the earliest, within the
/// input, and everything up to its end is a digit.
pub proof fn lemma_run_end_bounds(s: Seq<char>, i: int)
    requires
        0 <= i <= s.len(),
    ensures
        i <= run_end(s, i) <= s.len(),
        i < s.len() && is_digit(s[i]) ==> i < run_end(s, i),
        forall|k: int| i <= k < run_end(s, i) ==> is_digit(#[trigger] s[k]),
        run_end(s, i) < s.len() ==> !is_digit(s[run_end(s, i)]),
    decreases s.len() - i,
{
    if i < s.len() && is_digit(s[i]) {
        lemma_run_end_bounds(s, i + 1);
    }
}

/// A stretch of digits that is followed by no digit is a whole run.
pub proof fn lemma_run_end_is(s: Seq<char>, i: int, j: int)
    requires
        0 <= i <= j <= s.len(),
        forall|k: int| i <= k < j ==> is_digit(#[trigger] s[k]),
        j < s.len() ==> !is_digit(s[j]),
    ensures
        run_end(s, i) == j,
    decreases j - i,
{
    if i < j {
        lemma_run_end_is(s, i + 1, j);
    }
}

/// Whether position `m` of `s` does not lie inside a run of digits: it is
/// one of the two ends of `s`, or the characters on its two sides are not
/// both digits.
pub open spec fn is_boundary(s: Seq<char>, m: int) -> bool {
    &&& 0 <= m <= s.len()
    &&& !(0 < m < s.len() && is_digit(s[m - 1]) && is_digit(s[m]))
}

/// Whether a token covers position `j` of the input.
pub open spec fn covers(token: TokenView, j: int) -> bool {
    token.index <= j < token.index + token.text.len()
}

/// Whether `token` is a token of `s`: its text stands in `s` at its index,
/// and it is either a run of digits with no digit on either side or a single
/// punctuation character.
pub open spec fn is_token_of(token: TokenView, s: Seq<char>) -> bool {
    let end = token.index + token.text.len();
    &&& 0 <= token.index < end <= s.len()
    &&& token.text == s.subrange(token.index, end)
    &&& match token.kind {
        TokenKind::Num => {
            &&& forall|k: int| token.index <= k < end ==> is_digit(#[trigger] s[k])
            &&& is_boundary(s, token.index)
            &&& is_boundary(s, end)
        },
        TokenKind::Punck => token.text.len() == 1 && is_punctuation(s[token.index]),
        TokenKind::Ignore => false,
    }
}

/// The tokens with every index moved up by `by`.
pub open spec fn shifted(tokens: Seq<TokenView>, by: int) -> Seq<TokenView> {
    Seq::new(
        tokens.len(),
        |i: int| TokenView { kind: tokens[i].kind, text: tokens[i].text, index: tokens[i].index + by },
    )
}

/// Whether two token sequences say the same, wherever their tokens stand:
/// they are equally long, and kinds and texts agree token by token.
pub open spec fn same_words(x: Seq<TokenView>, y: Seq<TokenView>) -> bool {
    &&& x.len() == y.len()
    &&& forall|i: int|
        0 <= i < x.len() ==> (#[trigger] x[i]).kind == y[i].kind && x[i].text == y[i].text
}

/// What the tokens from a boundary on are: each is a token of the input, they
/// stand in the order of the input without overlap, and every digit and every
/// punctuation character from the boundary on is covered by one of them.
pub proof fn lemma_scan_from_tokens(s: Seq<char>, i: int)
    requires
        is_boundary(s, i),
    ensures
        forall|k: int|
            0 <= k < scan_from(s, i).len() ==> is_token_of(#[trigger] scan_from(s, i)[k], s) && i
                <= scan_from(s, i)[k].index,
        forall|a: int, b: int|
            0 <= a < b < scan_from(s, i).len() ==> (#[trigger] scan_from(s, i)[a]).index
                + scan_from(s, i)[a].text.len() <= (#[trigger] scan_from(s, i)[b]).index,
        forall|j: int|
            i <= j < s.len() && char_kind(s[j]) != TokenKind::Ignore ==> exists|k: int|
                0 <= k < scan_from(s, i).len() && covers(#[trigger] scan_from(s, i)[k], j),
    decreases s.len() - i,
{
    let tokens = scan_from(s, i);
    if i >= s.len() {
    } else if is_digit(s[i]) {
        let j = run_end(s, i);
        lemma_run_end_bounds(s, i);
        lemma_scan_from_tokens(s, j);
        let rest = scan_from(s, j);
        let first = TokenView { kind: TokenKind::Num, text: s.subrange(i, j), index: i };
        assert(tokens == seq![first] + rest);
        assert(is_token_of(first, s));
        assert forall|k: int| 0 <= k < tokens.len() implies is_token_of(#[trigger] tokens[k], s)
            && i <= tokens[k].index by {
            if k > 0 {
                assert(tokens[k] == rest[k - 1]);
            }
        }
        assert forall|a: int, b: int| 0 <= a < b < tokens.len() implies (#[trigger] tokens[a]).index
            + tokens[a].text.len() <= (#[trigger] tokens[b]).index by {
            assert(tokens[b] == rest[b - 1]);
            if a > 0 {
                assert(tokens[a] == rest[a - 1]);
            }
        }
        assert forall|p: int| i <= p < s.len() && char_kind(s[p]) != TokenKind::Ignore implies exists|
            k: int,
        |
            0 <= k < tokens.len() && covers(#[trigger] tokens[k], p) by {
            if p < j {
                assert(covers(tokens[0], p));
            } else {
                let k = choose|k: int| 0 <= k < rest.len() && covers(#[trigger] rest[k], p);
                assert(tokens[k + 1] == rest[k]);
                assert(covers(tokens[k + 1], p));
            }
        }
    } else {
        lemma_scan_from_tokens(s, i + 1);
        let rest = scan_from(s, i + 1);
        if is_punctuation(s[i]) {
            let first = TokenView { kind: TokenKind::Punck, text: seq![s[i]], index: i };
            assert(tokens == seq![first] + rest);
            assert(first.text =~= s.subrange(i, i + 1));
            assert(is_token_of(first, s));
            assert forall|k: int| 0 <= k < tokens.len() implies is_token_of(
                #[trigger] tokens[k],
                s,
            ) && i <= tokens[k].index by {
                if k > 0 {
                    assert(tokens[k] == rest[k - 1]);
                }
            }
            assert forall|a: int, b: int| 0 <= a < b < tokens.len() implies (
            #[trigger] tokens[a]).index + tokens[a].text.len() <= (#[trigger] tokens[b]).index by {
                assert(tokens[b] == rest[b - 1]);
                if a > 0 {
                    assert(tokens[a] == rest[a - 1]);
                }
            }
            assert forall|p: int|
                i <= p < s.len() && char_kind(s[p]) != TokenKind::Ignore implies exists|k: int|
                0 <= k < tokens.len() && covers(#[trigger] tokens[k], p) by {
                if p == i {
                    assert(covers(tokens[0], p));
                } else {
                    let k = choose|k: int| 0 <= k < rest.len() && covers(#[trigger] rest[k], p);
                    assert(tokens[k + 1] == rest[k]);
                    assert(covers(tokens[k + 1], p));
                }
            }
        } else {
            assert(tokens == rest);
        }
    }
}

/// What the tokens of an input are: each is a maximal run of digits or a
/// single punctuation character of the input, they stand in the order of
/// the input without overlap, and every digit and every punctuation
/// character is covered by one of them.
pub proof fn lemma_scan_tokens(s: Seq<char>)
    ensures
        forall|k: int| 0 <= k < scan(s).len() ==> is_token_of(#[trigger] scan(s)[k], s),
        forall|a: int, b: int|
            0 <= a < b < scan(s).len() ==> (#[trigger] scan(s)[a]).index + scan(s)[a].text.len()
                <= (#[trigger] scan(s)[b]).index,
        forall|j: int|
            0 <= j < s.len() && char_kind(s[j]) != TokenKind::Ignore ==> exists|k: int|
                0 <= k < scan(s).len() && covers(#[trigger] scan(s)[k], j),
{
    lemma_scan_from_tokens(s, 0);
}

/// Up to a boundary the tokens are those of the input cut off there.
pub proof fn lemma_scan_split(s: Seq<char>, i: int, m: int)
    requires
        0 <= i <= m,
        is_boundary(s, m),
    ensures
        scan_from(s, i) == scan_from(s.take(m), i) + scan_from(s, m),
    decreases m - i,
{
    let head = s.take(m);
    if i == m {
        assert(scan_from(head, i) + scan_from(s, m) =~= scan_from(s, m));
    } else if is_digit(s[i]) {
        let j = run_end(s, i);
        lemma_run_end_bounds(s, i);
        if j > m {
            assert(is_digit(s[m - 1]));
            assert(is_digit(s[m]));
        }
        assert forall|k: int| i <= k < j implies is_digit(#[trigger] head[k]) by {
            assert(head[k] == s[k]);
        }
        lemma_run_end_is(head, i, j);
        assert(head.subrange(i, j) =~= s.subrange(i, j));
        lemma_scan_split(s, j, m);
        let first = TokenView { kind: TokenKind::Num, text: s.subrange(i, j), index: i };
        assert(scan_from(s, i) =~= seq![first] + scan_from(head, j) + scan_from(s, m));
        assert(scan_from(head, i) + scan_from(s, m) =~= seq![first] + scan_from(head, j)
            + scan_from(s, m));
    } else {
        lemma_scan_split(s, i + 1, m);
        if is_punctuation(s[i]) {
            let first = TokenView { kind: TokenKind::Punck, text: seq![s[i]], index: i };
            assert(scan_from(s, i) =~= seq![first] + scan_from(head, i + 1) + scan_from(s, m));
            assert(scan_from(head, i) + scan_from(s, m) =~= seq![first] + scan_from(head, i + 1)
                + scan_from(s, m));
        }
    }
}

/// A run of digits behind a prefix ends where it ends without the prefix.
pub proof fn lemma_run_end_shift(a: Seq<char>, b: Seq<char>, k: int)
    requires
        0 <= k <= b.len(),
    ensures
        run_end(a + b, a.len() + k) == a.len() + run_end(b, k),
    decreases b.len() - k,
{
    if k < b.len() {
        assert((a + b)[a.len() + k] == b[k]);
        if is_digit(b[k]) {
            lemma_run_end_shift(a, b, k + 1);
        }
    }
}

/// Behind a prefix the tokens are those of what follows it, moved up by the
/// length of the prefix.
pub proof fn lemma_scan_shift(a: Seq<char>, b: Seq<char>, k: int)
    requires
        0 <= k <= b.len(),
    ensures
        scan_from(a + b, a.len() + k) == shifted(scan_from(b, k), a.len() as int),
    decreases b.len() - k,
{
    let s = a + b;
    let n = a.len() as int;
    if k == b.len() {
        assert(scan_from(s, n + k) =~= shifted(scan_from(b, k), n));
    } else {
        assert(s[n + k] == b[k]);
        if is_digit(b[k]) {
            let j = run_end(b, k);
            lemma_run_end_bounds(b, k);
            lemma_run_end_shift(a, b, k);
            lemma_scan_shift(a, b, j);
            assert(s.subrange(n + k, n + j) =~= b.subrange(k, j));
            assert(scan_from(s, n + k) =~= shifted(scan_from(b, k), n));
        } else {
            lemma_scan_shift(a, b, k + 1);
            assert(scan_from(s, n + k) =~= shifted(scan_from(b, k), n));
        }
    }
}

/// The tokens of two inputs put together are the tokens of the first
/// followed by those of the second, unless a run of digits reaches across
/// the seam.
pub proof fn lemma_scan_concat(a: Seq<char>, b: Seq<char>)
    requires
        !(a.len() > 0 && b.len() > 0 && is_digit(a.last()) && is_digit(b.first())),
    ensures
        scan(a + b) == scan(a) + shifted(scan(b), a.len() as int),
{
    let s = a + b;
    assert(s.take(a.len() as int) =~= a);
    lemma_scan_split(s, 0, a.len() as int);
    lemma_scan_shift(a, b, 0);
}

/// Moving tokens changes neither their kinds nor their texts.
pub proof fn lemma_shifted_same_words(tokens: Seq<TokenView>, by: int, other: int)
    ensures
        same_words(shifted(tokens, by), shifted(tokens, other)),
        same_words(shifted(tokens, by), tokens),
{
}

/// A character that belongs to no token can be put in or taken out anywhere
/// but inside a run of digits, and the tokens say the same: they are those in
/// front of the place, followed by those behind it moved by one position.
pub proof fn lemma_scan_separator(a: Seq<char>, c: char, b: Seq<char>)
    requires
        char_kind(c) == TokenKind::Ignore,
        !(a.len() > 0 && b.len() > 0 && is_digit(a.last()) && is_digit(b.first())),
    ensures
        scan(a + seq![c] + b) == scan(a) + shifted(scan(b), a.len() as int + 1),
        scan(a + b) == scan(a) + shifted(scan(b), a.len() as int),
        same_words(scan(a + seq![c] + b), scan(a + b)),
{
    let with = a + seq![c] + b;
    let front = a + seq![c];
    lemma_scan_concat(a, b);
    lemma_scan_concat(front, b);
    lemma_scan_concat(a, seq![c]);
    assert(scan(seq![c]) =~= Seq::empty()) by {
        assert(scan_from(seq![c], 1) =~= Seq::empty());
    }
    assert(scan(front) =~= scan(a));
    let x = scan(with);
    let y = scan(a + b);
    assert(x.len() == y.len());
    assert forall|i: int| 0 <= i < x.len() implies (#[trigger] x[i]).kind == y[i].kind
        && x[i].text == y[i].text by {
        if i >= scan(a).len() {
            let j = i - scan(a).len();
            assert(x[i] == shifted(scan(b), a.len() as int + 1)[j]);
            assert(y[i] == shifted(scan(b), a.len() as int)[j]);
        }
    }
}

/// An input of digits alone is one number.
pub proof fn lemma_scan_digits(s: Seq<char>)
    requires
        s.len() > 0,
        forall|k: int| 0 <= k < s.len() ==> is_digit(#[trigger] s[k]),
    ensures
        scan(s) == seq![TokenView { kind: TokenKind::Num, text: s, index: 0 }],
{
    lemma_scan_number(s, 0, s.len() as int);
    assert(s.subrange(0, s.len() as int) =~= s);
    assert(scan_from(s, s.len() as int) =~= Seq::empty());
}

/// An input that ends in a run of digits has that run as its last token.
pub proof fn lemma_scan_trailing_number(s: Seq<char>, i: int)
    requires
        0 <= i < s.len(),
        is_boundary(s, i),
        forall|k: int| i <= k < s.len() ==> is_digit(#[trigger] s[k]),
    ensures
        scan(s) == scan(s.take(i)).push(
            TokenView { kind: TokenKind::Num, text: s.subrange(i, s.len() as int), index: i },
        ),
{
    lemma_scan_split(s, 0, i);
    lemma_scan_number(s, i, s.len() as int);
    assert(scan_from(s, s.len() as int) =~= Seq::empty());
    assert(scan(s) =~= scan(s.take(i)).push(
        TokenView { kind: TokenKind::Num, text: s.subrange(i, s.len() as int), index: i },
    ));
}

/// The class of a character.
pub fn classify(ch: char) -> (kind: TokenKind)
    ensures
        kind == char_kind(ch),
{
    if '0' <= ch && ch <= '9' {
        TokenKind::Num
    } else if ch == '+' || ch == '-' || ch == '*' || ch == '/' || ch == '(' || ch == ')' {
        TokenKind::Punck
    } else {
        TokenKind::Ignore
    }
}

/// A whole run of digits is the next token.
pub proof fn lemma_scan_number(s: Seq<char>, i: int, j: int)
    requires
        0 <= i < j <= s.len(),
        forall|k: int| i <= k < j ==> is_digit(#[trigger] s[k]),
        j < s.len() ==> !is_digit(s[j]),
    ensures
        scan_from(s, i) == seq![
            TokenView { kind: TokenKind::Num, text: s.subrange(i, j), index: i },
        ] + scan_from(s, j),
{
    lemma_run_end_is(s, i, j);
}

/// Splits an expression into its tokens in one pass from left to right:
/// its maximal runs of digits and its punctuation characters, in the order
/// in which they stand.
///
/// The pass keeps the class of the token that is being read and the
/// characters matched so far. A digit run is closed by the first character of
/// another class, a punctuation character by whatever follows it, and the
/// token that is still open when the input ends is closed there.
pub fn tokenize(strings: &str) -> (tokens: Vec<Token>)
    ensures
        tokens.deep_view() == scan(strings@),
        forall|k: int| 0 <= k < tokens.len() ==> is_token_of(#[trigger] tokens[k]@, strings@),
{
    let count = strings.unicode_len();
    let mut tokens: Vec<Token> = Vec::new();
    let mut token_kind_old = TokenKind::Ignore;
    let mut token_value = String::new();
    let mut start: usize = 0;
    let mut index: usize = 0;
    assert(tokens.deep_view() + scan(strings@) =~= scan(strings@));
    for ch in iter: strings.chars()
        invariant
            iter.seq() == strings@,
            count == strings@.len(),
            index == iter.index(),
            start <= index,
            token_kind_old == TokenKind::Ignore ==> token_value@.len() == 0,
            token_kind_old == TokenKind::Punck ==> start + 1 == index && is_punctuation(
                strings@[start as int],
            ),
            token_kind_old == TokenKind::Num ==> start < index && forall|k: int|
                start <= k < index ==> is_digit(#[trigger] strings@[k]),
            token_kind_old != TokenKind::Ignore ==> token_value@ == strings@.subrange(
                start as int,
                index as int,
            ),
            scan(strings@) == tokens.deep_view() + scan_from(
                strings@,
                if token_kind_old == TokenKind::Ignore {
                    index as int
                } else {
                    start as int
                },
            ),
    {
        assert(index < count);
        assert(ch == strings@[index as int]);
        let token_kind = classify(ch);
        if token_kind_old != token_kind || token_kind_old == TokenKind::Punck {
            if token_kind_old != TokenKind::Ignore {
                let ghost before = tokens.deep_view();
                let token = Token { kind: token_kind_old, value: token_value, index: start };
                proof {
                    if token_kind_old == TokenKind::Num {
                        lemma_scan_number(strings@, start as int, index as int);
                    } else {
                        assert(token@.text =~= seq![strings@[start as int]]);
                    }
                    assert(scan_from(strings@, start as int) == seq![token@] + scan_from(
                        strings@,
                        index as int,
                    ));
                }
                tokens.push(token);
                assert(tokens.deep_view() =~= before.push(token@));
                assert(scan(strings@) =~= tokens.deep_view() + scan_from(strings@, index as int));
                token_value = String::new();
            }
            token_kind_old = token_kind;
            start = index;
        }
        if token_kind != TokenKind::Ignore {
            token_value.push(ch);
            assert(token_value@ =~= strings@.subrange(start as int, index + 1));
        }
        index = index + 1;
    }
    if token_kind_old != TokenKind::Ignore {
        let ghost before = tokens.deep_view();
        let token = Token { kind: token_kind_old, value: token_value, index: start };
        proof {
            if token_kind_old == TokenKind::Num {
                lemma_scan_number(strings@, start as int, index as int);
            } else {
                assert(token@.text =~= seq![strings@[start as int]]);
            }
            assert(scan_from(strings@, start as int) == seq![token@] + scan_from(
                strings@,
                index as int,
            ));
        }
        tokens.push(token);
        assert(tokens.deep_view() =~= before.push(token@));
        assert(scan(strings@) =~= tokens.deep_view() + scan_from(strings@, index as int));
    }
    assert(scan(strings@) =~= tokens.deep_view());
    proof {
        lemma_scan_tokens(strings@);
        assert forall|k: int| 0 <= k < tokens.len() implies is_token_of(
            #[trigger] tokens[k]@,
            strings@,
        ) by {
            assert(tokens[k]@ == tokens.deep_view()[k]);
        }
    }
    tokens
}

} // verus!
