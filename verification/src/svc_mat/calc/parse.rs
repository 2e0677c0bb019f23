use vstd::prelude::*;

use super::eval::{EvalError, MathError, is_binary_tree, lemma_binary_tree_counts_operands, spec_eval};
use super::expression::{Expression, ExpressionTreeNode, Operator, Tree};

verus! {

/// Why a parse cannot produce an expression tree.
#[derive(Debug, PartialEq, Eq, Clone, Copy, Structural)]
pub enum ParseError {
    /// The parser needed a character past the last one of the input.
    EndOfInput,
    /// A character that starts neither a number nor an operator.
    UnexpectedCharacter(char),
    /// A run of numeric characters that is not an `i32` in decimal.
    InvalidNumber,
    /// An operator whose operand is missing.
    MissingOperand,
}

/// The two classes of characters the parser skips over.
pub enum CharClass {
    WhiteSpace,
    Numeric,
}

/// What parsing from a column gives: nothing (the column is the end of the
/// input), a tree and the column after it, or a failure.
pub enum ParseStep {
    End,
    Node(Tree, int),
    Failed(ParseError),
}

/// The Unicode `White_Space` property.
pub open spec fn is_white_space(c: char) -> bool {
    ||| '\u{9}' <= c <= '\u{d}'
    ||| c == ' '
    ||| c == '\u{85}'
    ||| c == '\u{a0}'
    ||| c == '\u{1680}'
    ||| '\u{2000}' <= c <= '\u{200a}'
    ||| c == '\u{2028}'
    ||| c == '\u{2029}'
    ||| c == '\u{202f}'
    ||| c == '\u{205f}'
    ||| c == '\u{3000}'
}

/// Whether a character outside ASCII has one of Unicode's general categories
/// for numbers (`Nd`, `Nl`, `No`), as `char::is_numeric` reports it.
pub uninterp spec fn non_ascii_numeric(c: char) -> bool;

/// What `char::is_numeric` reports: among ASCII characters exactly the decimal
/// digits are numeric.
pub open spec fn char_is_numeric(c: char) -> bool {
    if (c as u32) < 128 {
        is_ascii_digit(c)
    } else {
        non_ascii_numeric(c)
    }
}

pub open spec fn is_ascii_digit(c: char) -> bool {
    '0' <= c <= '9'
}

pub open spec fn in_class(k: CharClass, c: char) -> bool {
    match k {
        CharClass::WhiteSpace => is_white_space(c),
        CharClass::Numeric => char_is_numeric(c),
    }
}

/// The value of a sequence of decimal digits.
pub open spec fn decimal_value(ds: Seq<char>) -> int
    decreases ds.len(),
{
    if ds.len() == 0 {
        0
    } else {
        10 * decimal_value(ds.drop_last()) + (ds.last() as int - '0' as int)
    }
}

/// A nonempty sequence of ASCII digits and its value.
pub open spec fn digits_value(ds: Seq<char>) -> Option<int> {
    if ds.len() > 0 && forall|i: int| 0 <= i < ds.len() ==> is_ascii_digit(#[trigger] ds[i]) {
        Some(decimal_value(ds))
    } else {
        None
    }
}

/// What `str::parse::<i32>` gives: an optional `+` or `-` followed by decimal
/// digits only, whose value fits in an `i32`.
pub open spec fn i32_from_decimal(s: Seq<char>) -> Option<i32> {
    let signed = s.len() > 0 && (s[0] == '+' || s[0] == '-');
    let digits = if signed {
        s.drop_first()
    } else {
        s
    };
    match digits_value(digits) {
        None => None,
        Some(v) => {
            let x = if signed && s[0] == '-' {
                -v
            } else {
                v
            };
            if i32::MIN <= x <= i32::MAX {
                Some(x as i32)
            } else {
                None
            }
        },
    }
}

/// Where taking the characters of class `k` from column `c` stops: at the end
/// of the input or before the first character outside the class.
pub open spec fn scan(s: Seq<char>, c: int, k: CharClass) -> int
    decreases s.len() - c,
{
    if !(0 <= c < s.len()) {
        c
    } else if in_class(k, s[c]) {
        scan(s, c + 1, k)
    } else {
        c
    }
}

pub open spec fn operator_of(c: char) -> Option<Operator> {
    if c == '+' {
        Some(Operator::Add)
    } else if c == '-' {
        Some(Operator::Sub)
    } else if c == '*' {
        Some(Operator::Mul)
    } else if c == '/' {
        Some(Operator::Div)
    } else {
        None
    }
}

pub proof fn lemma_scan_bounds(s: Seq<char>, c: int, k: CharClass)
    requires
        0 <= c <= s.len(),
    ensures
        c <= scan(s, c, k) <= s.len(),
        forall|j: int| c <= j < scan(s, c, k) ==> in_class(k, #[trigger] s[j]),
        scan(s, c, k) == s.len() || !in_class(k, s[scan(s, c, k)]),
    decreases s.len() - c,
{
    if c < s.len() && in_class(k, s[c]) {
        lemma_scan_bounds(s, c + 1, k);
    }
}

/// A scan stops at the first column past `c` that is the end of the input or
/// holds a character outside the class.
pub proof fn lemma_scan_exact(s: Seq<char>, c: int, d: int, k: CharClass)
    requires
        0 <= c <= d <= s.len(),
        forall|j: int| c <= j < d ==> in_class(k, #[trigger] s[j]),
        d == s.len() || !in_class(k, s[d]),
    ensures
        scan(s, c, k) == d,
    decreases d - c,
{
    if c < d {
        lemma_scan_exact(s, c + 1, d, k);
    }
}

/// Prefix notation: a number, or an operator followed by its two operands,
/// with white space skipped before each of them.
pub open spec fn parse_at(s: Seq<char>, c: int) -> ParseStep
    decreases s.len() - c,
{
    if c == s.len() {
        ParseStep::End
    } else if !(0 <= c < s.len()) {
        ParseStep::Failed(ParseError::EndOfInput)
    } else {
        let c1 = scan(s, c, CharClass::WhiteSpace);
        if !(c <= c1 < s.len()) {
            ParseStep::Failed(ParseError::EndOfInput)
        } else if char_is_numeric(s[c1]) {
            let c2 = scan(s, c1, CharClass::Numeric);
            match i32_from_decimal(s.subrange(c1, c2)) {
                Some(v) => ParseStep::Node(Tree::Val(v), c2),
                None => ParseStep::Failed(ParseError::InvalidNumber),
            }
        } else {
            match operator_of(s[c1]) {
                None => ParseStep::Failed(ParseError::UnexpectedCharacter(s[c1])),
                Some(op) => match parse_at(s, c1 + 1) {
                    ParseStep::Node(left, c3) => {
                        // Every tree takes at least one character, so the guard
                        // below always holds.
                        if c < c3 <= s.len() {
                            match parse_at(s, c3) {
                                ParseStep::Node(right, c4) => ParseStep::Node(
                                    Tree::Expr(op, seq![left, right]),
                                    c4,
                                ),
                                ParseStep::End => ParseStep::Failed(ParseError::MissingOperand),
                                ParseStep::Failed(e) => ParseStep::Failed(e),
                            }
                        } else {
                            ParseStep::Failed(ParseError::MissingOperand)
                        }
                    },
                    ParseStep::End => ParseStep::Failed(ParseError::MissingOperand),
                    ParseStep::Failed(e) => ParseStep::Failed(e),
                },
            }
        }
    }
}

/// A parse that succeeds moves past at least one character and stays within
/// the input.
pub proof fn lemma_parse_at_advances(s: Seq<char>, c: int)
    ensures
        parse_at(s, c) matches ParseStep::Node(_, c2) ==> c < c2 <= s.len(),
    decreases s.len() - c,
{
    if 0 <= c < s.len() {
        lemma_scan_bounds(s, c, CharClass::WhiteSpace);
        let c1 = scan(s, c, CharClass::WhiteSpace);
        if c1 < s.len() {
            if char_is_numeric(s[c1]) {
                lemma_scan_bounds(s, c1, CharClass::Numeric);
            } else if operator_of(s[c1]) is Some {
                lemma_parse_at_advances(s, c1 + 1);
                if let ParseStep::Node(_, c3) = parse_at(s, c1 + 1) {
                    lemma_parse_at_advances(s, c3);
                }
            }
        }
    }
}

/// The parser builds operator nodes with exactly two operands.
pub proof fn lemma_parse_at_binary(s: Seq<char>, c: int)
    ensures
        parse_at(s, c) matches ParseStep::Node(t, _) ==> is_binary_tree(t),
    decreases s.len() - c,
{
    if 0 <= c < s.len() {
        lemma_scan_bounds(s, c, CharClass::WhiteSpace);
        let c1 = scan(s, c, CharClass::WhiteSpace);
        if c1 < s.len() && !char_is_numeric(s[c1]) && operator_of(s[c1]) is Some {
            lemma_parse_at_binary(s, c1 + 1);
            if let ParseStep::Node(_, c3) = parse_at(s, c1 + 1) {
                if c < c3 <= s.len() {
                    lemma_parse_at_binary(s, c3);
                }
            }
        }
    }
}

/// An expression that parses is never refused for its operand count,
/// whatever the operator servers answer.
pub proof fn theorem_parsed_expression_counts_operands(
    s: Seq<char>,
    reachable: spec_fn(Operator) -> bool,
    answer: spec_fn(Operator, i32, i32) -> Option<i32>,
)
    ensures
        parse_at(s, 0) matches ParseStep::Node(t, _) ==> !(spec_eval(t, reachable, answer) matches Err(
            EvalError::Math(MathError::InvalidOperandCount { .. }),
        )),
{
    lemma_parse_at_binary(s, 0);
    if let ParseStep::Node(t, _) = parse_at(s, 0) {
        lemma_binary_tree_counts_operands(t, reachable, answer);
    }
}

/// Parses a prefix expression, such as `+ 1 - 3 4`. Gives `None` for an
/// empty input.
pub fn parse(source: &str) -> (r: Option<ExpressionTreeNode>)
    requires
        !(parse_at(source@, 0) is Failed),
    ensures
        match parse_at(source@, 0) {
            ParseStep::End => r is None,
            ParseStep::Node(t, _) => r matches Some(n) && n.tree() == t,
            ParseStep::Failed(_) => false,
        },
{
    let mut parser = Parser::new(source);
    parser.parse()
}

/// Parses like `parse`, and reports the inputs on which `parse` cannot
/// produce a tree instead of needing them to be left out.
pub fn try_parse(source: &str) -> (r: Result<Option<ExpressionTreeNode>, ParseError>)
    ensures
        match parse_at(source@, 0) {
            ParseStep::End => r == Ok::<Option<ExpressionTreeNode>, ParseError>(None),
            ParseStep::Node(t, _) => r matches Ok(Some(n)) && n.tree() == t,
            ParseStep::Failed(e) => r == Err::<Option<ExpressionTreeNode>, ParseError>(e),
        },
{
    let mut probe = Parser::new(source);
    match probe.parse_node() {
        Err(e) => Err(e),
        Ok(_) => Ok(parse(source)),
    }
}

/// A prefix-expression parser over a source text and a column in it.
pub struct Parser {
    // col is 0-indexed and counts characters
    col: usize,
    input: String,
}

impl Parser {
    #[verifier::type_invariant]
    spec fn col_in_input(&self) -> bool {
        self.col <= self.input@.len()
    }

    /// The text being parsed.
    pub closed spec fn source(&self) -> Seq<char> {
        self.input@
    }

    /// The column the next parse starts at.
    pub closed spec fn pos(&self) -> int {
        self.col as int
    }

    pub fn new(source: &str) -> (r: Self)
        ensures
            r.source() == source@,
            r.pos() == 0,
    {
        Self { col: 0, input: source.to_owned() }
    }

    /// Parses one expression from the current column on.
    pub fn parse(&mut self) -> (r: Option<ExpressionTreeNode>)
        requires
            !(parse_at(old(self).source(), old(self).pos()) is Failed),
        ensures
            final(self).source() == old(self).source(),
            match parse_at(old(self).source(), old(self).pos()) {
                ParseStep::End => r is None && final(self).pos() == old(self).pos(),
                ParseStep::Node(t, c) => r matches Some(n) && n.tree() == t && final(self).pos()
                    == c,
                ParseStep::Failed(_) => false,
            },
    {
        match self.parse_node() {
            Ok(r) => r,
            Err(_) => {
                proof {
                    assert(false);
                }
                None
            },
        }
    }

    /// Parses one expression from the current column on, and reports where
    /// `parse` cannot produce a tree.
    fn parse_node(&mut self) -> (r: Result<Option<ExpressionTreeNode>, ParseError>)
        ensures
            final(self).input@ == old(self).input@,
            match parse_at(old(self).input@, old(self).col as int) {
                ParseStep::End => r == Ok::<Option<ExpressionTreeNode>, ParseError>(None)
                    && final(self).col == old(self).col,
                ParseStep::Node(t, c) => r matches Ok(Some(n)) && n.tree() == t
                    && final(self).col == c,
                ParseStep::Failed(e) => r == Err::<Option<ExpressionTreeNode>, ParseError>(e),
            },
        decreases old(self).input@.len() - old(self).col,
    {
        proof {
            use_type_invariant(&*self);
        }
        let ghost s = self.input@;
        let ghost c = self.col as int;
        if self.is_eol() {
            return Ok(None);
        }
        // Skip white space
        let _ = self.take_while(is_whitespace);
        let c1 = self.col;
        proof {
            lemma_scan_exact(s, c, c1 as int, CharClass::WhiteSpace);
        }
        if self.is_eol() {
            return Err(ParseError::EndOfInput);
        }
        if is_numeric(self.peek()) {
            let number = self.take_while(is_numeric);
            proof {
                lemma_scan_exact(s, c1 as int, self.col as int, CharClass::Numeric);
            }
            match parse_i32(number.as_str()) {
                Some(v) => Ok(Some(ExpressionTreeNode::Val(v))),
                None => Err(ParseError::InvalidNumber),
            }
        } else {
            let maybe_operator = self.take();
            let operator = match maybe_operator {
                '+' => Operator::Add,
                '-' => Operator::Sub,
                '*' => Operator::Mul,
                '/' => Operator::Div,
                _ => {
                    return Err(ParseError::UnexpectedCharacter(maybe_operator));
                },
            };
            let left = match self.parse_node() {
                Ok(Some(node)) => node,
                Ok(None) => {
                    return Err(ParseError::MissingOperand);
                },
                Err(e) => {
                    return Err(e);
                },
            };
            proof {
                lemma_parse_at_advances(s, c1 + 1);
            }
            let right = match self.parse_node() {
                Ok(Some(node)) => node,
                Ok(None) => {
                    return Err(ParseError::MissingOperand);
                },
                Err(e) => {
                    return Err(e);
                },
            };
            let ghost lt = left.tree();
            let ghost rt = right.tree();
            let children = vec![left, right];
            let node = ExpressionTreeNode::Expr(Expression { operator, children });
            assert(node.tree()->Expr_1 =~= seq![lt, rt]);
            assert(node.tree() == Tree::Expr(operator, seq![lt, rt]));
            Ok(Some(node))
        }
    }

    /// Whether the column has reached the end of the input, counted in
    /// characters.
    fn is_eol(&self) -> (r: bool)
        ensures
            r == (self.col == self.input@.len()),
    {
        self.col == self.input.as_str().unicode_len()
    }

    /// The character at the column. The end-of-line check keeps the column
    /// within the input.
    fn peek(&self) -> (r: char)
        requires
            self.col != self.input@.len(),
        ensures
            r == self.input@[self.col as int],
    {
        proof {
            use_type_invariant(self);
        }
        self.input.as_str().get_char(self.col)
    }

    fn take(&mut self) -> (r: char)
        requires
            old(self).col != old(self).input@.len(),
        ensures
            r == old(self).input@[old(self).col as int],
            final(self).input@ == old(self).input@,
            final(self).col == old(self).col + 1,
    {
        proof {
            use_type_invariant(&*self);
        }
        let ret = self.input.as_str().get_char(self.col);
        let n = self.input.as_str().unicode_len();
        assert(self.col < n);
        self.col = self.col + 1;
        ret
    }

    /// Takes the characters that pass `test` from the current column on: the
    /// column stops at the end of the input or at the first character that
    /// fails the test.
    fn take_while(&mut self, test: impl Fn(char) -> bool) -> (ret: String)
        requires
            forall|ch: char| call_requires(test, (ch,)),
        ensures
            final(self).input@ == old(self).input@,
            old(self).col <= final(self).col <= old(self).input@.len(),
            forall|j: int|
                old(self).col <= j < final(self).col ==> call_ensures(
                    test,
                    (#[trigger] old(self).input@[j],),
                    true,
                ),
            final(self).col == old(self).input@.len() || call_ensures(
                test,
                (old(self).input@[final(self).col as int],),
                false,
            ),
            ret@ == old(self).input@.subrange(old(self).col as int, final(self).col as int),
    {
        proof {
            use_type_invariant(&*self);
        }
        let ghost s = self.input@;
        let start = self.col;
        loop
            invariant
                forall|ch: char| call_requires(test, (ch,)),
                self.input@ == s,
                start <= self.col <= s.len(),
                forall|j: int| start <= j < self.col ==> call_ensures(test, (#[trigger] s[j],), true),
            ensures
                self.col == s.len() || call_ensures(test, (s[self.col as int],), false),
            decreases s.len() - self.col,
        {
            proof {
                use_type_invariant(&*self);
            }
            if self.is_eol() {
                break;
            }
            let ch = self.peek();
            if !test(ch) {
                break;
            }
            self.take();
        }
        self.input.as_str().substring_char(start, self.col).to_owned()
    }
}

/// Whether `c` has Unicode's `White_Space` property, which is what
/// `char::is_whitespace` reports.
fn is_whitespace(c: char) -> (r: bool)
    ensures
        r == is_white_space(c),
{
    ('\u{9}' <= c && c <= '\u{d}') || c == ' ' || c == '\u{85}' || c == '\u{a0}' || c
        == '\u{1680}' || ('\u{2000}' <= c && c <= '\u{200a}') || c == '\u{2028}' || c
        == '\u{2029}' || c == '\u{202f}' || c == '\u{205f}' || c == '\u{3000}'
}

/// Calls `char::is_numeric`, which is believed to report, among ASCII
/// characters, exactly the decimal digits, and outside ASCII what
/// `non_ascii_numeric` names.
#[verifier::external_body]
fn is_numeric(c: char) -> (r: bool)
    ensures
        (c as u32) < 128 ==> r == is_ascii_digit(c),
        (c as u32) >= 128 ==> r == non_ascii_numeric(c),
{
    c.is_numeric()
}

/// Calls `str::parse::<i32>`, which is believed to succeed exactly on an
/// optional `+` or `-` followed by decimal digits whose value fits in an
/// `i32`, and to give that value.
#[verifier::external_body]
fn parse_i32(s: &str) -> (r: Option<i32>)
    ensures
        r == i32_from_decimal(s@),
{
    s.parse::<i32>().ok()
}

} // verus!
