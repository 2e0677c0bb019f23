use dist_rust_buted::svc_mat::calc::expression::{Expression, ExpressionTreeNode, Operator};
use dist_rust_buted::svc_mat::calc::parse::{parse, try_parse, ParseError, Parser};

#[test]
fn it_parses() {
    let input = "+ 1 - 3 4";
    let res = parse(input);

    assert!(res.is_some());

    let res = res.unwrap();
    assert_eq!(
        res,
        ExpressionTreeNode::Expr(Expression {
            operator: Operator::Add,
            children: vec![
                ExpressionTreeNode::Val(1),
                ExpressionTreeNode::Expr(Expression {
                    operator: Operator::Sub,
                    children: vec![ExpressionTreeNode::Val(3), ExpressionTreeNode::Val(4)]
                })
            ]
        })
    );
}

#[test]
fn empty_input_parses_to_nothing() {
    assert_eq!(parse(""), None);
    assert_eq!(try_parse(""), Ok(None));
}

#[test]
fn a_number_alone_is_a_value() {
    assert_eq!(parse("42"), Some(ExpressionTreeNode::Val(42)));
    assert_eq!(parse("   7"), Some(ExpressionTreeNode::Val(7)));
}

#[test]
fn what_follows_a_complete_expression_is_left_alone() {
    assert_eq!(parse("1 2"), Some(ExpressionTreeNode::Val(1)));
    let mut parser = Parser::new("* 2 3 / 8 4");
    let first = parser.parse();
    assert_eq!(
        first,
        Some(ExpressionTreeNode::Expr(Expression {
            operator: Operator::Mul,
            children: vec![ExpressionTreeNode::Val(2), ExpressionTreeNode::Val(3)],
        }))
    );
    let second = parser.parse();
    assert_eq!(
        second,
        Some(ExpressionTreeNode::Expr(Expression {
            operator: Operator::Div,
            children: vec![ExpressionTreeNode::Val(8), ExpressionTreeNode::Val(4)],
        }))
    );
    assert_eq!(parser.parse(), None);
}

#[test]
fn every_operator_is_recognised() {
    for (text, op) in [
        ("+ 1 2", Operator::Add),
        ("- 1 2", Operator::Sub),
        ("* 1 2", Operator::Mul),
        ("/ 1 2", Operator::Div),
    ] {
        assert_eq!(
            parse(text),
            Some(ExpressionTreeNode::Expr(Expression {
                operator: op,
                children: vec![ExpressionTreeNode::Val(1), ExpressionTreeNode::Val(2)],
            }))
        );
    }
}

#[test]
fn operands_need_no_spaces_between_operator_and_number() {
    assert_eq!(
        parse("+1 23"),
        Some(ExpressionTreeNode::Expr(Expression {
            operator: Operator::Add,
            children: vec![ExpressionTreeNode::Val(1), ExpressionTreeNode::Val(23)],
        }))
    );
}

#[test]
fn unicode_white_space_is_skipped() {
    assert_eq!(
        parse("\t+\n1\u{3000}2"),
        Some(ExpressionTreeNode::Expr(Expression {
            operator: Operator::Add,
            children: vec![ExpressionTreeNode::Val(1), ExpressionTreeNode::Val(2)],
        }))
    );
}

#[test]
fn largest_and_too_large_numbers() {
    assert_eq!(parse("2147483647"), Some(ExpressionTreeNode::Val(2147483647)));
    assert_eq!(try_parse("2147483648"), Err(ParseError::InvalidNumber));
}

#[test]
fn a_missing_operand_is_reported() {
    assert_eq!(try_parse("+ 1"), Err(ParseError::MissingOperand));
    assert_eq!(try_parse("-"), Err(ParseError::MissingOperand));
}

#[test]
fn trailing_white_space_where_an_operand_is_due_reads_past_the_end() {
    assert_eq!(try_parse("+ 1 "), Err(ParseError::EndOfInput));
    assert_eq!(try_parse("   "), Err(ParseError::EndOfInput));
}

#[test]
fn an_unexpected_character_is_reported() {
    assert_eq!(try_parse("x"), Err(ParseError::UnexpectedCharacter('x')));
    assert_eq!(try_parse("+ 1 ?"), Err(ParseError::UnexpectedCharacter('?')));
    assert_eq!(try_parse("é"), Err(ParseError::UnexpectedCharacter('é')));
}

#[test]
fn non_ascii_numerals_are_numeric_but_not_decimal() {
    // '²' and '٣' are numeric characters that `i32` parsing does not accept.
    assert_eq!(try_parse("+ 1 ²3 4"), Err(ParseError::InvalidNumber));
    assert_eq!(try_parse("+ 1 ٣ 4"), Err(ParseError::InvalidNumber));
    assert_eq!(try_parse("+ 1 ²"), Err(ParseError::InvalidNumber));
}

#[test]
fn the_end_of_a_non_ascii_input_is_counted_in_characters() {
    assert_eq!(try_parse("\u{3000}2"), Ok(Some(ExpressionTreeNode::Val(2))));
    assert_eq!(try_parse("\u{3000}1"), Ok(Some(ExpressionTreeNode::Val(1))));
    assert_eq!(
        parse("+\u{a0}1\u{2003}2"),
        Some(ExpressionTreeNode::Expr(Expression {
            operator: Operator::Add,
            children: vec![ExpressionTreeNode::Val(1), ExpressionTreeNode::Val(2)],
        }))
    );
    assert_eq!(try_parse("+ 1\u{3000}"), Err(ParseError::EndOfInput));
}

#[test]
fn try_parse_agrees_with_parse() {
    for text in ["+ 1 - 3 4", "", "  12", "/ * 10 - 20 + 5 10 5"] {
        assert_eq!(try_parse(text), Ok(parse(text)));
    }
}

#[test]
fn every_operator_is_binary() {
    for op in [Operator::Add, Operator::Div, Operator::Mul, Operator::Sub] {
        assert!(op.is_binary());
    }
}

#[test]
fn white_space_is_what_unicode_calls_white_space() {
    for space in ["\u{85}", "\u{a0}", "\u{1680}", "\u{2000}", "\u{200a}", "\u{2028}", "\u{202f}", "\u{205f}", "\u{b}", "\u{c}", "\r"] {
        let text = format!("{}1 ", space);
        assert_eq!(parse(&text), Some(ExpressionTreeNode::Val(1)), "{:?}", space);
    }
    // A zero-width space is not white space.
    assert_eq!(try_parse("\u{200b}1"), Err(ParseError::UnexpectedCharacter('\u{200b}')));
}

#[test]
fn a_printed_tree_parses_back_to_itself() {
    let tree = ExpressionTreeNode::Expr(Expression {
        operator: Operator::Mul,
        children: vec![
            ExpressionTreeNode::Val(2147483647),
            ExpressionTreeNode::Expr(Expression {
                operator: Operator::Div,
                children: vec![ExpressionTreeNode::Val(0), ExpressionTreeNode::Val(105)],
            }),
        ],
    });
    let mut parser = Parser::new("* 2147483647 / 0 105");
    assert_eq!(parser.parse(), Some(tree));
    assert_eq!(parser.parse(), None);
}

#[test]
fn extra_white_space_between_tokens_changes_nothing() {
    let plain = parse("+ 1 - 3 4");
    assert_eq!(parse("  + 1 - 3 4"), plain);
    assert_eq!(parse("+   1 -\t3 4"), plain);
    assert_eq!(parse("+ 1 - \n\r 3 \u{2003}4"), plain);
    assert_eq!(parse("+1 -3 4"), plain);
}
