//! Prefix notation as text: how a tree is written, and the laws that tie
//! the parser to it.

use vstd::prelude::*;

use super::expression::{Operator, Tree};
use super::parse::{
    CharClass, ParseStep, char_is_numeric, decimal_value, i32_from_decimal, in_class,
    is_ascii_digit, is_white_space, lemma_parse_at_advances, lemma_scan_bounds, lemma_scan_exact,
    operator_of, parse_at, scan,
};

verus! {

/// The character of a decimal digit.
pub open spec fn digit_char(d: int) -> char {
    if d == 0 {
        '0'
    } else if d == 1 {
        '1'
    } else if d == 2 {
        '2'
    } else if d == 3 {
        '3'
    } else if d == 4 {
        '4'
    } else if d == 5 {
        '5'
    } else if d == 6 {
        '6'
    } else if d == 7 {
        '7'
    } else if d == 8 {
        '8'
    } else {
        '9'
    }
}

/// A natural number in decimal, without leading zeros.
pub open spec fn decimal(n: nat) -> Seq<char>
    decreases n,
{
    if n < 10 {
        seq![digit_char(n as int)]
    } else {
        decimal(n / 10).push(digit_char((n % 10) as int))
    }
}

/// The character that stands for an operator.
pub open spec fn symbol(op: Operator) -> char {
    match op {
        Operator::Add => '+',
        Operator::Sub => '-',
        Operator::Mul => '*',
        Operator::Div => '/',
    }
}

/// A tree written in prefix notation: a number as `i32`'s `to_string` writes
/// it, an operator node as its symbol, a space, its first operand, a space
/// and its second operand.
pub open spec fn show(t: Tree) -> Seq<char>
    decreases t,
{
    match t {
        Tree::Val(v) => if v >= 0 {
            decimal(v as nat)
        } else {
            seq!['-'] + decimal((-v) as nat)
        },
        Tree::Expr(op, cs) => if cs.len() == 2 {
            seq![symbol(op), ' '] + show(cs[0]) + seq![' '] + show(cs[1])
        } else {
            seq![symbol(op)]
        },
    }
}

/// A tree whose operator nodes have two operands and whose numbers are not
/// negative.
pub open spec fn printable(t: Tree) -> bool
    decreases t,
{
    match t {
        Tree::Val(v) => v >= 0,
        Tree::Expr(_, cs) => cs.len() == 2 && printable(cs[0]) && printable(cs[1]),
    }
}

proof fn lemma_decimal(n: nat)
    ensures
        decimal(n).len() >= 1,
        forall|i: int| 0 <= i < decimal(n).len() ==> is_ascii_digit(#[trigger] decimal(n)[i]),
        decimal_value(decimal(n)) == n,
    decreases n,
{
    let ds = decimal(n);
    if n >= 10 {
        lemma_decimal(n / 10);
        assert(ds.drop_last() =~= decimal(n / 10));
        assert(n == 10 * (n / 10) + n % 10);
        assert(ds.last() as int - '0' as int == n % 10);
        assert(decimal_value(ds) == 10 * decimal_value(ds.drop_last()) + (ds.last() as int
            - '0' as int));
    } else {
        assert(ds.drop_last() =~= Seq::<char>::empty());
        assert(ds.last() as int - '0' as int == n);
        assert(decimal_value(ds) == 10 * decimal_value(ds.drop_last()) + (ds.last() as int
            - '0' as int));
        assert(decimal_value(ds.drop_last()) == 0);
    }
}

/// A natural number written in decimal reads back as itself.
proof fn lemma_decimal_reads_back(n: nat)
    requires
        n <= i32::MAX,
    ensures
        i32_from_decimal(decimal(n)) == Some(n as i32),
{
    lemma_decimal(n);
    let ds = decimal(n);
    assert(ds[0] != '+' && ds[0] != '-') by {
        assert(is_ascii_digit(ds[0]));
    }
}

/// Whether every character of `w` is white space.
pub open spec fn all_white(w: Seq<char>) -> bool {
    forall|i: int| 0 <= i < w.len() ==> is_white_space(#[trigger] w[i])
}

/// A tree written in prefix notation with `g1` after each operator symbol and
/// `g2` between the two operands of each operator node.
pub open spec fn show_spaced(t: Tree, g1: Seq<char>, g2: Seq<char>) -> Seq<char>
    decreases t,
{
    match t {
        Tree::Val(v) => show(t),
        Tree::Expr(op, cs) => if cs.len() == 2 {
            seq![symbol(op)] + g1 + show_spaced(cs[0], g1, g2) + g2 + show_spaced(cs[1], g1, g2)
        } else {
            seq![symbol(op)]
        },
    }
}

/// `show` is the spacing with one space after each operator and between
/// operands.
proof fn lemma_show_is_single_spaced(t: Tree)
    ensures
        show(t) == show_spaced(t, seq![' '], seq![' ']),
    decreases t,
{
    if let Tree::Expr(op, cs) = t {
        if cs.len() == 2 {
            lemma_show_is_single_spaced(cs[0]);
            lemma_show_is_single_spaced(cs[1]);
            assert(seq![symbol(op), ' '] =~= seq![symbol(op)] + seq![' ']);
            assert(show(t) =~= show_spaced(t, seq![' '], seq![' ']));
        }
    }
}

proof fn lemma_spaced_shape(t: Tree, g1: Seq<char>, g2: Seq<char>)
    requires
        printable(t),
    ensures
        show_spaced(t, g1, g2).len() >= 1,
        t is Val ==> forall|i: int|
            0 <= i < show_spaced(t, g1, g2).len() ==> is_ascii_digit(
                #[trigger] show_spaced(t, g1, g2)[i],
            ),
        t is Expr ==> show_spaced(t, g1, g2)[0] == symbol(t->Expr_0),
    decreases t,
{
    match t {
        Tree::Val(v) => lemma_decimal(v as nat),
        Tree::Expr(_, cs) => {
            lemma_spaced_shape(cs[0], g1, g2);
            lemma_spaced_shape(cs[1], g1, g2);
        },
    }
}

/// Parsing from `c` a text that holds white space up to `c0` and then a
/// tree written with spacings `g1` and `g2` gives the tree back, provided no
/// numeric character follows.
proof fn lemma_parse_spaced(s: Seq<char>, c: int, c0: int, t: Tree, g1: Seq<char>, g2: Seq<char>)
    requires
        printable(t),
        all_white(g1),
        all_white(g2),
        g2.len() > 0,
        !char_is_numeric(g2[0]),
        0 <= c <= c0,
        c0 + show_spaced(t, g1, g2).len() <= s.len(),
        forall|j: int| c <= j < c0 ==> is_white_space(#[trigger] s[j]),
        forall|i: int|
            0 <= i < show_spaced(t, g1, g2).len() ==> s[c0 + i] == #[trigger] show_spaced(
                t,
                g1,
                g2,
            )[i],
        c0 + show_spaced(t, g1, g2).len() == s.len() || !char_is_numeric(
            s[c0 + show_spaced(t, g1, g2).len()],
        ),
    ensures
        parse_at(s, c) == ParseStep::Node(t, c0 + show_spaced(t, g1, g2).len()),
    decreases t,
{
    let p = show_spaced(t, g1, g2);
    lemma_spaced_shape(t, g1, g2);
    let e = c0 + p.len();
    assert(s[c0] == p[0]);
    lemma_scan_exact(s, c, c0, CharClass::WhiteSpace);
    match t {
        Tree::Val(v) => {
            assert(is_ascii_digit(p[0]));
            assert forall|j: int| c0 <= j < e implies in_class(
                CharClass::Numeric,
                #[trigger] s[j],
            ) by {
                assert(s[c0 + (j - c0)] == p[j - c0]);
                assert(is_ascii_digit(p[j - c0]));
            }
            lemma_scan_exact(s, c0, e, CharClass::Numeric);
            assert(s.subrange(c0, e) =~= decimal(v as nat));
            lemma_decimal_reads_back(v as nat);
        },
        Tree::Expr(op, cs) => {
            let a = cs[0];
            let b = cs[1];
            let pa = show_spaced(a, g1, g2);
            let pb = show_spaced(b, g1, g2);
            let l1 = g1.len() as int;
            let l2 = g2.len() as int;
            let la = pa.len() as int;
            assert(p == seq![symbol(op)] + g1 + pa + g2 + pb);
            let ca = c0 + 1 + l1;
            let c3 = ca + la;
            assert forall|j: int| c0 + 1 <= j < ca implies is_white_space(#[trigger] s[j]) by {
                assert(s[c0 + (j - c0)] == p[j - c0]);
                assert(p[j - c0] == g1[j - c0 - 1]);
            }
            assert forall|i: int| 0 <= i < la implies s[ca + i] == #[trigger] pa[i] by {
                assert(s[c0 + (1 + l1 + i)] == p[1 + l1 + i]);
            }
            assert(s[c0 + (1 + l1 + la)] == p[1 + l1 + la]);
            assert(s[c3] == g2[0]);
            lemma_parse_spaced(s, c0 + 1, ca, a, g1, g2);
            assert forall|j: int| c3 <= j < c3 + l2 implies is_white_space(#[trigger] s[j]) by {
                assert(s[c0 + (j - c0)] == p[j - c0]);
                assert(p[j - c0] == g2[j - c3]);
            }
            assert forall|i: int| 0 <= i < pb.len() implies s[c3 + l2 + i] == #[trigger] pb[i] by {
                assert(s[c0 + (1 + l1 + la + l2 + i)] == p[1 + l1 + la + l2 + i]);
            }
            lemma_parse_spaced(s, c3, c3 + l2, b, g1, g2);
            assert(cs =~= seq![a, b]);
        },
    }
}

/// What the parser reads from a tree written in prefix notation is that
/// tree, and it reads the whole text.
pub proof fn theorem_parse_reads_shown_tree(t: Tree)
    requires
        printable(t),
    ensures
        parse_at(show(t), 0) == ParseStep::Node(t, show(t).len() as int),
{
    lemma_show_is_single_spaced(t);
    theorem_parse_reads_spaced_tree(t, seq![' '], seq![' ']);
}

/// The white space after an operator symbol is optional and can be any white
/// space, and so can the white space between two operands, as long as it
/// starts with a character that is not numeric: the parser reads the tree
/// back whatever the spacing.
pub proof fn theorem_parse_reads_spaced_tree(t: Tree, g1: Seq<char>, g2: Seq<char>)
    requires
        printable(t),
        all_white(g1),
        all_white(g2),
        g2.len() > 0,
        !char_is_numeric(g2[0]),
    ensures
        parse_at(show_spaced(t, g1, g2), 0) == ParseStep::Node(
            t,
            show_spaced(t, g1, g2).len() as int,
        ),
{
    lemma_parse_spaced(show_spaced(t, g1, g2), 0, 0, t, g1, g2);
}

/// Whether `s2`, read `d` columns further on, holds the characters of `s1`
/// that a parse from `c` to `e` reads: those it consumes, and the one that
/// stopped it unless it stopped at the end.
pub open spec fn reads_alike(s1: Seq<char>, s2: Seq<char>, c: int, e: int, d: int) -> bool {
    &&& forall|j: int| c <= j < e ==> s2[j + d] == #[trigger] s1[j]
    &&& (e == s1.len() && e + d == s2.len()) || (e < s1.len() && e + d < s2.len() && s2[e + d]
        == s1[e])
}

/// A successful parse depends only on the characters it reads: the same
/// characters elsewhere give the same tree.
proof fn lemma_parse_at_moved(s1: Seq<char>, s2: Seq<char>, c: int, d: int, t: Tree, e: int)
    requires
        parse_at(s1, c) == ParseStep::Node(t, e),
        0 <= c,
        0 <= c + d,
        reads_alike(s1, s2, c, e, d),
    ensures
        parse_at(s2, c + d) == ParseStep::Node(t, e + d),
    decreases s1.len() - c,
{
    lemma_parse_at_advances(s1, c);
    let c1 = scan(s1, c, CharClass::WhiteSpace);
    lemma_scan_bounds(s1, c, CharClass::WhiteSpace);
    if char_is_numeric(s1[c1]) {
        lemma_scan_bounds(s1, c1, CharClass::Numeric);
        lemma_scan_bounds(s1, c1 + 1, CharClass::Numeric);
    } else {
        lemma_parse_at_advances(s1, c1 + 1);
        let c3 = parse_at(s1, c1 + 1)->Node_1;
        lemma_parse_at_advances(s1, c3);
    }
    assert(c1 < e);
    assert forall|j: int| c + d <= j < c1 + d implies in_class(
        CharClass::WhiteSpace,
        #[trigger] s2[j],
    ) by {
        assert(s2[(j - d) + d] == s1[j - d]);
    }
    assert(s2[c1 + d] == s1[c1]);
    lemma_scan_exact(s2, c + d, c1 + d, CharClass::WhiteSpace);
    if char_is_numeric(s1[c1]) {
        assert forall|j: int| c1 + d <= j < e + d implies in_class(
            CharClass::Numeric,
            #[trigger] s2[j],
        ) by {
            assert(s2[(j - d) + d] == s1[j - d]);
        }
        lemma_scan_exact(s2, c1 + d, e + d, CharClass::Numeric);
        assert(s2.subrange(c1 + d, e + d) =~= s1.subrange(c1, e)) by {
            assert forall|i: int| 0 <= i < e - c1 implies s2.subrange(c1 + d, e + d)[i]
                == s1.subrange(c1, e)[i] by {
                assert(s2[(c1 + i) + d] == s1[c1 + i]);
            }
        }
    } else {
        let a = parse_at(s1, c1 + 1)->Node_0;
        let c3 = parse_at(s1, c1 + 1)->Node_1;
        assert(s2[c3 + d] == s1[c3]);
        lemma_parse_at_moved(s1, s2, c1 + 1, d, a, c3);
        let b = parse_at(s1, c3)->Node_0;
        lemma_parse_at_moved(s1, s2, c3, d, b, e);
    }
}

/// Parsing from a column in leading white space is parsing from the first
/// character after it.
proof fn lemma_parse_at_skips_white_space(s: Seq<char>, c: int)
    requires
        0 <= c,
        scan(s, c, CharClass::WhiteSpace) < s.len(),
    ensures
        parse_at(s, c) == parse_at(s, scan(s, c, CharClass::WhiteSpace)),
{
    let c1 = scan(s, c, CharClass::WhiteSpace);
    lemma_scan_bounds(s, c, CharClass::WhiteSpace);
    lemma_scan_exact(s, c1, c1, CharClass::WhiteSpace);
    lemma_parse_at_advances(s, c1 + 1);
}

/// A successful parse ends just after a numeric character.
proof fn lemma_parse_at_ends_in_numeral(s: Seq<char>, c: int)
    ensures
        parse_at(s, c) matches ParseStep::Node(_, e) ==> char_is_numeric(s[e - 1]),
    decreases s.len() - c,
{
    if 0 <= c < s.len() {
        lemma_scan_bounds(s, c, CharClass::WhiteSpace);
        let c1 = scan(s, c, CharClass::WhiteSpace);
        if c1 < s.len() {
            if char_is_numeric(s[c1]) {
                lemma_scan_bounds(s, c1, CharClass::Numeric);
                lemma_scan_bounds(s, c1 + 1, CharClass::Numeric);
                let c2 = scan(s, c1, CharClass::Numeric);
                assert(in_class(CharClass::Numeric, s[c2 - 1]));
            } else if operator_of(s[c1]) is Some {
                lemma_parse_at_advances(s, c1 + 1);
                if let ParseStep::Node(_, c3) = parse_at(s, c1 + 1) {
                    lemma_parse_at_ends_in_numeral(s, c3);
                }
            }
        }
    }
}

/// A column at a boundary between tokens: the start of the text, or just
/// after an operator, or just after a white-space character that is not
/// numeric (no white-space character is, but outside ASCII that is not
/// stated here).
pub open spec fn token_boundary(s: Seq<char>, p: int) -> bool {
    ||| p == 0
    ||| operator_of(s[p - 1]) is Some
    ||| is_white_space(s[p - 1]) && !char_is_numeric(s[p - 1])
}

/// `s` with `w` put in before column `p`.
pub open spec fn insert_at(s: Seq<char>, p: int, w: Seq<char>) -> Seq<char> {
    s.take(p) + w + s.skip(p)
}

proof fn lemma_insert_at_parse(s: Seq<char>, w: Seq<char>, p: int, c: int, t: Tree, e: int)
    requires
        parse_at(s, c) == ParseStep::Node(t, e),
        0 <= c <= p < e,
        forall|i: int| 0 <= i < w.len() ==> is_white_space(#[trigger] w[i]),
        token_boundary(s, p),
    ensures
        parse_at(insert_at(s, p, w), c) == ParseStep::Node(t, e + w.len()),
    decreases s.len() - c,
{
    let s2 = insert_at(s, p, w);
    let l = w.len() as int;
    lemma_parse_at_advances(s, c);
    assert(s2.len() == s.len() + l);
    assert forall|j: int| 0 <= j < p implies #[trigger] s2[j] == s[j] by {}
    assert forall|j: int| p <= j < s.len() implies #[trigger] s2[j + l] == s[j] by {}
    assert forall|i: int| 0 <= i < l implies #[trigger] s2[p + i] == w[i] by {}
    let c1 = scan(s, c, CharClass::WhiteSpace);
    lemma_scan_bounds(s, c, CharClass::WhiteSpace);
    if p <= c1 {
        assert forall|j: int| c <= j < c1 + l implies in_class(
            CharClass::WhiteSpace,
            #[trigger] s2[j],
        ) by {
            if p <= j < p + l {
                assert(s2[p + (j - p)] == w[j - p]);
            } else if j >= p + l {
                assert(s2[(j - l) + l] == s[j - l]);
            }
        }
        assert(s2[c1 + l] == s[c1]);
        lemma_scan_exact(s2, c, c1 + l, CharClass::WhiteSpace);
        lemma_parse_at_skips_white_space(s, c);
        lemma_parse_at_skips_white_space(s2, c);
        assert forall|j: int| c1 <= j < e implies s2[j + l] == #[trigger] s[j] by {}
        lemma_parse_at_moved(s, s2, c1, l, t, e);
    } else {
        assert(s2[c1] == s[c1]);
        lemma_scan_exact(s2, c, c1, CharClass::WhiteSpace);
        if char_is_numeric(s[c1]) {
            lemma_scan_bounds(s, c1, CharClass::Numeric);
            assert(in_class(CharClass::Numeric, s[p - 1]));
        } else {
            let a = parse_at(s, c1 + 1)->Node_0;
            let c3 = parse_at(s, c1 + 1)->Node_1;
            let b = parse_at(s, c3)->Node_0;
            lemma_parse_at_advances(s, c1 + 1);
            lemma_parse_at_advances(s, c3);
            if p < c3 {
                lemma_insert_at_parse(s, w, p, c1 + 1, a, c3);
                assert forall|j: int| c3 <= j < e implies s2[j + l] == #[trigger] s[j] by {}
                lemma_parse_at_moved(s, s2, c3, l, b, e);
            } else if p == c3 {
                lemma_parse_at_ends_in_numeral(s, c1 + 1);
            } else {
                assert forall|j: int| c1 + 1 <= j < c3 implies s2[j + 0] == #[trigger] s[j] by {
                    assert(s2[j] == s[j]);
                }
                assert(s2[c3] == s[c3]);
                lemma_parse_at_moved(s, s2, c1 + 1, 0, a, c3);
                lemma_insert_at_parse(s, w, p, c3, b, e);
            }
        }
    }
}

/// White space put in at a boundary between the tokens of a text that
/// parses, before the end of the expression read, leaves the tree unchanged
/// and moves the end of the parse by the length of the white space.
pub proof fn theorem_white_space_between_tokens(s: Seq<char>, w: Seq<char>, p: int)
    requires
        parse_at(s, 0) is Node,
        0 <= p < parse_at(s, 0)->Node_1,
        forall|i: int| 0 <= i < w.len() ==> is_white_space(#[trigger] w[i]),
        token_boundary(s, p),
    ensures
        parse_at(insert_at(s, p, w), 0) == ParseStep::Node(
            parse_at(s, 0)->Node_0,
            parse_at(s, 0)->Node_1 + w.len(),
        ),
{
    lemma_insert_at_parse(s, w, p, 0, parse_at(s, 0)->Node_0, parse_at(s, 0)->Node_1);
}

} // verus!
