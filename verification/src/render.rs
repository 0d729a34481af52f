use vstd::prelude::*;

use crate::expression::{Function, Op};
use crate::grammar::{
    additive_at, char_at, digits_value, has_word, is_digit, is_sign, is_ws, lemma_skip_ws,
    multiplicative_at,
    number_end, parse_args, parse_atom, parse_call, parse_expr, parse_expr_rest, parse_formula,
    parse_primary, parse_term, parse_term_rest, skip_digits, skip_ws, word_coalesce, word_max,
    word_min, Syntax,
};
use crate::text::{decimal, digit_char};

verus! {

// ---------------------------------------------------------------------------
// Writing a syntax tree back as text
// ---------------------------------------------------------------------------

pub open spec fn paren(x: Seq<char>) -> Seq<char> {
    seq!['('] + x + seq![')']
}

pub open spec fn op_char(op: Op) -> char {
    match op {
        Op::Add => '+',
        Op::Sub => '-',
        Op::Mul => '*',
        Op::Div => '/',
    }
}

pub open spec fn function_name(f: Function) -> Seq<char> {
    match f {
        Function::Coalesce => word_coalesce(),
        Function::Min => word_min(),
        Function::Max => word_max(),
    }
}

/// The tree is a literal, a placeholder or a call: it needs no parentheses
/// after a prefix minus.
pub open spec fn is_primary(t: Syntax) -> bool {
    t is Number || t is Component || t is Call
}

/// The text of a syntax tree, with each operand of a binary operator in
/// parentheses.
pub open spec fn render(t: Syntax) -> Seq<char>
    decreases t,
{
    match t {
        Syntax::Number(text) => text,
        Syntax::Component(n) => seq!['#'] + decimal(n),
        Syntax::Negate(a) => seq!['-'] + (if is_primary(*a) {
            render(*a)
        } else {
            paren(render(*a))
        }),
        Syntax::Binary(a, op, b) => paren(render(*a)) + seq![op_char(op)] + paren(render(*b)),
        Syntax::Call(f, args) => function_name(f) + paren(render_args(args)),
    }
}

/// The arguments of a call, separated by commas.
pub open spec fn render_args(args: Seq<Syntax>) -> Seq<char>
    decreases args,
{
    if args.len() == 0 {
        seq![]
    } else if args.len() == 1 {
        render(args[0])
    } else {
        render(args[0]) + seq![','] + render_args(args.drop_first())
    }
}

/// `text` is a numeric literal of the grammar, as a whole.
pub open spec fn is_literal(text: Seq<char>) -> bool {
    number_end(text, 0) == Some(text.len() as int)
}

/// The tree is one that parsing can give: its literals are literals, its
/// calls have arguments, and a literal with a minus sign only follows a
/// prefix minus (`after_minus`).
pub open spec fn printable(t: Syntax, after_minus: bool) -> bool
    decreases t,
{
    match t {
        Syntax::Number(text) => is_literal(text) && (text[0] == '-' ==> after_minus),
        Syntax::Component(_) => true,
        Syntax::Negate(a) => printable(*a, true),
        Syntax::Binary(a, _, b) => printable(*a, false) && printable(*b, false),
        Syntax::Call(_, args) => args.len() > 0 && printable_args(args),
    }
}

/// Every argument is printable.
pub open spec fn printable_args(args: Seq<Syntax>) -> bool
    decreases args,
{
    args.len() == 0 || (printable(args[0], false) && printable_args(args.drop_first()))
}

// ---------------------------------------------------------------------------
// Text embedded in a longer text
// ---------------------------------------------------------------------------

/// Position `j` of `s` cannot continue a literal or a placeholder.
pub open spec fn ends_token(s: Seq<char>, j: int) -> bool {
    j == s.len() || (0 <= j < s.len() && !(is_digit(s[j]) || s[j] == '.' || s[j] == 'e' || s[j]
        == 'E' || is_sign(s[j])))
}

/// Position `j` of `s` is the end of the text, a closing parenthesis or a
/// comma: what may follow an expression.
pub open spec fn stops(s: Seq<char>, j: int) -> bool {
    j == s.len() || char_at(s, j, ')') || char_at(s, j, ',')
}

proof fn lemma_has_word_split(s: Seq<char>, i: int, x: Seq<char>, y: Seq<char>)
    requires
        has_word(s, i, x + y),
    ensures
        has_word(s, i, x),
        has_word(s, i + x.len(), y),
{
    let whole = s.subrange(i, i + x.len() + y.len());
    assert(whole == x + y);
    assert(s.subrange(i, i + x.len()) =~= whole.subrange(0, x.len() as int));
    assert(whole.subrange(0, x.len() as int) =~= x);
    assert(s.subrange(i + x.len(), i + x.len() + y.len()) =~= whole.subrange(
        x.len() as int,
        whole.len() as int,
    ));
    assert(whole.subrange(x.len() as int, whole.len() as int) =~= y);
}

proof fn lemma_has_word_char(s: Seq<char>, i: int, w: Seq<char>, k: int)
    requires
        has_word(s, i, w),
        0 <= k < w.len(),
    ensures
        s[i + k] == w[k],
{
    assert(s.subrange(i, i + w.len())[k] == s[i + k]);
}

proof fn lemma_skip_digits_embedded(s: Seq<char>, i: int, w: Seq<char>, k: int)
    requires
        has_word(s, i, w),
        0 <= k <= w.len(),
        ends_token(s, i + w.len()),
    ensures
        skip_digits(s, i + k) == i + skip_digits(w, k),
    decreases w.len() - k,
{
    if k < w.len() {
        lemma_has_word_char(s, i, w, k);
        if is_digit(w[k]) {
            lemma_skip_digits_embedded(s, i, w, k + 1);
        }
    }
}

proof fn lemma_all_digits_skip(w: Seq<char>, k: int)
    requires
        0 <= k <= w.len(),
        forall|m: int| k <= m < w.len() ==> is_digit(#[trigger] w[m]),
    ensures
        skip_digits(w, k) == w.len(),
    decreases w.len() - k,
{
    if k < w.len() {
        lemma_all_digits_skip(w, k + 1);
    }
}

proof fn lemma_number_end_embedded(s: Seq<char>, i: int, w: Seq<char>)
    requires
        has_word(s, i, w),
        is_literal(w),
        ends_token(s, i + w.len()),
    ensures
        number_end(s, i) == Some(i + w.len()),
{
    let len = w.len() as int;
    // the sign
    let aw = if 0 <= 0 < len && is_sign(w[0]) {
        1int
    } else {
        0int
    };
    if len > 0 {
        lemma_has_word_char(s, i, w, 0);
    }
    lemma_skip_digits_embedded(s, i, w, aw);
    let bw = skip_digits(w, aw);
    // the fraction
    if bw < len {
        lemma_has_word_char(s, i, w, bw);
    }
    if char_at(w, bw, '.') {
        lemma_skip_digits_embedded(s, i, w, bw + 1);
    }
    let cw = if char_at(w, bw, '.') {
        skip_digits(w, bw + 1)
    } else {
        bw
    };
    // the exponent
    if cw < len {
        lemma_has_word_char(s, i, w, cw);
    }
    if char_at(w, cw, 'e') || char_at(w, cw, 'E') {
        if cw + 1 < len {
            lemma_has_word_char(s, i, w, cw + 1);
        }
        let e1 = if 0 <= cw + 1 < len && is_sign(w[cw + 1]) {
            cw + 2
        } else {
            cw + 1
        };
        lemma_skip_digits_embedded(s, i, w, e1);
    }
}

proof fn lemma_not_has_word(s: Seq<char>, i: int, w: Seq<char>, k: int)
    requires
        0 <= k < w.len(),
        0 <= i + k < s.len() ==> s[i + k] != w[k],
    ensures
        !has_word(s, i, w),
{
    if has_word(s, i, w) {
        lemma_has_word_char(s, i, w, k);
    }
}

proof fn lemma_decimal(n: nat)
    ensures
        decimal(n).len() > 0,
        forall|m: int| 0 <= m < decimal(n).len() ==> is_digit(#[trigger] decimal(n)[m]),
        digits_value(decimal(n)) == n,
    decreases n,
{
    let d = n % 10;
    assert(is_digit(digit_char(d)) && digit_char(d) as int - '0' as int == d);
    if n >= 10 {
        lemma_decimal(n / 10);
        let w = decimal(n);
        assert(w.drop_last() =~= decimal(n / 10));
        assert(w.last() == digit_char(d));
        assert(digits_value(w) == digits_value(decimal(n / 10)) * 10 + d);
        assert((n / 10) * 10 + d == n);
    } else {
        assert(decimal(n).drop_last() =~= Seq::<char>::empty());
        assert(digits_value(Seq::<char>::empty()) == 0);
        assert(decimal(n).last() == digit_char(d));
        assert(n % 10 == n);
    }
}

/// What a printable tree's text starts with.
proof fn lemma_render_start(t: Syntax, after_minus: bool)
    requires
        printable(t, after_minus),
    ensures
        render(t).len() > 0,
        !is_ws(render(t)[0]),
        render(t)[0] != 'C' && render(t)[0] != 'M' ==> !(t is Call),
        t is Number ==> is_digit(render(t)[0]) || is_sign(render(t)[0]),
        t is Component ==> render(t)[0] == '#',
        t is Binary ==> render(t)[0] == '(',
        t is Negate ==> render(t)[0] == '-',
        render(t)[0] == '-' ==> t is Negate || (t is Number && after_minus),
{
    match t {
        Syntax::Number(text) => {
            let a = if 0 <= 0 < text.len() && is_sign(text[0]) {
                1int
            } else {
                0int
            };
            if !(text.len() > 0 && is_sign(text[0])) {
                assert(skip_digits(text, 0) != 0);
            }
        },
        Syntax::Component(_) => {},
        Syntax::Negate(_) => {},
        Syntax::Binary(_, _, _) => {},
        Syntax::Call(f, _) => {
            assert(function_name(f).len() > 0);
        },
    }
}

/// After an expression, at a position that stops it, neither a further
/// factor nor a further term follows.
proof fn lemma_rest_stops(s: Seq<char>, x: Syntax, j: int)
    requires
        0 <= j <= s.len(),
        stops(s, j),
    ensures
        parse_term_rest(s, x, j) == Ok::<(Syntax, int), int>((x, j)),
        parse_expr_rest(s, x, j) == Ok::<(Syntax, int), int>((x, j)),
{
    assert(skip_ws(s, j) == j);
    assert(multiplicative_at(s, j) is None);
    assert(additive_at(s, j) is None);
}

proof fn lemma_skip_ws_at_non_ws(s: Seq<char>, j: int)
    requires
        0 <= j <= s.len(),
        j < s.len() ==> !is_ws(s[j]),
    ensures
        skip_ws(s, j) == j,
{
}

/// Printability after a prefix minus only matters for a literal.
proof fn lemma_printable_after_minus(t: Syntax)
    ensures
        printable(t, false) ==> printable(t, true),
        !(t is Number) ==> (printable(t, false) == printable(t, true)),
{
}

/// A literal, a placeholder or a call written at position `i`, and not
/// continued by what follows, is read back as a primary.
#[verifier::spinoff_prover]
#[verifier::rlimit(40)]
proof fn lemma_primary(s: Seq<char>, i: int, t: Syntax)
    requires
        is_primary(t),
        printable(t, true),
        has_word(s, i, render(t)),
        ends_token(s, i + render(t).len()),
    ensures
        parse_primary(s, i) == Ok::<(Syntax, int), int>((t, i + render(t).len())),
    decreases t, 1int,
{
    lemma_render_start(t, true);
    let r = render(t);
    lemma_has_word_char(s, i, r, 0);
    match t {
        Syntax::Number(text) => {
            lemma_not_has_word(s, i, word_coalesce(), 0);
            lemma_not_has_word(s, i, word_min(), 0);
            lemma_not_has_word(s, i, word_max(), 0);
            lemma_number_end_embedded(s, i, text);
        },
        Syntax::Component(n) => {
            lemma_not_has_word(s, i, word_coalesce(), 0);
            lemma_not_has_word(s, i, word_min(), 0);
            lemma_not_has_word(s, i, word_max(), 0);
            assert(skip_digits(s, i) == i);
            assert(number_end(s, i) is None);
            lemma_decimal(n);
            assert forall|m: int| 1 <= m < r.len() implies is_digit(#[trigger] r[m]) by {
                assert(r[m] == decimal(n)[m - 1]);
            }
            lemma_all_digits_skip(r, 1);
            lemma_skip_digits_embedded(s, i, r, 1);
            lemma_has_word_split(s, i, seq!['#'], decimal(n));
        },
        Syntax::Call(f, args) => {
            let name = function_name(f);
            let inner = render_args(args);
            lemma_has_word_split(s, i, name, paren(inner));
            let p = i + name.len();
            match f {
                Function::Coalesce => {},
                Function::Min => {
                    lemma_has_word_char(s, i, name, 0);
                    lemma_not_has_word(s, i, word_coalesce(), 0);
                },
                Function::Max => {
                    lemma_has_word_char(s, i, name, 0);
                    lemma_has_word_char(s, i, name, 1);
                    lemma_not_has_word(s, i, word_coalesce(), 0);
                    lemma_not_has_word(s, i, word_min(), 1);
                },
            }
            let q = paren(inner);
            assert(q =~= seq!['('] + (inner + seq![')']));
            lemma_has_word_split(s, p, seq!['('], inner + seq![')']);
            lemma_has_word_char(s, p, seq!['('], 0);
            lemma_skip_ws_at_non_ws(s, p);
            lemma_render_args_start(args);
            lemma_has_word_char(s, p + 1, inner + seq![')'], 0);
            assert((inner + seq![')'])[0] == inner[0]);
            lemma_skip_ws_at_non_ws(s, p + 1);
            lemma_args(s, p + 1, args);
            assert(parse_call(s, f, p) == Ok::<(Syntax, int), int>(
                (Syntax::Call(f, args), p + 1 + inner.len() + 1),
            ));
        },
        _ => {},
    }
}

proof fn lemma_render_args_start(args: Seq<Syntax>)
    requires
        args.len() > 0,
        printable_args(args),
    ensures
        render_args(args).len() > 0,
        !is_ws(render_args(args)[0]),
{
    lemma_render_start(args[0], false);
    if args.len() > 1 {
        assert((render(args[0]) + seq![','] + render_args(args.drop_first()))[0] == render(
            args[0],
        )[0]);
    }
}

/// The arguments of a call, written at position `m` and followed by the
/// closing parenthesis, are read back.
proof fn lemma_args(s: Seq<char>, m: int, args: Seq<Syntax>)
    requires
        args.len() > 0,
        printable_args(args),
        has_word(s, m, render_args(args) + seq![')']),
    ensures
        parse_args(s, m) == Ok::<(Seq<Syntax>, int), int>(
            (args, m + render_args(args).len() + 1),
        ),
    decreases args, 5int,
{
    let a0 = args[0];
    let r0 = render(a0);
    lemma_render_start(a0, false);
    if args.len() == 1 {
        lemma_has_word_split(s, m, r0, seq![')']);
        lemma_has_word_char(s, m + r0.len(), seq![')'], 0);
        lemma_expr(s, m, a0);
        lemma_skip_ws_at_non_ws(s, m + r0.len());
        assert(seq![a0] =~= args);
    } else {
        let rest = args.drop_first();
        let rr = render_args(rest);
        assert(render_args(args) + seq![')'] =~= (r0 + seq![',']) + (rr + seq![')']));
        lemma_has_word_split(s, m, r0 + seq![','], rr + seq![')']);
        lemma_has_word_split(s, m, r0, seq![',']);
        lemma_has_word_char(s, m + r0.len(), seq![','], 0);
        lemma_expr(s, m, a0);
        lemma_skip_ws_at_non_ws(s, m + r0.len());
        lemma_render_args_start(rest);
        lemma_has_word_split(s, m + r0.len() + 1, rr, seq![')']);
        lemma_has_word_char(s, m + r0.len() + 1, rr, 0);
        lemma_skip_ws_at_non_ws(s, m + r0.len() + 1);
        lemma_args(s, m + r0.len() + 1, rest);
        assert(seq![a0] + rest =~= args);
    }
}

/// A printable tree, written in parentheses at position `i`, is read back
/// as a primary (and as an atom).
proof fn lemma_paren(s: Seq<char>, i: int, t: Syntax)
    requires
        printable(t, false),
        has_word(s, i, paren(render(t))),
    ensures
        parse_primary(s, i) == Ok::<(Syntax, int), int>((t, i + render(t).len() + 2)),
        parse_atom(s, i) == Ok::<(Syntax, int), int>((t, i + render(t).len() + 2)),
    decreases t, 4int,
{
    let r = render(t);
    lemma_render_start(t, false);
    lemma_has_word_split(s, i, seq!['('] + r, seq![')']);
    lemma_has_word_split(s, i, seq!['('], r);
    lemma_has_word_char(s, i, seq!['('], 0);
    lemma_has_word_char(s, i + 1 + r.len(), seq![')'], 0);
    lemma_has_word_char(s, i + 1, r, 0);
    lemma_not_has_word(s, i, word_coalesce(), 0);
    lemma_not_has_word(s, i, word_min(), 0);
    lemma_not_has_word(s, i, word_max(), 0);
    assert(skip_digits(s, i) == i);
    assert(number_end(s, i) is None);
    lemma_skip_ws_at_non_ws(s, i + 1);
    lemma_expr(s, i + 1, t);
    lemma_skip_ws_at_non_ws(s, i + 1 + r.len());
}

/// A printable tree other than a binary operation, written at position
/// `i` and not continued by what follows, is read back as an atom.
proof fn lemma_atom(s: Seq<char>, i: int, t: Syntax)
    requires
        printable(t, false),
        !(t is Binary),
        has_word(s, i, render(t)),
        ends_token(s, i + render(t).len()),
    ensures
        parse_atom(s, i) == Ok::<(Syntax, int), int>((t, i + render(t).len())),
    decreases t, 2int,
{
    let r = render(t);
    lemma_render_start(t, false);
    lemma_has_word_char(s, i, r, 0);
    lemma_printable_after_minus(t);
    match t {
        Syntax::Negate(a) => {
            let ra = if is_primary(*a) {
                render(*a)
            } else {
                paren(render(*a))
            };
            lemma_has_word_split(s, i, seq!['-'], ra);
            lemma_printable_after_minus(*a);
            lemma_render_start(*a, true);
            if is_primary(*a) {
                lemma_has_word_char(s, i + 1, ra, 0);
                lemma_skip_ws_at_non_ws(s, i + 1);
                lemma_primary(s, i + 1, *a);
            } else {
                lemma_has_word_char(s, i + 1, ra, 0);
                lemma_skip_ws_at_non_ws(s, i + 1);
                lemma_paren(s, i + 1, *a);
            }
        },
        _ => {
            lemma_primary(s, i, t);
        },
    }
}

/// A printable tree, written at position `i` and followed by what stops an
/// expression, is read back as an expression.
proof fn lemma_expr(s: Seq<char>, i: int, t: Syntax)
    requires
        printable(t, false),
        has_word(s, i, render(t)),
        stops(s, i + render(t).len()),
    ensures
        parse_expr(s, i) == Ok::<(Syntax, int), int>((t, i + render(t).len())),
    decreases t, 3int,
{
    let r = render(t);
    lemma_render_start(t, false);
    let e = i + r.len();
    match t {
        Syntax::Binary(a, op, b) => {
            let ra = paren(render(*a));
            let rb = paren(render(*b));
            lemma_has_word_split(s, i, ra + seq![op_char(op)], rb);
            lemma_has_word_split(s, i, ra, seq![op_char(op)]);
            let p = i + ra.len();
            lemma_has_word_char(s, p, seq![op_char(op)], 0);
            lemma_paren(s, i, *a);
            lemma_paren(s, p + 1, *b);
            lemma_skip_ws_at_non_ws(s, p);
            lemma_has_word_char(s, p + 1, rb, 0);
            lemma_skip_ws_at_non_ws(s, p + 1);
            lemma_rest_stops(s, *b, e);
            lemma_rest_stops(s, t, e);
            assert(Syntax::Binary(Box::new(*a), op, Box::new(*b)) == t);
            match op {
                Op::Mul | Op::Div => {
                    assert(parse_term_rest(s, *a, p) == Ok::<(Syntax, int), int>((t, e)));
                    assert(parse_term(s, i) == Ok::<(Syntax, int), int>((t, e)));
                },
                Op::Add | Op::Sub => {
                    assert(parse_term_rest(s, *a, p) == Ok::<(Syntax, int), int>((*a, p)));
                    assert(parse_term(s, i) == Ok::<(Syntax, int), int>((*a, p)));
                    assert(parse_term(s, p + 1) == Ok::<(Syntax, int), int>((*b, e)));
                },
            }
        },
        _ => {
            lemma_atom(s, i, t);
            lemma_rest_stops(s, t, e);
            assert(parse_term(s, i) == Ok::<(Syntax, int), int>((t, e)));
        },
    }
}

/// Parsing the text of a printable syntax tree gives the tree back: the
/// grammar reads every tree it can give from its written form, with
/// operators grouped and ordered as written.
pub proof fn lemma_parse_render(t: Syntax)
    requires
        printable(t, false),
    ensures
        parse_formula(render(t)) == Ok::<Syntax, int>(t),
{
    let s = render(t);
    lemma_render_start(t, false);
    assert(s.subrange(0, s.len() as int) =~= s);
    lemma_skip_ws_at_non_ws(s, 0);
    lemma_expr(s, 0, t);
    lemma_skip_ws_at_non_ws(s, s.len() as int);
}

// ---------------------------------------------------------------------------
// Formulas written without parentheses
// ---------------------------------------------------------------------------

/// An operand of a chain: a printable tree that is not a binary operation
/// (a literal, a placeholder, a call, or any of these, or a parenthesised
/// formula, after a prefix minus).
pub open spec fn is_atom(t: Syntax) -> bool {
    printable(t, false) && !(t is Binary)
}

/// `w` is a run of whitespace: spaces, tabs, line feeds and carriage
/// returns, at least one.
pub open spec fn is_blank(w: Seq<char>) -> bool {
    w.len() > 0 && forall|k: int|
        0 <= k < w.len() ==> (#[trigger] w[k] == ' ' || w[k] == '\t' || w[k] == '\n' || w[k]
            == '\r')
}

/// An operator with the whitespace `w` on both sides.
pub open spec fn op_text(w: Seq<char>, op: Op) -> Seq<char> {
    w + seq![op_char(op)] + w
}

/// The text of the links of a chain: each operator, with `w` on both
/// sides, then its operand.
pub open spec fn links_text(w: Seq<char>, links: Seq<(Op, Syntax)>) -> Seq<char>
    decreases links.len(),
{
    if links.len() == 0 {
        seq![]
    } else {
        op_text(w, links[0].0) + render(links[0].1) + links_text(w, links.drop_first())
    }
}

/// `lhs` followed by the links, grouped to the left:
/// `((lhs op1 x1) op2 x2) ...`.
pub open spec fn group_left(lhs: Syntax, links: Seq<(Op, Syntax)>) -> Syntax
    decreases links.len(),
{
    if links.len() == 0 {
        lhs
    } else {
        group_left(Syntax::Binary(Box::new(lhs), links[0].0, Box::new(links[0].1)), links.drop_first())
    }
}

/// Links joined by `*` and `/`, whose operands are atoms.
pub open spec fn multiplicative_links(links: Seq<(Op, Syntax)>) -> bool {
    forall|i: int|
        0 <= i < links.len() ==> ((#[trigger] links[i]).0 == Op::Mul || links[i].0 == Op::Div)
            && is_atom(links[i].1)
}

/// The further terms of a sum: each an operator with `w` on both sides,
/// the term's first atom and its links.
pub open spec fn terms_text(w: Seq<char>, terms: Seq<(Op, Syntax, Seq<(Op, Syntax)>)>) -> Seq<
    char,
>
    decreases terms.len(),
{
    if terms.len() == 0 {
        seq![]
    } else {
        op_text(w, terms[0].0) + (render(terms[0].1) + links_text(w, terms[0].2)) + terms_text(
            w,
            terms.drop_first(),
        )
    }
}

/// `lhs` followed by the further terms, each term grouped to the left and
/// the terms grouped to the left.
pub open spec fn group_terms(lhs: Syntax, terms: Seq<(Op, Syntax, Seq<(Op, Syntax)>)>) -> Syntax
    decreases terms.len(),
{
    if terms.len() == 0 {
        lhs
    } else {
        group_terms(
            Syntax::Binary(Box::new(lhs), terms[0].0, Box::new(group_left(terms[0].1, terms[0].2))),
            terms.drop_first(),
        )
    }
}

/// Terms joined by `+` and `-`, each an atom with links joined by `*` and
/// `/`.
pub open spec fn additive_terms(terms: Seq<(Op, Syntax, Seq<(Op, Syntax)>)>) -> bool {
    forall|i: int|
        0 <= i < terms.len() ==> ((#[trigger] terms[i]).0 == Op::Add || terms[i].0 == Op::Sub)
            && is_atom(terms[i].1) && multiplicative_links(terms[i].2)
}

/// Position `e` ends a term: what follows is whitespace or nothing, and
/// after the whitespace comes the end or an additive operator.
pub open spec fn ends_term(s: Seq<char>, e: int) -> bool {
    &&& 0 <= e <= s.len()
    &&& ends_token(s, e)
    &&& e < s.len() ==> is_ws(s[e])
    &&& skip_ws(s, e) == s.len() || (skip_ws(s, e) < s.len() && is_sign(s[skip_ws(s, e)]))
}

/// A run of whitespace written at `j` is skipped to its end.
proof fn lemma_skip_blank(s: Seq<char>, j: int, w: Seq<char>)
    requires
        has_word(s, j, w),
        forall|k: int|
            0 <= k < w.len() ==> (#[trigger] w[k] == ' ' || w[k] == '\t' || w[k] == '\n' || w[k]
                == '\r'),
    ensures
        skip_ws(s, j) == skip_ws(s, j + w.len()),
    decreases w.len(),
{
    if w.len() > 0 {
        lemma_has_word_char(s, j, w, 0);
        assert(seq![w[0]] + w.drop_first() =~= w);
        lemma_has_word_split(s, j, seq![w[0]], w.drop_first());
        assert forall|k: int| 0 <= k < w.drop_first().len() implies (#[trigger] w.drop_first()[k]
            == ' ' || w.drop_first()[k] == '\t' || w.drop_first()[k] == '\n' || w.drop_first()[k]
            == '\r') by {
            assert(w.drop_first()[k] == w[k + 1]);
        }
        lemma_skip_blank(s, j + 1, w.drop_first());
    }
}

/// At position `j`, an operator with whitespace on both sides is found,
/// and the operand after it starts right after the whitespace.
proof fn lemma_op_text(s: Seq<char>, j: int, w: Seq<char>, op: Op, x: Syntax)
    requires
        is_blank(w),
        is_atom(x),
        has_word(s, j, op_text(w, op) + render(x)),
    ensures
        skip_ws(s, j) == j + w.len(),
        0 <= j + w.len() < s.len() && s[j + w.len()] == op_char(op),
        skip_ws(s, j + w.len() + 1) == j + 2 * w.len() + 1,
        has_word(s, j + 2 * w.len() + 1, render(x)),
        0 <= j && j < s.len() && is_ws(s[j]),
{
    let n = w.len() as int;
    lemma_has_word_split(s, j, op_text(w, op), render(x));
    lemma_has_word_split(s, j, w + seq![op_char(op)], w);
    lemma_has_word_split(s, j, w, seq![op_char(op)]);
    lemma_has_word_char(s, j, w, 0);
    lemma_has_word_char(s, j + n, seq![op_char(op)], 0);
    lemma_skip_blank(s, j, w);
    lemma_skip_ws_at_non_ws(s, j + n);
    lemma_render_start(x, false);
    lemma_has_word_char(s, j + 2 * n + 1, render(x), 0);
    lemma_skip_blank(s, j + n + 1, w);
    lemma_skip_ws_at_non_ws(s, j + 2 * n + 1);
}

/// The first character of the links' text, when there are links, is
/// whitespace.
proof fn lemma_links_start(w: Seq<char>, links: Seq<(Op, Syntax)>)
    requires
        is_blank(w),
        links.len() > 0,
    ensures
        links_text(w, links).len() > 0,
        is_ws(links_text(w, links)[0]),
{
    assert((op_text(w, links[0].0) + render(links[0].1) + links_text(w, links.drop_first()))[0]
        == w[0]);
}

/// The text of the further terms, when there are any, starts with
/// whitespace, and after it comes an additive operator.
proof fn lemma_terms_start(s: Seq<char>, j: int, w: Seq<char>, terms: Seq<(Op, Syntax, Seq<(Op, Syntax)>)>)
    requires
        is_blank(w),
        terms.len() > 0,
        additive_terms(terms),
        has_word(s, j, terms_text(w, terms)),
    ensures
        j < s.len() && is_ws(s[j]),
        ends_token(s, j),
        skip_ws(s, j) < s.len() && is_sign(s[skip_ws(s, j)]),
{
    let t0 = terms[0];
    assert(t0.0 == Op::Add || t0.0 == Op::Sub);
    assert(is_atom(t0.1));
    let body = render(t0.1) + links_text(w, t0.2);
    assert(terms_text(w, terms) == op_text(w, t0.0) + body + terms_text(w, terms.drop_first()));
    assert(op_text(w, t0.0) + body + terms_text(w, terms.drop_first()) =~= (op_text(w, t0.0)
        + render(t0.1)) + (links_text(w, t0.2) + terms_text(w, terms.drop_first())));
    lemma_has_word_split(s, j, op_text(w, t0.0) + render(t0.1), links_text(w, t0.2) + terms_text(
        w,
        terms.drop_first(),
    ));
    lemma_op_text(s, j, w, t0.0, t0.1);
}

/// The multiplicative links after an atom, ended as a term ends, are
/// read back grouped to the left.
proof fn lemma_term_links(s: Seq<char>, j: int, w: Seq<char>, lhs: Syntax, links: Seq<(Op, Syntax)>)
    requires
        is_blank(w),
        multiplicative_links(links),
        has_word(s, j, links_text(w, links)),
        ends_term(s, j + links_text(w, links).len()),
    ensures
        parse_term_rest(s, lhs, j) == Ok::<(Syntax, int), int>(
            (group_left(lhs, links), j + links_text(w, links).len()),
        ),
    decreases links.len(),
{
    if links.len() == 0 {
        lemma_skip_ws(s, j);
    } else {
        let op = links[0].0;
        let x = links[0].1;
        let rest = links.drop_first();
        assert(multiplicative_links(rest)) by {
            assert forall|i: int| 0 <= i < rest.len() implies ((#[trigger] rest[i]).0 == Op::Mul
                || rest[i].0 == Op::Div) && is_atom(rest[i].1) by {
                assert(rest[i] == links[i + 1]);
            }
        }
        assert(links[0].0 == Op::Mul || links[0].0 == Op::Div);
        let rx = render(x);
        let n = w.len() as int;
        lemma_has_word_split(s, j, op_text(w, op) + rx, links_text(w, rest));
        lemma_op_text(s, j, w, op, x);
        let e1 = j + 2 * n + 1 + rx.len();
        if rest.len() > 0 {
            lemma_links_start(w, rest);
            lemma_has_word_char(s, e1, links_text(w, rest), 0);
        }
        lemma_atom(s, j + 2 * n + 1, x);
        lemma_term_links(s, e1, w, Syntax::Binary(Box::new(lhs), op, Box::new(x)), rest);
    }
}

/// An atom and its multiplicative links, ended as a term ends, are read
/// back as a term grouped to the left.
proof fn lemma_term_chain(s: Seq<char>, i: int, w: Seq<char>, a: Syntax, links: Seq<(Op, Syntax)>)
    requires
        is_blank(w),
        is_atom(a),
        multiplicative_links(links),
        has_word(s, i, render(a) + links_text(w, links)),
        ends_term(s, i + render(a).len() + links_text(w, links).len()),
    ensures
        parse_term(s, i) == Ok::<(Syntax, int), int>(
            (group_left(a, links), i + render(a).len() + links_text(w, links).len()),
        ),
{
    let ra = render(a);
    lemma_render_start(a, false);
    lemma_has_word_split(s, i, ra, links_text(w, links));
    if links.len() > 0 {
        lemma_links_start(w, links);
        lemma_has_word_char(s, i + ra.len(), links_text(w, links), 0);
    }
    lemma_atom(s, i, a);
    lemma_term_links(s, i + ra.len(), w, a, links);
}

/// The further terms of a sum, followed by whitespace up to the end of the
/// text, are read back grouped to the left.
proof fn lemma_expr_terms(
    s: Seq<char>,
    j: int,
    w: Seq<char>,
    lhs: Syntax,
    terms: Seq<(Op, Syntax, Seq<(Op, Syntax)>)>,
)
    requires
        is_blank(w),
        additive_terms(terms),
        has_word(s, j, terms_text(w, terms)),
        ends_term(s, j + terms_text(w, terms).len()),
        skip_ws(s, j + terms_text(w, terms).len()) == s.len(),
    ensures
        parse_expr_rest(s, lhs, j) == Ok::<(Syntax, int), int>(
            (group_terms(lhs, terms), j + terms_text(w, terms).len()),
        ),
    decreases terms.len(),
{
    if terms.len() == 0 {
        lemma_skip_ws(s, j);
    } else {
        let op = terms[0].0;
        let a = terms[0].1;
        let links = terms[0].2;
        let rest = terms.drop_first();
        assert(additive_terms(rest)) by {
            assert forall|i: int| 0 <= i < rest.len() implies ((#[trigger] rest[i]).0 == Op::Add
                || rest[i].0 == Op::Sub) && is_atom(rest[i].1) && multiplicative_links(rest[i].2) by {
                assert(rest[i] == terms[i + 1]);
            }
        }
        assert(terms[0].0 == Op::Add || terms[0].0 == Op::Sub);
        let n = w.len() as int;
        let body = render(a) + links_text(w, links);
        lemma_has_word_split(s, j, op_text(w, op) + body, terms_text(w, rest));
        assert(op_text(w, op) + body =~= (op_text(w, op) + render(a)) + links_text(w, links));
        lemma_has_word_split(s, j, op_text(w, op) + render(a), links_text(w, links));
        lemma_op_text(s, j, w, op, a);
        lemma_has_word_split(s, j, op_text(w, op), body);
        let e1 = j + 2 * n + 1 + body.len();
        if rest.len() > 0 {
            lemma_terms_start(s, e1, w, rest);
        }
        lemma_term_chain(s, j + 2 * n + 1, w, a, links);
        lemma_expr_terms(
            s,
            e1,
            w,
            Syntax::Binary(Box::new(lhs), op, Box::new(group_left(a, links))),
            rest,
        );
    }
}

/// A chain of terms written at `i`, followed by whitespace up to the end
/// of the text, is read back as an expression grouped as the chain says.
#[verifier::spinoff_prover]
proof fn lemma_chain_at(
    s: Seq<char>,
    i: int,
    w: Seq<char>,
    a: Syntax,
    links: Seq<(Op, Syntax)>,
    terms: Seq<(Op, Syntax, Seq<(Op, Syntax)>)>,
)
    requires
        is_blank(w),
        is_atom(a),
        multiplicative_links(links),
        additive_terms(terms),
        has_word(s, i, render(a) + links_text(w, links) + terms_text(w, terms)),
        ends_term(s, i + (render(a) + links_text(w, links) + terms_text(w, terms)).len()),
        skip_ws(s, i + (render(a) + links_text(w, links) + terms_text(w, terms)).len()) == s.len(),
    ensures
        parse_expr(s, i) == Ok::<(Syntax, int), int>(
            (
                group_terms(group_left(a, links), terms),
                i + (render(a) + links_text(w, links) + terms_text(w, terms)).len(),
            ),
        ),
{
    let first = render(a) + links_text(w, links);
    lemma_has_word_split(s, i, first, terms_text(w, terms));
    lemma_render_start(a, false);
    if terms.len() > 0 {
        lemma_terms_start(s, i + first.len(), w, terms);
    }
    lemma_term_chain(s, i, w, a, links);
    lemma_expr_terms(s, i + first.len(), w, group_left(a, links), terms);
}

/// A text with the same run of whitespace before and after it: reading
/// starts at the text, and after it only whitespace is left.
proof fn lemma_framed(w: Seq<char>, body: Seq<char>)
    requires
        is_blank(w),
        body.len() > 0,
        !is_ws(body[0]),
    ensures
        has_word(w + body + w, w.len() as int, body),
        skip_ws(w + body + w, 0) == w.len(),
        ends_term(w + body + w, (w.len() + body.len()) as int),
        skip_ws(w + body + w, (w.len() + body.len()) as int) == (w + body + w).len(),
{
    let s = w + body + w;
    let n = w.len() as int;
    let e = n + body.len();
    assert(s.subrange(0, s.len() as int) =~= s);
    lemma_has_word_split(s, 0, w + body, w);
    lemma_has_word_split(s, 0, w, body);
    lemma_skip_blank(s, e, w);
    lemma_skip_ws_at_non_ws(s, s.len() as int);
    lemma_has_word_char(s, e, w, 0);
    lemma_has_word_char(s, n, body, 0);
    lemma_skip_blank(s, 0, w);
    lemma_skip_ws_at_non_ws(s, n);
}

/// A formula written without parentheses (other than those inside its
/// operands) as terms joined by `+` and `-`, each term atoms joined by `*`
/// and `/`, with the same run of whitespace `w` around each operator and
/// around the whole formula, is read back with `*` and `/` binding tighter
/// than `+` and `-`, the operators of each level grouped to the left (so
/// `a - b + c` is `(a - b) + c` and `a / b * c` is `(a / b) * c`), and a
/// prefix minus applying only to the atom it stands before (so `-p + q` is
/// `(-p) + q`).  Whatever whitespace is used, the same tree comes out.
pub proof fn lemma_parse_chain(
    w: Seq<char>,
    a: Syntax,
    links: Seq<(Op, Syntax)>,
    terms: Seq<(Op, Syntax, Seq<(Op, Syntax)>)>,
)
    requires
        is_blank(w),
        is_atom(a),
        multiplicative_links(links),
        additive_terms(terms),
    ensures
        parse_formula(w + (render(a) + links_text(w, links) + terms_text(w, terms)) + w)
            == Ok::<Syntax, int>(group_terms(group_left(a, links), terms)),
{
    let body = render(a) + links_text(w, links) + terms_text(w, terms);
    lemma_render_start(a, false);
    assert(body[0] == render(a)[0]);
    lemma_framed(w, body);
    lemma_chain_at(w + body + w, w.len() as int, w, a, links, terms);
}

} // verus!
