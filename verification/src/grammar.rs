use vstd::prelude::*;

use crate::expression::{Function, Op};

verus! {

// ---------------------------------------------------------------------------
// The grammar of formulas
//
//   formula  = ws expr ws END
//   expr     = term (ws ("+" | "-") ws term)*            left-associative
//   term     = atom (ws ("*" | "/") ws atom)*            left-associative
//   atom     = "-" ws primary | primary
//   primary  = call | number | "#" digit+ | "(" ws expr ws ")"
//   call     = ("COALESCE" | "MIN" | "MAX") ws "(" ws expr (ws "," ws expr)* ws ")"
//   number   = sign? digit+ ("." digit*)? (("e" | "E") sign? digit+)?
//   ws       = (" " | "\t" | "\n" | "\r")*
//
// A prefix minus binds tighter than "*" and "/", which bind tighter than
// "+" and "-".
// ---------------------------------------------------------------------------

/// The syntax tree of a formula.
pub enum Syntax {
    /// A numeric literal, by its text.
    Number(Seq<char>),
    /// A component placeholder, by the number written after `#`.
    Component(nat),
    Negate(Box<Syntax>),
    Binary(Box<Syntax>, Op, Box<Syntax>),
    Call(Function, Seq<Syntax>),
}

pub open spec fn is_ws(c: char) -> bool {
    c == ' ' || c == '\t' || c == '\n' || c == '\r'
}

pub open spec fn is_digit(c: char) -> bool {
    '0' <= c && c <= '9'
}

pub open spec fn is_sign(c: char) -> bool {
    c == '+' || c == '-'
}

/// `s[i] == c`, for a position inside `s`.
pub open spec fn char_at(s: Seq<char>, i: int, c: char) -> bool {
    0 <= i < s.len() && s[i] == c
}

/// The first position at or after `i` that does not hold whitespace.
pub open spec fn skip_ws(s: Seq<char>, i: int) -> int
    decreases s.len() - i,
{
    if 0 <= i < s.len() && is_ws(s[i]) {
        skip_ws(s, i + 1)
    } else {
        i
    }
}

/// The first position at or after `i` that does not hold a digit.
pub open spec fn skip_digits(s: Seq<char>, i: int) -> int
    decreases s.len() - i,
{
    if 0 <= i < s.len() && is_digit(s[i]) {
        skip_digits(s, i + 1)
    } else {
        i
    }
}

/// `s` holds the word `w` at position `i`.
pub open spec fn has_word(s: Seq<char>, i: int, w: Seq<char>) -> bool {
    0 <= i && i + w.len() <= s.len() && s.subrange(i, i + w.len()) == w
}

pub open spec fn word_coalesce() -> Seq<char> {
    seq!['C', 'O', 'A', 'L', 'E', 'S', 'C', 'E']
}

pub open spec fn word_min() -> Seq<char> {
    seq!['M', 'I', 'N']
}

pub open spec fn word_max() -> Seq<char> {
    seq!['M', 'A', 'X']
}

/// Where the number that starts at `i` ends, if one starts there.
pub open spec fn number_end(s: Seq<char>, i: int) -> Option<int> {
    let a = if 0 <= i < s.len() && is_sign(s[i]) {
        i + 1
    } else {
        i
    };
    let b = skip_digits(s, a);
    if b == a {
        None
    } else {
        let c = if char_at(s, b, '.') {
            skip_digits(s, b + 1)
        } else {
            b
        };
        let d = if char_at(s, c, 'e') || char_at(s, c, 'E') {
            let e1 = if 0 <= c + 1 < s.len() && is_sign(s[c + 1]) {
                c + 2
            } else {
                c + 1
            };
            let e2 = skip_digits(s, e1);
            if e2 > e1 {
                e2
            } else {
                c
            }
        } else {
            c
        };
        Some(d)
    }
}

/// The value of a string of decimal digits.
pub open spec fn digits_value(d: Seq<char>) -> nat
    decreases d.len(),
{
    if d.len() == 0 {
        0
    } else {
        digits_value(d.drop_last()) * 10 + ((d.last() as int - '0' as int) as nat)
    }
}

/// A parse that ends at position `j` after starting at `i` has made
/// progress and stayed inside the input.
pub open spec fn advances(s: Seq<char>, i: int, j: int) -> bool {
    i < j <= s.len()
}

/// The additive operator at position `k`, if any.
pub open spec fn additive_at(s: Seq<char>, k: int) -> Option<Op> {
    if char_at(s, k, '+') {
        Some(Op::Add)
    } else if char_at(s, k, '-') {
        Some(Op::Sub)
    } else {
        None
    }
}

/// The multiplicative operator at position `k`, if any.
pub open spec fn multiplicative_at(s: Seq<char>, k: int) -> Option<Op> {
    if char_at(s, k, '*') {
        Some(Op::Mul)
    } else if char_at(s, k, '/') {
        Some(Op::Div)
    } else {
        None
    }
}

pub proof fn lemma_skip_ws(s: Seq<char>, i: int)
    requires
        0 <= i <= s.len(),
    ensures
        i <= skip_ws(s, i) <= s.len(),
    decreases s.len() - i,
{
    if i < s.len() && is_ws(s[i]) {
        lemma_skip_ws(s, i + 1);
    }
}

/// `expr` starting at position `i`: the tree and the position after it, or
/// the position at which the input does not fit the grammar.
pub open spec fn parse_expr(s: Seq<char>, i: int) -> Result<(Syntax, int), int>
    decreases s.len() - i, 5int,
{
    if !(0 <= i <= s.len()) {
        Err(i)
    } else {
        match parse_term(s, i) {
            Ok((t, j)) => if advances(s, i, j) {
                parse_expr_rest(s, t, j)
            } else {
                Err(j)
            },
            Err(e) => Err(e),
        }
    }
}

/// The rest of an `expr` after the terms up to position `j`, which make up
/// `lhs`.
pub open spec fn parse_expr_rest(s: Seq<char>, lhs: Syntax, j: int) -> Result<(Syntax, int), int>
    decreases s.len() - j, 6int,
{
    if !(0 <= j <= s.len()) {
        Err(j)
    } else {
        let k = skip_ws(s, j);
        proof {
            lemma_skip_ws(s, j);
        }
        match additive_at(s, k) {
            Some(op) => {
                let m = skip_ws(s, k + 1);
                proof {
                    lemma_skip_ws(s, k + 1);
                }
                match parse_term(s, m) {
                    Ok((t, q)) => if advances(s, m, q) {
                        parse_expr_rest(s, Syntax::Binary(Box::new(lhs), op, Box::new(t)), q)
                    } else {
                        Err(q)
                    },
                    Err(e) => Err(e),
                }
            },
            None => Ok((lhs, j)),
        }
    }
}

/// `term` starting at position `i`.
pub open spec fn parse_term(s: Seq<char>, i: int) -> Result<(Syntax, int), int>
    decreases s.len() - i, 4int,
{
    if !(0 <= i <= s.len()) {
        Err(i)
    } else {
        match parse_atom(s, i) {
            Ok((t, j)) => if advances(s, i, j) {
                parse_term_rest(s, t, j)
            } else {
                Err(j)
            },
            Err(e) => Err(e),
        }
    }
}

/// The rest of a `term` after the atoms up to position `j`, which make up
/// `lhs`.
pub open spec fn parse_term_rest(s: Seq<char>, lhs: Syntax, j: int) -> Result<(Syntax, int), int>
    decreases s.len() - j, 6int,
{
    if !(0 <= j <= s.len()) {
        Err(j)
    } else {
        let k = skip_ws(s, j);
        proof {
            lemma_skip_ws(s, j);
        }
        match multiplicative_at(s, k) {
            Some(op) => {
                let m = skip_ws(s, k + 1);
                proof {
                    lemma_skip_ws(s, k + 1);
                }
                match parse_atom(s, m) {
                    Ok((t, q)) => if advances(s, m, q) {
                        parse_term_rest(s, Syntax::Binary(Box::new(lhs), op, Box::new(t)), q)
                    } else {
                        Err(q)
                    },
                    Err(e) => Err(e),
                }
            },
            None => Ok((lhs, j)),
        }
    }
}

/// `atom` starting at position `i`.
pub open spec fn parse_atom(s: Seq<char>, i: int) -> Result<(Syntax, int), int>
    decreases s.len() - i, 3int,
{
    if !(0 <= i <= s.len()) {
        Err(i)
    } else if char_at(s, i, '-') {
        let m = skip_ws(s, i + 1);
        proof {
            lemma_skip_ws(s, i + 1);
        }
        match parse_primary(s, m) {
            Ok((t, j)) => Ok((Syntax::Negate(Box::new(t)), j)),
            Err(e) => Err(e),
        }
    } else {
        parse_primary(s, i)
    }
}

/// `primary` starting at position `i`.
pub open spec fn parse_primary(s: Seq<char>, i: int) -> Result<(Syntax, int), int>
    decreases s.len() - i, 2int,
{
    if !(0 <= i <= s.len()) {
        Err(i)
    } else if has_word(s, i, word_coalesce()) {
        parse_call(s, Function::Coalesce, i + 8)
    } else if has_word(s, i, word_min()) {
        parse_call(s, Function::Min, i + 3)
    } else if has_word(s, i, word_max()) {
        parse_call(s, Function::Max, i + 3)
    } else if number_end(s, i) is Some {
        let e = number_end(s, i)->0;
        Ok((Syntax::Number(s.subrange(i, e)), e))
    } else if char_at(s, i, '#') && skip_digits(s, i + 1) > i + 1 {
        let e = skip_digits(s, i + 1);
        Ok((Syntax::Component(digits_value(s.subrange(i + 1, e))), e))
    } else if char_at(s, i, '(') {
        let m = skip_ws(s, i + 1);
        proof {
            lemma_skip_ws(s, i + 1);
        }
        match parse_expr(s, m) {
            Ok((t, j)) => {
                let k = skip_ws(s, j);
                if char_at(s, k, ')') {
                    Ok((t, k + 1))
                } else {
                    Err(k)
                }
            },
            Err(e) => Err(e),
        }
    } else {
        Err(i)
    }
}

/// The argument list of a function call, from position `p`, right after
/// the function's name.
pub open spec fn parse_call(s: Seq<char>, f: Function, p: int) -> Result<(Syntax, int), int>
    decreases s.len() - p, 8int,
{
    if !(0 <= p <= s.len()) {
        Err(p)
    } else {
        let k = skip_ws(s, p);
        proof {
            lemma_skip_ws(s, p);
        }
        if char_at(s, k, '(') {
            let m = skip_ws(s, k + 1);
            proof {
                lemma_skip_ws(s, k + 1);
            }
            match parse_args(s, m) {
                Ok((args, j)) => Ok((Syntax::Call(f, args), j)),
                Err(e) => Err(e),
            }
        } else {
            Err(k)
        }
    }
}

/// The arguments of a call from position `m`, up to and including the
/// closing parenthesis.
pub open spec fn parse_args(s: Seq<char>, m: int) -> Result<(Seq<Syntax>, int), int>
    decreases s.len() - m, 7int,
{
    if !(0 <= m <= s.len()) {
        Err(m)
    } else {
        match parse_expr(s, m) {
            Ok((t, j)) => if advances(s, m, j) {
                let k = skip_ws(s, j);
                proof {
                    lemma_skip_ws(s, j);
                }
                if char_at(s, k, ',') {
                    let n = skip_ws(s, k + 1);
                    proof {
                        lemma_skip_ws(s, k + 1);
                    }
                    match parse_args(s, n) {
                        Ok((rest, q)) => Ok((seq![t] + rest, q)),
                        Err(e) => Err(e),
                    }
                } else if char_at(s, k, ')') {
                    Ok((seq![t], k + 1))
                } else {
                    Err(k)
                }
            } else {
                Err(j)
            },
            Err(e) => Err(e),
        }
    }
}

/// A whole formula: the tree, or the position at which the input stops
/// fitting the grammar.
pub open spec fn parse_formula(s: Seq<char>) -> Result<Syntax, int> {
    let i = skip_ws(s, 0);
    match parse_expr(s, i) {
        Ok((t, j)) => {
            let k = skip_ws(s, j);
            if k == s.len() {
                Ok(t)
            } else {
                Err(k)
            }
        },
        Err(e) => Err(e),
    }
}

// ---------------------------------------------------------------------------
// The executable parser
// ---------------------------------------------------------------------------

/// A syntax tree whose leaves point into the characters of the formula.
pub enum Node {
    /// A numeric literal, from its first character to the position after
    /// its last.
    Number(usize, usize),
    /// A component placeholder: the position of its first digit and the
    /// position after its last.
    Component(usize, usize),
    Negate(Box<Node>),
    Binary(Box<Node>, Op, Box<Node>),
    Call(Function, Vec<Node>),
}

impl Node {
    /// The syntax tree that the node stands for, in the formula `s`.
    pub open spec fn syntax(&self, s: Seq<char>) -> Syntax
        decreases self,
    {
        match self {
            Node::Number(a, b) => Syntax::Number(s.subrange(*a as int, *b as int)),
            Node::Component(a, b) => Syntax::Component(
                digits_value(s.subrange(*a as int, *b as int)),
            ),
            Node::Negate(n) => Syntax::Negate(Box::new(n.syntax(s))),
            Node::Binary(l, op, r) => Syntax::Binary(Box::new(l.syntax(s)), *op, Box::new(r.syntax(s))),
            Node::Call(f, args) => Syntax::Call(*f, syntaxes_of(args@, s)),
        }
    }
}

/// The digits of a component placeholder.
pub open spec fn all_digits(s: Seq<char>, a: int, b: int) -> bool {
    forall|k: int| a <= k < b ==> #[trigger] is_digit(s[k])
}

impl Node {
    /// Every leaf points to a stretch of `s`, and a placeholder's stretch
    /// holds digits only.
    pub open spec fn wf(&self, s: Seq<char>) -> bool
        decreases self,
    {
        match self {
            Node::Number(a, b) => *a <= *b <= s.len(),
            Node::Component(a, b) => *a <= *b <= s.len() && all_digits(s, *a as int, *b as int),
            Node::Negate(n) => n.wf(s),
            Node::Binary(l, _, r) => l.wf(s) && r.wf(s),
            Node::Call(_, args) => wf_all(args@, s),
        }
    }
}

/// Every node of the list is well formed.
pub open spec fn wf_all(nodes: Seq<Node>, s: Seq<char>) -> bool
    decreases nodes,
{
    nodes.len() == 0 || (nodes[0].wf(s) && wf_all(nodes.drop_first(), s))
}

pub proof fn lemma_wf_all(nodes: Seq<Node>, s: Seq<char>, i: int)
    requires
        wf_all(nodes, s),
        0 <= i < nodes.len(),
    ensures
        nodes[i].wf(s),
    decreases i,
{
    if i > 0 {
        lemma_wf_all(nodes.drop_first(), s, i - 1);
    }
}

pub proof fn lemma_wf_all_push(nodes: Seq<Node>, s: Seq<char>, n: Node)
    requires
        wf_all(nodes, s),
        n.wf(s),
    ensures
        wf_all(nodes.push(n), s),
    decreases nodes.len(),
{
    if nodes.len() > 0 {
        lemma_wf_all_push(nodes.drop_first(), s, n);
        assert(nodes.push(n).drop_first() =~= nodes.drop_first().push(n));
    } else {
        assert(nodes.push(n).drop_first() =~= nodes);
    }
}

/// The syntax trees of a list of nodes.
pub open spec fn syntaxes_of(nodes: Seq<Node>, s: Seq<char>) -> Seq<Syntax>
    decreases nodes,
{
    Seq::new(
        nodes.len(),
        |i: int|
            if 0 <= i < nodes.len() {
                nodes[i].syntax(s)
            } else {
                Syntax::Number(seq![])
            },
    )
}

pub proof fn lemma_syntaxes_of(nodes: Seq<Node>, s: Seq<char>)
    ensures
        syntaxes_of(nodes, s).len() == nodes.len(),
        forall|i: int|
            0 <= i < nodes.len() ==> #[trigger] syntaxes_of(nodes, s)[i] == nodes[i].syntax(s),
{
}

/// The executable parse `r` gives what the grammar gives, `spec`.
pub open spec fn agrees(
    r: Result<(Node, usize), usize>,
    spec: Result<(Syntax, int), int>,
    s: Seq<char>,
) -> bool {
    match (r, spec) {
        (Ok((n, j)), Ok((t, k))) => n.syntax(s) == t && j == k && n.wf(s),
        (Err(a), Err(b)) => a == b,
        _ => false,
    }
}

pub proof fn lemma_skip_digits(s: Seq<char>, i: int)
    requires
        0 <= i <= s.len(),
    ensures
        i <= skip_digits(s, i) <= s.len(),
        all_digits(s, i, skip_digits(s, i)),
    decreases s.len() - i,
{
    if i < s.len() && is_digit(s[i]) {
        lemma_skip_digits(s, i + 1);
    }
}

fn skip_ws_at(s: &[char], i: usize) -> (r: usize)
    requires
        i <= s@.len(),
    ensures
        r == skip_ws(s@, i as int),
        i <= r <= s@.len(),
{
    let mut j = i;
    while j < s.len() && (s[j] == ' ' || s[j] == '\t' || s[j] == '\n' || s[j] == '\r')
        invariant
            i <= j <= s@.len(),
            skip_ws(s@, i as int) == skip_ws(s@, j as int),
        decreases s@.len() - j,
    {
        j = j + 1;
    }
    j
}

fn skip_digits_at(s: &[char], i: usize) -> (r: usize)
    requires
        i <= s@.len(),
    ensures
        r == skip_digits(s@, i as int),
        i <= r <= s@.len(),
{
    let mut j = i;
    while j < s.len() && ('0' <= s[j] && s[j] <= '9')
        invariant
            i <= j <= s@.len(),
            skip_digits(s@, i as int) == skip_digits(s@, j as int),
        decreases s@.len() - j,
    {
        j = j + 1;
    }
    j
}

fn has_word_at(s: &[char], i: usize, w: &[char]) -> (r: bool)
    requires
        i <= s@.len(),
    ensures
        r == has_word(s@, i as int, w@),
{
    if w.len() > s.len() - i {
        return false;
    }
    let mut k: usize = 0;
    while k < w.len()
        invariant
            i + w@.len() <= s@.len(),
            s@.len() == s.len(),
            k <= w@.len(),
            forall|m: int| 0 <= m < k ==> s@[i + m] == w@[m],
        decreases w@.len() - k,
    {
        if s[i + k] != w[k] {
            assert(s@.subrange(i as int, i + w@.len())[k as int] != w@[k as int]);
            return false;
        }
        k = k + 1;
    }
    assert(s@.subrange(i as int, i + w@.len()) =~= w@);
    true
}

fn number_end_at(s: &[char], i: usize) -> (r: Option<usize>)
    requires
        i <= s@.len(),
    ensures
        match (r, number_end(s@, i as int)) {
            (Some(a), Some(b)) => a == b && i < a <= s@.len(),
            (None, None) => true,
            _ => false,
        },
{
    let a = if i < s.len() && (s[i] == '+' || s[i] == '-') {
        i + 1
    } else {
        i
    };
    let b = skip_digits_at(s, a);
    if b == a {
        return None;
    }
    let c = if b < s.len() && s[b] == '.' {
        skip_digits_at(s, b + 1)
    } else {
        b
    };
    let d = if c < s.len() && (s[c] == 'e' || s[c] == 'E') {
        let e1 = if c + 1 < s.len() && (s[c + 1] == '+' || s[c + 1] == '-') {
            c + 2
        } else {
            c + 1
        };
        let e2 = skip_digits_at(s, e1);
        if e2 > e1 {
            e2
        } else {
            c
        }
    } else {
        c
    };
    Some(d)
}

/// A slice's length fits in a `usize`.
proof fn lemma_len_fits(s: &[char])
    ensures
        s@.len() <= usize::MAX,
{
    assert(s@.len() == s.len());
}

fn additive_op_at(s: &[char], k: usize) -> (r: Option<Op>)
    ensures
        r == additive_at(s@, k as int),
{
    if k < s.len() && s[k] == '+' {
        Some(Op::Add)
    } else if k < s.len() && s[k] == '-' {
        Some(Op::Sub)
    } else {
        None
    }
}

fn multiplicative_op_at(s: &[char], k: usize) -> (r: Option<Op>)
    ensures
        r == multiplicative_at(s@, k as int),
{
    if k < s.len() && s[k] == '*' {
        Some(Op::Mul)
    } else if k < s.len() && s[k] == '/' {
        Some(Op::Div)
    } else {
        None
    }
}

fn is_char_at(s: &[char], k: usize, c: char) -> (r: bool)
    ensures
        r == char_at(s@, k as int, c),
{
    k < s.len() && s[k] == c
}

fn expr_at(s: &[char], i: usize) -> (r: Result<(Node, usize), usize>)
    requires
        i <= s@.len(),
    ensures
        agrees(r, parse_expr(s@, i as int), s@),
    decreases s@.len() - i, 5int,
{
    match term_at(s, i) {
        Ok((t, j)) => if i < j && j <= s.len() {
            expr_rest_at(s, t, j)
        } else {
            Err(j)
        },
        Err(e) => Err(e),
    }
}

fn expr_rest_at(s: &[char], lhs: Node, j: usize) -> (r: Result<(Node, usize), usize>)
    requires
        j <= s@.len(),
        lhs.wf(s@),
    ensures
        agrees(r, parse_expr_rest(s@, lhs.syntax(s@), j as int), s@),
    decreases s@.len() - j, 6int,
{
    proof {
        lemma_len_fits(s);
    }
    let k = skip_ws_at(s, j);
    match additive_op_at(s, k) {
        Some(op) => {
            let m = skip_ws_at(s, k + 1);
            match term_at(s, m) {
                Ok((t, q)) => if m < q && q <= s.len() {
                    let ghost joined = Syntax::Binary(Box::new(lhs.syntax(s@)), op, Box::new(t.syntax(s@)));
                    let node = Node::Binary(Box::new(lhs), op, Box::new(t));
                    assert(node.syntax(s@) == joined);
                    expr_rest_at(s, node, q)
                } else {
                    Err(q)
                },
                Err(e) => Err(e),
            }
        },
        None => Ok((lhs, j)),
    }
}

fn term_at(s: &[char], i: usize) -> (r: Result<(Node, usize), usize>)
    requires
        i <= s@.len(),
    ensures
        agrees(r, parse_term(s@, i as int), s@),
    decreases s@.len() - i, 4int,
{
    match atom_at(s, i) {
        Ok((t, j)) => if i < j && j <= s.len() {
            term_rest_at(s, t, j)
        } else {
            Err(j)
        },
        Err(e) => Err(e),
    }
}

fn term_rest_at(s: &[char], lhs: Node, j: usize) -> (r: Result<(Node, usize), usize>)
    requires
        j <= s@.len(),
        lhs.wf(s@),
    ensures
        agrees(r, parse_term_rest(s@, lhs.syntax(s@), j as int), s@),
    decreases s@.len() - j, 6int,
{
    proof {
        lemma_len_fits(s);
    }
    let k = skip_ws_at(s, j);
    match multiplicative_op_at(s, k) {
        Some(op) => {
            let m = skip_ws_at(s, k + 1);
            match atom_at(s, m) {
                Ok((t, q)) => if m < q && q <= s.len() {
                    let ghost joined = Syntax::Binary(Box::new(lhs.syntax(s@)), op, Box::new(t.syntax(s@)));
                    let node = Node::Binary(Box::new(lhs), op, Box::new(t));
                    assert(node.syntax(s@) == joined);
                    term_rest_at(s, node, q)
                } else {
                    Err(q)
                },
                Err(e) => Err(e),
            }
        },
        None => Ok((lhs, j)),
    }
}

fn atom_at(s: &[char], i: usize) -> (r: Result<(Node, usize), usize>)
    requires
        i <= s@.len(),
    ensures
        agrees(r, parse_atom(s@, i as int), s@),
    decreases s@.len() - i, 3int,
{
    proof {
        lemma_len_fits(s);
    }
    if is_char_at(s, i, '-') {
        let m = skip_ws_at(s, i + 1);
        match primary_at(s, m) {
            Ok((t, j)) => Ok((Node::Negate(Box::new(t)), j)),
            Err(e) => Err(e),
        }
    } else {
        primary_at(s, i)
    }
}

fn primary_at(s: &[char], i: usize) -> (r: Result<(Node, usize), usize>)
    requires
        i <= s@.len(),
    ensures
        agrees(r, parse_primary(s@, i as int), s@),
    decreases s@.len() - i, 2int,
{
    proof {
        lemma_len_fits(s);
    }
    let coalesce = ['C', 'O', 'A', 'L', 'E', 'S', 'C', 'E'];
    let min = ['M', 'I', 'N'];
    let max = ['M', 'A', 'X'];
    assert(coalesce@ =~= word_coalesce());
    assert(min@ =~= word_min());
    assert(max@ =~= word_max());
    if has_word_at(s, i, coalesce.as_slice()) {
        return call_at(s, Function::Coalesce, i + 8);
    }
    if has_word_at(s, i, min.as_slice()) {
        return call_at(s, Function::Min, i + 3);
    }
    if has_word_at(s, i, max.as_slice()) {
        return call_at(s, Function::Max, i + 3);
    }
    match number_end_at(s, i) {
        Some(e) => {
            return Ok((Node::Number(i, e), e));
        },
        None => {},
    }
    if is_char_at(s, i, '#') {
        let e = skip_digits_at(s, i + 1);
        proof {
            lemma_skip_digits(s@, i + 1);
        }
        if e > i + 1 {
            return Ok((Node::Component(i + 1, e), e));
        }
    }
    if is_char_at(s, i, '(') {
        let m = skip_ws_at(s, i + 1);
        match expr_at(s, m) {
            Ok((t, j)) => {
                if j > s.len() {
                    return Err(j);
                }
                let k = skip_ws_at(s, j);
                if is_char_at(s, k, ')') {
                    Ok((t, k + 1))
                } else {
                    Err(k)
                }
            },
            Err(e) => Err(e),
        }
    } else {
        Err(i)
    }
}

fn call_at(s: &[char], f: Function, p: usize) -> (r: Result<(Node, usize), usize>)
    requires
        p <= s@.len(),
    ensures
        agrees(r, parse_call(s@, f, p as int), s@),
    decreases s@.len() - p, 8int,
{
    proof {
        lemma_len_fits(s);
    }
    let k = skip_ws_at(s, p);
    if is_char_at(s, k, '(') {
        let m = skip_ws_at(s, k + 1);
        let mut args: Vec<Node> = Vec::new();
        match args_at(s, m, &mut args) {
            Ok(j) => {
                proof {
                    lemma_syntaxes_of(args@, s@);
                }
                Ok((Node::Call(f, args), j))
            },
            Err(e) => Err(e),
        }
    } else {
        Err(k)
    }
}

fn args_at(s: &[char], m: usize, out: &mut Vec<Node>) -> (r: Result<usize, usize>)
    requires
        m <= s@.len(),
        wf_all(old(out)@, s@),
    ensures
        match (r, parse_args(s@, m as int)) {
            (Ok(j), Ok((args, k))) => j == k && syntaxes_of(final(out)@, s@) == syntaxes_of(old(out)@, s@) + args
                && wf_all(final(out)@, s@),
            (Err(a), Err(b)) => a == b,
            _ => false,
        },
    decreases s@.len() - m, 7int,
{
    match expr_at(s, m) {
        Ok((t, j)) => if m < j && j <= s.len() {
            let k = skip_ws_at(s, j);
            let ghost before = syntaxes_of(out@, s@);
            let ghost ts = t.syntax(s@);
            proof {
                lemma_syntaxes_of(out@, s@);
            }
            proof {
                lemma_wf_all_push(out@, s@, t);
            }
            out.push(t);
            proof {
                lemma_syntaxes_of(out@, s@);
                assert(syntaxes_of(out@, s@) =~= before + seq![ts]);
            }
            if is_char_at(s, k, ',') {
                let n = skip_ws_at(s, k + 1);
                let r = args_at(s, n, out);
                proof {
                    match (r, parse_args(s@, n as int)) {
                        (Ok(_), Ok((rest, _))) => {
                            assert(before + seq![ts] + rest =~= before + (seq![ts] + rest));
                        },
                        _ => {},
                    }
                }
                r
            } else if is_char_at(s, k, ')') {
                Ok(k + 1)
            } else {
                Err(k)
            }
        } else {
            Err(j)
        },
        Err(e) => Err(e),
    }
}

/// Parses a whole formula, given as its characters.
pub fn parse_chars(s: &[char]) -> (r: Result<Node, usize>)
    ensures
        match (r, parse_formula(s@)) {
            (Ok(n), Ok(t)) => n.syntax(s@) == t && n.wf(s@),
            (Err(a), Err(b)) => a == b,
            _ => false,
        },
{
    let i = skip_ws_at(s, 0);
    match expr_at(s, i) {
        Ok((t, j)) => {
            if j > s.len() {
                return Err(j);
            }
            let k = skip_ws_at(s, j);
            if k == s.len() {
                Ok(t)
            } else {
                Err(k)
            }
        },
        Err(e) => Err(e),
    }
}

} // verus!
