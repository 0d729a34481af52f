use vstd::prelude::*;
use vstd::slice::slice_subrange;
use vstd::string::{StrSliceExecFns, StringExecFns};

use crate::error::FormulaError;
use crate::expression::{lemma_models_of, lemma_streams_of_push, models_of, streams_of, Expr, Formula};
use crate::grammar::{
    all_digits, digits_value, is_digit, lemma_syntaxes_of, lemma_wf_all, parse_chars, parse_formula,
    syntaxes_of, wf_all, Node, Syntax,
};
use crate::text::{decimal, text_with_number};
use crate::traits::{MetricStreamFetcher, NumberLike};

verus! {

// ---------------------------------------------------------------------------
// From syntax trees to expressions
// ---------------------------------------------------------------------------

/// What the number type makes of the literal `text`: the number, or the
/// text that says why it is refused.
pub open spec fn number_result<T: NumberLike>(text: Seq<char>) -> Result<T, String> {
    T::spec_parse_number(choose|s: &[char]| s@ == text)
}

/// [`number_result`] is what `parse_number` gives on any slice of the
/// literal's characters.
pub proof fn lemma_number_result<T: NumberLike>(text: &[char])
    ensures
        number_result::<T>(text@) == T::spec_parse_number(text),
{
    assert(exists|s: &[char]| s@ == text@) by {
        assert(text@ == text@);
    }
    let c = choose|s: &[char]| s@ == text@;
    assert(c =~= text);
}

/// `f` is a formula that the syntax tree `t` denotes with numbers of type
/// `T`: every literal has become the value that `T` reads it as, every
/// placeholder its component id, and the rest of the tree is kept.
pub open spec fn denotes<T: NumberLike>(t: Syntax, f: Formula<T>) -> bool
    decreases t,
{
    match t {
        Syntax::Number(text) => f matches Formula::Value(Some(v)) && number_result::<T>(text) == Ok::<
            T,
            String,
        >(v),
        Syntax::Component(n) => f == Formula::<T>::Component(n as usize) && n <= usize::MAX,
        Syntax::Negate(a) => match f {
            Formula::UnaryMinus(g) => denotes(*a, *g),
            _ => false,
        },
        Syntax::Binary(a, op, b) => match f {
            Formula::Op(x, o, y) => o == op && denotes(*a, *x) && denotes(*b, *y),
            _ => false,
        },
        Syntax::Call(func, args) => match f {
            Formula::Function(g, fs) => g == func && denotes_each(args, fs),
            _ => false,
        },
    }
}

/// [`denotes`], tree by tree.
pub open spec fn denotes_each<T: NumberLike>(ts: Seq<Syntax>, fs: Seq<Formula<T>>) -> bool
    decreases ts,
{
    if ts.len() == 0 {
        fs.len() == 0
    } else {
        fs.len() > 0 && denotes(ts[0], fs[0]) && denotes_each(ts.drop_first(), fs.drop_first())
    }
}

/// The literals and placeholders of a syntax tree, in the order written.
pub open spec fn leaves(t: Syntax) -> Seq<Syntax>
    decreases t,
{
    match t {
        Syntax::Number(_) => seq![t],
        Syntax::Component(_) => seq![t],
        Syntax::Negate(a) => leaves(*a),
        Syntax::Binary(a, _, b) => leaves(*a) + leaves(*b),
        Syntax::Call(_, args) => leaves_of(args),
    }
}

/// The leaves of a list of trees, one tree after the other.
pub open spec fn leaves_of(ts: Seq<Syntax>) -> Seq<Syntax>
    decreases ts,
{
    if ts.len() == 0 {
        seq![]
    } else {
        leaves(ts[0]) + leaves_of(ts.drop_first())
    }
}

pub open spec fn invalid_number_prefix() -> Seq<char> {
    "Invalid number: "@
}

pub open spec fn too_large_id_text() -> Seq<char> {
    "Invalid component id: number too large to fit in target type"@
}

pub open spec fn unknown_component_text(id: nat) -> Seq<char> {
    "Unknown component id: "@ + decimal(id)
}

pub open spec fn syntax_error_text(pos: nat) -> Seq<char> {
    "Invalid formula: unexpected input at position "@ + decimal(pos)
}

/// The fetcher state after the leaf `x` was built from state `m`: a
/// placeholder whose id fits a `usize` asks the fetcher for it.
pub open spec fn after_leaf<T, S, M: MetricStreamFetcher<T, S>>(x: Syntax, m: M) -> M {
    match x {
        Syntax::Component(n) => if n <= usize::MAX {
            m.spec_fetch(n as usize).0
        } else {
            m
        },
        _ => m,
    }
}

/// The leaf `x` is built from fetcher state `m`: a literal that the number
/// type reads, or a placeholder whose id fits and for which `m` answers
/// with a stream.
pub open spec fn leaf_builds<T: NumberLike, S, M: MetricStreamFetcher<T, S>>(
    x: Syntax,
    m: M,
) -> bool {
    match x {
        Syntax::Number(text) => number_result::<T>(text) is Ok,
        Syntax::Component(n) => n <= usize::MAX && m.spec_fetch(n as usize).1 is Some,
        _ => true,
    }
}

/// `msg` is the error of building the leaf `x` from fetcher state `m`: a
/// literal that the number type refuses, an id too large for a `usize`,
/// or an id for which `m` answers with no stream.
pub open spec fn leaf_fails<T: NumberLike, S, M: MetricStreamFetcher<T, S>>(
    x: Syntax,
    m: M,
    msg: Seq<char>,
) -> bool {
    match x {
        Syntax::Number(text) => number_result::<T>(text) matches Err(d) && msg
            == invalid_number_prefix() + d@,
        Syntax::Component(n) => if n > usize::MAX {
            msg == too_large_id_text()
        } else {
            m.spec_fetch(n as usize).1 is None && msg == unknown_component_text(n)
        },
        _ => false,
    }
}

/// The fetcher state after the leaves `xs` were built in order from `m`.
pub open spec fn after_leaves<T, S, M: MetricStreamFetcher<T, S>>(xs: Seq<Syntax>, m: M) -> M
    decreases xs.len(),
{
    if xs.len() == 0 {
        m
    } else {
        after_leaves::<T, S, M>(xs.drop_first(), after_leaf::<T, S, M>(xs[0], m))
    }
}

/// Each leaf of `xs` is built, from the state that the ones before it
/// left the fetcher in.
pub open spec fn leaves_build<T: NumberLike, S, M: MetricStreamFetcher<T, S>>(
    xs: Seq<Syntax>,
    m: M,
) -> bool
    decreases xs.len(),
{
    xs.len() == 0 || (leaf_builds::<T, S, M>(xs[0], m) && leaves_build::<T, S, M>(
        xs.drop_first(),
        after_leaf::<T, S, M>(xs[0], m),
    ))
}

/// The streams that the fetcher hands out for the placeholders among `xs`,
/// built in order from `m`.
pub open spec fn fetched<T, S, M: MetricStreamFetcher<T, S>>(xs: Seq<Syntax>, m: M) -> Seq<S>
    decreases xs.len(),
{
    if xs.len() == 0 {
        seq![]
    } else {
        let rest = fetched::<T, S, M>(xs.drop_first(), after_leaf::<T, S, M>(xs[0], m));
        match xs[0] {
            Syntax::Component(n) => seq![m.spec_fetch(n as usize).1->0] + rest,
            _ => rest,
        }
    }
}

/// `msg` is the error of the `k`-th leaf of `t`: the leaves before it were
/// built in order from fetcher state `m`, and it fails from the state they
/// left.
pub open spec fn is_error_of_leaf<T: NumberLike, S, M: MetricStreamFetcher<T, S>>(
    t: Syntax,
    k: int,
    msg: Seq<char>,
    m: M,
) -> bool {
    &&& 0 <= k < leaves(t).len()
    &&& leaves_build::<T, S, M>(leaves(t).take(k), m)
    &&& leaf_fails::<T, S, M>(leaves(t)[k], after_leaves::<T, S, M>(leaves(t).take(k), m), msg)
}

/// `msg` is the error of the first leaf of `t` that fails when the leaves
/// are built in order from fetcher state `m`.
pub open spec fn is_leaf_error<T: NumberLike, S, M: MetricStreamFetcher<T, S>>(
    t: Syntax,
    msg: Seq<char>,
    m: M,
) -> bool {
    exists|k: int| #[trigger] is_error_of_leaf::<T, S, M>(t, k, msg, m)
}

/// All leaves of `t` were built in order from fetcher state `m`, leaving
/// it in state `m2`; `streams` are the streams handed out, in order.
pub open spec fn built_from<T: NumberLike, S, M: MetricStreamFetcher<T, S>>(
    t: Syntax,
    m: M,
    m2: M,
    streams: Seq<S>,
) -> bool {
    &&& leaves_build::<T, S, M>(leaves(t), m)
    &&& m2 == after_leaves::<T, S, M>(leaves(t), m)
    &&& streams == fetched::<T, S, M>(leaves(t), m)
}

/// Building the tree `t` from fetcher state `m`, as the parser does: the
/// state it leaves the fetcher in, and whether it succeeds.  Both operands
/// of an operator are built, the right one also after the left one failed;
/// the arguments of a call are built up to the first that fails.
pub open spec fn build_outcome<T: NumberLike, S, M: MetricStreamFetcher<T, S>>(
    t: Syntax,
    m: M,
) -> (M, bool)
    decreases t,
{
    match t {
        Syntax::Number(text) => (m, number_result::<T>(text) is Ok),
        Syntax::Component(n) => if n > usize::MAX {
            (m, false)
        } else {
            (m.spec_fetch(n as usize).0, m.spec_fetch(n as usize).1 is Some)
        },
        Syntax::Negate(a) => build_outcome::<T, S, M>(*a, m),
        Syntax::Binary(a, _, b) => {
            let (m1, ok_a) = build_outcome::<T, S, M>(*a, m);
            let (m2, ok_b) = build_outcome::<T, S, M>(*b, m1);
            (m2, ok_a && ok_b)
        },
        Syntax::Call(_, args) => build_args_outcome::<T, S, M>(args, m),
    }
}

/// Building the arguments `ts` of a call in order from fetcher state `m`,
/// up to the first that fails.
pub open spec fn build_args_outcome<T: NumberLike, S, M: MetricStreamFetcher<T, S>>(
    ts: Seq<Syntax>,
    m: M,
) -> (M, bool)
    decreases ts,
{
    if ts.len() == 0 {
        (m, true)
    } else {
        let (m1, ok) = build_outcome::<T, S, M>(ts[0], m);
        if ok {
            build_args_outcome::<T, S, M>(ts.drop_first(), m1)
        } else {
            (m1, false)
        }
    }
}

proof fn lemma_leaves_concat<T: NumberLike, S, M: MetricStreamFetcher<T, S>>(
    a: Seq<Syntax>,
    b: Seq<Syntax>,
    m: M,
)
    ensures
        after_leaves::<T, S, M>(a + b, m) == after_leaves::<T, S, M>(
            b,
            after_leaves::<T, S, M>(a, m),
        ),
        leaves_build::<T, S, M>(a + b, m) == (leaves_build::<T, S, M>(a, m)
            && leaves_build::<T, S, M>(b, after_leaves::<T, S, M>(a, m))),
        fetched::<T, S, M>(a + b, m) == fetched::<T, S, M>(a, m) + fetched::<T, S, M>(
            b,
            after_leaves::<T, S, M>(a, m),
        ),
    decreases a.len(),
{
    if a.len() == 0 {
        assert(a + b =~= b);
        assert(fetched::<T, S, M>(a, m) + fetched::<T, S, M>(b, m) =~= fetched::<T, S, M>(b, m));
    } else {
        assert((a + b).drop_first() =~= a.drop_first() + b);
        assert((a + b)[0] == a[0]);
        let m1 = after_leaf::<T, S, M>(a[0], m);
        lemma_leaves_concat::<T, S, M>(a.drop_first(), b, m1);
        let fa = fetched::<T, S, M>(a.drop_first(), m1);
        let fb = fetched::<T, S, M>(b, after_leaves::<T, S, M>(a, m));
        match a[0] {
            Syntax::Component(n) => {
                assert(seq![m.spec_fetch(n as usize).1->0] + (fa + fb) =~= seq![
                    m.spec_fetch(n as usize).1->0,
                ] + fa + fb);
            },
            _ => {},
        }
    }
}

/// An error of `b`'s leaf `k` from the state that the leaves `a` left is
/// one of `t`'s leaf `a.len() + k`, where `t`'s leaves are `a`, then `b`'s,
/// then `c`, and the leaves `a` were built.
proof fn lemma_error_shifts<T: NumberLike, S, M: MetricStreamFetcher<T, S>>(
    t: Syntax,
    a: Seq<Syntax>,
    b: Syntax,
    c: Seq<Syntax>,
    k: int,
    msg: Seq<char>,
    m: M,
)
    requires
        leaves(t) == a + leaves(b) + c,
        leaves_build::<T, S, M>(a, m),
        is_error_of_leaf::<T, S, M>(b, k, msg, after_leaves::<T, S, M>(a, m)),
    ensures
        is_error_of_leaf::<T, S, M>(t, a.len() + k, msg, m),
{
    let lb = leaves(b);
    assert(leaves(t)[a.len() + k] == lb[k]);
    assert(leaves(t).take(a.len() + k) =~= a + lb.take(k));
    lemma_leaves_concat::<T, S, M>(a, lb.take(k), m);
}

/// A tree whose leaves are those of `a` and then `b` is built when both are.
proof fn lemma_built_concat<T: NumberLike, S, M: MetricStreamFetcher<T, S>>(
    t: Syntax,
    a: Syntax,
    b: Syntax,
    m0: M,
    m1: M,
    m2: M,
    sa: Seq<S>,
    sb: Seq<S>,
)
    requires
        leaves(t) == leaves(a) + leaves(b),
        built_from::<T, S, M>(a, m0, m1, sa),
        built_from::<T, S, M>(b, m1, m2, sb),
    ensures
        built_from::<T, S, M>(t, m0, m2, sa + sb),
{
    lemma_leaves_concat::<T, S, M>(leaves(a), leaves(b), m0);
}

/// A leaf among leaves that were built was built from the state that the
/// leaves before it left.
proof fn lemma_built_leaf<T: NumberLike, S, M: MetricStreamFetcher<T, S>>(
    xs: Seq<Syntax>,
    m: M,
    j: int,
)
    requires
        leaves_build::<T, S, M>(xs, m),
        0 <= j < xs.len(),
    ensures
        leaf_builds::<T, S, M>(xs[j], after_leaves::<T, S, M>(xs.take(j), m)),
{
    assert(xs =~= xs.take(j) + xs.skip(j));
    lemma_leaves_concat::<T, S, M>(xs.take(j), xs.skip(j), m);
    assert(xs.skip(j)[0] == xs[j]);
}

/// The failing leaf, and so the error, of a build is determined by the tree
/// and the fetcher's state.
pub proof fn lemma_leaf_error_unique<T: NumberLike, S, M: MetricStreamFetcher<T, S>>(
    t: Syntax,
    m: M,
    msg1: Seq<char>,
    msg2: Seq<char>,
)
    requires
        is_leaf_error::<T, S, M>(t, msg1, m),
        is_leaf_error::<T, S, M>(t, msg2, m),
    ensures
        msg1 == msg2,
{
    let k1 = choose|k: int| is_error_of_leaf::<T, S, M>(t, k, msg1, m);
    let k2 = choose|k: int| is_error_of_leaf::<T, S, M>(t, k, msg2, m);
    let xs = leaves(t);
    if k1 < k2 {
        lemma_built_leaf::<T, S, M>(xs.take(k2), m, k1);
        assert(xs.take(k2).take(k1) =~= xs.take(k1));
        assert(xs.take(k2)[k1] == xs[k1]);
    } else if k2 < k1 {
        lemma_built_leaf::<T, S, M>(xs.take(k1), m, k2);
        assert(xs.take(k1).take(k2) =~= xs.take(k2));
        assert(xs.take(k1)[k2] == xs[k2]);
    }
}

/// The formula that a tree denotes is determined by the tree.
pub proof fn lemma_denotes_unique<T: NumberLike>(t: Syntax, f1: Formula<T>, f2: Formula<T>)
    requires
        denotes(t, f1),
        denotes(t, f2),
    ensures
        f1 == f2,
    decreases t,
{
    match t {
        Syntax::Negate(a) => {
            lemma_denotes_unique(*a, *f1->UnaryMinus_0, *f2->UnaryMinus_0);
        },
        Syntax::Binary(a, _, b) => {
            lemma_denotes_unique(*a, *f1->Op_0, *f2->Op_0);
            lemma_denotes_unique(*b, *f1->Op_2, *f2->Op_2);
        },
        Syntax::Call(_, args) => {
            lemma_denotes_each_unique(args, f1->Function_1, f2->Function_1);
        },
        _ => {},
    }
}

proof fn lemma_denotes_each_unique<T: NumberLike>(
    ts: Seq<Syntax>,
    fs1: Seq<Formula<T>>,
    fs2: Seq<Formula<T>>,
)
    requires
        denotes_each(ts, fs1),
        denotes_each(ts, fs2),
    ensures
        fs1 == fs2,
    decreases ts,
{
    if ts.len() > 0 {
        lemma_denotes_unique(ts[0], fs1[0], fs2[0]);
        lemma_denotes_each_unique(ts.drop_first(), fs1.drop_first(), fs2.drop_first());
        assert(fs1.len() == fs1.drop_first().len() + 1);
        assert(fs2.len() == fs2.drop_first().len() + 1);
        assert forall|i: int| 0 <= i < fs1.len() implies #[trigger] fs1[i] == fs2[i] by {
            if i > 0 {
                assert(fs1[i] == fs1.drop_first()[i - 1]);
                assert(fs2[i] == fs2.drop_first()[i - 1]);
            }
        }
        assert(fs1 =~= fs2);
    }
}

/// The leaves of two lists of trees, one after the other.
proof fn lemma_leaves_of_append(xs: Seq<Syntax>, ys: Seq<Syntax>)
    ensures
        leaves_of(xs + ys) == leaves_of(xs) + leaves_of(ys),
    decreases xs.len(),
{
    if xs.len() == 0 {
        assert(xs + ys =~= ys);
    } else {
        assert((xs + ys).drop_first() =~= xs.drop_first() + ys);
        assert((xs + ys)[0] == xs[0]);
        lemma_leaves_of_append(xs.drop_first(), ys);
        assert(leaves(xs[0]) + (leaves_of(xs.drop_first()) + leaves_of(ys)) =~= leaves(xs[0])
            + leaves_of(xs.drop_first()) + leaves_of(ys));
    }
}

proof fn lemma_denotes_each<T: NumberLike>(ts: Seq<Syntax>, fs: Seq<Formula<T>>)
    requires
        ts.len() == fs.len(),
        forall|j: int| 0 <= j < ts.len() ==> denotes(#[trigger] ts[j], fs[j]),
    ensures
        denotes_each(ts, fs),
    decreases ts.len(),
{
    if ts.len() > 0 {
        assert forall|j: int| 0 <= j < ts.drop_first().len() implies denotes(
            #[trigger] ts.drop_first()[j],
            fs.drop_first()[j],
        ) by {
            assert(ts.drop_first()[j] == ts[j + 1]);
        }
        lemma_denotes_each(ts.drop_first(), fs.drop_first());
    }
}

proof fn lemma_digits_value_grows(s: Seq<char>, a: int, k: int, b: int)
    requires
        0 <= a <= k <= b <= s.len(),
        all_digits(s, a, b),
    ensures
        digits_value(s.subrange(a, k)) <= digits_value(s.subrange(a, b)),
    decreases b - k,
{
    if k < b {
        lemma_digits_value_grows(s, a, k, b - 1);
        assert(s.subrange(a, b).drop_last() =~= s.subrange(a, b - 1));
        assert(is_digit(s[b - 1]));
    }
}

/// The value of the digits `s[a..b]`, if it fits a `usize`.
fn digits_to_usize(s: &[char], a: usize, b: usize) -> (r: Option<usize>)
    requires
        a <= b <= s@.len(),
        all_digits(s@, a as int, b as int),
    ensures
        r == (if digits_value(s@.subrange(a as int, b as int)) <= usize::MAX {
            Some(digits_value(s@.subrange(a as int, b as int)) as usize)
        } else {
            None
        }),
{
    let mut acc: usize = 0;
    let mut k = a;
    assert(s@.subrange(a as int, a as int) =~= Seq::<char>::empty());
    while k < b
        invariant
            a <= k <= b <= s@.len(),
            all_digits(s@, a as int, b as int),
            acc == digits_value(s@.subrange(a as int, k as int)),
        decreases b - k,
    {
        let c = s[k];
        assert(is_digit(s@[k as int]));
        let d = (c as u32 - '0' as u32) as usize;
        assert(s@.subrange(a as int, k + 1).drop_last() =~= s@.subrange(a as int, k as int));
        assert(s@.subrange(a as int, k + 1).last() == c);
        match acc.checked_mul(10) {
            Some(m) => match m.checked_add(d) {
                Some(v) => {
                    acc = v;
                },
                None => {
                    proof {
                        lemma_digits_value_grows(s@, a as int, k + 1, b as int);
                    }
                    return None;
                },
            },
            None => {
                proof {
                    lemma_digits_value_grows(s@, a as int, k + 1, b as int);
                }
                return None;
            },
        }
        k = k + 1;
    }
    Some(acc)
}

/// A tree that is a single leaf has that leaf as its only leaf.
proof fn lemma_single_leaf<T: NumberLike, S, M: MetricStreamFetcher<T, S>>(x: Syntax, m: M)
    requires
        x is Number || x is Component,
    ensures
        leaves(x) == seq![x],
        leaves(x).take(0) == Seq::<Syntax>::empty(),
        after_leaves::<T, S, M>(Seq::empty(), m) == m,
        leaves_build::<T, S, M>(Seq::empty(), m),
        leaves_build::<T, S, M>(seq![x], m) == leaf_builds::<T, S, M>(x, m),
        after_leaves::<T, S, M>(seq![x], m) == after_leaf::<T, S, M>(x, m),
        fetched::<T, S, M>(seq![x], m) == (match x {
            Syntax::Component(n) => seq![m.spec_fetch(n as usize).1->0],
            _ => Seq::<S>::empty(),
        }),
{
    assert(leaves(x).take(0) =~= Seq::<Syntax>::empty());
    assert(seq![x].drop_first() =~= Seq::<Syntax>::empty());
    let m1 = after_leaf::<T, S, M>(x, m);
    assert(after_leaves::<T, S, M>(Seq::empty(), m1) == m1);
    assert(leaves_build::<T, S, M>(Seq::empty(), m1));
    assert(fetched::<T, S, M>(Seq::empty(), m1) == Seq::<S>::empty());
    match x {
        Syntax::Component(n) => {
            assert(seq![m.spec_fetch(n as usize).1->0] + Seq::<S>::empty() =~= seq![
                m.spec_fetch(n as usize).1->0,
            ]);
        },
        _ => {},
    }
}

/// Builds the expression that a checked syntax tree stands for: reads each
/// literal as a `T` and asks `fetcher` for the stream of each placeholder,
/// in the order in which they are written.  On failure the error is the
/// one of the first leaf that failed: a call stops at its first failing
/// argument, and of two failing operands the left one's error is kept.
#[verifier::loop_isolation(false)]
fn parse_to_expr<T: NumberLike, S, M: MetricStreamFetcher<T, S>>(
    s: &[char],
    node: &Node,
    fetcher: &mut M,
) -> (r: Result<Expr<T, S>, FormulaError>)
    requires
        node.wf(s@),
    ensures
        r matches Ok(e) ==> denotes(node.syntax(s@), e@) && built_from::<T, S, M>(
            node.syntax(s@),
            *old(fetcher),
            *final(fetcher),
            e.streams(),
        ),
        r matches Err(e) ==> is_leaf_error::<T, S, M>(node.syntax(s@), e.0@, *old(fetcher)),
        *final(fetcher) == build_outcome::<T, S, M>(node.syntax(s@), *old(fetcher)).0,
        r is Ok <==> build_outcome::<T, S, M>(node.syntax(s@), *old(fetcher)).1,
    decreases node,
{
    let ghost m0 = *fetcher;
    match node {
        Node::Number(a, b) => {
            let text = slice_subrange(s, *a, *b);
            let ghost leaf = node.syntax(s@);
            proof {
                lemma_single_leaf::<T, S, M>(leaf, m0);
                lemma_number_result::<T>(text);
            }
            match T::parse_number(text) {
                Ok(v) => Ok(Expr::Value(Some(v))),
                Err(detail) => {
                    let msg = String::from_str("Invalid number: ").concat(detail.as_str());
                    proof {
                        reveal_strlit("Invalid number: ");
                        assert(is_error_of_leaf::<T, S, M>(leaf, 0, msg@, m0));
                    }
                    Err(FormulaError(msg))
                },
            }
        },
        Node::Component(a, b) => {
            let ghost leaf = node.syntax(s@);
            proof {
                lemma_single_leaf::<T, S, M>(leaf, m0);
            }
            match digits_to_usize(s, *a, *b) {
                Some(id) => match fetcher.from_component_id(id) {
                    Some(stream) => {
                        assert(seq![stream] == fetched::<T, S, M>(leaves(leaf), m0));
                        Ok(Expr::Component(id, stream))
                    },
                    None => {
                        let msg = text_with_number("Unknown component id: ", id);
                        proof {
                            assert(is_error_of_leaf::<T, S, M>(leaf, 0, msg@, m0));
                        }
                        Err(FormulaError(msg))
                    },
                },
                None => {
                    let msg = String::from_str(
                        "Invalid component id: number too large to fit in target type",
                    );
                    proof {
                        assert(is_error_of_leaf::<T, S, M>(leaf, 0, msg@, m0));
                    }
                    Err(FormulaError(msg))
                },
            }
        },
        Node::Negate(inner) => match parse_to_expr(s, inner, fetcher) {
            Ok(e) => {
                assert(leaves(node.syntax(s@)) == leaves(inner.syntax(s@)));
                Ok(Expr::UnaryMinus(Box::new(e)))
            },
            Err(e) => {
                proof {
                    let k = choose|k: int| is_error_of_leaf::<T, S, M>(inner.syntax(s@), k, e.0@, m0);
                    assert(leaves(node.syntax(s@)) == leaves(inner.syntax(s@)));
                    assert(is_error_of_leaf::<T, S, M>(node.syntax(s@), k, e.0@, m0));
                }
                Err(e)
            },
        },
        Node::Binary(l, op, r) => {
            // Both operands are built, the right one also after the left one
            // has failed; the left operand's error wins.
            let lhs = parse_to_expr(s, l, fetcher);
            let ghost m1 = *fetcher;
            let rhs = parse_to_expr(s, r, fetcher);
            let ghost m2 = *fetcher;
            let ghost t = node.syntax(s@);
            let ghost lt = l.syntax(s@);
            let ghost rt = r.syntax(s@);
            match (lhs, rhs) {
                (Ok(a), Ok(b)) => {
                    proof {
                        lemma_built_concat::<T, S, M>(t, lt, rt, m0, m1, m2, a.streams(), b.streams());
                    }
                    Ok(Expr::Op { lhs: Box::new(a), op: *op, rhs: Box::new(b) })
                },
                (Err(e), _) => {
                    proof {
                        lemma_leaves_concat::<T, S, M>(leaves(lt), leaves(rt), m0);
                        let k = choose|k: int| is_error_of_leaf::<T, S, M>(lt, k, e.0@, m0);
                        assert(leaves(t) =~= Seq::<Syntax>::empty() + leaves(lt) + leaves(rt));
                        lemma_single_leaf::<T, S, M>(Syntax::Component(0), m0);
                        lemma_error_shifts::<T, S, M>(t, Seq::empty(), lt, leaves(rt), k, e.0@, m0);
                    }
                    Err(e)
                },
                (Ok(a), Err(e)) => {
                    proof {
                        lemma_leaves_concat::<T, S, M>(leaves(lt), leaves(rt), m0);
                        let k = choose|k: int| is_error_of_leaf::<T, S, M>(rt, k, e.0@, m1);
                        assert(leaves(t) =~= leaves(lt) + leaves(rt) + Seq::<Syntax>::empty());
                        lemma_error_shifts::<T, S, M>(t, leaves(lt), rt, Seq::empty(), k, e.0@, m0);
                    }
                    Err(e)
                },
            }
        },
        Node::Call(f, args) => {
            let ghost ts = syntaxes_of(args@, s@);
            proof {
                lemma_syntaxes_of(args@, s@);
                assert(ts.skip(0) =~= ts);
                assert(ts.take(0) =~= Seq::<Syntax>::empty());
                assert(leaves_of(ts.take(0)) == Seq::<Syntax>::empty());
                lemma_single_leaf::<T, S, M>(Syntax::Component(0), m0);
            }
            let mut exprs: Vec<Expr<T, S>> = Vec::new();
            let mut i: usize = 0;
            while i < args.len()
                invariant
                    i <= args.len(),
                    wf_all(args@, s@),
                    ts == syntaxes_of(args@, s@),
                    ts.len() == args.len(),
                    forall|j: int| 0 <= j < args.len() ==> #[trigger] ts[j] == args@[j].syntax(s@),
                    exprs@.len() == i,
                    forall|j: int| 0 <= j < i ==> denotes(#[trigger] ts[j], exprs@[j]@),
                    leaves_build::<T, S, M>(leaves_of(ts.take(i as int)), m0),
                    *fetcher == after_leaves::<T, S, M>(leaves_of(ts.take(i as int)), m0),
                    streams_of(exprs@) == fetched::<T, S, M>(leaves_of(ts.take(i as int)), m0),
                    build_args_outcome::<T, S, M>(ts, m0) == build_args_outcome::<T, S, M>(
                        ts.skip(i as int),
                        *fetcher,
                    ),
                decreases args.len() - i,
            {
                proof {
                    lemma_wf_all(args@, s@, i as int);
                }
                let ghost cur = *fetcher;
                let ghost pre = ts.take(i as int);
                let ghost x = ts[i as int];
                proof {
                    assert(ts.skip(i as int).drop_first() =~= ts.skip(i + 1));
                    assert(ts.skip(i as int)[0] == x);
                }
                match parse_to_expr(s, &args[i], fetcher) {
                    Ok(e) => {
                        proof {
                            assert(ts.take(i + 1) =~= pre + seq![x]);
                            assert(seq![x].drop_first() =~= Seq::<Syntax>::empty());
                            assert(leaves_of(seq![x]) =~= leaves(x));
                            lemma_leaves_of_append(pre, seq![x]);
                            lemma_leaves_concat::<T, S, M>(leaves_of(pre), leaves(x), m0);
                            lemma_streams_of_push(exprs@, e);
                        }
                        exprs.push(e);
                    },
                    Err(e) => {
                        proof {
                            let k = choose|k: int| is_error_of_leaf::<T, S, M>(x, k, e.0@, cur);
                            let post = ts.skip(i + 1);
                            assert(ts =~= pre + (seq![x] + post));
                            lemma_leaves_of_append(pre, seq![x] + post);
                            assert((seq![x] + post).drop_first() =~= post);
                            assert(leaves(node.syntax(s@)) =~= leaves_of(pre) + leaves(x)
                                + leaves_of(post));
                            lemma_leaves_concat::<T, S, M>(leaves_of(pre), leaves(x) + leaves_of(post), m0);
                            lemma_leaves_concat::<T, S, M>(leaves(x), leaves_of(post), cur);
                            assert(leaves_of(pre) + leaves(x) + leaves_of(post) =~= leaves_of(pre)
                                + (leaves(x) + leaves_of(post)));
                            lemma_error_shifts::<T, S, M>(
                                node.syntax(s@),
                                leaves_of(pre),
                                x,
                                leaves_of(post),
                                k,
                                e.0@,
                                m0,
                            );
                        }
                        return Err(e);
                    },
                }
                i = i + 1;
            }
            proof {
                lemma_models_of(exprs@);
                lemma_denotes_each(ts, models_of(exprs@));
                assert(ts.take(i as int) =~= ts);
                assert(ts.skip(i as int) =~= Seq::<Syntax>::empty());
            }
            Ok(Expr::Function { function: *f, args: exprs })
        },
    }
}

/// The characters of `formula`, in order.
fn chars_of(formula: &str) -> (r: Vec<char>)
    ensures
        r@ == formula@,
{
    let n = formula.unicode_len();
    let mut out: Vec<char> = Vec::new();
    let mut i: usize = 0;
    while i < n
        invariant
            n == formula@.len(),
            i <= n,
            out@ == formula@.take(i as int),
        decreases n - i,
    {
        out.push(formula.get_char(i));
        assert(formula@.take(i + 1) =~= formula@.take(i as int).push(formula@[i as int]));
        i = i + 1;
    }
    assert(formula@.take(n as int) =~= formula@);
    out
}

/// Parses a formula into an expression whose placeholders hold the streams
/// that `fetcher` hands out.
///
/// A formula that does not fit the grammar is refused before `fetcher` is
/// asked for anything, with "Invalid formula: unexpected input at position
/// N", N being the index of the first character that cannot be read (the
/// grammar is this library's own, so the message is its own too).
/// Otherwise the literals are read and the streams fetched in the order in
/// which they are written.
pub fn parse<T: NumberLike, S, M: MetricStreamFetcher<T, S>>(
    formula: &str,
    fetcher: &mut M,
) -> (r: Result<Expr<T, S>, FormulaError>)
    ensures
        parse_formula(formula@) is Err ==> *final(fetcher) == *old(fetcher),
        parse_formula(formula@) matches Err(p) ==> r matches Err(e) && e.0@ == syntax_error_text(
            p as nat,
        ),
        parse_formula(formula@) matches Ok(t) ==> {
            &&& r matches Ok(e) ==> denotes(t, e@) && built_from::<T, S, M>(
                t,
                *old(fetcher),
                *final(fetcher),
                e.streams(),
            )
            &&& r matches Err(e) ==> is_leaf_error::<T, S, M>(t, e.0@, *old(fetcher))
            &&& *final(fetcher) == build_outcome::<T, S, M>(t, *old(fetcher)).0
            &&& r is Ok <==> build_outcome::<T, S, M>(t, *old(fetcher)).1
        },
{
    let chars = chars_of(formula);
    match parse_chars(chars.as_slice()) {
        Ok(node) => parse_to_expr(chars.as_slice(), &node, fetcher),
        Err(p) => Err(FormulaError(text_with_number("Invalid formula: unexpected input at position ", p))),
    }
}

} // verus!
