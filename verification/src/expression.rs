use vstd::prelude::*;
use std::collections::HashSet;

use vstd::pervasive::VecAdditionalExecFns;
use vstd::std_specs::iter::IteratorSpec;
use vstd::string::StringExecFns;

use crate::error::FormulaError;
use crate::grammar::parse_formula;
use crate::parser::{
    build_outcome, built_from, denotes, is_leaf_error, parse, syntax_error_text,
};
use crate::traits::{MetricStreamFetcher, NumberLike};

verus! {

/// A binary arithmetic operator.
#[derive(Debug, Clone, Copy, PartialEq, Eq, Structural)]
pub enum Op {
    Add,
    Sub,
    Mul,
    Div,
}

/// A function of a formula, applied to a list of arguments.
#[derive(Debug, Clone, Copy, PartialEq, Eq, Structural)]
pub enum Function {
    Coalesce,
    Min,
    Max,
}

/// A parsed formula.  Each component placeholder holds the stream of values
/// that feeds it.
#[derive(Debug)]
pub enum Expr<T, S> {
    Value(Option<T>),
    UnaryMinus(Box<Expr<T, S>>),
    Op { lhs: Box<Expr<T, S>>, op: Op, rhs: Box<Expr<T, S>> },
    Function { function: Function, args: Vec<Expr<T, S>> },
    Component(usize, S),
}

/// The mathematical shape of an [`Expr`]: the same tree with each stream
/// left out, so that a placeholder is just its component id.
pub enum Formula<T> {
    Value(Option<T>),
    UnaryMinus(Box<Formula<T>>),
    Op(Box<Formula<T>>, Op, Box<Formula<T>>),
    Function(Function, Seq<Formula<T>>),
    Component(usize),
}

// ---------------------------------------------------------------------------
// Semantics of operators and functions
// ---------------------------------------------------------------------------

impl Op {
    /// Both operands present: the arithmetic result; otherwise no value.
    pub open spec fn spec_apply<T: NumberLike>(self, lhs: Option<T>, rhs: Option<T>) -> Option<T> {
        match (lhs, rhs) {
            (Some(a), Some(b)) => Some(
                match self {
                    Op::Add => a.spec_plus(b),
                    Op::Sub => a.spec_minus(b),
                    Op::Mul => a.spec_times(b),
                    Op::Div => a.spec_divide(b),
                },
            ),
            _ => None,
        }
    }

    /// Applies the operator to two optional operands; a missing operand
    /// makes the result missing.
    pub fn apply<T: NumberLike>(&self, lhs: Option<T>, rhs: Option<T>) -> (r: Option<T>)
        ensures
            r == self.spec_apply(lhs, rhs),
    {
        match (lhs, rhs) {
            (Some(a), Some(b)) => Some(
                match self {
                    Op::Add => a.plus(b),
                    Op::Sub => a.minus(b),
                    Op::Mul => a.times(b),
                    Op::Div => a.divide(b),
                },
            ),
            _ => None,
        }
    }
}

/// The first present value of the list, if any.
pub open spec fn first_present<T>(values: Seq<Option<T>>) -> Option<T>
    decreases values.len(),
{
    if values.len() == 0 {
        None
    } else if values[0] is Some {
        values[0]
    } else {
        first_present(values.drop_first())
    }
}

/// One step of the running minimum: a missing value never wins; of two
/// present values the accumulated one stays only if it compares smaller.
pub open spec fn min_step<T: NumberLike>(acc: Option<T>, x: Option<T>) -> Option<T> {
    match (acc, x) {
        (Some(a), Some(b)) => if a.spec_less_than(b) {
            Some(a)
        } else {
            Some(b)
        },
        (Some(a), None) => Some(a),
        (None, Some(b)) => Some(b),
        (None, None) => None,
    }
}

/// One step of the running maximum, the mirror image of [`min_step`].
pub open spec fn max_step<T: NumberLike>(acc: Option<T>, x: Option<T>) -> Option<T> {
    match (acc, x) {
        (Some(a), Some(b)) => if a.spec_greater_than(b) {
            Some(a)
        } else {
            Some(b)
        },
        (Some(a), None) => Some(a),
        (None, Some(b)) => Some(b),
        (None, None) => None,
    }
}

/// The running minimum over the list, from the first value to the last.
pub open spec fn fold_min<T: NumberLike>(values: Seq<Option<T>>) -> Option<T>
    decreases values.len(),
{
    if values.len() == 0 {
        None
    } else {
        min_step(fold_min(values.drop_last()), values.last())
    }
}

/// The running maximum over the list, from the first value to the last.
pub open spec fn fold_max<T: NumberLike>(values: Seq<Option<T>>) -> Option<T>
    decreases values.len(),
{
    if values.len() == 0 {
        None
    } else {
        max_step(fold_max(values.drop_last()), values.last())
    }
}

impl Function {
    pub open spec fn spec_apply<T: NumberLike>(self, values: Seq<Option<T>>) -> Option<T> {
        match self {
            Function::Coalesce => first_present(values),
            Function::Min => fold_min(values),
            Function::Max => fold_max(values),
        }
    }

    /// Applies the function to its argument values.
    pub fn apply<T: NumberLike>(&self, values: &[Option<T>]) -> (r: Option<T>)
        ensures
            r == self.spec_apply(values@),
    {
        match self {
            Function::Coalesce => {
                let mut i: usize = 0;
                assert(values@.skip(0) =~= values@);
                while i < values.len()
                    invariant
                        *self == Function::Coalesce,
                        i <= values@.len(),
                        first_present(values@) == first_present(values@.skip(i as int)),
                    decreases values@.len() - i,
                {
                    assert(values@.skip(i as int).drop_first() =~= values@.skip(i + 1));
                    assert(values@.skip(i as int)[0] == values@[i as int]);
                    let v = values[i];
                    if v.is_some() {
                        return v;
                    }
                    i = i + 1;
                }
                None
            },
            Function::Min => {
                let mut acc: Option<T> = None;
                let mut i: usize = 0;
                while i < values.len()
                    invariant
                        i <= values@.len(),
                        acc == fold_min(values@.take(i as int)),
                    decreases values@.len() - i,
                {
                    assert(values@.take(i + 1).drop_last() =~= values@.take(i as int));
                    let x = values[i];
                    acc =
                    match (acc, x) {
                        (Some(a), Some(b)) => if a.less_than(&b) {
                            Some(a)
                        } else {
                            Some(b)
                        },
                        (Some(a), None) => Some(a),
                        (None, Some(b)) => Some(b),
                        (None, None) => None,
                    };
                    i = i + 1;
                }
                assert(values@.take(values@.len() as int) =~= values@);
                acc
            },
            Function::Max => {
                let mut acc: Option<T> = None;
                let mut i: usize = 0;
                while i < values.len()
                    invariant
                        i <= values@.len(),
                        acc == fold_max(values@.take(i as int)),
                    decreases values@.len() - i,
                {
                    assert(values@.take(i + 1).drop_last() =~= values@.take(i as int));
                    let x = values[i];
                    acc =
                    match (acc, x) {
                        (Some(a), Some(b)) => if a.greater_than(&b) {
                            Some(a)
                        } else {
                            Some(b)
                        },
                        (Some(a), None) => Some(a),
                        (None, Some(b)) => Some(b),
                        (None, None) => None,
                    };
                    i = i + 1;
                }
                assert(values@.take(values@.len() as int) =~= values@);
                acc
            },
        }
    }
}

// ---------------------------------------------------------------------------
// The model of an expression
// ---------------------------------------------------------------------------

impl<T> Formula<T> {
    /// The component ids of the placeholders, in the order in which they
    /// are written (and in which their values are read).
    pub open spec fn placeholders(self) -> Seq<usize>
        decreases self,
    {
        match self {
            Formula::Value(_) => seq![],
            Formula::UnaryMinus(e) => e.placeholders(),
            Formula::Op(l, _, r) => l.placeholders() + r.placeholders(),
            Formula::Function(_, args) => placeholders_of(args),
            Formula::Component(id) => seq![id],
        }
    }

    /// The set of component ids that the formula reads.
    pub open spec fn component_ids(self) -> Set<usize> {
        self.placeholders().to_set()
    }
}

/// The placeholders of a list of formulas, one after the other.
pub open spec fn placeholders_of<T>(args: Seq<Formula<T>>) -> Seq<usize>
    decreases args,
{
    if args.len() == 0 {
        seq![]
    } else {
        args[0].placeholders() + placeholders_of(args.drop_first())
    }
}

/// The value of a formula, when `vals` holds one value for each
/// placeholder, in the order of [`Formula::placeholders`].
pub open spec fn eval<T: NumberLike>(f: Formula<T>, vals: Seq<Option<T>>) -> Option<T>
    decreases f,
{
    match f {
        Formula::Value(v) => v,
        Formula::UnaryMinus(e) => match eval(*e, vals) {
            Some(x) => Some(x.spec_negate()),
            None => None,
        },
        Formula::Op(l, op, r) => {
            let n = l.placeholders().len() as int;
            op.spec_apply(eval(*l, vals.take(n)), eval(*r, vals.skip(n)))
        },
        Formula::Function(func, args) => func.spec_apply(eval_each(args, vals)),
        Formula::Component(_) => vals[0],
    }
}

/// The values of a list of formulas that share out `vals` in order.
pub open spec fn eval_each<T: NumberLike>(args: Seq<Formula<T>>, vals: Seq<Option<T>>) -> Seq<
    Option<T>,
>
    decreases args,
{
    if args.len() == 0 {
        seq![]
    } else {
        let n = args[0].placeholders().len() as int;
        seq![eval(args[0], vals.take(n))] + eval_each(args.drop_first(), vals.skip(n))
    }
}

impl<T, S> Expr<T, S> {
    /// The shape of the expression, with the streams left out.
    pub open spec fn model(&self) -> Formula<T>
        decreases self,
    {
        match self {
            Expr::Value(v) => Formula::Value(*v),
            Expr::UnaryMinus(e) => Formula::UnaryMinus(Box::new(e.model())),
            Expr::Op { lhs, op, rhs } => Formula::Op(Box::new(lhs.model()), *op, Box::new(rhs.model())),
            Expr::Function { function, args } => Formula::Function(*function, models_of(args@)),
            Expr::Component(id, _) => Formula::Component(*id),
        }
    }
}

/// The shapes of a list of expressions, element by element.
pub proof fn lemma_models_of<T, S>(exprs: Seq<Expr<T, S>>)
    ensures
        models_of(exprs).len() == exprs.len(),
        forall|i: int| 0 <= i < exprs.len() ==> #[trigger] models_of(exprs)[i] == exprs[i].model(),
{
}

/// The shapes of a list of expressions.
pub open spec fn models_of<T, S>(exprs: Seq<Expr<T, S>>) -> Seq<Formula<T>>
    decreases exprs,
{
    Seq::new(
        exprs.len(),
        |i: int|
            if 0 <= i < exprs.len() {
                exprs[i].model()
            } else {
                Formula::Value(None)
            },
    )
}

impl<T, S> Expr<T, S> {
    /// The streams of the placeholders, in the order in which they are
    /// written (that of [`Formula::placeholders`]).
    pub open spec fn streams(&self) -> Seq<S>
        decreases self,
    {
        match self {
            Expr::Value(_) => seq![],
            Expr::UnaryMinus(e) => e.streams(),
            Expr::Op { lhs, op: _, rhs } => lhs.streams() + rhs.streams(),
            Expr::Function { function: _, args } => streams_of(args@),
            Expr::Component(_, s) => seq![*s],
        }
    }
}

/// The streams of a list of expressions, one after the other.
pub open spec fn streams_of<T, S>(exprs: Seq<Expr<T, S>>) -> Seq<S>
    decreases exprs,
{
    if exprs.len() == 0 {
        seq![]
    } else {
        exprs[0].streams() + streams_of(exprs.drop_first())
    }
}

/// The streams of a list with one more expression at its end.
pub proof fn lemma_streams_of_push<T, S>(exprs: Seq<Expr<T, S>>, e: Expr<T, S>)
    ensures
        streams_of(exprs.push(e)) == streams_of(exprs) + e.streams(),
    decreases exprs.len(),
{
    if exprs.len() == 0 {
        assert(exprs.push(e).drop_first() =~= Seq::<Expr<T, S>>::empty());
        assert(exprs.push(e)[0] == e);
        assert(streams_of(Seq::<Expr<T, S>>::empty()) == Seq::<S>::empty());
        assert(streams_of(exprs) == Seq::<S>::empty());
        assert(streams_of(exprs.push(e)) =~= e.streams());
    } else {
        assert(exprs.push(e).drop_first() =~= exprs.drop_first().push(e));
        lemma_streams_of_push(exprs.drop_first(), e);
        assert(exprs.push(e)[0] == exprs[0]);
        assert(streams_of(exprs.push(e)) =~= streams_of(exprs) + e.streams());
    }
}

/// The streams of two lists of expressions, one after the other.
pub proof fn lemma_streams_of_append<T, S>(a: Seq<Expr<T, S>>, b: Seq<Expr<T, S>>)
    ensures
        streams_of(a + b) == streams_of(a) + streams_of(b),
    decreases a.len(),
{
    if a.len() == 0 {
        assert(a + b =~= b);
        assert(streams_of(a) + streams_of(b) =~= streams_of(b));
    } else {
        assert((a + b).drop_first() =~= a.drop_first() + b);
        assert((a + b)[0] == a[0]);
        lemma_streams_of_append(a.drop_first(), b);
        assert(a[0].streams() + (streams_of(a.drop_first()) + streams_of(b)) =~= a[0].streams()
            + streams_of(a.drop_first()) + streams_of(b));
    }
}

// ---------------------------------------------------------------------------
// Reading the streams
// ---------------------------------------------------------------------------

/// Every stream obeys the laws of iterators, so that what `next` hands out
/// is the head of the stream's `remaining()` items.
pub open spec fn all_lawful<S: Iterator>(ss: Seq<S>) -> bool {
    forall|k: int| 0 <= k < ss.len() ==> #[trigger] ss[k].obeys_prophetic_iter_laws()
}

/// The index of the first empty list, or the number of lists when none is
/// empty.
pub open spec fn first_dry<X>(rs: Seq<Seq<X>>) -> int
    decreases rs.len(),
{
    if rs.len() == 0 {
        0
    } else if rs[0].len() == 0 {
        0
    } else {
        1 + first_dry(rs.drop_first())
    }
}

/// The first item of each list.
pub open spec fn heads<X>(rs: Seq<Seq<X>>) -> Seq<X> {
    Seq::new(rs.len(), |k: int| rs[k][0])
}

/// The streams `ss`, with the items `before` still to come, became `ss2`,
/// with the items `after` still to come: the streams before the first one
/// that had nothing left have each handed out one item, that one was asked
/// and handed out nothing, and the streams after it were left alone.
pub open spec fn read_once_in_order<S, X>(
    ss: Seq<S>,
    ss2: Seq<S>,
    before: Seq<Seq<X>>,
    after: Seq<Seq<X>>,
) -> bool {
    let d = first_dry(before);
    &&& ss2.len() == ss.len()
    &&& before.len() == ss.len()
    &&& after.len() == ss.len()
    &&& forall|j: int| 0 <= j < d ==> #[trigger] after[j] == before[j].drop_first()
    &&& d < ss.len() ==> after[d] == before[d]
    &&& forall|j: int| d < j < ss.len() ==> #[trigger] ss2[j] == ss[j]
}

/// Calculating the formula `f` read the streams `ss` once each, in order,
/// which left them as `ss2`: the result is the formula's value on the
/// items read when every stream had one, and an error otherwise.
pub open spec fn calculated<T: NumberLike, S: Iterator<Item = Option<T>>>(
    f: Formula<T>,
    ss: Seq<S>,
    ss2: Seq<S>,
    before: Seq<Seq<Option<T>>>,
    after: Seq<Seq<Option<T>>>,
    r: Result<Option<T>, FormulaError>,
) -> bool {
    &&& all_lawful(ss2)
    &&& read_once_in_order(ss, ss2, before, after)
    &&& first_dry(before) == ss.len() ==> r == Ok::<Option<T>, FormulaError>(eval(f, heads(before)))
    &&& first_dry(before) < ss.len() ==> r is Err
}

/// Reading the streams `ss` once each, in order, gave `ss2`; `ok` tells
/// whether every stream had an item, and then `out1` is `out0` followed
/// by those items.
pub open spec fn pulled<S: Iterator>(
    ss: Seq<S>,
    ss2: Seq<S>,
    before: Seq<Seq<S::Item>>,
    after: Seq<Seq<S::Item>>,
    ok: bool,
    out0: Seq<S::Item>,
    out1: Seq<S::Item>,
) -> bool {
    &&& all_lawful(ss2)
    &&& read_once_in_order(ss, ss2, before, after)
    &&& (ok <==> first_dry(before) == ss.len())
    &&& (ok ==> out1 == out0 + heads(before))
}

proof fn lemma_first_dry<X>(rs: Seq<Seq<X>>)
    ensures
        0 <= first_dry(rs) <= rs.len(),
        forall|j: int| 0 <= j < first_dry(rs) ==> #[trigger] rs[j].len() > 0,
        first_dry(rs) < rs.len() ==> rs[first_dry(rs)].len() == 0,
    decreases rs.len(),
{
    if rs.len() > 0 && rs[0].len() > 0 {
        lemma_first_dry(rs.drop_first());
        assert forall|j: int| 0 <= j < first_dry(rs) implies #[trigger] rs[j].len() > 0 by {
            if j > 0 {
                assert(rs[j] == rs.drop_first()[j - 1]);
            }
        }
    }
}

proof fn lemma_first_dry_concat<X>(a: Seq<Seq<X>>, b: Seq<Seq<X>>)
    ensures
        first_dry(a + b) == if first_dry(a) < a.len() {
            first_dry(a)
        } else {
            a.len() + first_dry(b)
        },
    decreases a.len(),
{
    lemma_first_dry(a);
    if a.len() == 0 {
        assert(a + b =~= b);
    } else {
        assert((a + b)[0] == a[0]);
        if a[0].len() > 0 {
            assert((a + b).drop_first() =~= a.drop_first() + b);
            lemma_first_dry_concat(a.drop_first(), b);
        }
    }
}

/// Reading two lists of streams one after the other is reading their
/// concatenation; the second list is left alone when the first fails.
proof fn lemma_pulled_concat<S: Iterator>(
    sa: Seq<S>,
    sb: Seq<S>,
    sa2: Seq<S>,
    sb2: Seq<S>,
    ba: Seq<Seq<S::Item>>,
    bb: Seq<Seq<S::Item>>,
    aa: Seq<Seq<S::Item>>,
    ab: Seq<Seq<S::Item>>,
    oka: bool,
    okb: bool,
    o0: Seq<S::Item>,
    o1: Seq<S::Item>,
    o2: Seq<S::Item>,
)
    requires
        all_lawful(sb),
        pulled(sa, sa2, ba, aa, oka, o0, o1),
        oka ==> pulled(sb, sb2, bb, ab, okb, o1, o2),
        !oka ==> sb2 == sb && ab == bb && bb.len() == sb.len(),
    ensures
        pulled(sa + sb, sa2 + sb2, ba + bb, aa + ab, oka && okb, o0, o2),
{
    lemma_first_dry_concat(ba, bb);
    lemma_first_dry(ba);
    lemma_first_dry(bb);
    let d = first_dry(ba + bb);
    let n = sa.len();
    assert forall|k: int| 0 <= k < (sa2 + sb2).len() implies #[trigger] (sa2
        + sb2)[k].obeys_prophetic_iter_laws() by {
        if k < n {
            assert((sa2 + sb2)[k] == sa2[k]);
        } else {
            assert((sa2 + sb2)[k] == sb2[k - n]);
        }
    }
    assert forall|j: int| 0 <= j < d implies #[trigger] (aa + ab)[j] == (ba + bb)[j].drop_first() by {
        if j < n {
            assert((aa + ab)[j] == aa[j]);
            assert((ba + bb)[j] == ba[j]);
        } else {
            assert((aa + ab)[j] == ab[j - n]);
            assert((ba + bb)[j] == bb[j - n]);
        }
    }
    if d < n + sb.len() {
        if d < n {
            assert((aa + ab)[d] == aa[d]);
            assert((ba + bb)[d] == ba[d]);
        } else {
            assert((aa + ab)[d] == ab[d - n]);
            assert((ba + bb)[d] == bb[d - n]);
        }
    }
    assert forall|j: int| d < j < (sa + sb).len() implies #[trigger] (sa2 + sb2)[j] == (sa + sb)[j] by {
        if j < n {
            assert((sa2 + sb2)[j] == sa2[j]);
            assert((sa + sb)[j] == sa[j]);
        } else {
            assert((sa2 + sb2)[j] == sb2[j - n]);
            assert((sa + sb)[j] == sb[j - n]);
        }
    }
    if oka && okb {
        assert(heads(ba + bb) =~= heads(ba) + heads(bb));
        assert(o2 =~= o0 + heads(ba + bb));
    }
    assert(all_lawful(sa2 + sb2));
    assert(read_once_in_order(sa + sb, sa2 + sb2, ba + bb, aa + ab));
    assert((oka && okb) <==> d == (sa + sb).len());
}

impl<T, S> View for Expr<T, S> {
    type V = Formula<T>;

    open spec fn view(&self) -> Formula<T> {
        self.model()
    }
}

impl<T, S> Expr<T, S> {
    /// Appends the component ids of the placeholders, in order.
    #[verifier::loop_isolation(false)]
    fn collect_ids(&self, out: &mut Vec<usize>)
        ensures
            final(out)@ == old(out)@ + self@.placeholders(),
        decreases self,
    {
        match self {
            Expr::Value(_) => {
                assert(old(out)@ + Seq::<usize>::empty() =~= old(out)@);
            },
            Expr::UnaryMinus(e) => {
                e.collect_ids(out);
            },
            Expr::Op { lhs, op: _, rhs } => {
                lhs.collect_ids(out);
                rhs.collect_ids(out);
                assert(old(out)@ + lhs@.placeholders() + rhs@.placeholders() =~= old(out)@ + (
                lhs@.placeholders() + rhs@.placeholders()));
            },
            Expr::Function { function: _, args } => {
                let ghost models = self@->Function_1;
                proof {
                    lemma_models_of(args@);
                }
                let ghost start = out@;
                let mut i: usize = 0;
                assert(models.skip(0) =~= models);
                while i < args.len()
                    invariant
                        i <= args.len(),
                        models.len() == args.len(),
                        models == models_of(args@),
                        start + placeholders_of(models) == out@ + placeholders_of(
                            models.skip(i as int),
                        ),
                    decreases args.len() - i,
                {
                    let ghost before = out@;
                    assert(models.skip(i as int).drop_first() =~= models.skip(i + 1));
                    assert(models.skip(i as int)[0] == models[i as int]);
                    args[i].collect_ids(out);
                    assert(before + placeholders_of(models.skip(i as int)) =~= out@ + placeholders_of(
                        models.skip(i + 1),
                    ));
                    i = i + 1;
                }
                assert(out@ + placeholders_of(models.skip(i as int)) =~= out@);
            },
            Expr::Component(id, _) => {
                out.push(*id);
            },
        }
    }

    /// The set of component ids that the expression reads.
    pub fn components(&self) -> (r: HashSet<usize>)
        ensures
            r@ == self@.component_ids(),
    {
        broadcast use vstd::std_specs::hash::group_hash_axioms;

        let mut ids: Vec<usize> = Vec::new();
        self.collect_ids(&mut ids);
        assert(ids@ =~= self@.placeholders());
        let mut set: HashSet<usize> = HashSet::new();
        let mut i: usize = 0;
        while i < ids.len()
            invariant
                i <= ids@.len(),
                set@ == ids@.take(i as int).to_set(),
            decreases ids@.len() - i,
        {
            assert(ids@.take(i + 1) =~= ids@.take(i as int).push(ids@[i as int]));
            proof {
                ids@.take(i as int).lemma_push_to_set_commute(ids@[i as int]);
            }
            set.insert(ids[i]);
            i = i + 1;
        }
        assert(ids@.take(ids@.len() as int) =~= ids@);
        set
    }
}

impl<T: NumberLike, S> Expr<T, S> {
    /// Evaluates the expression on the values `values[start..]`, one per
    /// placeholder; returns the value and the index after the last one used.
    #[verifier::loop_isolation(false)]
    fn eval_from(&self, values: &[Option<T>], start: usize) -> (r: (Option<T>, usize))
        requires
            start + self@.placeholders().len() <= values@.len(),
        ensures
            r.1 == start + self@.placeholders().len(),
            r.0 == eval(self@, values@.subrange(start as int, r.1 as int)),
        decreases self,
    {
        match self {
            Expr::Value(v) => (*v, start),
            Expr::UnaryMinus(e) => {
                let (x, end) = e.eval_from(values, start);
                let v = match x {
                    Some(x) => Some(x.negate()),
                    None => None,
                };
                (v, end)
            },
            Expr::Op { lhs, op, rhs } => {
                let (a, mid) = lhs.eval_from(values, start);
                let (b, end) = rhs.eval_from(values, mid);
                let ghost all = values@.subrange(start as int, end as int);
                let ghost n = lhs@.placeholders().len() as int;
                assert(all.take(n) =~= values@.subrange(start as int, mid as int));
                assert(all.skip(n) =~= values@.subrange(mid as int, end as int));
                (op.apply(a, b), end)
            },
            Expr::Function { function, args } => {
                let ghost models = self@->Function_1;
                proof {
                    lemma_models_of(args@);
                }
                let ghost end = start + self@.placeholders().len();
                let mut results: Vec<Option<T>> = Vec::new();
                let mut pos: usize = start;
                let mut i: usize = 0;
                assert(models.skip(0) =~= models);
                assert(results@ + eval_each(models, values@.subrange(start as int, end)) =~= eval_each(
                    models,
                    values@.subrange(start as int, end),
                ));
                while i < args.len()
                    invariant
                        i <= args.len(),
                        models.len() == args.len(),
                        models == models_of(args@),
                        start <= pos <= end <= values@.len(),
                        pos + placeholders_of(models.skip(i as int)).len() == end,
                        results@ + eval_each(models.skip(i as int), values@.subrange(pos as int, end))
                            == eval_each(models, values@.subrange(start as int, end)),
                    decreases args.len() - i,
                {
                    let ghost rest = models.skip(i as int);
                    let ghost sub = values@.subrange(pos as int, end);
                    assert(rest.drop_first() =~= models.skip(i + 1));
                    assert(rest[0] == models[i as int]);
                    let (x, next) = args[i].eval_from(values, pos);
                    let ghost n = models[i as int].placeholders().len() as int;
                    assert(sub.take(n) =~= values@.subrange(pos as int, next as int));
                    assert(sub.skip(n) =~= values@.subrange(next as int, end));
                    let ghost prev = results@;
                    results.push(x);
                    assert(results@ + eval_each(models.skip(i + 1), values@.subrange(next as int, end))
                        =~= prev + eval_each(rest, sub));
                    pos = next;
                    i = i + 1;
                }
                assert(results@ + eval_each(models.skip(i as int), values@.subrange(pos as int, end))
                    =~= results@);
                (function.apply(results.as_slice()), pos)
            },
            Expr::Component(_, _) => {
                let v = values[start];
                (v, start + 1)
            },
        }
    }

    /// Evaluates the expression with `values[k]` standing for its `k`-th
    /// placeholder.
    pub fn evaluate(&self, values: &[Option<T>]) -> (r: Option<T>)
        requires
            values@.len() == self@.placeholders().len(),
        ensures
            r == eval(self@, values@),
    {
        let (v, _) = self.eval_from(values, 0);
        assert(values@.subrange(0, values@.len() as int) =~= values@);
        v
    }
}

/// `v` is what the formula gives for some choice of one value per
/// placeholder.
pub open spec fn is_value_of<T: NumberLike>(f: Formula<T>, v: Option<T>) -> bool {
    exists|vals: Seq<Option<T>>| vals.len() == f.placeholders().len() && v == eval(f, vals)
}

/// The message of the error that a drained stream causes.
pub open spec fn out_of_bounds_text() -> Seq<char> {
    "Placeholder out of bounds"@
}

impl<T: NumberLike, S: Iterator<Item = Option<T>>> Expr<T, S> {
    /// Reads the next value of each placeholder's stream, in order, and
    /// appends them to `out`; stops at the first stream that has run dry.
    /// Gives the expression back, with the streams advanced.
    #[verifier::loop_isolation(false)]
    fn pull_owned(e: Expr<T, S>, out: &mut Vec<Option<T>>) -> (r: (
        Expr<T, S>,
        Result<(), FormulaError>,
    ))
        ensures
            r.0@ == e@,
            old(out)@.is_prefix_of(final(out)@),
            r.1 is Ok ==> final(out)@.len() == old(out)@.len() + e@.placeholders().len(),
            r.1 matches Err(err) ==> err.0@ == out_of_bounds_text(),
            r.1 is Err ==> final(out)@.len() < old(out)@.len() + e@.placeholders().len(),
            all_lawful(e.streams()) ==> pulled(
                e.streams(),
                r.0.streams(),
                Seq::new(e.streams().len(), |k: int| e.streams()[k].remaining()),
                Seq::new(e.streams().len(), |k: int| r.0.streams()[k].remaining()),
                r.1 is Ok,
                old(out)@,
                final(out)@,
            ),
        decreases e,
    {
        let ghost ss = e.streams();
        let ghost before = Seq::new(ss.len(), |k: int| ss[k].remaining());
        assert(before =~= Seq::new(e.streams().len(), |k: int| e.streams()[k].remaining()));
        match e {
            Expr::Value(v) => {
                proof {
                    let e2 = Expr::<T, S>::Value(v);
                    assert(heads(before) =~= Seq::<Option<T>>::empty());
                    assert(out@ =~= out@ + heads(before));
                    assert(Seq::new(e2.streams().len(), |k: int| e2.streams()[k].remaining())
                        =~= before);
                }
                (Expr::Value(v), Ok(()))
            },
            Expr::UnaryMinus(inner) => {
                let ghost si = inner.streams();
                let (inner, res) = Self::pull_owned(*inner, out);
                let ghost e2 = Expr::UnaryMinus(Box::new(inner));
                proof {
                    assert(before =~= Seq::new(si.len(), |k: int| si[k].remaining()));
                    assert(Seq::new(ss.len(), |k: int| e2.streams()[k].remaining()) =~= Seq::new(
                        si.len(),
                        |k: int| inner.streams()[k].remaining(),
                    ));
                }
                (Expr::UnaryMinus(Box::new(inner)), res)
            },
            Expr::Op { lhs, op, rhs } => {
                let ghost out0 = out@;
                let ghost sl = lhs.streams();
                let ghost sr = rhs.streams();
                let ghost rhs0 = *rhs;
                let (lhs, res) = Self::pull_owned(*lhs, out);
                let ghost out1 = out@;
                let ghost sl2 = lhs.streams();
                proof {
                    if all_lawful(ss) {
                        assert forall|k: int| 0 <= k < sl.len() implies #[trigger] sl[k].obeys_prophetic_iter_laws() by {
                            assert(ss[k] == sl[k]);
                        }
                        assert forall|k: int| 0 <= k < sr.len() implies #[trigger] sr[k].obeys_prophetic_iter_laws() by {
                            assert(ss[sl.len() + k] == sr[k]);
                        }
                    }
                }
                if res.is_err() {
                    let ghost e2 = Expr::Op { lhs: Box::new(lhs), op, rhs: Box::new(rhs0) };
                    proof {
                        if all_lawful(ss) {
                            let bl = Seq::new(sl.len(), |k: int| sl[k].remaining());
                            let br = Seq::new(sr.len(), |k: int| sr[k].remaining());
                            let al = Seq::new(sl.len(), |k: int| sl2[k].remaining());
                            assert(before =~= bl + br);
                            assert(Seq::new(ss.len(), |k: int| e2.streams()[k].remaining()) =~= al + br);
                            lemma_pulled_concat(sl, sr, sl2, sr, bl, br, al, br, false, true, out0, out1, out1);
                        }
                    }
                    return (Expr::Op { lhs: Box::new(lhs), op, rhs }, res);
                }
                let (rhs, res) = Self::pull_owned(*rhs, out);
                let ghost out2 = out@;
                let ghost sr2 = rhs.streams();
                let ghost e2 = Expr::Op { lhs: Box::new(lhs), op, rhs: Box::new(rhs) };
                proof {
                    if all_lawful(ss) {
                        let bl = Seq::new(sl.len(), |k: int| sl[k].remaining());
                        let br = Seq::new(sr.len(), |k: int| sr[k].remaining());
                        let al = Seq::new(sl.len(), |k: int| sl2[k].remaining());
                        let ar = Seq::new(sr.len(), |k: int| sr2[k].remaining());
                        assert(before =~= bl + br);
                        assert(Seq::new(ss.len(), |k: int| e2.streams()[k].remaining()) =~= al + ar);
                        lemma_pulled_concat(sl, sr, sl2, sr2, bl, br, al, ar, true, res is Ok, out0, out1, out2);
                    }
                }
                (Expr::Op { lhs: Box::new(lhs), op, rhs: Box::new(rhs) }, res)
            },
            Expr::Function { function, args } => {
                let ghost sa = streams_of(args@);
                let (args, res) = Self::pull_all(args, out);
                let ghost e2 = Expr::Function { function, args };
                proof {
                    assert(before =~= Seq::new(sa.len(), |k: int| sa[k].remaining()));
                    assert(Seq::new(ss.len(), |k: int| e2.streams()[k].remaining()) =~= Seq::new(
                        sa.len(),
                        |k: int| streams_of(args@)[k].remaining(),
                    ));
                }
                (Expr::Function { function, args }, res)
            },
            Expr::Component(id, stream) => {
                let mut stream = stream;
                let ghost s0 = stream;
                match stream.next() {
                    Some(v) => {
                        out.push(v);
                        proof {
                            let e2 = Expr::<T, S>::Component(id, stream);
                            if all_lawful(ss) {
                                assert(ss[0] == s0);
                                assert(before[0] == s0.remaining());
                                assert(before.drop_first() =~= Seq::<Seq<Option<T>>>::empty());
                                assert(first_dry(before.drop_first()) == 0);
                                assert(first_dry(before) == 1);
                                assert(heads(before) =~= seq![v]);
                                assert(Seq::new(1, |k: int| e2.streams()[k].remaining()) =~= seq![stream.remaining()]);
                                assert(read_once_in_order(ss, e2.streams(), before, seq![stream.remaining()]));
                                assert(out@ =~= old(out)@ + heads(before));
                                assert(e2.streams()[0] == stream);
                                assert(all_lawful(e2.streams()));
                            }
                        }
                        (Expr::Component(id, stream), Ok(()))
                    },
                    None => {
                        proof {
                            let e2 = Expr::<T, S>::Component(id, stream);
                            if all_lawful(ss) {
                                assert(ss[0] == s0);
                                assert(before[0] == s0.remaining());
                                assert(first_dry(before) == 0);
                                assert(Seq::new(1, |k: int| e2.streams()[k].remaining()) =~= seq![stream.remaining()]);
                                assert(read_once_in_order(ss, e2.streams(), before, seq![stream.remaining()]));
                            }
                        }
                        (Expr::Component(id, stream), Err(FormulaError(String::from_str("Placeholder out of bounds"))))
                    },
                }
            },
        }
    }

    /// Reads the next value of the placeholders' streams of each argument in
    /// turn, as [`Self::pull_owned`] does for one expression; stops at the
    /// first argument that fails.
    #[verifier::loop_isolation(false)]
    #[verifier::rlimit(40)]
    fn pull_all(args: Vec<Expr<T, S>>, out: &mut Vec<Option<T>>) -> (r: (
        Vec<Expr<T, S>>,
        Result<(), FormulaError>,
    ))
        ensures
            models_of(r.0@) == models_of(args@),
            old(out)@.is_prefix_of(final(out)@),
            r.1 is Ok ==> final(out)@.len() == old(out)@.len() + placeholders_of(
                models_of(args@),
            ).len(),
            r.1 matches Err(err) ==> err.0@ == out_of_bounds_text(),
            r.1 is Err ==> final(out)@.len() < old(out)@.len() + placeholders_of(
                models_of(args@),
            ).len(),
            all_lawful(streams_of(args@)) ==> pulled(
                streams_of(args@),
                streams_of(r.0@),
                Seq::new(streams_of(args@).len(), |k: int| streams_of(args@)[k].remaining()),
                Seq::new(streams_of(args@).len(), |k: int| streams_of(r.0@)[k].remaining()),
                r.1 is Ok,
                old(out)@,
                final(out)@,
            ),
        decreases args@,
    {
        let mut args = args;
        let ghost orig = args@;
        let ghost models = models_of(args@);
        let ghost ss = streams_of(args@);
        let ghost before = Seq::new(ss.len(), |k: int| ss[k].remaining());
        let ghost start = out@.len();
        let ghost out0 = out@;
        proof {
            lemma_models_of(args@);
            assert(orig.take(0) =~= Seq::<Expr<T, S>>::empty());
            assert(out0 =~= out0 + heads(Seq::<Seq<Option<T>>>::empty()));
        }
        let mut i: usize = 0;
        assert(models.skip(0) =~= models);
        while i < args.len()
            invariant
                i <= args.len(),
                args@.len() == orig.len(),
                models == models_of(orig),
                models_of(args@) == models,
                forall|j: int| i <= j < args@.len() ==> #[trigger] args@[j] == orig[j],
                old(out)@.is_prefix_of(out@),
                start + placeholders_of(models).len() == out@.len() + placeholders_of(
                    models.skip(i as int),
                ).len(),
                ss == streams_of(orig),
                all_lawful(ss) ==> pulled(
                    streams_of(orig.take(i as int)),
                    streams_of(args@.take(i as int)),
                    Seq::new(
                        streams_of(orig.take(i as int)).len(),
                        |k: int| streams_of(orig.take(i as int))[k].remaining(),
                    ),
                    Seq::new(
                        streams_of(orig.take(i as int)).len(),
                        |k: int| streams_of(args@.take(i as int))[k].remaining(),
                    ),
                    true,
                    out0,
                    out@,
                ),
            decreases args.len() - i,
        {
            proof {
                lemma_models_of(args@);
                lemma_models_of(orig);
            }
            assert(models.skip(i as int).drop_first() =~= models.skip(i + 1));
            assert(models.skip(i as int)[0] == models[i as int]);
            let ghost out1 = out@;
            let ghost pre = orig.take(i as int);
            let ghost pre2 = args@.take(i as int);
            let ghost x = orig[i as int];
            let ghost post = orig.skip(i + 1);
            proof {
                assert(orig =~= pre + (seq![x] + post));
                lemma_streams_of_append(pre, seq![x] + post);
                lemma_streams_of_append(seq![x], post);
                assert(seq![x] =~= Seq::<Expr<T, S>>::empty().push(x));
                lemma_streams_of_push(Seq::<Expr<T, S>>::empty(), x);
                assert(streams_of(seq![x]) =~= x.streams());
                let sp = streams_of(pre);
                let sx = x.streams();
                assert(ss =~= sp + sx + streams_of(post));
                if all_lawful(ss) {
                    assert forall|k: int| 0 <= k < sx.len() implies #[trigger] sx[k].obeys_prophetic_iter_laws() by {
                        assert(ss[sp.len() + k] == sx[k]);
                    }
                    assert forall|k: int| 0 <= k < streams_of(post).len() implies #[trigger] streams_of(post)[k].obeys_prophetic_iter_laws() by {
                        assert(ss[sp.len() + sx.len() + k] == streams_of(post)[k]);
                    }
                }
            }
            let mut item: Expr<T, S> = Expr::Value(None);
            args.set_and_swap(i, &mut item);
            assert(item == x);
            let (item, res) = Self::pull_owned(item, out);
            let ghost x2 = item;
            let ghost out2 = out@;
            let mut item = item;
            args.set_and_swap(i, &mut item);
            proof {
                lemma_models_of(args@);
                assert(models_of(args@) =~= models);
                assert(args@.take(i as int) =~= pre2);
                assert(args@.take(i + 1) =~= pre2.push(x2));
                assert(orig.take(i + 1) =~= pre.push(x));
                lemma_streams_of_push(pre2, x2);
                lemma_streams_of_push(pre, x);
                if all_lawful(ss) {
                    let sp = streams_of(pre);
                    let sp2 = streams_of(pre2);
                    let sx = x.streams();
                    let sx2 = x2.streams();
                    let bp = Seq::new(sp.len(), |k: int| sp[k].remaining());
                    let ap = Seq::new(sp.len(), |k: int| sp2[k].remaining());
                    let bx = Seq::new(sx.len(), |k: int| sx[k].remaining());
                    let ax = Seq::new(sx.len(), |k: int| sx2[k].remaining());
                    lemma_pulled_concat(sp, sx, sp2, sx2, bp, bx, ap, ax, true, res is Ok, out0, out1, out2);
                    assert(Seq::new((sp + sx).len(), |k: int| (sp + sx)[k].remaining()) =~= bp + bx);
                    assert(Seq::new((sp + sx).len(), |k: int| (sp2 + sx2)[k].remaining()) =~= ap + ax);
                    if res.is_err() {
                        let sq = streams_of(post);
                        let bq = Seq::new(sq.len(), |k: int| sq[k].remaining());
                        lemma_pulled_concat(sp + sx, sq, sp2 + sx2, sq, bp + bx, bq, ap + ax, bq, false, true, out0, out2, out2);
                        assert(args@ =~= args@.take(i + 1) + post);
                        lemma_streams_of_append(args@.take(i + 1), post);
                        assert(before =~= bp + bx + bq);
                        assert(Seq::new(ss.len(), |k: int| streams_of(args@)[k].remaining()) =~= ap + ax + bq);
                    }
                }
            }
            if res.is_err() {
                return (args, res);
            }
            i = i + 1;
        }
        proof {
            assert(orig.take(i as int) =~= orig);
            assert(args@.take(i as int) =~= args@);
        }
        (args, Ok(()))
    }

    /// Reads one value from each placeholder's stream and evaluates the
    /// expression on them.
    ///
    /// The streams are read in the order of the placeholders; a stream that
    /// has run dry makes the whole calculation fail.  Of streams that follow
    /// the laws of iterators this says exactly what happens: each one is
    /// read once, in order, up to the first that has nothing left, and the
    /// result is the formula's value on the items read.
    pub fn calculate(&mut self) -> (r: Result<Option<T>, FormulaError>)
        ensures
            final(self)@ == old(self)@,
            r matches Ok(v) ==> is_value_of(old(self)@, v),
            r matches Err(e) ==> e.0@ == out_of_bounds_text(),
            old(self)@.placeholders().len() == 0 ==> r == Ok::<Option<T>, FormulaError>(
                eval(old(self)@, Seq::empty()),
            ),
            all_lawful((*old(self)).streams()) ==> calculated(
                old(self)@,
                (*old(self)).streams(),
                (*final(self)).streams(),
                Seq::new(
                    (*old(self)).streams().len(),
                    |k: int| (*old(self)).streams()[k].remaining(),
                ),
                Seq::new(
                    (*old(self)).streams().len(),
                    |k: int| (*final(self)).streams()[k].remaining(),
                ),
                r,
            ),
    {
        let mut values: Vec<Option<T>> = Vec::new();
        let mut node: Expr<T, S> = Expr::Value(None);
        std::mem::swap(self, &mut node);
        let (node, pulled) = Self::pull_owned(node, &mut values);
        *self = node;
        match pulled {
            Ok(()) => {},
            Err(e) => return Err(e),
        }
        let v = self.evaluate(values.as_slice());
        assert(is_value_of(self@, v));
        assert(values@ =~= Seq::<Option<T>>::empty() + values@);
        assert(self@.placeholders().len() == 0 ==> values@ =~= Seq::<Option<T>>::empty());
        Ok(v)
    }
}

impl<T: NumberLike, S> Expr<T, S> {
    /// Parses a formula into an expression, taking the stream of each
    /// component placeholder from `metric_stream_fetcher`.
    ///
    /// A formula off the grammar is answered with "Invalid formula:
    /// unexpected input at position N", N being the index of the first
    /// character that cannot be read; the grammar is this library's own, so
    /// the message is its own too.
    pub fn try_new<M: MetricStreamFetcher<T, S>>(formula: &str, metric_stream_fetcher: &mut M) -> (r:
        Result<Self, FormulaError>)
        ensures
            parse_formula(formula@) is Err ==> *final(metric_stream_fetcher) == *old(metric_stream_fetcher),
            parse_formula(formula@) matches Err(p) ==> r matches Err(e) && e.0@
                == syntax_error_text(p as nat),
            parse_formula(formula@) matches Ok(t) ==> {
                &&& r matches Ok(e) ==> denotes(t, e@) && built_from::<T, S, M>(
                    t,
                    *old(metric_stream_fetcher),
                    *final(metric_stream_fetcher),
                    e.streams(),
                )
                &&& r matches Err(e) ==> is_leaf_error::<T, S, M>(t, e.0@, *old(metric_stream_fetcher))
                &&& *final(metric_stream_fetcher) == build_outcome::<T, S, M>(t, *old(metric_stream_fetcher)).0
                &&& r is Ok <==> build_outcome::<T, S, M>(t, *old(metric_stream_fetcher)).1
            },
    {
        parse(formula, metric_stream_fetcher)
    }
}

} // verus!
