use vstd::prelude::*;
use vstd::seq_lib::seq_to_set_distributes_over_add;

use crate::expression::{
    eval, eval_each, fold_max, fold_min, placeholders_of, Formula, Function, Op,
};
use crate::grammar::Syntax;
use crate::parser::{
    build_outcome, built_from, denotes, denotes_each, is_leaf_error, lemma_denotes_unique,
    lemma_leaf_error_unique,
};
use crate::traits::MetricStreamFetcher;
use crate::traits::NumberLike;

verus! {

// ---------------------------------------------------------------------------
// Missing values
// ---------------------------------------------------------------------------

/// An arithmetic operator gives a value exactly when both operands have
/// one.
pub proof fn lemma_op_needs_both_operands<T: NumberLike>(op: Op, lhs: Option<T>, rhs: Option<T>)
    ensures
        op.spec_apply(lhs, rhs) is Some <==> (lhs is Some && rhs is Some),
{
}

/// Each operator applied to two present operands gives the number type's
/// own operation on them: `+` adds, `-` subtracts, `*` multiplies and `/`
/// divides, the left operand by the right one.
pub proof fn lemma_op_is_the_operation<T: NumberLike>(a: T, b: T)
    ensures
        Op::Add.spec_apply(Some(a), Some(b)) == Some(a.spec_plus(b)),
        Op::Sub.spec_apply(Some(a), Some(b)) == Some(a.spec_minus(b)),
        Op::Mul.spec_apply(Some(a), Some(b)) == Some(a.spec_times(b)),
        Op::Div.spec_apply(Some(a), Some(b)) == Some(a.spec_divide(b)),
{
}

/// The value is present.
pub open spec fn is_present<T>(v: Option<T>) -> bool {
    v is Some
}

/// `COALESCE` gives the first present argument value.
pub proof fn lemma_coalesce_first_present<T: NumberLike>(values: Seq<Option<T>>, k: int)
    requires
        0 <= k < values.len(),
        values[k] is Some,
        forall|j: int| 0 <= j < k ==> values[j] is None,
    ensures
        Function::Coalesce.spec_apply(values) == values[k],
    decreases k,
{
    if k > 0 {
        assert forall|j: int| 0 <= j < k - 1 implies values.drop_first()[j] is None by {
            assert(values.drop_first()[j] == values[j + 1]);
        }
        lemma_coalesce_first_present(values.drop_first(), k - 1);
    }
}

/// `COALESCE` gives no value exactly when no argument has one.
pub proof fn lemma_coalesce_missing<T: NumberLike>(values: Seq<Option<T>>)
    ensures
        Function::Coalesce.spec_apply(values) is None <==> forall|j: int|
            0 <= j < values.len() ==> #[trigger] values[j] is None,
    decreases values.len(),
{
    if values.len() > 0 {
        lemma_coalesce_missing(values.drop_first());
        if values[0] is None {
            assert forall|j: int| 0 <= j < values.len() && (forall|i: int|
                0 <= i < values.drop_first().len() ==> #[trigger] values.drop_first()[i] is None)
                implies #[trigger] values[j] is None by {
                if j > 0 {
                    assert(values.drop_first()[j - 1] == values[j]);
                }
            }
            assert forall|i: int|
                0 <= i < values.drop_first().len() && (forall|j: int|
                    0 <= j < values.len() ==> #[trigger] values[j] is None)
                implies #[trigger] values.drop_first()[i] is None by {
                assert(values.drop_first()[i] == values[i + 1]);
            }
        }
    }
}

/// `MIN` does not see missing values: it gives what it gives on the
/// present values alone.
pub proof fn lemma_min_ignores_missing<T: NumberLike>(values: Seq<Option<T>>)
    ensures
        Function::Min.spec_apply(values) == Function::Min.spec_apply(
            values.filter(|v: Option<T>| is_present(v)),
        ),
    decreases values.len(),
{
    let p = |v: Option<T>| is_present(v);
    if values.len() > 0 {
        lemma_min_ignores_missing(values.drop_last());
        reveal(Seq::filter);
        let rest = values.drop_last().filter(p);
        if values.last() is Some {
            assert(values.filter(p) == rest.push(values.last()));
            assert(rest.push(values.last()).drop_last() =~= rest);
        } else {
            assert(values.filter(p) == rest);
        }
    }
}

/// `MAX` does not see missing values: it gives what it gives on the
/// present values alone.
pub proof fn lemma_max_ignores_missing<T: NumberLike>(values: Seq<Option<T>>)
    ensures
        Function::Max.spec_apply(values) == Function::Max.spec_apply(
            values.filter(|v: Option<T>| is_present(v)),
        ),
    decreases values.len(),
{
    let p = |v: Option<T>| is_present(v);
    if values.len() > 0 {
        lemma_max_ignores_missing(values.drop_last());
        reveal(Seq::filter);
        let rest = values.drop_last().filter(p);
        if values.last() is Some {
            assert(values.filter(p) == rest.push(values.last()));
            assert(rest.push(values.last()).drop_last() =~= rest);
        } else {
            assert(values.filter(p) == rest);
        }
    }
}

/// `MIN` gives no value exactly when no argument has one; a value it
/// gives is one of the arguments.
pub proof fn lemma_min_is_an_argument<T: NumberLike>(values: Seq<Option<T>>)
    ensures
        fold_min(values) is None <==> forall|j: int|
            0 <= j < values.len() ==> #[trigger] values[j] is None,
        fold_min(values) is Some ==> values.contains(fold_min(values)),
    decreases values.len(),
{
    if values.len() > 0 {
        let init = values.drop_last();
        lemma_min_is_an_argument(init);
        assert forall|j: int| 0 <= j < init.len() implies #[trigger] init[j] == values[j] by {}
        if fold_min(init) is Some {
            let k = choose|k: int| 0 <= k < init.len() && init[k] == fold_min(init);
            assert(values[k] == init[k]);
        }
        assert(values[values.len() - 1] == values.last());
        if fold_min(values) is None {
            assert forall|j: int| 0 <= j < values.len() implies #[trigger] values[j] is None by {
                if j < init.len() {
                    assert(init[j] is None);
                }
            }
        }
        if forall|j: int| 0 <= j < values.len() ==> #[trigger] values[j] is None {
            assert forall|j: int| 0 <= j < init.len() implies #[trigger] init[j] is None by {
                assert(values[j] is None);
            }
        }
    }
}

/// `MAX` gives no value exactly when no argument has one; a value it
/// gives is one of the arguments.
pub proof fn lemma_max_is_an_argument<T: NumberLike>(values: Seq<Option<T>>)
    ensures
        fold_max(values) is None <==> forall|j: int|
            0 <= j < values.len() ==> #[trigger] values[j] is None,
        fold_max(values) is Some ==> values.contains(fold_max(values)),
    decreases values.len(),
{
    if values.len() > 0 {
        let init = values.drop_last();
        lemma_max_is_an_argument(init);
        assert forall|j: int| 0 <= j < init.len() implies #[trigger] init[j] == values[j] by {}
        if fold_max(init) is Some {
            let k = choose|k: int| 0 <= k < init.len() && init[k] == fold_max(init);
            assert(values[k] == init[k]);
        }
        assert(values[values.len() - 1] == values.last());
        if fold_max(values) is None {
            assert forall|j: int| 0 <= j < values.len() implies #[trigger] values[j] is None by {
                if j < init.len() {
                    assert(init[j] is None);
                }
            }
        }
        if forall|j: int| 0 <= j < values.len() ==> #[trigger] values[j] is None {
            assert forall|j: int| 0 <= j < init.len() implies #[trigger] init[j] is None by {
                assert(values[j] is None);
            }
        }
    }
}

// ---------------------------------------------------------------------------
// Minimum and maximum
// ---------------------------------------------------------------------------

/// `less_than` strictly and totally orders the present values of the
/// list: none is below itself, it is transitive among them, and any two
/// different ones are comparable.  (Nothing is asked of other numbers, such
/// as a NaN that is not among the values.)
pub open spec fn less_than_orders<T: NumberLike>(values: Seq<Option<T>>) -> bool {
    &&& forall|a: T| #[trigger] values.contains(Some(a)) ==> !a.spec_less_than(a)
    &&& forall|a: T, b: T, c: T|
        values.contains(Some(a)) && values.contains(Some(b)) && values.contains(Some(c))
            && #[trigger] a.spec_less_than(b) && #[trigger] b.spec_less_than(c) ==> a.spec_less_than(c)
    &&& forall|a: T, b: T|
        #[trigger] values.contains(Some(a)) && #[trigger] values.contains(Some(b))
            ==> a.spec_less_than(b) || b.spec_less_than(a) || a == b
}

/// `greater_than` strictly and totally orders the present values of the
/// list.
pub open spec fn greater_than_orders<T: NumberLike>(values: Seq<Option<T>>) -> bool {
    &&& forall|a: T| #[trigger] values.contains(Some(a)) ==> !a.spec_greater_than(a)
    &&& forall|a: T, b: T, c: T|
        values.contains(Some(a)) && values.contains(Some(b)) && values.contains(Some(c))
            && #[trigger] a.spec_greater_than(b) && #[trigger] b.spec_greater_than(c)
            ==> a.spec_greater_than(c)
    &&& forall|a: T, b: T|
        #[trigger] values.contains(Some(a)) && #[trigger] values.contains(Some(b))
            ==> a.spec_greater_than(b) || b.spec_greater_than(a) || a == b
}

/// When `less_than` strictly and totally orders the present values of the
/// list, no argument value of `MIN` is smaller than what it gives.
pub proof fn lemma_min_is_least<T: NumberLike>(values: Seq<Option<T>>)
    requires
        less_than_orders(values),
    ensures
        fold_min(values) matches Some(m) ==> forall|j: int|
            0 <= j < values.len() && #[trigger] values[j] is Some ==> !values[j]->0.spec_less_than(m),
    decreases values.len(),
{
    if values.len() > 0 {
        let init = values.drop_last();
        assert forall|x: Option<T>| init.contains(x) implies values.contains(x) by {
            let i = choose|i: int| 0 <= i < init.len() && init[i] == x;
            assert(values[i] == x);
        }
        lemma_min_is_least(init);
        lemma_min_is_an_argument(init);
        assert(values[values.len() - 1] == values.last());
        if let Some(m) = fold_min(values) {
            assert forall|j: int|
                0 <= j < values.len() && #[trigger] values[j] is Some implies !values[j]->0.spec_less_than(m) by {
                let x = values[j]->0;
                assert(values.contains(Some(x)));
                if j < values.len() - 1 {
                    assert(init[j] == values[j]);
                    assert(fold_min(init) is Some);
                    let acc = fold_min(init)->0;
                    assert(init.contains(Some(acc)));
                    assert(values.contains(Some(acc)));
                    assert(!x.spec_less_than(acc));
                    if let Some(last) = values.last() {
                        assert(values.contains(Some(last)));
                        if m == last && x.spec_less_than(last) && acc != last {
                            assert(last.spec_less_than(acc));
                            assert(x.spec_less_than(acc));
                        }
                    }
                } else {
                    assert(values[j] == values.last());
                    if fold_min(init) is Some && m != x {
                        let acc = fold_min(init)->0;
                        assert(init.contains(Some(acc)));
                        assert(values.contains(Some(acc)));
                        assert(acc.spec_less_than(x));
                        if x.spec_less_than(acc) {
                            assert(x.spec_less_than(x));
                        }
                    }
                }
            }
        }
    }
}

/// When `greater_than` strictly and totally orders the present values of the
/// list, no argument value of `MAX` is greater than what it gives.
pub proof fn lemma_max_is_greatest<T: NumberLike>(values: Seq<Option<T>>)
    requires
        greater_than_orders(values),
    ensures
        fold_max(values) matches Some(m) ==> forall|j: int|
            0 <= j < values.len() && #[trigger] values[j] is Some ==> !values[j]->0.spec_greater_than(m),
    decreases values.len(),
{
    if values.len() > 0 {
        let init = values.drop_last();
        assert forall|x: Option<T>| init.contains(x) implies values.contains(x) by {
            let i = choose|i: int| 0 <= i < init.len() && init[i] == x;
            assert(values[i] == x);
        }
        lemma_max_is_greatest(init);
        lemma_max_is_an_argument(init);
        assert(values[values.len() - 1] == values.last());
        if let Some(m) = fold_max(values) {
            assert forall|j: int|
                0 <= j < values.len() && #[trigger] values[j] is Some implies !values[j]->0.spec_greater_than(m) by {
                let x = values[j]->0;
                assert(values.contains(Some(x)));
                if j < values.len() - 1 {
                    assert(init[j] == values[j]);
                    assert(fold_max(init) is Some);
                    let acc = fold_max(init)->0;
                    assert(init.contains(Some(acc)));
                    assert(values.contains(Some(acc)));
                    assert(!x.spec_greater_than(acc));
                    if let Some(last) = values.last() {
                        assert(values.contains(Some(last)));
                        if m == last && x.spec_greater_than(last) && acc != last {
                            assert(last.spec_greater_than(acc));
                            assert(x.spec_greater_than(acc));
                        }
                    }
                } else {
                    assert(values[j] == values.last());
                    if fold_max(init) is Some && m != x {
                        let acc = fold_max(init)->0;
                        assert(init.contains(Some(acc)));
                        assert(values.contains(Some(acc)));
                        assert(acc.spec_greater_than(x));
                        if x.spec_greater_than(acc) {
                            assert(x.spec_greater_than(x));
                        }
                    }
                }
            }
        }
    }
}

/// When `less_than` strictly and totally orders the present values, what
/// `MAX` gives is not below what `MIN` gives.
pub proof fn lemma_min_not_above_max<T: NumberLike>(values: Seq<Option<T>>)
    requires
        less_than_orders(values),
    ensures
        Function::Min.spec_apply(values) matches Some(a) ==> Function::Max.spec_apply(values) matches Some(
            b,
        ) && !b.spec_less_than(a),
{
    lemma_min_is_least(values);
    lemma_min_is_an_argument(values);
    lemma_max_is_an_argument(values);
    if let Some(a) = fold_min(values) {
        let b = fold_max(values)->0;
        assert(values.contains(Some(b)));
        let j = choose|j: int| 0 <= j < values.len() && values[j] == Some(b);
        assert(values[j] is Some);
    }
}

/// Two lists with the same items, in any order, hold the same values.
proof fn lemma_same_items<X>(a: Seq<X>, b: Seq<X>)
    requires
        a.to_multiset() == b.to_multiset(),
    ensures
        forall|x: X| a.contains(x) <==> b.contains(x),
{
    a.to_multiset_ensures();
    b.to_multiset_ensures();
    assert forall|x: X| a.contains(x) <==> b.contains(x) by {
        assert(a.contains(x) <==> a.to_multiset().count(x) > 0);
        assert(b.contains(x) <==> b.to_multiset().count(x) > 0);
    }
}

/// When `less_than` strictly and totally orders the present values, `MIN`
/// gives the same whatever the order of its arguments.
pub proof fn lemma_min_ignores_order<T: NumberLike>(a: Seq<Option<T>>, b: Seq<Option<T>>)
    requires
        less_than_orders(a),
        a.to_multiset() == b.to_multiset(),
    ensures
        Function::Min.spec_apply(a) == Function::Min.spec_apply(b),
{
    lemma_same_items(a, b);
    lemma_min_is_an_argument(a);
    lemma_min_is_an_argument(b);
    lemma_min_is_least(a);
    lemma_min_is_least(b);
    if let Some(m1) = fold_min(a) {
        assert(b.contains(Some(m1)));
        let j = choose|j: int| 0 <= j < b.len() && b[j] == Some(m1);
        assert(b[j] is Some);
        let m2 = fold_min(b)->0;
        assert(!m1.spec_less_than(m2));
        assert(a.contains(Some(m2)));
        let i = choose|i: int| 0 <= i < a.len() && a[i] == Some(m2);
        assert(a[i] is Some);
        assert(!m2.spec_less_than(m1));
    } else if let Some(m2) = fold_min(b) {
        assert(a.contains(Some(m2)));
        let i = choose|i: int| 0 <= i < a.len() && a[i] == Some(m2);
        assert(a[i] is None);
    }
}

/// When `greater_than` strictly and totally orders the present values,
/// `MAX` gives the same whatever the order of its arguments.
pub proof fn lemma_max_ignores_order<T: NumberLike>(a: Seq<Option<T>>, b: Seq<Option<T>>)
    requires
        greater_than_orders(a),
        a.to_multiset() == b.to_multiset(),
    ensures
        Function::Max.spec_apply(a) == Function::Max.spec_apply(b),
{
    lemma_same_items(a, b);
    lemma_max_is_an_argument(a);
    lemma_max_is_an_argument(b);
    lemma_max_is_greatest(a);
    lemma_max_is_greatest(b);
    if let Some(m1) = fold_max(a) {
        assert(b.contains(Some(m1)));
        let j = choose|j: int| 0 <= j < b.len() && b[j] == Some(m1);
        assert(b[j] is Some);
        let m2 = fold_max(b)->0;
        assert(!m1.spec_greater_than(m2));
        assert(a.contains(Some(m2)));
        let i = choose|i: int| 0 <= i < a.len() && a[i] == Some(m2);
        assert(a[i] is Some);
        assert(!m2.spec_greater_than(m1));
    } else if let Some(m2) = fold_max(b) {
        assert(a.contains(Some(m2)));
        let i = choose|i: int| 0 <= i < a.len() && a[i] == Some(m2);
        assert(a[i] is None);
    }
}

// ---------------------------------------------------------------------------
// Formulas
// ---------------------------------------------------------------------------

/// The value of a formula is made of its parts' values, node by node, with
/// the values read for the placeholders shared out in written order: a
/// value is itself; a negation negates its operand's value; an operator
/// applies to its operands' values, the left operand taking the first
/// values; a call applies its function to its arguments' values; a
/// placeholder is the one value it reads.
pub proof fn lemma_eval_by_node<T: NumberLike>(f: Formula<T>, vals: Seq<Option<T>>)
    requires
        vals.len() == f.placeholders().len(),
    ensures
        f matches Formula::Value(v) ==> eval(f, vals) == v,
        f matches Formula::UnaryMinus(g) ==> eval(f, vals) == match eval(*g, vals) {
            Some(x) => Some(x.spec_negate()),
            None => None::<T>,
        },
        f matches Formula::Op(l, op, r) ==> eval(f, vals) == op.spec_apply(
            eval(*l, vals.subrange(0, l.placeholders().len() as int)),
            eval(*r, vals.subrange(l.placeholders().len() as int, vals.len() as int)),
        ),
        f matches Formula::Function(func, args) ==> eval(f, vals) == func.spec_apply(
            eval_each(args, vals),
        ),
        f matches Formula::Component(_) ==> vals.len() == 1 && eval(f, vals) == vals[0],
{
    match f {
        Formula::Op(l, op, r) => {
            let n = l.placeholders().len() as int;
            assert(vals.take(n) =~= vals.subrange(0, n));
            assert(vals.skip(n) =~= vals.subrange(n, vals.len() as int));
        },
        _ => {},
    }
}

proof fn lemma_placeholders_of_prefix<T>(args: Seq<Formula<T>>, i: int)
    requires
        0 <= i < args.len(),
    ensures
        placeholders_of(args.take(i)).len() + args[i].placeholders().len() <= placeholders_of(
            args,
        ).len(),
    decreases args.len(),
{
    if i > 0 {
        let rest = args.drop_first();
        lemma_placeholders_of_prefix(rest, i - 1);
        assert(rest[i - 1] == args[i]);
        assert(args.take(i).drop_first() =~= rest.take(i - 1));
        assert(args.take(i)[0] == args[0]);
    } else {
        assert(args.take(0) =~= Seq::<Formula<T>>::empty());
    }
}

/// The arguments of a call take their values in order: the `i`-th
/// argument's value is its value on the values that follow those of the
/// arguments before it.
pub proof fn lemma_eval_each_in_order<T: NumberLike>(args: Seq<Formula<T>>, vals: Seq<Option<T>>)
    requires
        vals.len() == placeholders_of(args).len(),
    ensures
        eval_each(args, vals).len() == args.len(),
        forall|i: int|
            0 <= i < args.len() ==> #[trigger] eval_each(args, vals)[i] == eval(
                args[i],
                vals.subrange(
                    placeholders_of(args.take(i)).len() as int,
                    (placeholders_of(args.take(i)).len() + args[i].placeholders().len()) as int,
                ),
            ),
    decreases args.len(),
{
    if args.len() > 0 {
        let n = args[0].placeholders().len() as int;
        let rest = args.drop_first();
        let tail = vals.skip(n);
        lemma_eval_each_in_order(rest, tail);
        assert forall|i: int| 0 <= i < args.len() implies #[trigger] eval_each(args, vals)[i] == eval(
            args[i],
            vals.subrange(
                placeholders_of(args.take(i)).len() as int,
                (placeholders_of(args.take(i)).len() + args[i].placeholders().len()) as int,
            ),
        ) by {
            if i == 0 {
                assert(args.take(0) =~= Seq::<Formula<T>>::empty());
                assert(vals.take(n) =~= vals.subrange(0, n));
            } else {
                assert(rest[i - 1] == args[i]);
                assert(args.take(i).drop_first() =~= rest.take(i - 1));
                assert(args.take(i)[0] == args[0]);
                let p = placeholders_of(rest.take(i - 1)).len() as int;
                lemma_placeholders_of_prefix(rest, i - 1);
                assert(tail.subrange(p, p + args[i].placeholders().len()) =~= vals.subrange(
                    n + p,
                    n + p + args[i].placeholders().len(),
                ));
            }
        }
    }
}

/// The formula uses no function, only values, placeholders and arithmetic.
pub open spec fn is_arithmetic<T>(f: Formula<T>) -> bool
    decreases f,
{
    match f {
        Formula::Value(_) => true,
        Formula::UnaryMinus(e) => is_arithmetic(*e),
        Formula::Op(l, _, r) => is_arithmetic(*l) && is_arithmetic(*r),
        Formula::Function(_, _) => false,
        Formula::Component(_) => true,
    }
}

/// In a formula of arithmetic alone, one missing placeholder value makes
/// the result missing.
pub proof fn lemma_missing_value_propagates<T: NumberLike>(
    f: Formula<T>,
    vals: Seq<Option<T>>,
    k: int,
)
    requires
        is_arithmetic(f),
        vals.len() == f.placeholders().len(),
        0 <= k < vals.len(),
        vals[k] is None,
    ensures
        eval(f, vals) is None,
    decreases f,
{
    match f {
        Formula::Value(_) => {},
        Formula::UnaryMinus(e) => {
            lemma_missing_value_propagates(*e, vals, k);
        },
        Formula::Op(l, _, r) => {
            let n = l.placeholders().len() as int;
            if k < n {
                assert(vals.take(n)[k] == vals[k]);
                lemma_missing_value_propagates(*l, vals.take(n), k);
            } else {
                assert(vals.skip(n)[k - n] == vals[k]);
                lemma_missing_value_propagates(*r, vals.skip(n), k - n);
            }
        },
        Formula::Function(_, _) => {},
        Formula::Component(_) => {},
    }
}

/// The component ids that some argument of a call reads.
pub open spec fn ids_of_args<T>(args: Seq<Formula<T>>) -> Set<usize> {
    Set::new(|id: usize| exists|i: int| 0 <= i < args.len() && #[trigger] args[i].component_ids().contains(id))
}

proof fn lemma_ids_of_args<T>(args: Seq<Formula<T>>)
    ensures
        placeholders_of(args).to_set() == ids_of_args(args),
    decreases args.len(),
{
    if args.len() == 0 {
        assert(placeholders_of(args).to_set() =~= ids_of_args(args));
    } else {
        let rest = args.drop_first();
        lemma_ids_of_args(rest);
        seq_to_set_distributes_over_add(args[0].placeholders(), placeholders_of(rest));
        assert forall|id: usize| ids_of_args(args).contains(id) <==> (
        args[0].component_ids().contains(id) || ids_of_args(rest).contains(id)) by {
            if ids_of_args(args).contains(id) {
                let i = choose|i: int| 0 <= i < args.len() && #[trigger] args[i].component_ids().contains(id);
                if i > 0 {
                    assert(rest[i - 1] == args[i]);
                }
            }
            if ids_of_args(rest).contains(id) {
                let i = choose|i: int| 0 <= i < rest.len() && #[trigger] rest[i].component_ids().contains(id);
                assert(rest[i] == args[i + 1]);
            }
        }
        assert(placeholders_of(args).to_set() =~= ids_of_args(args));
    }
}

/// The components of a formula, node by node: none for a value, those of
/// the operand for a negation, the union of both operands' for an
/// operator, the union of the arguments' for a call (none when it has no
/// arguments), and its own id for a placeholder.
pub proof fn lemma_component_ids_by_node<T>(f: Formula<T>)
    ensures
        match f {
            Formula::Value(_) => f.component_ids() == Set::<usize>::empty(),
            Formula::UnaryMinus(e) => f.component_ids() == e.component_ids(),
            Formula::Op(l, _, r) => f.component_ids() == l.component_ids() + r.component_ids(),
            Formula::Function(_, args) => f.component_ids() == ids_of_args(args),
            Formula::Component(id) => f.component_ids() == set![id],
        },
{
    match f {
        Formula::Value(_) => {
            assert(f.component_ids() =~= Set::<usize>::empty());
        },
        Formula::UnaryMinus(_) => {},
        Formula::Op(l, _, r) => {
            seq_to_set_distributes_over_add(l.placeholders(), r.placeholders());
        },
        Formula::Function(_, args) => {
            lemma_ids_of_args(args);
        },
        Formula::Component(id) => {
            assert(seq![id][0] == id);
            assert forall|x: usize| seq![id].contains(x) <==> x == id by {
                if seq![id].contains(x) {
                    let i = choose|i: int| 0 <= i < 1 && seq![id][i] == x;
                }
            }
            assert(f.component_ids() =~= set![id]);
        },
    }
}

/// The component ids written in a syntax tree, one per placeholder, in
/// the order written.
pub open spec fn written_ids(t: Syntax) -> Seq<usize>
    decreases t,
{
    match t {
        Syntax::Number(_) => seq![],
        Syntax::Component(n) => seq![n as usize],
        Syntax::Negate(a) => written_ids(*a),
        Syntax::Binary(a, _, b) => written_ids(*a) + written_ids(*b),
        Syntax::Call(_, args) => written_ids_of(args),
    }
}

/// The component ids written in a list of trees, one tree after the other.
pub open spec fn written_ids_of(ts: Seq<Syntax>) -> Seq<usize>
    decreases ts,
{
    if ts.len() == 0 {
        seq![]
    } else {
        written_ids(ts[0]) + written_ids_of(ts.drop_first())
    }
}

/// The placeholders of a parsed formula are the component ids written in
/// it, in the order written; its components are the set of them.
pub proof fn lemma_placeholders_are_written_ids<T: NumberLike>(t: Syntax, f: Formula<T>)
    requires
        denotes(t, f),
    ensures
        f.placeholders() == written_ids(t),
        f.component_ids() == written_ids(t).to_set(),
    decreases t,
{
    match t {
        Syntax::Number(_) => {},
        Syntax::Component(_) => {},
        Syntax::Negate(a) => {
            lemma_placeholders_are_written_ids(*a, *f->UnaryMinus_0);
        },
        Syntax::Binary(a, _, b) => {
            lemma_placeholders_are_written_ids(*a, *f->Op_0);
            lemma_placeholders_are_written_ids(*b, *f->Op_2);
        },
        Syntax::Call(_, args) => {
            lemma_placeholders_of_written(args, f->Function_1);
        },
    }
}

proof fn lemma_placeholders_of_written<T: NumberLike>(ts: Seq<Syntax>, fs: Seq<Formula<T>>)
    requires
        denotes_each(ts, fs),
    ensures
        placeholders_of(fs) == written_ids_of(ts),
    decreases ts,
{
    if ts.len() > 0 {
        lemma_placeholders_are_written_ids(ts[0], fs[0]);
        lemma_placeholders_of_written(ts.drop_first(), fs.drop_first());
    }
}

/// A build is determined by the tree and the fetcher's state: two
/// successful builds of the same tree from equal fetcher states give the
/// same formula and the same streams and leave the fetcher in the same
/// state, and two failed ones report errors with the same text.  (Whether a
/// build succeeds, and the state it leaves the fetcher in, is
/// [`build_outcome`], a function of the tree and the state.)
pub proof fn lemma_build_is_determined<T: NumberLike, S, M: MetricStreamFetcher<T, S>>(
    t: Syntax,
    m: M,
    f1: Formula<T>,
    m1: M,
    s1: Seq<S>,
    f2: Formula<T>,
    m2: M,
    s2: Seq<S>,
    msg1: Seq<char>,
    msg2: Seq<char>,
)
    ensures
        denotes(t, f1) && built_from::<T, S, M>(t, m, m1, s1) && denotes(t, f2) && built_from::<
            T,
            S,
            M,
        >(t, m, m2, s2) ==> f1 == f2 && m1 == m2 && s1 == s2,
        is_leaf_error::<T, S, M>(t, msg1, m) && is_leaf_error::<T, S, M>(t, msg2, m) ==> msg1
            == msg2,
{
    if denotes(t, f1) && denotes(t, f2) {
        lemma_denotes_unique(t, f1, f2);
    }
    if is_leaf_error::<T, S, M>(t, msg1, m) && is_leaf_error::<T, S, M>(t, msg2, m) {
        lemma_leaf_error_unique::<T, S, M>(t, m, msg1, msg2);
    }
}

} // verus!
