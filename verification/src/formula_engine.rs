use vstd::prelude::*;
use std::collections::HashSet;

use crate::error::FormulaError;
use crate::expression::{
    all_lawful, calculated, eval, is_value_of, out_of_bounds_text, Expr, Formula,
};
use vstd::std_specs::iter::IteratorSpec;
use crate::grammar::parse_formula;
use crate::parser::{
    build_outcome, built_from, denotes, is_leaf_error, parse, syntax_error_text,
};
use crate::traits::{MetricStreamFetcher, NumberLike};

verus! {

/// FormulaEngine holds the parsed expression and can calculate the result
/// from the values that the component streams hand out.
#[derive(Debug)]
pub struct FormulaEngine<T, S> {
    expr: Expr<T, S>,
    components: HashSet<usize>,
}

impl<T, S> FormulaEngine<T, S> {
    /// The parsed formula.
    pub closed spec fn formula(&self) -> Formula<T> {
        self.expr@
    }

    /// The streams of the placeholders, in the order in which they are
    /// written.
    pub closed spec fn streams(&self) -> Seq<S> {
        self.expr.streams()
    }

    /// The component ids that the engine reports are those of its formula.
    #[verifier::type_invariant]
    closed spec fn components_match(&self) -> bool {
        self.components@ == self.expr@.component_ids()
    }
}

impl<T: NumberLike, S: Iterator<Item = Option<T>>> FormulaEngine<T, S> {
    /// Create a new FormulaEngine from a formula string, taking the stream
    /// of each component placeholder from `fetcher`.
    ///
    /// A formula off the grammar is answered with "Invalid formula:
    /// unexpected input at position N", N being the index of the first
    /// character that cannot be read; the grammar is this library's own, so
    /// the message is its own too.
    pub fn try_new<M: MetricStreamFetcher<T, S>>(s: &str, fetcher: &mut M) -> (r: Result<
        Self,
        FormulaError,
    >)
        ensures
            parse_formula(s@) is Err ==> *final(fetcher) == *old(fetcher),
            parse_formula(s@) matches Err(p) ==> r matches Err(e) && e.0@ == syntax_error_text(
                p as nat,
            ),
            parse_formula(s@) matches Ok(t) ==> {
                &&& r matches Ok(fe) ==> denotes(t, fe.formula()) && built_from::<T, S, M>(
                    t,
                    *old(fetcher),
                    *final(fetcher),
                    fe.streams(),
                )
                &&& r matches Err(e) ==> is_leaf_error::<T, S, M>(t, e.0@, *old(fetcher))
                &&& *final(fetcher) == build_outcome::<T, S, M>(t, *old(fetcher)).0
                &&& r is Ok <==> build_outcome::<T, S, M>(t, *old(fetcher)).1
            },
    {
        let expr = match parse(s, fetcher) {
            Ok(e) => e,
            Err(e) => return Err(e),
        };
        let components = expr.components();
        Ok(Self { expr, components })
    }

    /// Get the components of the formula.
    pub fn components(&self) -> (r: &HashSet<usize>)
        ensures
            r@ == self.formula().component_ids(),
    {
        proof {
            use_type_invariant(self);
        }
        &self.components
    }

    /// Calculate the result of the formula from the next value of each
    /// component stream.
    ///
    /// Of streams that follow the laws of iterators this says exactly what
    /// happens: each one is read once, in the order of the placeholders, up
    /// to the first that has nothing left, and the result is the formula's
    /// value on the items read.
    pub fn calculate(&mut self) -> (r: Result<Option<T>, FormulaError>)
        ensures
            final(self).formula() == old(self).formula(),
            r matches Ok(v) ==> is_value_of(old(self).formula(), v),
            r matches Err(e) ==> e.0@ == out_of_bounds_text(),
            old(self).formula().placeholders().len() == 0 ==> r == Ok::<Option<T>, FormulaError>(
                eval(old(self).formula(), Seq::empty()),
            ),
            all_lawful(old(self).streams()) ==> calculated(
                old(self).formula(),
                old(self).streams(),
                final(self).streams(),
                Seq::new(old(self).streams().len(), |k: int| old(self).streams()[k].remaining()),
                Seq::new(old(self).streams().len(), |k: int| final(self).streams()[k].remaining()),
                r,
            ),
    {
        let empty: HashSet<usize> = HashSet::new();
        let placeholder: Expr<T, S> = Expr::Value(None);
        assert(placeholder@.placeholders().to_set() =~= Set::<usize>::empty());
        let mut engine = FormulaEngine { expr: placeholder, components: empty };
        std::mem::swap(self, &mut engine);
        proof {
            use_type_invariant(&engine);
        }
        let FormulaEngine { mut expr, components } = engine;
        let r = expr.calculate();
        *self = FormulaEngine { expr, components };
        r
    }
}

} // verus!
