//! The bookkeeping of the planning nodes: the flat expression list, the sort
//! order that the input must have, and the single input and partition.
use vstd::prelude::*;
use crate::bucket::GapFillError;

verus! {

/// The flat expression list of the node: group expressions, then aggregates.
pub fn join_exprs<E>(group_expr: Vec<E>, aggr_expr: Vec<E>) -> (r: Vec<E>)
    ensures
        r@ == group_expr@ + aggr_expr@,
{
    let mut g = group_expr;
    let mut a = aggr_expr;
    g.append(&mut a);
    g
}

/// Splits a flat expression list back into group expressions and aggregates at
/// the number of group expressions.
pub fn split_exprs<E>(exprs: Vec<E>, n_group: usize) -> (r: (Vec<E>, Vec<E>))
    requires
        n_group <= exprs@.len(),
    ensures
        r.0@ == exprs@.subrange(0, n_group as int),
        r.1@ == exprs@.subrange(n_group as int, exprs@.len() as int),
{
    let mut g = exprs;
    let a = g.split_off(n_group);
    (g, a)
}

/// Splitting the flat list at the number of group expressions gives back the
/// group expressions and the aggregates it was made from.
pub proof fn lemma_split_join<E>(group_expr: Seq<E>, aggr_expr: Seq<E>)
    ensures
        (group_expr + aggr_expr).subrange(0, group_expr.len() as int) == group_expr,
        (group_expr + aggr_expr).subrange(group_expr.len() as int, (group_expr + aggr_expr).len() as int)
            == aggr_expr,
{
    assert((group_expr + aggr_expr).subrange(0, group_expr.len() as int) =~= group_expr);
    assert((group_expr + aggr_expr).subrange(
        group_expr.len() as int,
        (group_expr + aggr_expr).len() as int,
    ) =~= aggr_expr);
}

/// Index of the first group expression that is the column `time_col`.
pub open spec fn is_first_time(group_cols: Seq<Option<usize>>, time_col: usize, t: int) -> bool {
    &&& 0 <= t < group_cols.len()
    &&& group_cols[t] == Some(time_col)
    &&& forall|j: int| 0 <= j < t ==> group_cols[j] != Some(time_col)
}

/// The sort order over `n` group expressions with the one at `t` moved last:
/// positions `0..n`, with `t` and `n - 1` swapped.
pub open spec fn time_last_order(n: nat, t: int) -> Seq<usize> {
    Seq::new(n, |i: int| i as usize).update(t, (n - 1) as usize).update(n - 1, t as usize)
}

/// The order in which the input must be sorted, as positions into the group
/// expressions: all of them, with the time column last. Each group expression
/// is given as the column it reads, or `None` where it computes a value.
pub fn sort_order(group_cols: &Vec<Option<usize>>, time_col: usize) -> (r: Result<
    Vec<usize>,
    GapFillError,
>)
    ensures
        r is Err <==> forall|j: int| 0 <= j < group_cols@.len() ==> group_cols@[j] != Some(time_col),
        r is Err ==> r == Err::<Vec<usize>, GapFillError>(GapFillError::MissingTimeColumn),
        r matches Ok(order) ==> exists|t: int|
            is_first_time(group_cols@, time_col, t) && order@ == time_last_order(
                group_cols@.len(),
                t,
            ),
{
    let n = group_cols.len();
    let mut t: usize = 0;
    let mut found = false;
    while t < n && !found
        invariant
            n == group_cols@.len(),
            t <= n,
            found ==> t < n && group_cols@[t as int] == Some(time_col),
            forall|j: int| 0 <= j < t ==> group_cols@[j] != Some(time_col),
        decreases n - t + (if found { 0int } else { 1int }),
    {
        match group_cols[t] {
            Some(c) if c == time_col => {
                found = true;
            },
            _ => {
                t = t + 1;
            },
        }
    }
    if !found {
        return Err(GapFillError::MissingTimeColumn);
    }
    let mut order: Vec<usize> = Vec::new();
    let mut i: usize = 0;
    while i < n
        invariant
            i <= n,
            order@ == Seq::new(i as nat, |k: int| k as usize),
        decreases n - i,
    {
        order.push(i);
        i = i + 1;
        assert(order@ =~= Seq::new(i as nat, |k: int| k as usize));
    }
    let last = n - 1;
    order.set(t, last);
    order.set(last, t);
    assert(order@ =~= time_last_order(n as nat, t as int));
    assert(is_first_time(group_cols@, time_col, t as int));
    Ok(order)
}

/// Accepts exactly one input or child.
pub fn check_single_input(n: usize) -> (r: Result<(), GapFillError>)
    ensures
        n == 1 <==> r is Ok,
        r is Err ==> r == Err::<(), GapFillError>(GapFillError::WrongInputCount(n)),
{
    if n == 1 {
        Ok(())
    } else {
        Err(GapFillError::WrongInputCount(n))
    }
}

/// The node has a single output partition: only partition 0 can be executed.
pub fn check_partition(partition: usize) -> (r: Result<(), GapFillError>)
    ensures
        partition == 0 <==> r is Ok,
        r is Err ==> r == Err::<(), GapFillError>(GapFillError::InvalidPartition(partition)),
{
    if partition == 0 {
        Ok(())
    } else {
        Err(GapFillError::InvalidPartition(partition))
    }
}

} // verus!
