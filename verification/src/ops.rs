//! A model of operation sequences.
//!
//! The laws about whole sequences of push and pop calls are stated here over
//! a small mathematical model: [`ListOp`] names one end operation, [`step`]
//! and [`step_result`] give the contents and the returned value after one
//! operation — each arm is exactly the `ensures` of the corresponding method
//! of [`crate::cdl_list::CdlList`] — and [`run`] and [`results`] fold a whole
//! sequence of operations.

use vstd::prelude::*;

verus! {

/// One push or pop operation on a list.
pub enum ListOp<T> {
    PushFront(T),
    PushBack(T),
    PopFront,
    PopBack,
}

/// The contents after one operation on a list with contents `s`.  Each arm
/// states what the `ensures` of the corresponding method promises: a pop on
/// an empty list leaves it unchanged.
pub open spec fn step<T>(s: Seq<T>, op: ListOp<T>) -> Seq<T> {
    match op {
        ListOp::PushFront(v) => s.insert(0, v),
        ListOp::PushBack(v) => s.push(v),
        ListOp::PopFront => if s.len() > 0 {
            s.remove(0)
        } else {
            s
        },
        ListOp::PopBack => if s.len() > 0 {
            s.drop_last()
        } else {
            s
        },
    }
}

/// The value one operation returns on a list with contents `s`: a successful
/// pop returns the end element, a pop on an empty list returns nothing, and
/// a push returns nothing.
pub open spec fn step_result<T>(s: Seq<T>, op: ListOp<T>) -> Option<T> {
    match op {
        ListOp::PushFront(v) => None,
        ListOp::PushBack(v) => None,
        ListOp::PopFront => if s.len() > 0 {
            Some(s.first())
        } else {
            None
        },
        ListOp::PopBack => if s.len() > 0 {
            Some(s.last())
        } else {
            None
        },
    }
}

/// The contents after a whole sequence of operations.
pub open spec fn run<T>(s: Seq<T>, ops: Seq<ListOp<T>>) -> Seq<T>
    decreases ops.len(),
{
    if ops.len() == 0 {
        s
    } else {
        run(step(s, ops.first()), ops.drop_first())
    }
}

/// The values returned by a whole sequence of operations, one entry per
/// operation.
pub open spec fn results<T>(s: Seq<T>, ops: Seq<ListOp<T>>) -> Seq<Option<T>>
    decreases ops.len(),
{
    if ops.len() == 0 {
        Seq::empty()
    } else {
        seq![step_result(s, ops.first())] + results(step(s, ops.first()), ops.drop_first())
    }
}

/// Whether an operation is a push.
pub open spec fn is_push<T>(op: ListOp<T>) -> bool {
    op is PushFront || op is PushBack
}

/// How many operations of the sequence are pushes.
pub open spec fn count_pushes<T>(ops: Seq<ListOp<T>>) -> nat
    decreases ops.len(),
{
    if ops.len() == 0 {
        0
    } else {
        (if is_push(ops.first()) {
            1nat
        } else {
            0nat
        }) + count_pushes(ops.drop_first())
    }
}

/// How many operations of the sequence are successful pops, that is, pops
/// that find the list non-empty and return a value.
pub open spec fn count_ok_pops<T>(s: Seq<T>, ops: Seq<ListOp<T>>) -> nat
    decreases ops.len(),
{
    if ops.len() == 0 {
        0
    } else {
        (if !is_push(ops.first()) && s.len() > 0 {
            1nat
        } else {
            0nat
        }) + count_ok_pops(step(s, ops.first()), ops.drop_first())
    }
}

/// Law: after any sequence of push and pop operations, the length of the
/// contents equals the starting length plus the number of pushes minus the
/// number of successful pops.
pub proof fn lemma_size_after_ops<T>(s: Seq<T>, ops: Seq<ListOp<T>>)
    ensures
        run(s, ops).len() + count_ok_pops(s, ops) == s.len() + count_pushes(ops),
    decreases ops.len(),
{
    if ops.len() > 0 {
        lemma_size_after_ops(step(s, ops.first()), ops.drop_first());
    }
}

/// The operations that push each value of `vs` at the back, in order.
pub open spec fn push_back_ops<T>(vs: Seq<T>) -> Seq<ListOp<T>> {
    vs.map_values(|v: T| ListOp::PushBack(v))
}

/// The operations that push each value of `vs` at the front, in order.
pub open spec fn push_front_ops<T>(vs: Seq<T>) -> Seq<ListOp<T>> {
    vs.map_values(|v: T| ListOp::PushFront(v))
}

/// `n` pops from the front.
pub open spec fn pop_front_ops<T>(n: nat) -> Seq<ListOp<T>> {
    Seq::new(n, |i: int| ListOp::PopFront)
}

/// A sequence of operations returns one value (present or absent) per
/// operation.
pub proof fn lemma_results_len<T>(s: Seq<T>, ops: Seq<ListOp<T>>)
    ensures
        results(s, ops).len() == ops.len(),
    decreases ops.len(),
{
    if ops.len() > 0 {
        lemma_results_len(step(s, ops.first()), ops.drop_first());
    }
}

/// Running a concatenation of two operation sequences runs the parts in
/// turn, and the returned values are those of the parts in turn.
pub proof fn lemma_run_append<T>(s: Seq<T>, ops1: Seq<ListOp<T>>, ops2: Seq<ListOp<T>>)
    ensures
        run(s, ops1 + ops2) == run(run(s, ops1), ops2),
        results(s, ops1 + ops2) == results(s, ops1) + results(run(s, ops1), ops2),
    decreases ops1.len(),
{
    if ops1.len() == 0 {
        assert(ops1 + ops2 =~= ops2);
        assert(results(s, ops1) + results(run(s, ops1), ops2) =~= results(s, ops2));
    } else {
        assert((ops1 + ops2).first() == ops1.first());
        assert((ops1 + ops2).drop_first() =~= ops1.drop_first() + ops2);
        lemma_run_append(step(s, ops1.first()), ops1.drop_first(), ops2);
        assert(results(s, ops1 + ops2) =~= results(s, ops1) + results(run(s, ops1), ops2));
    }
}

/// Pushing the values of `vs` at the back appends them in order.
pub proof fn lemma_push_back_run<T>(s: Seq<T>, vs: Seq<T>)
    ensures
        run(s, push_back_ops(vs)) == s + vs,
    decreases vs.len(),
{
    if vs.len() == 0 {
        assert(run(s, push_back_ops(vs)) =~= s + vs);
    } else {
        assert(push_back_ops(vs).drop_first() =~= push_back_ops(vs.drop_first()));
        lemma_push_back_run(s.push(vs.first()), vs.drop_first());
        assert(s.push(vs.first()) + vs.drop_first() =~= s + vs);
    }
}

/// Pushing the values of `vs` at the front puts them before the old
/// contents in reverse order: the value pushed last ends up first.
pub proof fn lemma_push_front_run<T>(s: Seq<T>, vs: Seq<T>)
    ensures
        run(s, push_front_ops(vs)) == vs.reverse() + s,
    decreases vs.len(),
{
    if vs.len() == 0 {
        assert(run(s, push_front_ops(vs)) =~= vs.reverse() + s);
    } else {
        assert(push_front_ops(vs).drop_first() =~= push_front_ops(vs.drop_first()));
        lemma_push_front_run(s.insert(0, vs.first()), vs.drop_first());
        assert(vs.drop_first().reverse() + s.insert(0, vs.first()) =~= vs.reverse() + s);
    }
}

/// Popping from the front once per element returns the contents in order
/// and leaves the list empty.
pub proof fn lemma_pop_front_all<T>(s: Seq<T>)
    ensures
        run(s, pop_front_ops(s.len())) == Seq::<T>::empty(),
        results(s, pop_front_ops(s.len())) == s.map_values(|v: T| Some(v)),
    decreases s.len(),
{
    if s.len() == 0 {
        assert(run(s, pop_front_ops(s.len())) =~= Seq::<T>::empty());
        assert(results(s, pop_front_ops(s.len())) =~= s.map_values(|v: T| Some(v)));
    } else {
        assert(s.remove(0) =~= s.drop_first());
        assert(pop_front_ops::<T>(s.len()).drop_first() =~= pop_front_ops::<T>(
            (s.len() - 1) as nat,
        ));
        lemma_pop_front_all(s.drop_first());
        assert(seq![Some(s.first())] + s.drop_first().map_values(|v: T| Some(v)) =~= s.map_values(
            |v: T| Some(v),
        ));
    }
}

/// Law (round trip): pushing the values `v1..vn` at the back of an empty
/// list and then popping `n` times from the front returns exactly `v1..vn`
/// in that order, and leaves the list empty.
pub proof fn lemma_round_trip_back_front<T>(vs: Seq<T>)
    ensures
        run(Seq::empty(), push_back_ops(vs) + pop_front_ops(vs.len())) == Seq::<T>::empty(),
        results(Seq::empty(), push_back_ops(vs) + pop_front_ops(vs.len())).skip(vs.len() as int)
            == vs.map_values(|v: T| Some(v)),
{
    lemma_run_append(Seq::empty(), push_back_ops(vs), pop_front_ops(vs.len()));
    lemma_push_back_run(Seq::empty(), vs);
    assert(Seq::empty() + vs =~= vs);
    lemma_pop_front_all(vs);
    lemma_results_len(Seq::empty(), push_back_ops(vs));
    assert(results(Seq::empty(), push_back_ops(vs) + pop_front_ops(vs.len())).skip(
        vs.len() as int,
    ) =~= vs.map_values(|v: T| Some(v)));
}

/// Law (round trip, reversing): pushing the values `v1..vn` at the front of
/// an empty list and then popping `n` times from the front returns them in
/// reverse order `vn..v1`, and leaves the list empty.
pub proof fn lemma_round_trip_front_front<T>(vs: Seq<T>)
    ensures
        run(Seq::empty(), push_front_ops(vs) + pop_front_ops(vs.len())) == Seq::<T>::empty(),
        results(Seq::empty(), push_front_ops(vs) + pop_front_ops(vs.len())).skip(vs.len() as int)
            == vs.reverse().map_values(|v: T| Some(v)),
{
    lemma_run_append(Seq::empty(), push_front_ops(vs), pop_front_ops(vs.len()));
    lemma_push_front_run(Seq::empty(), vs);
    assert(vs.reverse() + Seq::empty() =~= vs.reverse());
    lemma_pop_front_all(vs.reverse());
    lemma_results_len(Seq::empty(), push_front_ops(vs));
    assert(results(Seq::empty(), push_front_ops(vs) + pop_front_ops(vs.len())).skip(
        vs.len() as int,
    ) =~= vs.reverse().map_values(|v: T| Some(v)));
}

} // verus!
