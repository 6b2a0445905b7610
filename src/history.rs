//! Laws of the queue over whole histories of operations. Each operation acts
//! on the pending values as `Queue::enqueue` and `Queue::dequeue` state it:
//! an enqueue pushes at the back, a dequeue takes the front where there is one.
use vstd::prelude::*;
use vstd::seq_lib::lemma_multiset_commutative;

verus! {

/// One call on a queue.
pub enum Op<T> {
    Enqueue(T),
    Dequeue,
}

/// The pending values after `op`, starting from the pending values `q`.
pub open spec fn after<T>(q: Seq<T>, op: Op<T>) -> Seq<T> {
    match op {
        Op::Enqueue(v) => q.push(v),
        Op::Dequeue => if q.len() == 0 { q } else { q.drop_first() },
    }
}

/// What `op` returns, starting from the pending values `q`.
pub open spec fn returned<T>(q: Seq<T>, op: Op<T>) -> Option<T> {
    match op {
        Op::Enqueue(_) => None,
        Op::Dequeue => if q.len() == 0 { None } else { Some(q[0]) },
    }
}

/// The pending values after all of `ops`, in order, starting from `q`.
pub open spec fn run<T>(q: Seq<T>, ops: Seq<Op<T>>) -> Seq<T>
    decreases ops.len(),
{
    if ops.len() == 0 {
        q
    } else {
        run(after(q, ops[0]), ops.drop_first())
    }
}

/// The values that the dequeues among `ops` hand out, in the order they do.
pub open spec fn dequeued<T>(q: Seq<T>, ops: Seq<Op<T>>) -> Seq<T>
    decreases ops.len(),
{
    if ops.len() == 0 {
        Seq::empty()
    } else {
        let rest = dequeued(after(q, ops[0]), ops.drop_first());
        match returned(q, ops[0]) {
            Some(v) => seq![v] + rest,
            None => rest,
        }
    }
}

/// The values that the enqueues among `ops` hand in, in the order they do.
pub open spec fn enqueued<T>(ops: Seq<Op<T>>) -> Seq<T>
    decreases ops.len(),
{
    if ops.len() == 0 {
        Seq::empty()
    } else {
        match ops[0] {
            Op::Enqueue(v) => seq![v] + enqueued(ops.drop_first()),
            Op::Dequeue => enqueued(ops.drop_first()),
        }
    }
}

/// One enqueue for each value of `vs`, in order.
pub open spec fn enqueue_all<T>(vs: Seq<T>) -> Seq<Op<T>> {
    Seq::new(vs.len(), |i: int| Op::Enqueue(vs[i]))
}

/// `n` dequeues.
pub open spec fn dequeue_n<T>(n: nat) -> Seq<Op<T>> {
    Seq::new(n, |i: int| Op::Dequeue)
}

/// Whatever the history, the values handed out followed by the values still
/// pending are exactly the values pending at the start followed by the values
/// handed in: nothing is lost, duplicated or reordered.
pub proof fn lemma_history<T>(q: Seq<T>, ops: Seq<Op<T>>)
    ensures
        dequeued(q, ops) + run(q, ops) == q + enqueued(ops),
    decreases ops.len(),
{
    if ops.len() == 0 {
        assert(q + Seq::<T>::empty() =~= q);
        assert(Seq::<T>::empty() + q =~= q);
    } else {
        let rest = ops.drop_first();
        lemma_history(after(q, ops[0]), rest);
        match ops[0] {
            Op::Enqueue(v) => {
                assert(q.push(v) + enqueued(rest) =~= q + (seq![v] + enqueued(rest)));
            },
            Op::Dequeue => {
                if q.len() == 0 {
                    assert(q + enqueued(rest) =~= enqueued(rest));
                } else {
                    let d = dequeued(q.drop_first(), rest);
                    assert(seq![q[0]] + d + run(q.drop_first(), rest)
                        =~= seq![q[0]] + (d + run(q.drop_first(), rest)));
                    assert(seq![q[0]] + (q.drop_first() + enqueued(rest)) =~= q + enqueued(rest));
                }
            },
        }
    }
}

/// Running `a` and then `b` is running `a + b`.
pub proof fn lemma_run_append<T>(q: Seq<T>, a: Seq<Op<T>>, b: Seq<Op<T>>)
    ensures
        run(q, a + b) == run(run(q, a), b),
        dequeued(q, a + b) == dequeued(q, a) + dequeued(run(q, a), b),
    decreases a.len(),
{
    if a.len() == 0 {
        assert(a + b =~= b);
        assert(Seq::<T>::empty() + dequeued(q, b) =~= dequeued(q, b));
    } else {
        assert((a + b)[0] == a[0]);
        assert((a + b).drop_first() =~= a.drop_first() + b);
        lemma_run_append(after(q, a[0]), a.drop_first(), b);
        let q1 = after(q, a[0]);
        let d = dequeued(q1, a.drop_first());
        let e = dequeued(run(q1, a.drop_first()), b);
        match returned(q, a[0]) {
            Some(v) => {
                assert(seq![v] + (d + e) =~= seq![v] + d + e);
            },
            None => {},
        }
    }
}

/// Enqueues alone hand nothing out and append their values.
pub proof fn lemma_enqueue_all<T>(q: Seq<T>, vs: Seq<T>)
    ensures
        run(q, enqueue_all(vs)) == q + vs,
        dequeued(q, enqueue_all(vs)) == Seq::<T>::empty(),
    decreases vs.len(),
{
    if vs.len() == 0 {
        assert(q + vs =~= q);
    } else {
        assert(enqueue_all(vs).drop_first() =~= enqueue_all(vs.drop_first()));
        lemma_enqueue_all(q.push(vs[0]), vs.drop_first());
        assert(q.push(vs[0]) + vs.drop_first() =~= q + vs);
    }
}

/// At least as many dequeues as there are pending values hand them all out,
/// in order, and leave nothing pending.
pub proof fn lemma_drain<T>(q: Seq<T>, n: nat)
    requires
        n >= q.len(),
    ensures
        dequeued(q, dequeue_n(n)) == q,
        run(q, dequeue_n(n)) == Seq::<T>::empty(),
    decreases n,
{
    if n == 0 {
        assert(q =~= Seq::<T>::empty());
    } else {
        let ops = dequeue_n::<T>(n);
        assert(ops.drop_first() =~= dequeue_n::<T>((n - 1) as nat));
        if q.len() == 0 {
            lemma_drain(q, (n - 1) as nat);
        } else {
            lemma_drain(q.drop_first(), (n - 1) as nat);
            assert(seq![q[0]] + q.drop_first() =~= q);
        }
    }
}

/// Values that one caller enqueues come out of the queue in the order it
/// enqueued them: after enqueuing `vs` onto the pending values `q`, as many
/// dequeues as there are values hand out `q` and then `vs`, and the queue is
/// left empty.
pub proof fn lemma_fifo<T>(q: Seq<T>, vs: Seq<T>)
    ensures
        dequeued(q, enqueue_all(vs) + dequeue_n(q.len() + vs.len())) == q + vs,
        run(q, enqueue_all(vs) + dequeue_n(q.len() + vs.len())) == Seq::<T>::empty(),
{
    let n = q.len() + vs.len();
    lemma_run_append(q, enqueue_all(vs), dequeue_n(n));
    lemma_enqueue_all(q, vs);
    lemma_drain(q + vs, n);
    assert(Seq::<T>::empty() + (q + vs) =~= q + vs);
}

/// No value is lost or duplicated: whatever the history, the values handed
/// out and the values still pending make up, as a multiset, the values that
/// were pending at the start and the values handed in. In particular, from an
/// empty queue that ends empty, as many dequeues succeed as there were
/// enqueues, and they hand out the same multiset of values.
pub proof fn lemma_no_loss<T>(q: Seq<T>, ops: Seq<Op<T>>)
    ensures
        dequeued(q, ops).to_multiset().add(run(q, ops).to_multiset())
            == q.to_multiset().add(enqueued(ops).to_multiset()),
        dequeued(q, ops).len() + run(q, ops).len() == q.len() + enqueued(ops).len(),
        q.len() == 0 && run(q, ops).len() == 0 ==> dequeued(q, ops).to_multiset()
            == enqueued(ops).to_multiset() && dequeued(q, ops).len() == enqueued(ops).len(),
{
    lemma_history(q, ops);
    lemma_multiset_commutative(dequeued(q, ops), run(q, ops));
    lemma_multiset_commutative(q, enqueued(ops));
    assert((dequeued(q, ops) + run(q, ops)).len() == (q + enqueued(ops)).len());
    if q.len() == 0 && run(q, ops).len() == 0 {
        assert(dequeued(q, ops) + run(q, ops) =~= dequeued(q, ops));
        assert(q + enqueued(ops) =~= enqueued(ops));
    }
}

/// Once every enqueued value has been handed out, dequeues hand out nothing
/// and the queue stays empty, however many of them follow.
pub proof fn lemma_empty_stays_empty<T>(n: nat)
    ensures
        dequeued(Seq::<T>::empty(), dequeue_n(n)) == Seq::<T>::empty(),
        run(Seq::<T>::empty(), dequeue_n(n)) == Seq::<T>::empty(),
{
    lemma_drain(Seq::<T>::empty(), n);
}

/// However enqueues and dequeues interleave, starting from an empty queue the
/// k-th value handed out is the k-th value handed in. So two values enqueued
/// by one caller come out in the order it enqueued them, and no value comes
/// out that was not put in.
pub proof fn lemma_interleaving<T>(ops: Seq<Op<T>>)
    ensures
        dequeued(Seq::<T>::empty(), ops).len() <= enqueued(ops).len(),
        forall|k: int| 0 <= k < dequeued(Seq::<T>::empty(), ops).len()
            ==> #[trigger] dequeued(Seq::<T>::empty(), ops)[k] == enqueued(ops)[k],
{
    let e = Seq::<T>::empty();
    lemma_history(e, ops);
    assert(e + enqueued(ops) =~= enqueued(ops));
    assert forall|k: int| 0 <= k < dequeued(e, ops).len()
        implies #[trigger] dequeued(e, ops)[k] == enqueued(ops)[k] by {
        assert((dequeued(e, ops) + run(e, ops))[k] == dequeued(e, ops)[k]);
    }
}

} // verus!
