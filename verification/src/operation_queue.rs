//! Operations that wait for others to arrive first.

use vstd::prelude::*;

use crate::clock::{Lamport, after};
use crate::operation::{Operation, OperationModel, lamport_timestamp_of, operation_models};

verus! {

/// Each operation was made before the ones that follow it.
pub open spec fn in_order(ops: Seq<OperationModel>) -> bool {
    forall|i: int, j: int|
        0 <= i < j < ops.len() ==> after(
            lamport_timestamp_of(#[trigger] ops[j]),
            lamport_timestamp_of(#[trigger] ops[i]),
        )
}

/// The first place from `i` on whose operation was not made before `t`.
pub open spec fn slot_from(ops: Seq<OperationModel>, t: Lamport, i: int) -> int
    decreases ops.len() - i,
{
    if 0 <= i < ops.len() && after(t, lamport_timestamp_of(ops[i])) {
        slot_from(ops, t, i + 1)
    } else {
        i
    }
}

/// The queue with `op` in its place. One that was made at the same time is
/// kept, or gives way to it.
pub open spec fn queued(
    ops: Seq<OperationModel>,
    op: OperationModel,
    replace: bool,
) -> Seq<OperationModel> {
    let t = lamport_timestamp_of(op);
    let i = slot_from(ops, t, 0);
    if i < ops.len() && lamport_timestamp_of(ops[i]) == t {
        if replace {
            ops.update(i, op)
        } else {
            ops
        }
    } else {
        ops.insert(i, op)
    }
}

/// The queue with the first `n` of some more operations.
pub open spec fn queued_all(
    ops: Seq<OperationModel>,
    more: Seq<OperationModel>,
    replace: bool,
    n: int,
) -> Seq<OperationModel>
    decreases n,
{
    if n <= 0 {
        ops
    } else {
        queued(queued_all(ops, more, replace, n - 1), more[n - 1], replace)
    }
}

/// Some operations in order; of those made at the same time only the first.
pub open spec fn sorted_ops(ops: Seq<OperationModel>) -> Seq<OperationModel> {
    queued_all(Seq::empty(), ops, false, ops.len() as int)
}

/// The queue with some more operations, which replace those made at the same
/// time.
pub open spec fn enqueued(ops: Seq<OperationModel>, more: Seq<OperationModel>) -> Seq<
    OperationModel,
> {
    let sorted = sorted_ops(more);
    queued_all(ops, sorted, true, sorted.len() as int)
}

pub proof fn lemma_slot(ops: Seq<OperationModel>, t: Lamport, i: int)
    requires
        0 <= i <= ops.len(),
        in_order(ops),
        forall|j: int| 0 <= j < i ==> after(t, lamport_timestamp_of(#[trigger] ops[j])),
    ensures
        i <= slot_from(ops, t, i) <= ops.len(),
        forall|j: int|
            0 <= j < slot_from(ops, t, i) ==> after(t, lamport_timestamp_of(#[trigger] ops[j])),
        slot_from(ops, t, i) < ops.len() ==> !after(
            t,
            lamport_timestamp_of(ops[slot_from(ops, t, i)]),
        ),
    decreases ops.len() - i,
{
    if i < ops.len() && after(t, lamport_timestamp_of(ops[i])) {
        lemma_slot(ops, t, i + 1);
    }
}

pub proof fn lemma_queued_in_order(ops: Seq<OperationModel>, op: OperationModel, replace: bool)
    requires
        in_order(ops),
    ensures
        in_order(queued(ops, op, replace)),
{
    let t = lamport_timestamp_of(op);
    lemma_slot(ops, t, 0);
    let s = slot_from(ops, t, 0);
    let q = queued(ops, op, replace);
    assert forall|i: int, j: int| 0 <= i < j < q.len() implies after(
        lamport_timestamp_of(#[trigger] q[j]),
        lamport_timestamp_of(#[trigger] q[i]),
    ) by {
        if q.len() == ops.len() {
            assert(after(lamport_timestamp_of(ops[j]), lamport_timestamp_of(ops[i])));
        } else {
            let a = if i < s {
                i
            } else {
                i - 1
            };
            let b = if j < s {
                j
            } else {
                j - 1
            };
            if i != s && j != s {
                assert(after(lamport_timestamp_of(ops[b]), lamport_timestamp_of(ops[a])));
            } else if i == s && b > s {
                assert(after(lamport_timestamp_of(ops[b]), lamport_timestamp_of(ops[s])));
            }
        }
    }
}

/// Operations in the order in which they were made, no two made at the same
/// time.
#[derive(Debug)]
pub struct OperationQueue {
    ops: Vec<Operation>,
}

impl View for OperationQueue {
    type V = Seq<OperationModel>;

    closed spec fn view(&self) -> Seq<OperationModel> {
        operation_models(self.ops@)
    }
}

impl Clone for OperationQueue {
    fn clone(&self) -> (copy: Self)
        ensures
            copy@ == self@,
    {
        proof {
            use_type_invariant(self);
        }
        let mut ops: Vec<Operation> = Vec::new();
        let mut i: usize = 0;
        while i < self.ops.len()
            invariant
                i <= self.ops@.len(),
                ops@.len() == i,
                forall|j: int| 0 <= j < i ==> (#[trigger] ops@[j])@ == self.ops@[j]@,
            decreases self.ops@.len() - i,
        {
            ops.push(self.ops[i].clone());
            i = i + 1;
        }
        assert(operation_models(ops@) =~= operation_models(self.ops@));
        OperationQueue { ops }
    }
}

/// Puts one operation in its place.
fn put(ops: &mut Vec<Operation>, op: Operation, replace: bool)
    requires
        in_order(operation_models(old(ops)@)),
    ensures
        operation_models(final(ops)@) == queued(operation_models(old(ops)@), op@, replace),
        in_order(operation_models(final(ops)@)),
{
    let ghost before = operation_models(ops@);
    let t = op.lamport_timestamp();
    let mut i: usize = 0;
    while i < ops.len() && t.is_after(&ops[i].lamport_timestamp())
        invariant
            i <= ops@.len(),
            ops@ == old(ops)@,
            before == operation_models(ops@),
            slot_from(before, t, i as int) == slot_from(before, t, 0),
        decreases ops@.len() - i,
    {
        assert(before[i as int] == ops@[i as int]@);
        i = i + 1;
    }
    proof {
        lemma_slot(before, t, 0);
        lemma_queued_in_order(before, op@, replace);
        if i < ops@.len() {
            assert(before[i as int] == ops@[i as int]@);
        }
    }
    if i < ops.len() && ops[i].lamport_timestamp() == t {
        if replace {
            let ghost model = op@;
            ops.set(i, op);
            assert(operation_models(ops@) =~= before.update(i as int, model));
        }
    } else {
        let ghost model = op@;
        ops.insert(i, op);
        assert(operation_models(ops@) =~= before.insert(i as int, model));
    }
}

impl OperationQueue {
    #[verifier::type_invariant]
    spec fn inv(self) -> bool {
        in_order(operation_models(self.ops@))
    }

    pub fn new() -> (queue: OperationQueue)
        ensures
            queue@ == Seq::<OperationModel>::empty(),
    {
        let queue = OperationQueue { ops: Vec::new() };
        assert(queue@ =~= Seq::<OperationModel>::empty());
        queue
    }

    pub fn len(&self) -> (len: usize)
        ensures
            len == self@.len(),
    {
        self.ops.len()
    }

    /// Takes in some more operations.
    pub fn insert(&mut self, ops: Vec<Operation>)
        ensures
            final(self)@ == enqueued(old(self)@, operation_models(ops@)),
            in_order(final(self)@),
    {
        proof {
            use_type_invariant(&*self);
        }
        let ghost more = operation_models(ops@);
        let mut rest = ops;
        let mut sorted: Vec<Operation> = Vec::new();
        let ghost mut n: int = 0;
        assert(operation_models(sorted@) =~= Seq::<OperationModel>::empty());
        while rest.len() > 0
            invariant
                0 <= n <= more.len(),
                operation_models(rest@) =~= more.skip(n),
                in_order(operation_models(sorted@)),
                operation_models(sorted@) == queued_all(Seq::empty(), more, false, n),
            decreases rest@.len(),
        {
            assert(operation_models(rest@)[0] == more.skip(n)[0]);
            let ghost before = rest@;
            let op = rest.remove(0);
            proof {
                assert(operation_models(rest@) =~= operation_models(before).skip(1));
                n = n + 1;
            }
            put(&mut sorted, op, false);
        }
        assert(n == more.len()) by {
            assert(more.skip(n).len() == 0);
        }
        let ghost sorted_models = operation_models(sorted@);
        let mut queue = OperationQueue { ops: Vec::new() };
        core::mem::swap(self, &mut queue);
        let OperationQueue { mut ops } = queue;
        let ghost start = operation_models(ops@);
        let mut rest = sorted;
        let ghost mut m: int = 0;
        while rest.len() > 0
            invariant
                0 <= m <= sorted_models.len(),
                operation_models(rest@) =~= sorted_models.skip(m),
                in_order(operation_models(ops@)),
                operation_models(ops@) == queued_all(start, sorted_models, true, m),
            decreases rest@.len(),
        {
            assert(operation_models(rest@)[0] == sorted_models.skip(m)[0]);
            let ghost before = rest@;
            let op = rest.remove(0);
            proof {
                assert(operation_models(rest@) =~= operation_models(before).skip(1));
                m = m + 1;
            }
            put(&mut ops, op, true);
        }
        assert(m == sorted_models.len()) by {
            assert(sorted_models.skip(m).len() == 0);
        }
        *self = OperationQueue { ops };
    }

    /// Hands all the operations out, in the order in which they were made.
    pub fn drain(&mut self) -> (ops: Vec<Operation>)
        ensures
            operation_models(ops@) == old(self)@,
            in_order(old(self)@),
            final(self)@ == Seq::<OperationModel>::empty(),
    {
        proof {
            use_type_invariant(&*self);
        }
        let mut queue = OperationQueue::new();
        core::mem::swap(self, &mut queue);
        let OperationQueue { ops } = queue;
        ops
    }
}

} // verus!
