//! The set of filesystem operations one invocation was seen to perform.
use vstd::prelude::*;

use crate::log::NixInternalLog;
use crate::op::{log_op, resolved, tracked_source, Op, OpModel};

verus! {

/// The models of a sequence of operations, in order.
pub open spec fn op_models(ops: Seq<Op>) -> Seq<OpModel> {
    ops.map_values(|o: Op| o@)
}

/// The distinct operations recognised in one invocation's log, each kept once.
pub struct Dependencies {
    ops: Vec<Op>,
}

impl View for Dependencies {
    type V = Set<OpModel>;

    closed spec fn view(&self) -> Set<OpModel> {
        op_models(self.ops@).to_set()
    }
}

impl Dependencies {
    /// No operation is held twice.
    pub closed spec fn wf(&self) -> bool {
        op_models(self.ops@).no_duplicates()
    }

    /// An empty set of operations.
    pub fn new() -> (r: Dependencies)
        ensures
            r.wf(),
            r@ == Set::<OpModel>::empty(),
    {
        let r = Dependencies { ops: Vec::new() };
        assert(op_models(r.ops@) =~= Seq::<OpModel>::empty());
        r
    }

    /// The number of distinct operations held.
    pub fn len(&self) -> (r: usize)
        requires
            self.wf(),
        ensures
            r == self@.len(),
    {
        proof {
            op_models(self.ops@).unique_seq_to_set();
        }
        self.ops.len()
    }

    /// Whether an operation equal to `op` is held.
    pub fn contains(&self, op: &Op) -> (r: bool)
        ensures
            r == self@.contains(op@),
    {
        let mut i: usize = 0;
        while i < self.ops.len()
            invariant
                i <= self.ops.len(),
                forall|j: int| 0 <= j < i ==> self.ops@[j]@ != op@,
            decreases self.ops.len() - i,
        {
            if self.ops[i] == *op {
                assert(op_models(self.ops@)[i as int] == op@);
                return true;
            }
            i = i + 1;
        }
        assert(!op_models(self.ops@).contains(op@));
        false
    }

    /// Adds `op`, unless an equal operation is held already; says whether it
    /// was added.
    pub fn record(&mut self, op: Op) -> (added: bool)
        requires
            old(self).wf(),
        ensures
            final(self).wf(),
            final(self)@ == old(self)@.insert(op@),
            added == !old(self)@.contains(op@),
    {
        if self.contains(&op) {
            assert(self@.insert(op@) =~= self@);
            false
        } else {
            let ghost before = op_models(self.ops@);
            let ghost m = op@;
            self.ops.push(op);
            assert(op_models(self.ops@) =~= before.push(m));
            proof {
                before.lemma_push_to_set_commute(m);
                assert forall|i: int, j: int|
                    0 <= i < j < before.push(m).len() implies before.push(m)[i] != before.push(
                    m,
                )[j] by {
                    if j == before.len() {
                        assert(before.contains(before[i]));
                    }
                }
            }
            true
        }
    }

    /// Classifies one log record and records the operation it reports, if any.
    pub fn observe(&mut self, log: &NixInternalLog)
        requires
            old(self).wf(),
        ensures
            final(self).wf(),
            match log_op(*log) {
                Some(o) => final(self)@ == old(self)@.insert(resolved(o, false)) || final(self)@
                    == old(self)@.insert(resolved(o, true)),
                None => final(self)@ == old(self)@,
            },
    {
        if let Some(op) = Op::from_internal_log(log) {
            self.record(op);
        }
    }

    /// The distinct operations among `ops`, whatever their order.
    pub fn from_ops(ops: Vec<Op>) -> (r: Dependencies)
        ensures
            r.wf(),
            r@ == op_models(ops@).to_set(),
    {
        let mut ops = ops;
        let ghost all = op_models(ops@).to_set();
        let mut r = Dependencies::new();
        while ops.len() > 0
            invariant
                r.wf(),
                r@ + op_models(ops@).to_set() == all,
            decreases ops.len(),
        {
            let ghost before = op_models(ops@);
            let op = ops.pop().unwrap();
            proof {
                assert(before =~= op_models(ops@).push(op@));
                op_models(ops@).lemma_push_to_set_commute(op@);
            }
            r.record(op);
            assert(r@ + op_models(ops@).to_set() =~= all);
        }
        assert(op_models(ops@) =~= Seq::<OpModel>::empty());
        assert(r@ =~= all);
        r
    }

    /// The path to fingerprint for each operation held: its source.
    pub fn tracked_paths(&self) -> (r: Vec<String>)
        ensures
            r.deep_view().to_set() == self@.map(|o: OpModel| tracked_source(o)),
    {
        let mut r: Vec<String> = Vec::new();
        let mut i: usize = 0;
        while i < self.ops.len()
            invariant
                i <= self.ops.len(),
                r.deep_view() =~= op_models(self.ops@).subrange(0, i as int).map_values(
                    |o: OpModel| tracked_source(o),
                ),
            decreases self.ops.len() - i,
        {
            let source = match &self.ops[i] {
                Op::CopiedSource { source, .. } => source.clone(),
                Op::EvaluatedFile { source } => source.clone(),
                Op::ReadFile { source } => source.clone(),
                Op::TrackedPath { source } => source.clone(),
            };
            assert(source@ == tracked_source(op_models(self.ops@)[i as int]));
            let ghost prev = r.deep_view();
            r.push(source);
            assert(r.deep_view() =~= prev.push(source@));
            i = i + 1;
            assert(r.deep_view() =~= op_models(self.ops@).subrange(0, i as int).map_values(
                |o: OpModel| tracked_source(o),
            ));
        }
        let ghost models = op_models(self.ops@);
        assert(models.subrange(0, i as int) =~= models);
        proof {
            models.lemma_to_set_map_commutes(|o: OpModel| tracked_source(o));
        }
        r
    }
}

/// Recording an operation that is already held changes nothing: the same
/// operation recorded twice into an empty set leaves a set of one.
pub proof fn lemma_record_idempotent(s: Set<OpModel>, o: OpModel)
    ensures
        s.insert(o).insert(o) == s.insert(o),
        Set::<OpModel>::empty().insert(o).insert(o).len() == 1,
{
    assert(s.insert(o).insert(o) =~= s.insert(o));
    assert(Set::<OpModel>::empty().insert(o).insert(o) =~= Set::<OpModel>::empty().insert(o));
}

/// Two sequences of operations that are permutations of each other give the
/// same set of operations.
pub proof fn lemma_collect_any_order(a: Seq<Op>, b: Seq<Op>)
    requires
        a.to_multiset() == b.to_multiset(),
    ensures
        op_models(a).to_set() == op_models(b).to_set(),
{
    broadcast use vstd::seq_lib::to_multiset_contains;

    assert forall|m: OpModel| op_models(a).contains(m) implies op_models(b).contains(m) by {
        let i = choose|i: int| 0 <= i < a.len() && op_models(a)[i] == m;
        assert(a.contains(a[i]));
        assert(a.to_multiset().count(a[i]) > 0);
        assert(b.contains(a[i]));
        let j = choose|j: int| 0 <= j < b.len() && b[j] == a[i];
        assert(op_models(b)[j] == m);
    }
    assert forall|m: OpModel| op_models(b).contains(m) implies op_models(a).contains(m) by {
        let i = choose|i: int| 0 <= i < b.len() && op_models(b)[i] == m;
        assert(b.contains(b[i]));
        assert(b.to_multiset().count(b[i]) > 0);
        assert(a.contains(b[i]));
        let j = choose|j: int| 0 <= j < a.len() && a[j] == b[i];
        assert(op_models(a)[j] == m);
    }
    assert(op_models(a).to_set() =~= op_models(b).to_set());
}

} // verus!
