//! The evaluation engine: registers with queued operations, resolved on demand.
use crate::components::{
    apply_kind, is_register_name, kind_of, operand_of, EvalError, OpModel, Operand, OperandModel,
    Operation, ParseError, RegID, RegModel, Register,
};
use vstd::prelude::*;
use vstd::set_lib::{lemma_int_range, lemma_len_subset};

verus! {

// ---------------------------------------------------------------------------
// The model: a sequence of registers with distinct names
// ---------------------------------------------------------------------------

pub open spec fn has_register(regs: Seq<RegModel>, name: Seq<char>) -> bool {
    exists|j: int| 0 <= j < regs.len() && (#[trigger] regs[j]).name == name
}

/// Where the register called `name` stands, or -1.
pub open spec fn index_of(regs: Seq<RegModel>, name: Seq<char>) -> int {
    if has_register(regs, name) {
        choose|j: int| 0 <= j < regs.len() && (#[trigger] regs[j]).name == name
    } else {
        -1
    }
}

pub open spec fn fresh_register(name: Seq<char>) -> RegModel {
    RegModel { name, value: 0, queue: Seq::empty() }
}

/// `regs`, with a fresh register called `name` at the end if none had that name.
pub open spec fn with_register(regs: Seq<RegModel>, name: Seq<char>) -> Seq<RegModel> {
    if has_register(regs, name) {
        regs
    } else {
        regs.push(fresh_register(name))
    }
}

/// Names are distinct and valid; every queued operation targets the register
/// that holds it, and a register it reads exists.
pub open spec fn state_wf(regs: Seq<RegModel>) -> bool {
    &&& forall|j: int, k: int|
        0 <= j < regs.len() && 0 <= k < regs.len() && j != k ==> (#[trigger] regs[j]).name
            != (#[trigger] regs[k]).name
    &&& forall|j: int| 0 <= j < regs.len() ==> is_register_name((#[trigger] regs[j]).name)
    &&& forall|j: int, q: int|
        0 <= j < regs.len() && 0 <= q < regs[j].queue.len() ==> {
            &&& (#[trigger] regs[j].queue[q]).target == regs[j].name
            &&& op_reads_known(regs, regs[j].queue[q])
        }
}

/// A register that `op` reads exists in `regs`.
pub open spec fn op_reads_known(regs: Seq<RegModel>, op: OpModel) -> bool {
    op.operand matches OperandModel::Register(m) ==> has_register(regs, m)
}

/// `op` queued on its target, after its target and any register it reads exist.
pub open spec fn enqueue(regs: Seq<RegModel>, op: OpModel) -> Seq<RegModel> {
    let r1 = with_register(regs, op.target);
    let r2 = match op.operand {
        OperandModel::Register(m) => with_register(r1, m),
        OperandModel::Number(_) => r1,
    };
    let t = index_of(r2, op.target);
    r2.update(t, RegModel { queue: r2[t].queue.push(op), ..r2[t] })
}

/// The names of the registers at positions `stack`.
pub open spec fn names_of(regs: Seq<RegModel>, stack: Seq<int>) -> Seq<Seq<char>> {
    stack.map_values(|k: int| regs[k].name)
}

/// The outcome of a resolution: the registers afterwards, and the value or the
/// names of the registers in the loop.
pub type Outcome = (Seq<RegModel>, Result<i32, Seq<Seq<char>>>);

/// Resolves the register at `i` while the registers at `stack` are being
/// resolved: fails if `i` is among them, else applies its queue in order.
/// `fuel` bounds how deep the resolution may go; with distinct positions on
/// the stack it never runs out before the registers do.
pub open spec fn resolve_at(fuel: nat, regs: Seq<RegModel>, i: int, stack: Seq<int>) -> Outcome
    decreases fuel, 0nat,
{
    if stack.contains(i) || fuel == 0 || !(0 <= i < regs.len()) {
        (regs, Err(names_of(regs, stack)))
    } else {
        drain_at(
            (fuel - 1) as nat,
            regs.update(i, RegModel { queue: Seq::empty(), ..regs[i] }),
            i,
            stack.push(i),
            regs[i].queue,
        )
    }
}

/// Applies `ops` to the register at `i`, oldest first, resolving each
/// register operand just before its operation is applied.
pub open spec fn drain_at(
    fuel: nat,
    regs: Seq<RegModel>,
    i: int,
    stack: Seq<int>,
    ops: Seq<OpModel>,
) -> Outcome
    decreases fuel, ops.len() + 1,
{
    if ops.len() == 0 {
        (regs, Ok(regs[i].value))
    } else {
        let op = ops[0];
        let (regs1, operand) = match op.operand {
            OperandModel::Number(v) => (regs, Ok(v)),
            OperandModel::Register(m) => resolve_at(fuel, regs, index_of(regs, m), stack),
        };
        match operand {
            Err(e) => (regs1, Err(e)),
            Ok(v) => drain_at(
                fuel,
                regs1.update(
                    i,
                    RegModel { value: apply_kind(op.kind, regs1[i].value, v), ..regs1[i] },
                ),
                i,
                stack,
                ops.drop_first(),
            ),
        }
    }
}

/// Resolving the register called `name` from the top: it is created first if
/// missing, and nothing else is being resolved.
pub open spec fn resolve_spec(regs: Seq<RegModel>, name: Seq<char>) -> Outcome {
    let r1 = with_register(regs, name);
    resolve_at(r1.len() as nat, r1, index_of(r1, name), Seq::empty())
}

pub open spec fn ints(s: Seq<usize>) -> Seq<int> {
    s.map_values(|k: usize| k as int)
}

pub open spec fn names_model(e: Vec<String>) -> Seq<Seq<char>> {
    e@.map_values(|s: String| s@)
}

pub open spec fn eval_model(r: Result<i32, EvalError>) -> Result<i32, Seq<Seq<char>>> {
    match r {
        Ok(v) => Ok(v),
        Err(EvalError::CycleDetected(names)) => Err(names_model(names)),
    }
}

/// What `op` reads still exists once the registers have changed, names kept.
proof fn lemma_reads_known_kept(a: Seq<RegModel>, b: Seq<RegModel>, op: OpModel)
    requires
        op_reads_known(a, op),
        a.len() == b.len(),
        forall|j: int| 0 <= j < a.len() ==> (#[trigger] b[j]).name == a[j].name,
    ensures
        op_reads_known(b, op),
{
    if let OperandModel::Register(m) = op.operand {
        let w = choose|w: int| 0 <= w < a.len() && (#[trigger] a[w]).name == m;
        assert(b[w].name == m);
    }
}

proof fn lemma_stack_below(stack: Seq<int>, i: int, n: int)
    requires
        stack.no_duplicates(),
        !stack.contains(i),
        0 <= i < n,
        forall|k: int| 0 <= k < stack.len() ==> 0 <= #[trigger] stack[k] < n,
    ensures
        stack.len() < n,
        stack.push(i).no_duplicates(),
{
    let s = stack.push(i);
    assert(s.no_duplicates()) by {
        assert forall|a: int, b: int| 0 <= a < s.len() && 0 <= b < s.len() && a != b implies s[a]
            != s[b] by {
            if a == stack.len() {
                assert(stack[b] == s[b]);
            } else if b == stack.len() {
                assert(stack[a] == s[a]);
            }
        }
    }
    s.unique_seq_to_set();
    lemma_int_range(0, n);
    assert(s.to_set().subset_of(vstd::set_lib::set_int_range(0, n))) by {
        assert forall|x: int| s.to_set().contains(x) implies vstd::set_lib::set_int_range(
            0,
            n,
        ).contains(x) by {
            let k = choose|k: int| 0 <= k < s.len() && s[k] == x;
            if k < stack.len() {
                assert(stack[k] == s[k]);
            }
        }
    }
    lemma_len_subset(s.to_set(), vstd::set_lib::set_int_range(0, n));
}

// ---------------------------------------------------------------------------
// The engine
// ---------------------------------------------------------------------------

/// Owns every register and resolves their values on demand.
pub struct Calculator {
    registers: Vec<Register>,
}

impl View for Calculator {
    type V = Seq<RegModel>;

    closed spec fn view(&self) -> Seq<RegModel> {
        self.registers@.map_values(|r: Register| r@)
    }
}

impl Calculator {
    pub closed spec fn wf(&self) -> bool {
        &&& state_wf(self@)
        &&& forall|j: int| 0 <= j < self.registers@.len() ==> (#[trigger] self.registers@[j]).wf()
    }

    /// An engine without registers.
    pub fn new() -> (r: Calculator)
        ensures
            r.wf(),
            r@ == Seq::<RegModel>::empty(),
    {
        let r = Calculator { registers: Vec::new() };
        assert(r@ =~= Seq::<RegModel>::empty());
        r
    }

    /// The value of the register called `reg_id`, once every operation queued
    /// on it has been applied in arrival order; a register operand is resolved
    /// first, the same way. A register never seen before is created with value
    /// 0. Fails when a register's value would depend on itself: the registers
    /// on the chain being resolved then keep what was applied before the loop
    /// was found and lose the rest of their queues, so a caller should treat
    /// the failure as the end of the run. Nothing stays marked as being
    /// resolved, so a later call on an unrelated register is unaffected.
    pub fn get_register_value(&mut self, reg_id: RegID) -> (r: Result<i32, EvalError>)
        requires
            old(self).wf(),
            reg_id.valid(),
        ensures
            final(self).wf(),
            (final(self)@, eval_model(r)) == resolve_spec(old(self)@, reg_id@),
    {
        let i = self.ensure_register(&reg_id);
        let mut stack: Vec<usize> = Vec::new();
        assert(ints(stack@) =~= Seq::<int>::empty());
        match self.resolve_index(i, &mut stack) {
            Ok(v) => Ok(v),
            Err(names) => Err(EvalError::CycleDetected(names)),
        }
    }

    /// Queues `op` on its target register; nothing is evaluated. The target,
    /// and a register the operand names, are created if missing.
    pub fn apply_operation(&mut self, op: Operation)
        requires
            old(self).wf(),
            op.valid(),
        ensures
            final(self).wf(),
            final(self)@ == enqueue(old(self)@, op@),
    {
        let ghost r0 = self@;
        self.ensure_register(op.target());
        let ghost r1 = self@;
        if let Operand::Register(m) = op.operand() {
            self.ensure_register(m);
        }
        let ghost r2 = self@;
        assert(has_register(r2, op@.target)) by {
            let w = choose|w: int| 0 <= w < r1.len() && (#[trigger] r1[w]).name == op@.target;
            assert(r2[w] == r1[w]);
        }
        let t = match self.find(op.target()) {
            Some(t) => t,
            None => {
                assert(false);
                0
            },
        };
        let ghost regs_before = self.registers@;
        self.registers[t].add_pending_op(op);
        assert(self@ =~= r2.update(t as int, RegModel { queue: r2[t as int].queue.push(op@), ..r2[t as int] }));
        proof {
            assert(op_reads_known(r2, op@)) by {
                if let OperandModel::Register(m) = op@.operand {
                    assert(r2 == with_register(r1, m));
                }
            }
            assert forall|a: int, q: int|
                0 <= a < self@.len() && 0 <= q < self@[a].queue.len() implies op_reads_known(
                self@,
                #[trigger] self@[a].queue[q],
            ) by {
                if a == t && q == r2[a].queue.len() {
                    lemma_reads_known_kept(r2, self@, op@);
                } else {
                    assert(self@[a].queue[q] == r2[a].queue[q]);
                    lemma_reads_known_kept(r2, self@, r2[a].queue[q]);
                }
            }
            assert forall|j: int| 0 <= j < self.registers@.len() implies (
            #[trigger] self.registers@[j]).wf() by {
                if j != t {
                    assert(self.registers@[j] == regs_before[j]);
                }
            }
        }
    }

    /// Reads `operand1 op operand2` as an operation and queues it; the verb is
    /// checked first, then the target's name. Nothing changes on an error.
    pub fn operation(&mut self, operand1: &str, op: &str, operand2: &str) -> (r: Result<(), ParseError>)
        requires
            old(self).wf(),
        ensures
            final(self).wf(),
            r is Ok <==> (kind_of(op@) is Some && is_register_name(operand1@)),
            r is Ok ==> final(self)@ == enqueue(
                old(self)@,
                OpModel {
                    kind: kind_of(op@)->Some_0,
                    target: operand1@,
                    operand: operand_of(operand2@),
                },
            ),
            r is Err ==> final(self)@ == old(self)@,
            kind_of(op@) is None ==> (r matches Err(ParseError::UnknownVerb(v)) && v@ == op@),
            kind_of(op@) is Some && !is_register_name(operand1@) ==> (r matches Err(
                ParseError::InvalidRegisterName(t),
            ) && t@ == operand1@),
    {
        let new_op = Operation::new(operand1, op, operand2)?;
        self.apply_operation(new_op);
        Ok(())
    }

    /// Where the register called `name` stands, if there is one.
    fn find(&self, name: &RegID) -> (r: Option<usize>)
        requires
            self.wf(),
        ensures
            r is Some <==> has_register(self@, name@),
            r matches Some(j) ==> j == index_of(self@, name@) && j < self@.len(),
    {
        let mut j: usize = 0;
        while j < self.registers.len()
            invariant
                self.wf(),
                j <= self@.len(),
                self@.len() == self.registers@.len(),
                forall|k: int| 0 <= k < j ==> (#[trigger] self@[k]).name != name@,
            decreases self.registers.len() - j,
        {
            if self.registers[j].id().same(name) {
                assert(self@[j as int] == self.registers@[j as int]@);
                assert(has_register(self@, name@));
                return Some(j);
            }
            assert(self@[j as int] == self.registers@[j as int]@);
            j = j + 1;
        }
        None
    }

    /// The names of the registers at positions `stack`, outermost first.
    #[verifier::loop_isolation(false)]
    fn names_at(&self, stack: &Vec<usize>) -> (r: Vec<String>)
        requires
            forall|k: int| 0 <= k < stack@.len() ==> #[trigger] stack@[k] < self@.len(),
        ensures
            names_model(r) == names_of(self@, ints(stack@)),
    {
        let mut out: Vec<String> = Vec::new();
        let mut k: usize = 0;
        while k < stack.len()
            invariant
                k <= stack@.len(),
                forall|a: int| 0 <= a < stack@.len() ==> #[trigger] stack@[a] < self@.len(),
                self@.len() == self.registers@.len(),
                names_model(out) =~= names_of(self@, ints(stack@.subrange(0, k as int))),
            decreases stack.len() - k,
        {
            let j = stack[k];
            let name = self.registers[j].id().as_str().to_owned();
            assert(self@[j as int] == self.registers@[j as int]@);
            let ghost prevm = names_model(out);
            out.push(name);
            assert(names_model(out) =~= prevm.push(self@[j as int].name));
            assert(stack@.subrange(0, k + 1) =~= stack@.subrange(0, k as int).push(j));
            assert(ints(stack@.subrange(0, k + 1)) =~= ints(stack@.subrange(0, k as int)).push(j as int));
            k = k + 1;
        }
        assert(stack@.subrange(0, k as int) =~= stack@);
        out
    }

    /// Resolves the register at `i` while the registers at `stack` are being
    /// resolved; `stack` is as it was when this returns, on error too.
    #[verifier::loop_isolation(false)]
    fn resolve_index(&mut self, i: usize, stack: &mut Vec<usize>) -> (r: Result<i32, Vec<String>>)
        requires
            old(self).wf(),
            i < old(self)@.len(),
            ints(old(stack)@).no_duplicates(),
            forall|k: int| 0 <= k < old(stack)@.len() ==> #[trigger] old(stack)@[k] < old(self)@.len(),
        ensures
            final(self).wf(),
            final(stack)@ == old(stack)@,
            final(self)@.len() == old(self)@.len(),
            forall|j: int| 0 <= j < old(self)@.len() ==> (#[trigger] final(self)@[j]).name == old(self)@[j].name,
            forall|k: int| 0 <= k < old(stack)@.len() ==> final(self)@[#[trigger] old(stack)@[k] as int] == old(self)@[old(stack)@[k] as int],
            (final(self)@, match r { Ok(v) => Ok(v), Err(e) => Err(names_model(e)) }) == resolve_at(
                (old(self)@.len() - old(stack)@.len()) as nat,
                old(self)@,
                i as int,
                ints(old(stack)@),
            ),
        decreases old(self)@.len() - old(stack)@.len(),
    {
        let ghost regs = self@;
        let ghost vis = ints(stack@);
        let ghost n = regs.len();
        let mut k: usize = 0;
        while k < stack.len()
            invariant
                k <= stack@.len(),
                forall|a: int| 0 <= a < k ==> stack@[a] != i,
            decreases stack.len() - k,
        {
            if stack[k] == i {
                assert(vis[k as int] == i as int);
                return Err(self.names_at(stack));
            }
            k = k + 1;
        }
        assert(!vis.contains(i as int)) by {
            if vis.contains(i as int) {
                let a = choose|a: int| 0 <= a < vis.len() && vis[a] == i as int;
                assert(stack@[a] != i);
            }
        }
        proof {
            assert forall|a: int| 0 <= a < vis.len() implies 0 <= #[trigger] vis[a] < n by {
                assert(stack@[a] < n);
            }
            lemma_stack_below(vis, i as int, n as int);
        }
        let ghost fuel = (n - vis.len() - 1) as nat;
        let ops = self.registers[i].take_pending();
        let ghost regs0 = self@;
        assert(regs0 =~= regs.update(i as int, RegModel { queue: Seq::empty(), ..regs[i as int] }));
        stack.push(i);
        assert(ints(stack@) =~= vis.push(i as int));
        let ghost target = drain_at(fuel, regs0, i as int, vis.push(i as int), regs[i as int].queue);
        let mut ops = ops;
        proof {
            assert forall|q: int| 0 <= q < ops@.len() implies op_reads_known(self@, (#[trigger] ops@[q])@) by {
                assert(ops@.map_values(|op: Operation| op@)[q] == regs[i as int].queue[q]);
                assert(op_reads_known(regs, regs[i as int].queue[q]));
                if let OperandModel::Register(m) = regs[i as int].queue[q].operand {
                    let w = choose|w: int| 0 <= w < regs.len() && (#[trigger] regs[w]).name == m;
                    assert(self@[w].name == m);
                }
            }
            assert(state_wf(self@)) by {
                assert forall|a: int, q: int|
                    0 <= a < self@.len() && 0 <= q < self@[a].queue.len() implies op_reads_known(
                    self@,
                    #[trigger] self@[a].queue[q],
                ) by {
                    assert(self@[a] == regs[a]);
                    assert(op_reads_known(regs, regs[a].queue[q]));
                    if let OperandModel::Register(m) = regs[a].queue[q].operand {
                        let w = choose|w: int| 0 <= w < regs.len() && (#[trigger] regs[w]).name == m;
                        assert(self@[w].name == m);
                    }
                }
            }
        }
        loop
            invariant
                self.wf(),
                self@.len() == n,
                self.registers@.len() == n,
                stack@ == old(stack)@.push(i),
                ints(stack@) == vis.push(i as int),
                ints(stack@).no_duplicates(),
                forall|a: int| 0 <= a < stack@.len() ==> #[trigger] stack@[a] < n,
                fuel == n - stack@.len(),
                forall|j: int| 0 <= j < n ==> (#[trigger] self@[j]).name == regs[j].name,
                forall|a: int| 0 <= a < vis.len() ==> self@[#[trigger] vis[a]] == regs[vis[a]],
                self@[i as int].queue.len() == 0,
                forall|q: int| 0 <= q < ops@.len() ==> op_reads_known(self@, (#[trigger] ops@[q])@),
                drain_at(fuel, self@, i as int, ints(stack@), ops@.map_values(|op: Operation| op@))
                    == target,
            decreases ops@.len(),
        {
            let ghost before = self@;
            let ghost rest = ops@.map_values(|op: Operation| op@);
            let ghost prev = ops@;
            let ghost call_stack = stack@;
            let op = match ops.pop_front() {
                Some(op) => op,
                None => {
                    assert(rest.len() == 0);
                    break;
                },
            };
            assert(rest[0] == op@);
            let value2 = match op.operand() {
                Operand::Number(v) => *v,
                Operand::Register(m) => {
                    assert(op_reads_known(before, op@));
                    let j = match self.find(m) {
                        Some(j) => j,
                        None => {
                            assert(false);
                            0
                        },
                    };
                    match self.resolve_index(j, stack) {
                        Ok(v) => v,
                        Err(e) => {
                            stack.pop();
                            assert(stack@ =~= old(stack)@);
                            assert forall|k: int| 0 <= k < old(stack)@.len() implies self@[
                                #[trigger] old(stack)@[k] as int] == regs[old(stack)@[k] as int] by {
                                assert(vis[k] == old(stack)@[k] as int);
                                assert(call_stack[k] == old(stack)@[k]);
                            }
                            return Err(e);
                        },
                    }
                },
            };
            let ghost mid = self@;
            let ghost mid_regs = self.registers@;
            self.registers[i].perform(op.kind(), value2);
            proof {
                assert forall|a: int, q: int|
                    0 <= a < self@.len() && 0 <= q < self@[a].queue.len() implies op_reads_known(
                    self@,
                    #[trigger] self@[a].queue[q],
                ) by {
                    assert(self@[a].queue == mid[a].queue);
                    lemma_reads_known_kept(mid, self@, mid[a].queue[q]);
                }
                assert forall|a: int| 0 <= a < vis.len() implies self@[#[trigger] vis[a]]
                    == regs[vis[a]] by {
                    assert(call_stack[a] as int == vis[a]);
                    assert(mid[call_stack[a] as int] == before[call_stack[a] as int]);
                }
                assert(call_stack[vis.len() as int] == i);
                assert(mid[call_stack[vis.len() as int] as int] == before[call_stack[vis.len() as int] as int]);
                assert forall|j: int| 0 <= j < self.registers@.len() implies (
                #[trigger] self.registers@[j]).wf() by {
                    if j != i {
                        assert(self.registers@[j] == mid_regs[j]);
                    }
                }
            }
            assert(self@ =~= mid.update(
                i as int,
                RegModel { value: apply_kind(op@.kind, mid[i as int].value, value2), ..mid[i as int] },
            ));
            assert(ops@.map_values(|op: Operation| op@) =~= rest.drop_first());
            proof {
                assert forall|q: int| 0 <= q < ops@.len() implies op_reads_known(self@, (#[trigger] ops@[q])@) by {
                    assert(ops@[q] == prev[q + 1]);
                    assert(op_reads_known(before, prev[q + 1]@));
                    lemma_reads_known_kept(before, self@, prev[q + 1]@);
                }
            }
        }
        stack.pop();
        assert(stack@ =~= old(stack)@);
        assert forall|k: int| 0 <= k < old(stack)@.len() implies self@[#[trigger] old(stack)@[k] as int]
            == regs[old(stack)@[k] as int] by {
            assert(vis[k] == old(stack)@[k] as int);
        }
        Ok(self.registers[i].get_value())
    }

    /// Makes sure a register called `name` exists, and tells where it stands.
    fn ensure_register(&mut self, name: &RegID) -> (r: usize)
        requires
            old(self).wf(),
            name.valid(),
        ensures
            final(self).wf(),
            final(self)@ == with_register(old(self)@, name@),
            r == index_of(final(self)@, name@),
            r < final(self)@.len(),
    {
        match self.find(name) {
            Some(j) => j,
            None => {
                let ghost before = self@;
                self.registers.push(Register::new(name.duplicate()));
                assert(self@ =~= before.push(fresh_register(name@)));
                let j = self.registers.len() - 1;
                assert(self@[j as int].name == name@);
                assert(has_register(self@, name@));
                assert forall|a: int, q: int|
                    0 <= a < self@.len() && 0 <= q < self@[a].queue.len() implies op_reads_known(
                    self@,
                    #[trigger] self@[a].queue[q],
                ) by {
                    assert(self@[a] == before[a]);
                    assert(op_reads_known(before, before[a].queue[q]));
                    if let OperandModel::Register(m) = before[a].queue[q].operand {
                        let w = choose|w: int| 0 <= w < before.len() && (#[trigger] before[w]).name == m;
                        assert(self@[w] == before[w]);
                    }
                }
                j
            },
        }
    }
}

} // verus!

verus! {

// ---------------------------------------------------------------------------
// Laws
// ---------------------------------------------------------------------------

/// Every operation in `ops` has a number as its second operand.
pub open spec fn all_numbers(ops: Seq<OpModel>) -> bool {
    forall|q: int| 0 <= q < ops.len() ==> (#[trigger] ops[q]).operand is Number
}

/// `ops` applied to `start` from left to right, each with its number.
pub open spec fn fold_numbers(ops: Seq<OpModel>, start: i32) -> i32
    decreases ops.len(),
{
    if ops.len() == 0 {
        start
    } else {
        fold_numbers(
            ops.drop_first(),
            apply_kind(ops[0].kind, start, ops[0].operand->Number_0),
        )
    }
}

proof fn lemma_drain_numbers(fuel: nat, regs: Seq<RegModel>, i: int, stack: Seq<int>, ops: Seq<OpModel>)
    requires
        0 <= i < regs.len(),
        all_numbers(ops),
    ensures
        drain_at(fuel, regs, i, stack, ops).1 == Ok::<i32, Seq<Seq<char>>>(fold_numbers(ops, regs[i].value)),
    decreases ops.len(),
{
    if ops.len() > 0 {
        assert(ops[0].operand is Number);
        let v = ops[0].operand->Number_0;
        let next = regs.update(i, RegModel { value: apply_kind(ops[0].kind, regs[i].value, v), ..regs[i] });
        assert(all_numbers(ops.drop_first())) by {
            assert forall|q: int| 0 <= q < ops.drop_first().len() implies (
            #[trigger] ops.drop_first()[q]).operand is Number by {
                assert(ops.drop_first()[q] == ops[q + 1]);
            }
        }
        lemma_drain_numbers(fuel, next, i, stack, ops.drop_first());
    }
}

/// A register whose queued operations all have numbers as second operands
/// resolves to those operations folded, in arrival order, over its value.
proof fn lemma_numbers_only_fold(regs: Seq<RegModel>, name: Seq<char>)
    requires
        state_wf(regs),
        has_register(regs, name),
        all_numbers(regs[index_of(regs, name)].queue),
    ensures
        resolve_spec(regs, name).1 == Ok::<i32, Seq<Seq<char>>>(
            fold_numbers(regs[index_of(regs, name)].queue, regs[index_of(regs, name)].value),
        ),
{
    let i = index_of(regs, name);
    let r0 = regs.update(i, RegModel { queue: Seq::empty(), ..regs[i] });
    assert(!Seq::<int>::empty().contains(i));
    lemma_drain_numbers((regs.len() - 1) as nat, r0, i, Seq::<int>::empty().push(i), regs[i].queue);
}

/// A register that no operation has named resolves to 0.
pub proof fn lemma_unseen_register_is_zero(regs: Seq<RegModel>, name: Seq<char>)
    requires
        !has_register(regs, name),
    ensures
        resolve_spec(regs, name).1 == Ok::<i32, Seq<Seq<char>>>(0),
{
    let r1 = regs.push(fresh_register(name));
    assert(r1[regs.len() as int].name == name);
    assert(has_register(r1, name));
    let i = index_of(r1, name);
    assert(i == regs.len()) by {
        if i < regs.len() {
            assert(r1[i] == regs[i]);
        }
    }
    assert(!Seq::<int>::empty().contains(i));
}

proof fn lemma_resolve_frame(fuel: nat, regs: Seq<RegModel>, i: int, stack: Seq<int>)
    ensures
        ({
            let (after, res) = resolve_at(fuel, regs, i, stack);
            &&& after.len() == regs.len()
            &&& forall|j: int| 0 <= j < regs.len() ==> (#[trigger] after[j]).name == regs[j].name
            &&& forall|k: int|
                0 <= k < stack.len() && 0 <= stack[k] < regs.len() ==> after[#[trigger] stack[k]]
                    == regs[stack[k]]
            &&& (res is Ok && 0 <= i < regs.len()) ==> after[i].queue.len() == 0 && after[i].value
                == res->Ok_0
        }),
    decreases fuel, 0nat,
{
    if !(stack.contains(i) || fuel == 0 || !(0 <= i < regs.len())) {
        let r0 = regs.update(i, RegModel { queue: Seq::empty(), ..regs[i] });
        let st = stack.push(i);
        assert(st[stack.len() as int] == i);
        lemma_drain_frame((fuel - 1) as nat, r0, i, st, regs[i].queue);
        let (after, res) = resolve_at(fuel, regs, i, stack);
        assert forall|k: int| 0 <= k < stack.len() && 0 <= stack[k] < regs.len() implies after[
            #[trigger] stack[k]] == regs[stack[k]] by {
            assert(st[k] == stack[k]);
            assert(stack[k] != i);
        }
    }
}

proof fn lemma_drain_frame(fuel: nat, regs: Seq<RegModel>, i: int, stack: Seq<int>, ops: Seq<OpModel>)
    requires
        0 <= i < regs.len(),
        stack.contains(i),
    ensures
        ({
            let (after, res) = drain_at(fuel, regs, i, stack, ops);
            &&& after.len() == regs.len()
            &&& forall|j: int| 0 <= j < regs.len() ==> (#[trigger] after[j]).name == regs[j].name
            &&& forall|k: int|
                0 <= k < stack.len() && 0 <= stack[k] < regs.len() && stack[k] != i
                    ==> after[#[trigger] stack[k]] == regs[stack[k]]
            &&& after[i].queue == regs[i].queue
            &&& res is Ok ==> after[i].value == res->Ok_0
        }),
    decreases fuel, ops.len() + 1,
{
    if ops.len() > 0 {
        let op = ops[0];
        let w = choose|w: int| 0 <= w < stack.len() && stack[w] == i;
        let (regs1, operand) = match op.operand {
            OperandModel::Number(v) => (regs, Ok::<i32, Seq<Seq<char>>>(v)),
            OperandModel::Register(m) => {
                lemma_resolve_frame(fuel, regs, index_of(regs, m), stack);
                resolve_at(fuel, regs, index_of(regs, m), stack)
            },
        };
        assert(regs1[stack[w]] == regs[stack[w]]);
        if let Ok(v) = operand {
            let next = regs1.update(
                i,
                RegModel { value: apply_kind(op.kind, regs1[i].value, v), ..regs1[i] },
            );
            lemma_drain_frame(fuel, next, i, stack, ops.drop_first());
        }
    }
}

/// Resolving a register a second time, with nothing queued in between, gives
/// the same value and changes nothing.
pub proof fn lemma_resolve_idempotent(regs: Seq<RegModel>, name: Seq<char>)
    requires
        state_wf(regs),
        resolve_spec(regs, name).1 is Ok,
    ensures
        resolve_spec(resolve_spec(regs, name).0, name) == resolve_spec(regs, name),
{
    let s1 = with_register(regs, name);
    let i = index_of(s1, name);
    if !has_register(regs, name) {
        assert(s1[regs.len() as int].name == name);
    }
    assert(has_register(s1, name));
    assert(0 <= i < s1.len());
    lemma_resolve_frame(s1.len() as nat, s1, i, Seq::empty());
    let (r1, res) = resolve_spec(regs, name);
    assert(r1[i].name == name);
    assert(has_register(r1, name));
    assert(with_register(r1, name) == r1);
    let j = index_of(r1, name);
    assert(j == i) by {
        if j != i {
            assert(r1[j].name == s1[j].name);
            if has_register(regs, name) {
                assert(s1 == regs);
            } else {
                if j < regs.len() && i < regs.len() {
                } else if j < regs.len() {
                    assert(s1[j] == regs[j]);
                } else {
                    assert(s1[i] == regs[i]);
                }
            }
        }
    }
    assert(!Seq::<int>::empty().contains(i));
    assert(r1[i].queue =~= Seq::<OpModel>::empty());
    assert(RegModel { queue: Seq::empty(), ..r1[i] } == r1[i]);
    assert(r1.update(i, RegModel { queue: Seq::empty(), ..r1[i] }) =~= r1);
}

/// The registers after `ops` have been queued one after another.
pub open spec fn enqueue_all(regs: Seq<RegModel>, ops: Seq<OpModel>) -> Seq<RegModel>
    decreases ops.len(),
{
    if ops.len() == 0 {
        regs
    } else {
        enqueue(enqueue_all(regs, ops.drop_last()), ops.last())
    }
}

proof fn lemma_enqueue_all_single(name: Seq<char>, ops: Seq<OpModel>)
    requires
        ops.len() > 0,
        all_numbers(ops),
        forall|q: int| 0 <= q < ops.len() ==> (#[trigger] ops[q]).target == name,
    ensures
        enqueue_all(Seq::empty(), ops) == seq![RegModel { name, value: 0, queue: ops }],
    decreases ops.len(),
{
    let last = ops.last();
    assert(last.target == name && last.operand is Number) by {
        assert(ops[ops.len() - 1] == last);
    }
    if ops.len() == 1 {
        let e = Seq::<RegModel>::empty();
        assert(!has_register(e, name));
        let r1 = e.push(fresh_register(name));
        assert(r1[0].name == name);
        assert(index_of(r1, name) == 0);
        assert(Seq::<OpModel>::empty().push(last) =~= ops);
        assert(enqueue_all(e, ops.drop_last()) == e);
        assert(enqueue(e, last) =~= seq![RegModel { name, value: 0, queue: ops }]);
    } else {
        let prefix = ops.drop_last();
        assert(all_numbers(prefix)) by {
            assert forall|q: int| 0 <= q < prefix.len() implies (#[trigger] prefix[q]).operand is Number by {
                assert(prefix[q] == ops[q]);
            }
        }
        assert forall|q: int| 0 <= q < prefix.len() implies (#[trigger] prefix[q]).target == name by {
            assert(prefix[q] == ops[q]);
        }
        lemma_enqueue_all_single(name, prefix);
        let before = seq![RegModel { name, value: 0, queue: prefix }];
        assert(before[0].name == name);
        assert(has_register(before, name));
        assert(index_of(before, name) == 0);
        assert(prefix.push(last) =~= ops);
        assert(enqueue(before, last) =~= seq![RegModel { name, value: 0, queue: ops }]);
    }
}

/// Operations that all change one register and all have numbers as second
/// operands, queued on a new engine: that register resolves to their left to
/// right fold over 0.
pub proof fn lemma_single_register_fold(name: Seq<char>, ops: Seq<OpModel>)
    requires
        is_register_name(name),
        all_numbers(ops),
        forall|q: int| 0 <= q < ops.len() ==> (#[trigger] ops[q]).target == name,
    ensures
        resolve_spec(enqueue_all(Seq::empty(), ops), name).1 == Ok::<i32, Seq<Seq<char>>>(
            fold_numbers(ops, 0),
        ),
{
    if ops.len() == 0 {
        lemma_unseen_register_is_zero(Seq::empty(), name);
    } else {
        lemma_enqueue_all_single(name, ops);
        let regs = seq![RegModel { name, value: 0, queue: ops }];
        assert(regs[0].name == name);
        assert(has_register(regs, name));
        assert(index_of(regs, name) == 0);
        assert(state_wf(regs));
        lemma_numbers_only_fold(regs, name);
    }
}

} // verus!
