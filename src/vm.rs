use vstd::prelude::*;

use crate::database::Database;
use crate::intrinsics::{
    db_set, filtered_ids, has_row, ids_view, match_predicate, predicate_named, row_ids,
    DatabaseView,
};
use crate::query::{ops_view, wf_program, OpView, Operation, Program};
use crate::text::{lower_of, lowercase};
use crate::value::{RecordId, Value, ValueView};

verus! {

/// The machine's state between two instructions.
pub struct VmState {
    pub pc: int,
    pub stack: Seq<ValueView>,
    pub it: i64,
    /// The remaining count of each `Range`, by its position.
    pub counters: Seq<i64>,
    pub db: DatabaseView,
    pub result: Seq<(Seq<char>, u64)>,
}

/// The loop counts that a program starts with: each `Range`'s own count.
pub open spec fn initial_counters(p: Seq<OpView>) -> Seq<i64> {
    p.map(
        |j: int, op: OpView|
            if op is Range {
                op->value
            } else {
                0i64
            },
    )
}

/// The state in which a program starts against a database.
pub open spec fn vm_start(p: Seq<OpView>, db: DatabaseView) -> VmState {
    VmState { pc: 0, stack: Seq::empty(), it: 0, counters: initial_counters(p), db, result: Seq::empty() }
}

/// The message of a failed instruction that found fewer than `k` values on the stack.
pub open spec fn underflow(k: int) -> Seq<char> {
    if k == 1 {
        "Stack must have at least 1 value"@
    } else if k == 2 {
        "Stack must have at least 2 values"@
    } else if k == 3 {
        "Stack must have at least 3 values"@
    } else {
        "Stack must have at least 4 values"@
    }
}

/// One instruction, at `s.pc`; `Err` with its message when it fails. A failed
/// instruction changes nothing. Operands are popped last-pushed first.
pub open spec fn step(p: Seq<OpView>, s: VmState) -> Result<VmState, Seq<char>> {
    let st = s.stack;
    let n = st.len() as int;
    let next = VmState { pc: s.pc + 1, ..s };
    match p[s.pc] {
        OpView::Start => Ok(next),
        OpView::End => Ok(next),
        OpView::Push(v) => Ok(VmState { stack: st.push(v), ..next }),
        OpView::SetField => if n < 3 {
            Err(underflow(3))
        } else {
            match (st[n - 3], st[n - 2]) {
                (ValueView::Id(t, r), ValueView::Text(k)) => Ok(
                    VmState {
                        stack: st.subrange(0, n - 3).push(ValueView::Id(t, r)),
                        db: db_set(s.db, (t, r), k, st[n - 1]),
                        ..next
                    },
                ),
                (_, ValueView::Text(_)) => Err("Record id must be an id"@),
                _ => Err("Key must be a string"@),
            }
        },
        OpView::Select => if n < 1 {
            Err(underflow(1))
        } else {
            match st[n - 1] {
                ValueView::Id(t, r) => if !s.db.contains_key(t) {
                    Err("Table not found"@)
                } else if !has_row(s.db[t], r) {
                    Err("Record not found"@)
                } else {
                    Ok(VmState { stack: st.drop_last(), result: s.result.push((t, r)), ..next })
                },
                _ => Err("Record id must be an id"@),
            }
        },
        OpView::SelectAll => if n < 1 {
            Err(underflow(1))
        } else {
            match st[n - 1] {
                ValueView::Id(t, _) => if s.db.contains_key(t) {
                    Ok(VmState { stack: st.drop_last(), result: s.result + row_ids(t, s.db[t]), ..next })
                } else {
                    Err("Table not found"@)
                },
                _ => Err("Record id must be an id"@),
            }
        },
        OpView::Filter => if n < 4 {
            Err(underflow(4))
        } else {
            match (predicate_named(st[n - 1]), st[n - 3], st[n - 4]) {
                (None, _, _) => Err("Predicate unknown"@),
                (Some(pr), ValueView::Text(k), ValueView::Id(t, _)) => if s.db.contains_key(t) {
                    Ok(
                        VmState {
                            stack: st.subrange(0, n - 4),
                            result: s.result + filtered_ids(s.db[t], lower_of(k), st[n - 2], pr),
                            ..next
                        },
                    )
                } else {
                    Err("Table not found"@)
                },
                (Some(_), ValueView::Text(_), _) => Err("Record id must be an id"@),
                _ => Err("Key must be a string"@),
            }
        },
        OpView::Drop => if n < 1 {
            Err(underflow(1))
        } else {
            Ok(VmState { stack: st.drop_last(), ..next })
        },
        OpView::Add => if n < 2 {
            Err(underflow(2))
        } else {
            match (st[n - 2], st[n - 1]) {
                (ValueView::Int(a), ValueView::Int(b)) => if i64::MIN <= a + b <= i64::MAX {
                    Ok(VmState { stack: st.subrange(0, n - 2).push(ValueView::Int((a + b) as i64)), ..next })
                } else {
                    Err("Integer overflow"@)
                },
                _ => Err("Arithmetic needs two integers on the stack"@),
            }
        },
        OpView::Subtract => if n < 2 {
            Err(underflow(2))
        } else {
            match (st[n - 2], st[n - 1]) {
                (ValueView::Int(a), ValueView::Int(b)) => if i64::MIN <= a - b <= i64::MAX {
                    Ok(VmState { stack: st.subrange(0, n - 2).push(ValueView::Int((a - b) as i64)), ..next })
                } else {
                    Err("Integer overflow"@)
                },
                _ => Err("Arithmetic needs two integers on the stack"@),
            }
        },
        OpView::It => Ok(VmState { stack: st.push(ValueView::Int(s.it)), ..next }),
        OpView::Range { value: _, end } => {
            let c = s.counters[s.pc];
            if c > 0 {
                Ok(VmState { it: c, counters: s.counters.update(s.pc, (c - 1) as i64), ..next })
            } else {
                Ok(VmState { pc: end, ..s })
            }
        },
        OpView::Jump(t) => Ok(VmState { pc: t, ..s }),
    }
}

/// The sum of the positive loop counts.
pub open spec fn total(c: Seq<i64>) -> nat
    decreases c.len(),
{
    if c.len() == 0 {
        0
    } else {
        total(c.drop_last()) + if c.last() > 0 {
            c.last() as nat
        } else {
            0nat
        }
    }
}

/// How far a position is from the end of the program, where a `Range` counts as
/// standing just before the end of its loop.
pub open spec fn pos_weight(p: Seq<OpView>, pc: int) -> nat {
    if 0 <= pc < p.len() && p[pc] is Range {
        (2 * (p.len() - p[pc]->end) + 1) as nat
    } else {
        (2 * (p.len() - pc)) as nat
    }
}

/// A state that a well-formed program can reach.
pub open spec fn vm_ok(p: Seq<OpView>, s: VmState) -> bool {
    &&& wf_program(p)
    &&& s.counters.len() == p.len()
    &&& 0 <= s.pc <= p.len()
}

/// Using up one count of a positive loop lowers the total by one.
pub proof fn lemma_total_update(c: Seq<i64>, j: int)
    requires
        0 <= j < c.len(),
        c[j] > 0,
    ensures
        total(c.update(j, (c[j] - 1) as i64)) + 1 == total(c),
    decreases c.len(),
{
    let d = c.update(j, (c[j] - 1) as i64);
    if j < c.len() - 1 {
        lemma_total_update(c.drop_last(), j);
        assert(d.drop_last() =~= c.drop_last().update(j, (c[j] - 1) as i64));
    } else {
        assert(d.drop_last() =~= c.drop_last());
    }
}

/// Each instruction brings a run closer to its end: it uses up a loop count, or
/// moves forward.
pub proof fn lemma_step_measure(p: Seq<OpView>, s: VmState)
    requires
        vm_ok(p, s),
        s.pc < p.len(),
        step(p, s) is Ok,
    ensures
        vm_ok(p, step(p, s)->Ok_0),
        total(step(p, s)->Ok_0.counters) < total(s.counters) || (total(step(p, s)->Ok_0.counters) == total(
            s.counters,
        ) && pos_weight(p, step(p, s)->Ok_0.pc) < pos_weight(p, s.pc)),
{
    let s2 = step(p, s)->Ok_0;
    match p[s.pc] {
        OpView::Range { value: _, end } => {
            if s.counters[s.pc] > 0 {
                lemma_total_update(s.counters, s.pc);
            } else {
                if end < p.len() && p[end] is Range {
                    assert(end < p[end]->end);
                }
            }
        },
        OpView::Jump(t) => {
            assert(p[t] is Range);
        },
        _ => {
            if s.pc + 1 < p.len() && p[s.pc + 1] is Range {
                assert(s.pc + 1 < p[s.pc + 1]->end);
            }
        },
    }
}

/// Runs a program from a state to its end or its first failure. It gives the last
/// state, and the message of the instruction that failed, if one did.
pub open spec fn run(p: Seq<OpView>, s: VmState) -> (VmState, Option<Seq<char>>)
    decreases total(s.counters), pos_weight(p, s.pc),
    when vm_ok(p, s)
{
    if s.pc >= p.len() {
        (s, None)
    } else {
        match step(p, s) {
            Ok(s2) => {
                proof {
                    lemma_step_measure(p, s);
                }
                run(p, s2)
            },
            Err(msg) => (s, Some(msg)),
        }
    }
}

/// The values on a stack.
pub open spec fn stack_view(v: Seq<Value>) -> Seq<ValueView> {
    v.map_values(|x: Value| x@)
}

/// The executable state of the machine, apart from the database.
pub struct Machine {
    pub pc: usize,
    pub stack: Vec<Value>,
    pub it: i64,
    pub counters: Vec<i64>,
    pub result: Vec<RecordId>,
}

impl Machine {
    /// The machine's state together with a database.
    pub open spec fn state(&self, db: DatabaseView) -> VmState {
        VmState {
            pc: self.pc as int,
            stack: stack_view(self.stack@),
            it: self.it,
            counters: self.counters@,
            db,
            result: ids_view(self.result@),
        }
    }
}


impl Machine {
    /// A machine at the start of a program: an empty stack, the iterator at 0, and
    /// each loop count as the program gives it.
    pub fn start(program: &Program) -> (m: Machine)
        ensures
            m.pc == 0,
            m.stack@.len() == 0,
            m.it == 0,
            m.counters@ == initial_counters(ops_view(program@)),
            m.result@.len() == 0,
    {
        let mut counters: Vec<i64> = Vec::new();
        let mut i: usize = 0;
        while i < program.len()
            invariant
                i <= program@.len(),
                counters@ == initial_counters(ops_view(program@)).subrange(0, i as int),
            decreases program@.len() - i,
        {
            let c = match &program[i] {
                Operation::Range { value, .. } => *value,
                _ => 0,
            };
            counters.push(c);
            assert(counters@ =~= initial_counters(ops_view(program@)).subrange(0, i + 1));
            i = i + 1;
        }
        assert(counters@ =~= initial_counters(ops_view(program@)));
        Machine { pc: 0, stack: Vec::new(), it: 0, counters, result: Vec::new() }
    }
}

fn pop_value(stack: &mut Vec<Value>) -> (r: Value)
    requires
        old(stack)@.len() > 0,
    ensures
        final(stack)@.len() == old(stack)@.len() - 1,
        stack_view(final(stack)@) == stack_view(old(stack)@).drop_last(),
        r@ == stack_view(old(stack)@).last(),
{
    let ghost before = stack@;
    match stack.pop() {
        Some(v) => {
            assert(stack_view(stack@) =~= stack_view(before).drop_last());
            v
        },
        None => {
            assert(false);
            Value::Int(0)
        },
    }
}

fn push_value(stack: &mut Vec<Value>, v: Value)
    ensures
        stack_view(final(stack)@) == stack_view(old(stack)@).push(v@),
{
    let ghost before = stack@;
    stack.push(v);
    assert(stack_view(stack@) =~= stack_view(before).push(v@));
}

fn message(text: &str) -> (r: String)
    ensures
        r@ == text@,
{
    String::from_str(text)
}

/// Runs the instruction at `m.pc`, as `step` says.
fn step_machine(m: &mut Machine, db: &mut Database, program: &Program) -> (r: Result<(), String>)
    requires
        old(db).wf(),
        vm_ok(ops_view(program@), old(m).state(old(db)@)),
        old(m).pc < program@.len(),
    ensures
        final(db).wf(),
        match step(ops_view(program@), old(m).state(old(db)@)) {
            Ok(s2) => r is Ok && final(m).state(final(db)@) == s2,
            Err(msg) => r matches Err(e) && e@ == msg && final(db)@ == old(db)@,
        },
{
    let ghost p = ops_view(program@);
    let ghost s = m.state(db@);
    let ghost st = s.stack;
    let ghost n = st.len() as int;
    let pc = m.pc;
    let len = program.len();
    assert(pc < len);
    assert(p[pc as int] == program@[pc as int]@);
    match &program[pc] {
        Operation::Start | Operation::End => {
            m.pc = pc + 1;
        },
        Operation::Push(v) => {
            push_value(&mut m.stack, v.copy());
            m.pc = pc + 1;
        },
        Operation::SetField => {
            if m.stack.len() < 3 {
                return Err(message("Stack must have at least 3 values"));
            }
            let value = pop_value(&mut m.stack);
            let key = pop_value(&mut m.stack);
            let record = pop_value(&mut m.stack);
            let key = match key {
                Value::String(k) => k,
                _ => {
                    return Err(message("Key must be a string"));
                },
            };
            let id = match record {
                Value::Id(id) => id,
                _ => {
                    return Err(message("Record id must be an id"));
                },
            };
            db.upsert(&id, key, value);
            push_value(&mut m.stack, Value::Id(id));
            m.pc = pc + 1;
            assert(st.drop_last().drop_last().drop_last() =~= st.subrange(0, n - 3));
        },
        Operation::Select => {
            if m.stack.len() < 1 {
                return Err(message("Stack must have at least 1 value"));
            }
            let record = pop_value(&mut m.stack);
            let id = match record {
                Value::Id(id) => id,
                _ => {
                    return Err(message("Record id must be an id"));
                },
            };
            match db.get_table(id.table_name.as_str()) {
                Some(t) => {
                    if t.contains(id.row) {
                        let ghost before = m.result@;
                        m.result.push(id);
                        assert(ids_view(m.result@) =~= ids_view(before).push(m.result@.last()@));
                    } else {
                        return Err(message("Record not found"));
                    }
                },
                None => {
                    return Err(message("Table not found"));
                },
            }
            m.pc = pc + 1;
        },
        Operation::SelectAll => {
            if m.stack.len() < 1 {
                return Err(message("Stack must have at least 1 value"));
            }
            let record = pop_value(&mut m.stack);
            let id = match record {
                Value::Id(id) => id,
                _ => {
                    return Err(message("Record id must be an id"));
                },
            };
            match db.get_table(id.table_name.as_str()) {
                Some(t) => {
                    t.push_ids(&id.table_name, &mut m.result);
                },
                None => {
                    return Err(message("Table not found"));
                },
            }
            m.pc = pc + 1;
        },
        Operation::Filter => {
            if m.stack.len() < 4 {
                return Err(message("Stack must have at least 4 values"));
            }
            let named = pop_value(&mut m.stack);
            let predicate = match match_predicate(named) {
                Some(pr) => pr,
                None => {
                    return Err(message("Predicate unknown"));
                },
            };
            let value = pop_value(&mut m.stack);
            let key = pop_value(&mut m.stack);
            let key = match key {
                Value::String(k) => lowercase(k.as_str()),
                _ => {
                    return Err(message("Key must be a string"));
                },
            };
            let record = pop_value(&mut m.stack);
            let id = match record {
                Value::Id(id) => id,
                _ => {
                    return Err(message("Record id must be an id"));
                },
            };
            match db.get_table(id.table_name.as_str()) {
                Some(t) => {
                    crate::intrinsics::filter(t, &mut m.result, key, value, predicate);
                },
                None => {
                    return Err(message("Table not found"));
                },
            }
            m.pc = pc + 1;
            assert(st.drop_last().drop_last().drop_last().drop_last() =~= st.subrange(0, n - 4));
        },
        Operation::Drop => {
            if m.stack.len() < 1 {
                return Err(message("Stack must have at least 1 value"));
            }
            pop_value(&mut m.stack);
            m.pc = pc + 1;
        },
        Operation::Add | Operation::Subtract => {
            let adding = match &program[pc] {
                Operation::Add => true,
                _ => false,
            };
            if m.stack.len() < 2 {
                return Err(message("Stack must have at least 2 values"));
            }
            let second = pop_value(&mut m.stack);
            let first = pop_value(&mut m.stack);
            match (first, second) {
                (Value::Int(a), Value::Int(b)) => {
                    let x: i128 = if adding {
                        a as i128 + b as i128
                    } else {
                        a as i128 - b as i128
                    };
                    if x < i64::MIN as i128 || x > i64::MAX as i128 {
                        return Err(message("Integer overflow"));
                    }
                    push_value(&mut m.stack, Value::Int(x as i64));
                },
                _ => {
                    return Err(message("Arithmetic needs two integers on the stack"));
                },
            }
            m.pc = pc + 1;
            assert(st.drop_last().drop_last() =~= st.subrange(0, n - 2));
        },
        Operation::It => {
            push_value(&mut m.stack, Value::Int(m.it));
            m.pc = pc + 1;
        },
        Operation::Range { value: _, end } => {
            let c = m.counters[pc];
            if c > 0 {
                m.it = c;
                m.counters.set(pc, c - 1);
                m.pc = pc + 1;
            } else {
                m.pc = *end;
            }
        },
        Operation::Jump(t) => {
            m.pc = *t;
        },
    }
    Ok(())
}

/// Runs a well-formed program against the database, as `run` says: the identities
/// that it selects, in order, or the error at which it stopped. Writes made before
/// an error stay in the database.
pub fn execute_program(database: &mut Database, program: &Program) -> (r: Result<Vec<RecordId>, String>)
    requires
        old(database).wf(),
        wf_program(ops_view(program@)),
    ensures
        final(database).wf(),
        ({
            let out = run(ops_view(program@), vm_start(ops_view(program@), old(database)@));
            &&& final(database)@ == out.0.db
            &&& out.1 is None ==> (r matches Ok(v) && ids_view(v@) == out.0.result)
            &&& out.1 matches Some(msg) ==> (r matches Err(e) && e@ == msg)
        }),
{
    let ghost p = ops_view(program@);
    let ghost start = vm_start(p, database@);
    let mut m = Machine::start(program);
    assert(stack_view(m.stack@) =~= Seq::<ValueView>::empty());
    assert(ids_view(m.result@) =~= Seq::<(Seq<char>, u64)>::empty());
    assert(m.state(database@) == start);
    while m.pc < program.len()
        invariant
            p == ops_view(program@),
            start == vm_start(p, old(database)@),
            database.wf(),
            vm_ok(p, m.state(database@)),
            run(p, start) == run(p, m.state(database@)),
        decreases total(m.counters@), pos_weight(p, m.pc as int),
    {
        let ghost s = m.state(database@);
        match step_machine(&mut m, database, program) {
            Ok(()) => {
                proof {
                    lemma_step_measure(p, s);
                }
            },
            Err(e) => {
                assert(run(p, s) == (s, Some(e@)));
                return Err(e);
            },
        }
    }
    assert(run(p, m.state(database@)) == (m.state(database@), None::<Seq<char>>));
    Ok(m.result)
}

} // verus!
