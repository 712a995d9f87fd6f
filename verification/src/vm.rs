//! A straight-line program that evaluates the lookup tables: loads of the
//! state, lookups in constant memory, nibble arithmetic and XORs, in a form
//! that is printed as source code of another language.

use vstd::prelude::*;

use crate::consts::{inv_shift_rows_src, inv_shift_rows_tab, shift_rows_src, shift_rows_tab};
use crate::tables::{col_rows, nib, step_byte, step_spec, Tables};
use crate::xor::ShiftRowsBijection;
use crate::{SPos, RI};
use crate::tybox::Work;
use crate::xor::{xor_column_wf, XorColumn, XorPartial};
use crate::{HighLow, Purpose, SColumn, U4};

verus! {

/// The language that the program is printed in.
#[derive(Clone, Copy, PartialEq, Eq, Structural, Debug)]
pub enum Language {
    Js,
    Python,
    Rust,
    Java,
}

/// A table of constant bytes of the program.
pub struct Memory {
    pub id: MemoryId,
    pub data: Vec<u8>,
    /// Where the table starts in the concatenation of all tables.
    pub cont_offset: usize,
}

#[derive(Clone, Copy, PartialEq, Eq, Structural, Debug)]
pub struct MemoryId(pub usize);

/// A variable of the program, assigned once.
#[derive(Clone, Copy, PartialEq, Eq, Structural, Debug)]
pub struct Local(pub usize);

/// One instruction: each defines at most one local from others.
#[derive(Clone, Copy)]
pub enum Op {
    /// `to = d[idx]`
    LoadState { idx: usize, to: Local },
    /// `d[to_idx] = from`
    StoreState { from: Local, to_idx: usize },
    /// `to = M[mem][idx]`
    Select { mem: MemoryId, idx: Local, to: Local },
    /// `to = (high << 4) | low`
    ConcatNimbles { high: Local, low: Local, to: Local },
    /// `to` is the high or the low nibble of `from`
    Nibble { from: Local, nib: HighLow, to: Local },
    /// `to` is the low nibble of `from` for `nib == 0`, the high one for `nib == 1`
    NibbleDyn { from: Local, nib: Local, to: Local },
    /// `to = from >> 1`
    Div2 { from: Local, to: Local },
    /// `to = from & 1`
    Mod2 { from: Local, to: Local },
    /// `to = a ^ b ^ c ^ d`
    Xor4 { a: Local, b: Local, c: Local, d: Local, to: Local },
}

/// The program being built: its locals, its constant tables and its instructions.
pub struct VM {
    pub locals: usize,
    pub memory_id: usize,
    pub memory: Vec<Memory>,
    pub ops: Vec<Op>,
}

/// The value of a local; unassigned ones read as zero.
pub open spec fn val(env: Map<usize, u8>, l: Local) -> u8 {
    if env.dom().contains(l.0) {
        env[l.0]
    } else {
        0
    }
}

/// Byte `i` of table `mem`; out of range reads as zero.
pub open spec fn mem_byte(mems: Seq<Seq<u8>>, mem: MemoryId, i: int) -> u8 {
    if 0 <= mem.0 < mems.len() && 0 <= i < mems[mem.0 as int].len() {
        mems[mem.0 as int][i]
    } else {
        0
    }
}

/// The locals and the output state after one instruction, for the input
/// state `input` and the tables `mems`.
pub open spec fn exec_op(op: Op, env: Map<usize, u8>, out: Map<usize, u8>, mems: Seq<Seq<u8>>, input: Seq<u8>) -> (Map<usize, u8>, Map<usize, u8>) {
    match op {
        Op::LoadState { idx, to } => (env.insert(to.0, input[idx as int]), out),
        Op::StoreState { from, to_idx } => (env, out.insert(to_idx, val(env, from))),
        Op::Select { mem, idx, to } => (env.insert(to.0, mem_byte(mems, mem, val(env, idx) as int)), out),
        Op::ConcatNimbles { high, low, to } => (env.insert(to.0, (val(env, high) << 4u8) | val(env, low)), out),
        Op::Nibble { from, nib, to } => (
            env.insert(
                to.0,
                match nib {
                    HighLow::High => val(env, from) >> 4u8,
                    HighLow::Low => val(env, from) & 15u8,
                },
            ),
            out,
        ),
        Op::NibbleDyn { from, nib, to } => (env.insert(to.0, (val(env, from) >> ((4 * val(env, nib)) as u8)) & 15u8), out),
        Op::Div2 { from, to } => (env.insert(to.0, val(env, from) >> 1u8), out),
        Op::Mod2 { from, to } => (env.insert(to.0, val(env, from) & 1u8), out),
        Op::Xor4 { a, b, c, d, to } => (env.insert(to.0, val(env, a) ^ val(env, b) ^ val(env, c) ^ val(env, d)), out),
    }
}

/// The locals and the output state after the instructions, run in order.
pub open spec fn run(ops: Seq<Op>, mems: Seq<Seq<u8>>, input: Seq<u8>) -> (Map<usize, u8>, Map<usize, u8>)
    decreases ops.len(),
{
    if ops.len() == 0 {
        (Map::empty(), Map::empty())
    } else {
        let prev = run(ops.drop_last(), mems, input);
        exec_op(ops.last(), prev.0, prev.1, mems, input)
    }
}

/// The local that the instruction assigns, if any.
pub open spec fn op_defines(op: Op) -> Option<Local> {
    match op {
        Op::LoadState { to, .. } => Some(to),
        Op::StoreState { .. } => None,
        Op::Select { to, .. } => Some(to),
        Op::ConcatNimbles { to, .. } => Some(to),
        Op::Nibble { to, .. } => Some(to),
        Op::NibbleDyn { to, .. } => Some(to),
        Op::Div2 { to, .. } => Some(to),
        Op::Mod2 { to, .. } => Some(to),
        Op::Xor4 { to, .. } => Some(to),
    }
}

/// The locals that the instruction reads.
pub open spec fn op_uses(op: Op) -> Seq<Local> {
    match op {
        Op::LoadState { .. } => seq![],
        Op::StoreState { from, .. } => seq![from],
        Op::Select { idx, .. } => seq![idx],
        Op::ConcatNimbles { high, low, .. } => seq![high, low],
        Op::Nibble { from, .. } => seq![from],
        Op::NibbleDyn { from, nib, .. } => seq![from, nib],
        Op::Div2 { from, .. } => seq![from],
        Op::Mod2 { from, .. } => seq![from],
        Op::Xor4 { a, b, c, d, .. } => seq![a, b, c, d],
    }
}

/// The table that the instruction reads, if any.
pub open spec fn op_memory(op: Op) -> Option<MemoryId> {
    match op {
        Op::Select { mem, .. } => Some(mem),
        _ => None,
    }
}

/// The instruction only names locals below `locals`.
pub open spec fn op_locals_below(op: Op, locals: nat) -> bool {
    &&& forall|k: int| 0 <= k < op_uses(op).len() ==> (#[trigger] op_uses(op)[k]).0 < locals
    &&& match op_defines(op) {
        Some(l) => l.0 < locals,
        None => true,
    }
}

/// The instruction only names locals below `locals` and tables below
/// `tables`, and state positions below 16.
pub open spec fn op_in_range(op: Op, locals: nat, tables: nat) -> bool {
    &&& forall|k: int| 0 <= k < op_uses(op).len() ==> (#[trigger] op_uses(op)[k]).0 < locals
    &&& match op_defines(op) {
        Some(l) => l.0 < locals,
        None => true,
    }
    &&& match op_memory(op) {
        Some(m) => m.0 < tables,
        None => true,
    }
    &&& match op {
        Op::LoadState { idx, .. } => idx < 16,
        Op::StoreState { to_idx, .. } => to_idx < 16,
        _ => true,
    }
}

impl VM {
    /// The contents of the tables.
    pub open spec fn mems(self) -> Seq<Seq<u8>> {
        Seq::new(self.memory@.len(), |i: int| self.memory@[i].data@)
    }

    /// The locals after running the program on `input`.
    pub open spec fn env(self, input: Seq<u8>) -> Map<usize, u8> {
        run(self.ops@, self.mems(), input).0
    }

    /// The state the program stores for `input`.
    pub open spec fn output(self, input: Seq<u8>) -> Map<usize, u8> {
        run(self.ops@, self.mems(), input).1
    }

    /// The program is being built: table `i` has the id `i`, and every
    /// instruction names only locals and tables that exist.
    pub open spec fn wf_base(self) -> bool {
        &&& self.memory_id == self.memory@.len()
        &&& forall|i: int| 0 <= i < self.memory@.len() ==> (#[trigger] self.memory@[i]).id.0 == i
        &&& forall|i: int| 0 <= i < self.memory@.len() ==> (#[trigger] self.memory@[i]).data@.len() <= 256
        &&& forall|k: int| 0 <= k < self.ops@.len() ==> op_in_range(#[trigger] self.ops@[k], self.locals as nat, self.memory@.len())
    }

    /// The first `n` locals are assigned by some instruction.
    pub open spec fn defines_first(self, n: int) -> bool {
        forall|l: int| 0 <= l < n ==> #[trigger] defined_before(self.ops@, self.ops@.len() as int, Local(l as usize))
    }

    /// The program is being built: it is well formed, every local is
    /// assigned, and every instruction reads only locals that earlier ones
    /// assign.
    pub open spec fn wf(self) -> bool {
        &&& self.wf_base()
        &&& ordered(self.ops@)
        &&& single_assignment(self.ops@)
        &&& stores_distinct(self.ops@)
        &&& reads_in_range(self.ops@, self.mems())
        &&& self.defines_first(self.locals as int)
    }

    pub fn new() -> (r: VM)
        ensures
            r.wf(),
            r.locals == 0,
            r.ops@.len() == 0,
            r.memory@.len() == 0,
    {
        VM { locals: 0, memory_id: 0, memory: Vec::new(), ops: Vec::new() }
    }

    fn alloc_local_raw(&mut self) -> (r: Local)
        requires
            old(self).wf_base(),
            old(self).locals < usize::MAX,
        ensures
            r.0 == old(self).locals,
            forall|k: int| 0 <= k < final(self).ops@.len() ==> op_defines(#[trigger] final(self).ops@[k]) != Some(r),
            final(self).locals == old(self).locals + 1,
            final(self).memory_id == old(self).memory_id,
            final(self).memory@ == old(self).memory@,
            final(self).ops@ == old(self).ops@,
    {
        let i = self.locals;
        self.locals += 1;
        proof {
            assert forall|k: int| 0 <= k < self.ops@.len() implies op_defines(#[trigger] self.ops@[k]) != Some(Local(i)) by {
                assert(op_in_range(old(self).ops@[k], old(self).locals as nat, old(self).memory@.len()));
            }
        }
        Local(i)
    }
}

/// Running one more instruction.
pub proof fn lemma_run_push(ops: Seq<Op>, op: Op, mems: Seq<Seq<u8>>, input: Seq<u8>)
    ensures
        run(ops.push(op), mems, input) == exec_op(op, run(ops, mems, input).0, run(ops, mems, input).1, mems, input),
{
    assert(ops.push(op).drop_last() =~= ops);
}

/// Instructions that read only the first tables run the same when tables
/// are added.
pub proof fn lemma_run_mems_push(ops: Seq<Op>, mems: Seq<Seq<u8>>, d: Seq<u8>, input: Seq<u8>)
    requires
        forall|k: int| 0 <= k < ops.len() ==> match op_memory(#[trigger] ops[k]) {
            Some(m) => m.0 < mems.len(),
            None => true,
        },
    ensures
        run(ops, mems.push(d), input) == run(ops, mems, input),
    decreases ops.len(),
{
    if ops.len() > 0 {
        let init = ops.drop_last();
        assert forall|k: int| 0 <= k < init.len() implies match op_memory(#[trigger] init[k]) {
            Some(m) => m.0 < mems.len(),
            None => true,
        } by {
            assert(init[k] == ops[k]);
        }
        lemma_run_mems_push(init, mems, d, input);
        let last = ops.last();
        assert(op_memory(ops[ops.len() - 1]) == op_memory(last));
        match last {
            Op::Select { mem, idx, to } => {
                let prev = run(init, mems, input);
                assert(mem_byte(mems.push(d), mem, val(prev.0, idx) as int) == mem_byte(mems, mem, val(prev.0, idx) as int));
            },
            _ => {},
        }
    }
}

impl VM {
    /// The program extends `old`: tables and the values of the locals of
    /// `old` stay the same for every input.
    pub open spec fn extends(self, old: VM) -> bool {
        &&& self.wf()
        &&& old.locals <= self.locals
        &&& old.memory@.len() <= self.memory@.len()
        &&& forall|i: int| 0 <= i < old.memory@.len() ==> #[trigger] self.mems()[i] == old.mems()[i]
        &&& forall|input: Seq<u8>, l: Local| l.0 < old.locals ==> #[trigger] val(self.env(input), l) == val(old.env(input), l)
    }

    /// The program stores the same state as `old` for every input.
    pub open spec fn same_output(self, old: VM) -> bool {
        forall|input: Seq<u8>| #[trigger] self.output(input) == old.output(input)
    }

    fn push_op(&mut self, op: Op)
        requires
            old(self).wf_base(),
            ordered(old(self).ops@),
            single_assignment(old(self).ops@),
            reads_in_range(old(self).ops@, old(self).mems()),
            next_read_ok(op, old(self).ops@, old(self).mems()),
            forall|k: int| 0 <= k < old(self).ops@.len() && op_defines(op) is Some ==> op_defines(#[trigger] old(self).ops@[k]) != op_defines(op),
            stores_distinct(old(self).ops@),
            forall|k: int| 0 <= k < old(self).ops@.len() && op_store(op) is Some ==> op_store(#[trigger] old(self).ops@[k]) != op_store(op),
            op_in_range(op, old(self).locals as nat, old(self).memory@.len()),
            forall|u: int| 0 <= u < op_uses(op).len() ==> defined_before(old(self).ops@, old(self).ops@.len() as int, #[trigger] op_uses(op)[u]),
            match op_defines(op) {
                Some(l) => l.0 + 1 == old(self).locals && old(self).defines_first(l.0 as int),
                None => old(self).defines_first(old(self).locals as int),
            },
        ensures
            final(self).wf(),
            final(self).locals == old(self).locals,
            final(self).memory@ == old(self).memory@,
            final(self).memory_id == old(self).memory_id,
            final(self).ops@ == old(self).ops@.push(op),
            forall|input: Seq<u8>| #[trigger] run(final(self).ops@, final(self).mems(), input) == exec_op(
                op,
                old(self).env(input),
                old(self).output(input),
                old(self).mems(),
                input,
            ),
            forall|input: Seq<u8>, l: Local| l.0 + 1 < old(self).locals ==> #[trigger] val(final(self).env(input), l) == val(old(self).env(input), l),
    {
        self.ops.push(op);
        proof {
            assert forall|input: Seq<u8>| #[trigger] run(self.ops@, self.mems(), input) == exec_op(
                op,
                old(self).env(input),
                old(self).output(input),
                old(self).mems(),
                input,
            ) by {
                assert(self.mems() == old(self).mems());
                lemma_run_push(old(self).ops@, op, old(self).mems(), input);
            }
            assert forall|input: Seq<u8>, l: Local| l.0 + 1 < old(self).locals implies #[trigger] val(self.env(input), l) == val(old(self).env(input), l) by {
                assert(self.mems() == old(self).mems());
                lemma_run_push(old(self).ops@, op, old(self).mems(), input);
            }
            assert forall|k: int| 0 <= k < self.ops@.len() implies op_in_range(#[trigger] self.ops@[k], self.locals as nat, self.memory@.len()) by {
                if k < old(self).ops@.len() {
                    assert(self.ops@[k] == old(self).ops@[k]);
                }
            }
            let ops0 = old(self).ops@;
            let n0 = ops0.len() as int;
            assert forall|kk: int, u: int| 0 <= kk < self.ops@.len() && 0 <= u < op_uses(self.ops@[kk]).len() implies defined_before(
                self.ops@,
                kk,
                #[trigger] op_uses(self.ops@[kk])[u],
            ) by {
                if kk < n0 {
                    assert(self.ops@[kk] == ops0[kk]);
                    assert(defined_before(ops0, kk, op_uses(ops0[kk])[u]));
                    let j = choose|j: int| 0 <= j < kk && #[trigger] op_defines(ops0[j]) == Some(op_uses(ops0[kk])[u]);
                    assert(self.ops@[j] == ops0[j]);
                } else {
                    assert(self.ops@[kk] == op);
                    assert(defined_before(ops0, n0, op_uses(op)[u]));
                    let j = choose|j: int| 0 <= j < n0 && #[trigger] op_defines(ops0[j]) == Some(op_uses(op)[u]);
                    assert(self.ops@[j] == ops0[j]);
                }
            }
            assert forall|k: int, input: Seq<u8>| 0 <= k < self.ops@.len() implies #[trigger] read_ok(self.ops@, self.mems(), k, input) by {
                assert(self.mems() == old(self).mems());
                if k < n0 {
                    assert(self.ops@.take(k) =~= ops0.take(k));
                    assert(self.ops@[k] == ops0[k]);
                    assert(read_ok(ops0, old(self).mems(), k, input));
                } else {
                    assert(self.ops@.take(k) =~= ops0);
                    assert(self.ops@[k] == op);
                }
            }
            assert forall|a: int, b: int|
                0 <= a < self.ops@.len() && 0 <= b < self.ops@.len() && a != b && op_store(self.ops@[a]) is Some implies #[trigger] op_store(self.ops@[a])
                != #[trigger] op_store(self.ops@[b]) by {
                if a < n0 && b < n0 {
                    assert(self.ops@[a] == ops0[a] && self.ops@[b] == ops0[b]);
                } else if a < n0 {
                    assert(self.ops@[a] == ops0[a] && self.ops@[b] == op);
                } else {
                    assert(self.ops@[b] == ops0[b] && self.ops@[a] == op);
                }
            }
            assert forall|a: int, b: int|
                0 <= a < self.ops@.len() && 0 <= b < self.ops@.len() && a != b && op_defines(self.ops@[a]) is Some implies #[trigger] op_defines(self.ops@[a])
                != #[trigger] op_defines(self.ops@[b]) by {
                if a < n0 && b < n0 {
                    assert(self.ops@[a] == ops0[a] && self.ops@[b] == ops0[b]);
                } else if a < n0 {
                    assert(self.ops@[a] == ops0[a] && self.ops@[b] == op);
                } else {
                    assert(self.ops@[b] == ops0[b] && self.ops@[a] == op);
                }
            }
            assert forall|l: int| 0 <= l < self.locals implies #[trigger] defined_before(self.ops@, self.ops@.len() as int, Local(l as usize)) by {
                let is_new = match op_defines(op) {
                    Some(d) => l == d.0,
                    None => false,
                };
                if is_new {
                    assert(op_defines(self.ops@[n0]) == Some(Local(l as usize)));
                } else {
                    assert(defined_before(ops0, n0, Local(l as usize)));
                    let j = choose|j: int| 0 <= j < n0 && #[trigger] op_defines(ops0[j]) == Some(Local(l as usize));
                    assert(self.ops@[j] == ops0[j]);
                }
            }
        }
    }

    /// Adds a table of constant bytes.
    pub fn alloc_memory(&mut self, data: Vec<u8>) -> (r: MemoryId)
        requires
            old(self).wf(),
            data@.len() <= 256,
        ensures
            final(self).memory@.len() == old(self).memory@.len() + 1,
            final(self).extends(*old(self)),
            final(self).same_output(*old(self)),
            final(self).locals == old(self).locals,
            final(self).ops@ == old(self).ops@,
            r.0 == old(self).memory@.len(),
            final(self).mems() == old(self).mems().push(data@),
    {
        let i = self.memory_id;
        let ghost d = data@;
        self.memory.push(Memory { id: MemoryId(i), data, cont_offset: 0 });
        proof {
            assert(self.mems() =~= old(self).mems().push(d));
            assert forall|input: Seq<u8>| #[trigger] run(self.ops@, self.mems(), input) == run(old(self).ops@, old(self).mems(), input) by {
                assert forall|k: int| 0 <= k < self.ops@.len() implies match op_memory(#[trigger] self.ops@[k]) {
                    Some(m) => m.0 < old(self).mems().len(),
                    None => true,
                } by {
                    assert(op_in_range(old(self).ops@[k], old(self).locals as nat, old(self).memory@.len()));
                }
                lemma_run_mems_push(self.ops@, old(self).mems(), d, input);
            }
            assert forall|input: Seq<u8>, l: Local| l.0 < old(self).locals implies #[trigger] val(self.env(input), l) == val(old(self).env(input), l) by {
                assert(run(self.ops@, self.mems(), input) == run(old(self).ops@, old(self).mems(), input));
            }
            assert forall|input: Seq<u8>| #[trigger] self.output(input) == old(self).output(input) by {
                assert(run(self.ops@, self.mems(), input) == run(old(self).ops@, old(self).mems(), input));
            }
            assert forall|k: int| 0 <= k < self.ops@.len() implies op_in_range(#[trigger] self.ops@[k], self.locals as nat, self.memory@.len()) by {
                assert(op_in_range(old(self).ops@[k], old(self).locals as nat, old(self).memory@.len()));
            }
            assert forall|j: int| 0 <= j < self.memory@.len() implies (#[trigger] self.memory@[j]).id.0 == j by {
                if j < old(self).memory@.len() {
                    assert(self.memory@[j] == old(self).memory@[j]);
                }
            }
            assert forall|k: int, input: Seq<u8>| 0 <= k < self.ops@.len() implies #[trigger] read_ok(self.ops@, self.mems(), k, input) by {
                let pre = self.ops@.take(k);
                assert forall|q: int| 0 <= q < pre.len() implies match op_memory(#[trigger] pre[q]) {
                    Some(m) => m.0 < old(self).mems().len(),
                    None => true,
                } by {
                    assert(pre[q] == old(self).ops@[q]);
                    assert(op_in_range(old(self).ops@[q], old(self).locals as nat, old(self).memory@.len()));
                }
                lemma_run_mems_push(pre, old(self).mems(), d, input);
                assert(op_in_range(old(self).ops@[k], old(self).locals as nat, old(self).memory@.len()));
                assert(read_ok(old(self).ops@, old(self).mems(), k, input));
            }
        }
        self.memory_id = self.memory.len();
        MemoryId(i)
    }

    /// Loads byte `idx` of the input state into a new local.
    pub fn load_state(&mut self, idx: usize) -> (r: Local)
        requires
            old(self).wf(),
            old(self).locals < usize::MAX,
            idx < 16,
        ensures
            final(self).extends(*old(self)),
            final(self).same_output(*old(self)),
            final(self).locals == old(self).locals + 1,
            final(self).mems() == old(self).mems(),
            r.0 == old(self).locals,
            forall|input: Seq<u8>| #[trigger] val(final(self).env(input), r) == input[idx as int],
    {
        let to = self.alloc_local_raw();
        self.push_op(Op::LoadState { idx, to });
        proof {
            assert(self.memory@ == old(self).memory@);
        }
        to
    }

    /// Stores the local into byte `to_idx` of the output state.
    pub fn store_state(&mut self, from: Local, to_idx: usize)
        requires
            old(self).wf(),
            from.0 < old(self).locals,
            to_idx < 16,
            forall|input: Seq<u8>| !(#[trigger] old(self).output(input)).dom().contains(to_idx),
        ensures
            final(self).extends(*old(self)),
            final(self).locals == old(self).locals,
            final(self).mems() == old(self).mems(),
            forall|input: Seq<u8>| #[trigger] final(self).output(input) == old(self).output(input).insert(to_idx, val(old(self).env(input), from)),
    {
        proof {
            assert(defined_before(self.ops@, self.ops@.len() as int, Local(from.0 as usize)));
            assert(Local(from.0 as usize) == from);
            assert(op_uses(Op::StoreState { from, to_idx })[0] == from);
            assert forall|k: int| 0 <= k < self.ops@.len() && op_store(Op::StoreState { from, to_idx }) is Some implies op_store(
                #[trigger] self.ops@[k],
            ) != op_store(Op::StoreState { from, to_idx }) by {
                if op_store(self.ops@[k]) == Some(to_idx) {
                    lemma_store_in_output(self.ops@, self.mems(), seq![], k);
                    assert(!self.output(seq![]).dom().contains(to_idx));
                }
            }
        }
        self.push_op(Op::StoreState { from, to_idx });
        proof {
            assert(self.memory@ == old(self).memory@);
            assert forall|input: Seq<u8>, l: Local| l.0 < old(self).locals implies #[trigger] val(self.env(input), l) == val(old(self).env(input), l) by {
                assert(run(self.ops@, self.mems(), input) == exec_op(Op::StoreState { from, to_idx }, old(self).env(input), old(self).output(input), old(self).mems(), input));
            }
            assert forall|input: Seq<u8>| #[trigger] self.output(input) == old(self).output(input).insert(to_idx, val(old(self).env(input), from)) by {
                assert(run(self.ops@, self.mems(), input) == exec_op(Op::StoreState { from, to_idx }, old(self).env(input), old(self).output(input), old(self).mems(), input));
            }
        }
    }

    /// Pushes an instruction that assigns a new local `to`.
    fn push_def(&mut self, op: Op, to: Local)
        requires
            old(self).wf_base(),
            ordered(old(self).ops@),
            single_assignment(old(self).ops@),
            reads_in_range(old(self).ops@, old(self).mems()),
            next_read_ok(op, old(self).ops@, old(self).mems()),
            stores_distinct(old(self).ops@),
            forall|k: int| 0 <= k < old(self).ops@.len() ==> op_defines(#[trigger] old(self).ops@[k]) != Some(to),
            old(self).defines_first(to.0 as int),
            op_in_range(op, old(self).locals as nat, old(self).memory@.len()),
            forall|u: int| 0 <= u < op_uses(op).len() ==> (#[trigger] op_uses(op)[u]).0 < to.0,
            op_defines(op) == Some(to),
            to.0 + 1 == old(self).locals,
        ensures
            final(self).wf(),
            final(self).locals == old(self).locals,
            final(self).memory@ == old(self).memory@,
            final(self).ops@ == old(self).ops@.push(op),
            forall|input: Seq<u8>| #[trigger] final(self).output(input) == old(self).output(input),
            forall|input: Seq<u8>| #[trigger] final(self).env(input) == exec_op(op, old(self).env(input), old(self).output(input), old(self).mems(), input).0,
            forall|input: Seq<u8>, l: Local| l.0 + 1 < old(self).locals ==> #[trigger] val(final(self).env(input), l) == val(old(self).env(input), l),
    {
        proof {
            assert forall|u: int| 0 <= u < op_uses(op).len() implies defined_before(old(self).ops@, old(self).ops@.len() as int, #[trigger] op_uses(op)[u]) by {
                let ul = op_uses(op)[u];
                assert(defined_before(old(self).ops@, old(self).ops@.len() as int, Local(ul.0 as usize)));
                assert(Local(ul.0 as usize) == ul);
            }
        }
        self.push_op(op);
        proof {
            assert forall|input: Seq<u8>| #[trigger] self.output(input) == old(self).output(input) by {
                assert(run(self.ops@, self.mems(), input) == exec_op(op, old(self).env(input), old(self).output(input), old(self).mems(), input));
            }
            assert forall|input: Seq<u8>| #[trigger] self.env(input) == exec_op(op, old(self).env(input), old(self).output(input), old(self).mems(), input).0 by {
                assert(run(self.ops@, self.mems(), input) == exec_op(op, old(self).env(input), old(self).output(input), old(self).mems(), input));
            }
        }
    }

    /// A new local with byte `idx` of table `mem`.
    pub fn select(&mut self, mem: MemoryId, idx: Local) -> (r: Local)
        requires
            old(self).wf(),
            old(self).locals < usize::MAX,
            mem.0 < old(self).memory@.len(),
            idx.0 < old(self).locals,
            forall|input: Seq<u8>| (val(#[trigger] old(self).env(input), idx) as int) < old(self).mems()[mem.0 as int].len(),
        ensures
            final(self).extends(*old(self)),
            final(self).same_output(*old(self)),
            final(self).locals == old(self).locals + 1,
            final(self).mems() == old(self).mems(),
            r.0 == old(self).locals,
            forall|input: Seq<u8>| #[trigger] val(final(self).env(input), r) == mem_byte(old(self).mems(), mem, val(old(self).env(input), idx) as int),
    {
        let ghost o = *self;
        let to = self.alloc_local_raw();
        proof {
            assert(self.mems() == o.mems());
            assert forall|input: Seq<u8>| (val(#[trigger] run(self.ops@, self.mems(), input).0, idx) as int) < self.mems()[mem.0 as int].len() by {
                assert(run(self.ops@, self.mems(), input).0 == o.env(input));
            }
        }
        self.push_def(Op::Select { mem, idx, to }, to);
        proof {
            assert(self.memory@ == o.memory@);
            assert forall|input: Seq<u8>| #[trigger] val(self.env(input), to) == mem_byte(o.mems(), mem, val(o.env(input), idx) as int) by {
                assert(self.env(input) == exec_op(Op::Select { mem, idx, to }, o.env(input), o.output(input), o.mems(), input).0);
            }
        }
        to
    }
}

impl VM {
    /// A new local with `v` halved.
    pub fn div2(&mut self, v: Local) -> (r: Local)
        requires
            old(self).wf(),
            old(self).locals < usize::MAX,
            v.0 < old(self).locals,
        ensures
            final(self).extends(*old(self)),
            final(self).same_output(*old(self)),
            final(self).locals == old(self).locals + 1,
            final(self).mems() == old(self).mems(),
            r.0 == old(self).locals,
            forall|input: Seq<u8>| #[trigger] val(final(self).env(input), r) == val(old(self).env(input), v) >> 1u8,
    {
        let ghost o = *self;
        let to = self.alloc_local_raw();
        self.push_def(Op::Div2 { from: v, to }, to);
        proof {
            assert(self.memory@ == o.memory@);
            assert forall|input: Seq<u8>| #[trigger] val(self.env(input), to) == val(o.env(input), v) >> 1u8 by {
                assert(self.env(input) == exec_op(Op::Div2 { from: v, to }, o.env(input), o.output(input), o.mems(), input).0);
            }
        }
        to
    }

    /// A new local with the lowest bit of `v`.
    pub fn mod2(&mut self, v: Local) -> (r: Local)
        requires
            old(self).wf(),
            old(self).locals < usize::MAX,
            v.0 < old(self).locals,
        ensures
            final(self).extends(*old(self)),
            final(self).same_output(*old(self)),
            final(self).locals == old(self).locals + 1,
            final(self).mems() == old(self).mems(),
            r.0 == old(self).locals,
            forall|input: Seq<u8>| #[trigger] val(final(self).env(input), r) == val(old(self).env(input), v) & 1u8,
    {
        let ghost o = *self;
        let to = self.alloc_local_raw();
        self.push_def(Op::Mod2 { from: v, to }, to);
        proof {
            assert(self.memory@ == o.memory@);
            assert forall|input: Seq<u8>| #[trigger] val(self.env(input), to) == val(o.env(input), v) & 1u8 by {
                assert(self.env(input) == exec_op(Op::Mod2 { from: v, to }, o.env(input), o.output(input), o.mems(), input).0);
            }
        }
        to
    }

    /// A new local with `high` in the high nibble and `low` in the low one.
    pub fn concat(&mut self, high: Local, low: Local) -> (r: Local)
        requires
            old(self).wf(),
            old(self).locals < usize::MAX,
            high.0 < old(self).locals,
            low.0 < old(self).locals,
        ensures
            final(self).extends(*old(self)),
            final(self).same_output(*old(self)),
            final(self).locals == old(self).locals + 1,
            final(self).mems() == old(self).mems(),
            r.0 == old(self).locals,
            forall|input: Seq<u8>| #[trigger] val(final(self).env(input), r) == (val(old(self).env(input), high) << 4u8) | val(old(self).env(input), low),
    {
        let ghost o = *self;
        let to = self.alloc_local_raw();
        self.push_def(Op::ConcatNimbles { high, low, to }, to);
        proof {
            assert(self.memory@ == o.memory@);
            assert forall|input: Seq<u8>| #[trigger] val(self.env(input), to) == (val(o.env(input), high) << 4u8) | val(o.env(input), low) by {
                assert(self.env(input) == exec_op(Op::ConcatNimbles { high, low, to }, o.env(input), o.output(input), o.mems(), input).0);
            }
        }
        to
    }

    /// A new local with one nibble of `from`.
    pub fn nibble(&mut self, from: Local, nib: HighLow) -> (r: Local)
        requires
            old(self).wf(),
            old(self).locals < usize::MAX,
            from.0 < old(self).locals,
        ensures
            final(self).extends(*old(self)),
            final(self).same_output(*old(self)),
            final(self).locals == old(self).locals + 1,
            final(self).mems() == old(self).mems(),
            r.0 == old(self).locals,
            forall|input: Seq<u8>| #[trigger] val(final(self).env(input), r) == match nib {
                HighLow::High => val(old(self).env(input), from) >> 4u8,
                HighLow::Low => val(old(self).env(input), from) & 15u8,
            },
    {
        let ghost o = *self;
        let to = self.alloc_local_raw();
        self.push_def(Op::Nibble { from, nib, to }, to);
        proof {
            assert(self.memory@ == o.memory@);
            assert forall|input: Seq<u8>| #[trigger] val(self.env(input), to) == match nib {
                HighLow::High => val(o.env(input), from) >> 4u8,
                HighLow::Low => val(o.env(input), from) & 15u8,
            } by {
                assert(self.env(input) == exec_op(Op::Nibble { from, nib, to }, o.env(input), o.output(input), o.mems(), input).0);
            }
        }
        to
    }

    /// A new local with the XOR of the four.
    pub fn xor4(&mut self, a: Local, b: Local, c: Local, d: Local) -> (r: Local)
        requires
            old(self).wf(),
            old(self).locals < usize::MAX,
            a.0 < old(self).locals,
            b.0 < old(self).locals,
            c.0 < old(self).locals,
            d.0 < old(self).locals,
        ensures
            final(self).extends(*old(self)),
            final(self).same_output(*old(self)),
            final(self).locals == old(self).locals + 1,
            final(self).mems() == old(self).mems(),
            r.0 == old(self).locals,
            forall|input: Seq<u8>| #[trigger] val(final(self).env(input), r) == val(old(self).env(input), a) ^ val(old(self).env(input), b) ^ val(old(self).env(input), c) ^ val(old(self).env(input), d),
    {
        let ghost o = *self;
        let to = self.alloc_local_raw();
        self.push_def(Op::Xor4 { a, b, c, d, to }, to);
        proof {
            assert(self.memory@ == o.memory@);
            assert forall|input: Seq<u8>| #[trigger] val(self.env(input), to) == val(o.env(input), a) ^ val(o.env(input), b) ^ val(o.env(input), c) ^ val(o.env(input), d) by {
                assert(self.env(input) == exec_op(Op::Xor4 { a, b, c, d, to }, o.env(input), o.output(input), o.mems(), input).0);
            }
        }
        to
    }

    /// A new local with the nibble of `from` that `nib` selects.
    pub fn nibble_dyn(&mut self, from: Local, nib: Local) -> (r: Local)
        requires
            old(self).wf(),
            old(self).locals < usize::MAX,
            from.0 < old(self).locals,
            nib.0 < old(self).locals,
        ensures
            final(self).extends(*old(self)),
            final(self).same_output(*old(self)),
            final(self).locals == old(self).locals + 1,
            final(self).mems() == old(self).mems(),
            r.0 == old(self).locals,
            forall|input: Seq<u8>| #[trigger] val(final(self).env(input), r) == (val(old(self).env(input), from) >> ((4 * val(old(self).env(input), nib)) as u8)) & 15u8,
    {
        let ghost o = *self;
        let to = self.alloc_local_raw();
        self.push_def(Op::NibbleDyn { from, nib, to }, to);
        proof {
            assert(self.memory@ == o.memory@);
            assert forall|input: Seq<u8>| #[trigger] val(self.env(input), to) == (val(o.env(input), from) >> ((4 * val(o.env(input), nib)) as u8)) & 15u8 by {
                assert(self.env(input) == exec_op(Op::NibbleDyn { from, nib, to }, o.env(input), o.output(input), o.mems(), input).0);
            }
        }
        to
    }
}

/// Extending is transitive.
pub proof fn lemma_extends_trans(a: VM, b: VM, c: VM)
    requires
        a.extends(b),
        b.extends(c),
    ensures
        a.extends(c),
{
    assert forall|input: Seq<u8>, l: Local| l.0 < c.locals implies #[trigger] val(a.env(input), l) == val(c.env(input), l) by {
        assert(val(a.env(input), l) == val(b.env(input), l));
    }
    assert forall|i: int| 0 <= i < c.memory@.len() implies #[trigger] a.mems()[i] == c.mems()[i] by {
        assert(a.mems()[i] == b.mems()[i]);
    }
}

/// Half a byte is below 128.
proof fn lemma_half_byte(x: u8)
    by (bit_vector)
    ensures
        x >> 1u8 < 128u8,
{
}

/// The nibble that `select_nib` reads: table byte `v / 2`, its low nibble
/// for even `v` and its high nibble for odd `v`.
pub open spec fn nib_of(mems: Seq<Seq<u8>>, mem: MemoryId, v: u8) -> u8 {
    (mem_byte(mems, mem, (v >> 1u8) as int) >> ((4 * (v & 1u8)) as u8)) & 15u8
}

impl VM {
    /// A new local with nibble `idx` of table `mem`, whose bytes hold two
    /// nibbles each, the even one low.
    pub fn select_nib(&mut self, mem: MemoryId, idx: Local) -> (r: Local)
        requires
            old(self).wf(),
            old(self).locals + 4 <= usize::MAX,
            mem.0 < old(self).memory@.len(),
            idx.0 < old(self).locals,
            old(self).mems()[mem.0 as int].len() >= 128,
        ensures
            final(self).extends(*old(self)),
            final(self).same_output(*old(self)),
            final(self).locals == old(self).locals + 4,
            final(self).mems() == old(self).mems(),
            r.0 < final(self).locals,
            forall|input: Seq<u8>| #[trigger] val(final(self).env(input), r) == nib_of(old(self).mems(), mem, val(old(self).env(input), idx)),
    {
        let ghost s0 = *self;
        let byte_idx = self.div2(idx);
        let ghost s1 = *self;
        proof {
            assert forall|input: Seq<u8>| (val(#[trigger] s1.env(input), byte_idx) as int) < s1.mems()[mem.0 as int].len() by {
                lemma_half_byte(val(s0.env(input), idx));
            }
        }
        let byte = self.select(mem, byte_idx);
        let ghost s2 = *self;
        let nib_idx = self.mod2(idx);
        let ghost s3 = *self;
        let r = self.nibble_dyn(byte, nib_idx);
        proof {
            lemma_extends_trans(s2, s1, s0);
            lemma_extends_trans(s3, s2, s0);
            lemma_extends_trans(*self, s3, s0);
            assert forall|input: Seq<u8>| #[trigger] val(self.env(input), r) == nib_of(s0.mems(), mem, val(s0.env(input), idx)) by {
                assert(val(s3.env(input), byte) == val(s2.env(input), byte));
                assert(val(s2.env(input), byte_idx) == val(s1.env(input), byte_idx));
                assert(val(s3.env(input), idx) == val(s0.env(input), idx));
                assert(val(s1.env(input), idx) == val(s0.env(input), idx));
            }
        }
        r
    }

    /// A new local with nibble `nib` of `high` above nibble `nib` of `low`.
    pub fn cascade1(&mut self, high: Local, low: Local, nib: HighLow) -> (r: Local)
        requires
            old(self).wf(),
            old(self).locals + 3 <= usize::MAX,
            high.0 < old(self).locals,
            low.0 < old(self).locals,
        ensures
            final(self).extends(*old(self)),
            final(self).same_output(*old(self)),
            final(self).locals == old(self).locals + 3,
            final(self).mems() == old(self).mems(),
            r.0 < final(self).locals,
            forall|input: Seq<u8>| #[trigger] val(final(self).env(input), r) == (match nib {
                HighLow::High => val(old(self).env(input), high) >> 4u8,
                HighLow::Low => val(old(self).env(input), high) & 15u8,
            } << 4u8) | match nib {
                HighLow::High => val(old(self).env(input), low) >> 4u8,
                HighLow::Low => val(old(self).env(input), low) & 15u8,
            },
    {
        let ghost s0 = *self;
        let a = self.nibble(high, nib);
        let ghost s1 = *self;
        let b = self.nibble(low, nib);
        let ghost s2 = *self;
        let r = self.concat(a, b);
        proof {
            lemma_extends_trans(s2, s1, s0);
            lemma_extends_trans(*self, s2, s0);
            assert forall|input: Seq<u8>| #[trigger] val(self.env(input), r) == (match nib {
                HighLow::High => val(s0.env(input), high) >> 4u8,
                HighLow::Low => val(s0.env(input), high) & 15u8,
            } << 4u8) | match nib {
                HighLow::High => val(s0.env(input), low) >> 4u8,
                HighLow::Low => val(s0.env(input), low) & 15u8,
            } by {
                assert(val(s2.env(input), a) == val(s1.env(input), a));
                assert(val(s1.env(input), low) == val(s0.env(input), low));
            }
        }
        r
    }
}

/// Nibble half `h` of output byte `v` through the XOR tables `t`, for the
/// bytes `b0 .. b3` of the four selected rows.
pub open spec fn cascade_bytes(t: XorColumn, v: int, h: int, b0: u8, b1: u8, b2: u8, b3: u8) -> nat {
    let a = t[0][v][h][nib(b0, h) as int].map_spec(nib(b1, h));
    let b = t[1][v][h][nib(b2, h) as int].map_spec(nib(b3, h));
    t[2][v][h][a as int].map_spec(b)
}

/// Entry `x` of XOR table `p` for output byte `v` and nibble half `h`: the
/// low nibble of `x` mapped by the table of its high nibble.
pub open spec fn xor_entry(t: XorColumn, p: int, v: int, h: int, x: int) -> nat {
    t[p][v][h][x / 16].map_spec((x % 16) as nat)
}

/// Byte `i` of table `x` of the work table at position `pos`: entry `v` of
/// the row for `x`.
fn work_column_table(work: &Work, pos: usize, v: usize) -> (r: Vec<u8>)
    requires
        pos < 16,
        v < 4,
    ensures
        r@ == Seq::new(256, |x: int| work.0[pos as int].0[x].0[v as int]),
{
    let mut out: Vec<u8> = Vec::new();
    let mut x: usize = 0;
    while x < 256
        invariant
            x <= 256,
            pos < 16,
            v < 4,
            out@ == Seq::new(x as nat, |y: int| work.0[pos as int].0[y].0[v as int]),
        decreases 256 - x,
    {
        out.push(work.0[pos].0[x].0[v]);
        assert(out@ =~= Seq::new((x + 1) as nat, |y: int| work.0[pos as int].0[y].0[v as int]));
        x += 1;
    }
    out
}

/// The XOR table `p` for output byte `v` and nibble half `h`, two entries to
/// a byte: entry `2j` in the low nibble of byte `j`, entry `2j + 1` in its
/// high nibble.
fn xor_nibble_table(xor: XorPartial<'_>, p: Purpose, v: SColumn, n: HighLow) -> (r: Vec<u8>)
    requires
        xor_column_wf(*xor.0),
    ensures
        r@.len() == 128,
        forall|j: int| 0 <= j < 128 ==> #[trigger] r@[j] == xor_entry(*xor.0, p.idx() as int, v.0.idx() as int, n.idx() as int, 2 * j + 1) * 16
            + xor_entry(*xor.0, p.idx() as int, v.0.idx() as int, n.idx() as int, 2 * j),
        forall|x: int| 0 <= x < 256 ==> #[trigger] xor_entry(*xor.0, p.idx() as int, v.0.idx() as int, n.idx() as int, x) < 16,
{
    proof {
        assert forall|x: int| 0 <= x < 256 implies #[trigger] xor_entry(*xor.0, p.idx() as int, v.0.idx() as int, n.idx() as int, x) < 16 by {
            assert(xor.0[p.idx() as int][v.0.idx() as int][n.idx() as int][x / 16].wf());
        }
    }
    let mut out: Vec<u8> = Vec::new();
    let mut j: usize = 0;
    while j < 128
        invariant
            j <= 128,
            xor_column_wf(*xor.0),
            forall|x: int| 0 <= x < 256 ==> #[trigger] xor_entry(*xor.0, p.idx() as int, v.0.idx() as int, n.idx() as int, x) < 16,
            out@.len() == j,
            forall|k: int| 0 <= k < j ==> #[trigger] out@[k] == xor_entry(*xor.0, p.idx() as int, v.0.idx() as int, n.idx() as int, 2 * k + 1) * 16
                + xor_entry(*xor.0, p.idx() as int, v.0.idx() as int, n.idx() as int, 2 * k),
        decreases 128 - j,
    {
        let lo_x = 2 * j;
        let hi_x = 2 * j + 1;
        let l = xor.map(p, v, n, U4::from_index(lo_x / 16), U4::from_index(lo_x % 16));
        let h = xor.map(p, v, n, U4::from_index(hi_x / 16), U4::from_index(hi_x % 16));
        proof {
            assert(xor_entry(*xor.0, p.idx() as int, v.0.idx() as int, n.idx() as int, lo_x as int) < 16);
            assert(xor_entry(*xor.0, p.idx() as int, v.0.idx() as int, n.idx() as int, hi_x as int) < 16);
        }
        out.push(crate::X::nibs(h, l).0);
        j += 1;
    }
    out
}

/// Two nibbles packed into a byte read back: the low one for even `v`, the
/// high one for odd `v`; and the halving and the lowest bit give back `v`.
proof fn lemma_nibble_pack(h: u8, l: u8, v: u8)
    by (bit_vector)
    requires
        h < 16,
        l < 16,
    ensures
        (((h * 16 + l) as u8 >> ((4 * (v & 1u8)) as u8)) & 15u8) == if v & 1u8 == 1u8 {
            h
        } else {
            l
        },
        2 * (v >> 1u8) + (v & 1u8) == v,
        v & 1u8 <= 1,
        (h << 4u8) | l == h * 16 + l,
        v >> 4u8 == v / 16,
        v & 15u8 == v % 16,
{
}

/// Reading the packed nibble table gives the table's entry.
proof fn lemma_select_table(t: XorColumn, p: int, v: int, h: int, data: Seq<u8>, x: u8)
    requires
        data.len() == 128,
        forall|j: int| 0 <= j < 128 ==> #[trigger] data[j] == xor_entry(t, p, v, h, 2 * j + 1) * 16 + xor_entry(t, p, v, h, 2 * j),
        forall|y: int| 0 <= y < 256 ==> #[trigger] xor_entry(t, p, v, h, y) < 16,
    ensures
        ((data[(x >> 1u8) as int] >> ((4 * (x & 1u8)) as u8)) & 15u8) == xor_entry(t, p, v, h, x as int),
{
    let j = (x >> 1u8) as int;
    lemma_nibble_pack(0, 0, x);
    let hi = xor_entry(t, p, v, h, 2 * j + 1) as u8;
    let lo = xor_entry(t, p, v, h, 2 * j) as u8;
    assert(xor_entry(t, p, v, h, 2 * j + 1) < 16);
    assert(xor_entry(t, p, v, h, 2 * j) < 16);
    assert(data[j] == (hi * 16 + lo) as u8);
    lemma_nibble_pack(hi, lo, x);
}

/// Nibble half `n` of output byte `v` through the XOR tables of one column,
/// for the bytes `aa .. dd` of the four selected rows: the first two and the
/// last two are combined, then the two results.
fn xor_nibble(vm: &mut VM, xor: XorPartial<'_>, v: SColumn, n: HighLow, aa: Local, bb: Local, cc: Local, dd: Local) -> (r: Local)
    requires
        old(vm).wf(),
        old(vm).locals + 19 <= usize::MAX,
        aa.0 < old(vm).locals,
        bb.0 < old(vm).locals,
        cc.0 < old(vm).locals,
        dd.0 < old(vm).locals,
        xor_column_wf(*xor.0),
    ensures
        final(vm).extends(*old(vm)),
        final(vm).same_output(*old(vm)),
        final(vm).locals == old(vm).locals + 19,
        final(vm).memory@.len() == old(vm).memory@.len() + 3,
        r.0 < final(vm).locals,
        forall|input: Seq<u8>| #[trigger] val(final(vm).env(input), r) == cascade_bytes(
            *xor.0,
            v.0.idx() as int,
            n.idx() as int,
            val(old(vm).env(input), aa),
            val(old(vm).env(input), bb),
            val(old(vm).env(input), cc),
            val(old(vm).env(input), dd),
        ),
{
    let ghost s0 = *vm;
    let ghost t = *xor.0;
    let ghost vi = v.0.idx() as int;
    let ghost hi = n.idx() as int;
    let t_high = xor_nibble_table(xor, Purpose::High, v, n);
    let ghost d_high = t_high@;
    let m_high = vm.alloc_memory(t_high);
    let ghost s1 = *vm;
    let t_low = xor_nibble_table(xor, Purpose::Low, v, n);
    let ghost d_low = t_low@;
    let m_low = vm.alloc_memory(t_low);
    let ghost s2 = *vm;
    let t_out = xor_nibble_table(xor, Purpose::Output, v, n);
    let ghost d_out = t_out@;
    let m_out = vm.alloc_memory(t_out);
    let ghost s3 = *vm;
    let a0 = vm.cascade1(aa, bb, n);
    let ghost s4 = *vm;
    assert(vm.memory@.len() == vm.mems().len() && s3.memory@.len() == s3.mems().len());
    let a = vm.select_nib(m_high, a0);
    let ghost s5 = *vm;
    let b0 = vm.cascade1(cc, dd, n);
    let ghost s6 = *vm;
    assert(vm.memory@.len() == vm.mems().len() && s5.memory@.len() == s5.mems().len());
    let b = vm.select_nib(m_low, b0);
    let ghost s7 = *vm;
    let o = vm.concat(a, b);
    let ghost s8 = *vm;
    assert(vm.memory@.len() == vm.mems().len() && s7.memory@.len() == s7.mems().len());
    let r = vm.select_nib(m_out, o);
    proof {
        lemma_extends_trans(s2, s1, s0);
        lemma_extends_trans(s3, s2, s0);
        lemma_extends_trans(s4, s3, s0);
        lemma_extends_trans(s5, s4, s0);
        lemma_extends_trans(s6, s5, s0);
        lemma_extends_trans(s7, s6, s0);
        lemma_extends_trans(s8, s7, s0);
        lemma_extends_trans(*vm, s8, s0);
        assert(Purpose::High.idx() as int == 0);
        assert(Purpose::Low.idx() as int == 1);
        assert(Purpose::Output.idx() as int == 2);
        let mems = s3.mems();
        assert(mems[m_high.0 as int] == d_high);
        assert(mems[m_low.0 as int] == d_low);
        assert(mems[m_out.0 as int] == d_out);
        assert forall|input: Seq<u8>| #[trigger] val(vm.env(input), r) == cascade_bytes(
            t,
            vi,
            hi,
            val(s0.env(input), aa),
            val(s0.env(input), bb),
            val(s0.env(input), cc),
            val(s0.env(input), dd),
        ) by {
            let va = val(s0.env(input), aa);
            let vb = val(s0.env(input), bb);
            let vc = val(s0.env(input), cc);
            let vd = val(s0.env(input), dd);
            assert(val(s3.env(input), aa) == va);
            assert(val(s3.env(input), bb) == vb);
            assert(val(s5.env(input), cc) == vc);
            assert(val(s5.env(input), dd) == vd);
            lemma_nib_sel(va, n);
            lemma_nib_sel(vb, n);
            lemma_nib_sel(vc, n);
            lemma_nib_sel(vd, n);
            lemma_table_read(t, 0, vi, hi, d_high, mems, m_high, nib_sel(va, n), nib_sel(vb, n));
            let ra = t[0][vi][hi][nib(va, hi) as int].map_spec(nib(vb, hi));
            assert(val(s5.env(input), a) == ra);
            lemma_table_read(t, 1, vi, hi, d_low, mems, m_low, nib_sel(vc, n), nib_sel(vd, n));
            let rb = t[1][vi][hi][nib(vc, hi) as int].map_spec(nib(vd, hi));
            assert(val(s7.env(input), b) == rb);
            assert(val(s7.env(input), a) == ra);
            lemma_table_read(t, 2, vi, hi, d_out, mems, m_out, ra as u8, rb as u8);
        }
    }
    r
}

/// The nibble half `n` of `x`.
pub open spec fn nib_sel(x: u8, n: HighLow) -> u8 {
    match n {
        HighLow::High => x >> 4u8,
        HighLow::Low => x & 15u8,
    }
}

proof fn lemma_nib_sel(x: u8, n: HighLow)
    ensures
        nib_sel(x, n) == nib(x, n.idx() as int),
        nib_sel(x, n) < 16,
{
    lemma_nibble_pack(0, 0, x);
}

/// Looking up the packed XOR table `p` at the nibbles `a`, `b` gives `b`
/// mapped by the table of `a`.
proof fn lemma_table_read(t: XorColumn, p: int, v: int, h: int, data: Seq<u8>, mems: Seq<Seq<u8>>, m: MemoryId, a: u8, b: u8)
    requires
        a < 16,
        b < 16,
        0 <= m.0 < mems.len(),
        mems[m.0 as int] == data,
        data.len() == 128,
        forall|j: int| 0 <= j < 128 ==> #[trigger] data[j] == xor_entry(t, p, v, h, 2 * j + 1) * 16 + xor_entry(t, p, v, h, 2 * j),
        forall|y: int| 0 <= y < 256 ==> #[trigger] xor_entry(t, p, v, h, y) < 16,
    ensures
        nib_of(mems, m, (a << 4u8) | b) == t[p][v][h][a as int].map_spec(b as nat),
        t[p][v][h][a as int].map_spec(b as nat) < 16,
{
    lemma_nibble_pack(a, b, 0);
    let x = (a * 16 + b) as u8;
    lemma_nibble_pack(0, 0, x);
    assert(x >> 1u8 < 128);
    lemma_select_table(t, p, v, h, data, x);
    assert(x as int / 16 == a && x as int % 16 == b);
    assert(xor_entry(t, p, v, h, x as int) < 16);
}

/// The values that the locals of `st` hold after running `vm` on `input`.
pub open spec fn state_vals(vm: VM, input: Seq<u8>, st: [Local; 16]) -> Seq<u8> {
    Seq::new(16, |p: int| val(vm.env(input), st[p]))
}

proof fn lemma_cascade_bound(t: XorColumn, v: int, h: int, b0: u8, b1: u8, b2: u8, b3: u8)
    requires
        xor_column_wf(t),
        0 <= v < 4,
        0 <= h < 2,
    ensures
        cascade_bytes(t, v, h, b0, b1, b2, b3) < 16,
{
    lemma_nibble_pack(0, 0, b0);
    lemma_nibble_pack(0, 0, b1);
    lemma_nibble_pack(0, 0, b2);
    lemma_nibble_pack(0, 0, b3);
    let a = t[0][v][h][nib(b0, h) as int].map_spec(nib(b1, h));
    let b = t[1][v][h][nib(b2, h) as int].map_spec(nib(b3, h));
    assert(t[0][v][h][nib(b0, h) as int].wf());
    assert(t[1][v][h][nib(b2, h) as int].wf());
    assert(t[2][v][h][a as int].wf());
}

/// Appends the lookups of one column of one step: the four bytes of column
/// `col` select their rows in `work`, and the rows are combined, through the
/// XOR tables when there are some, into the new bytes of the column.
fn vm_step_column(vm: &mut VM, work: &Work, xor: Option<XorPartial<'_>>, col: usize, state: &mut [Local; 16])
    requires
        old(vm).wf(),
        col < 4,
        old(vm).locals + 256 <= usize::MAX,
        forall|p: int| 0 <= p < 16 ==> (#[trigger] old(state)[p]).0 < old(vm).locals,
        match xor {
            Some(x) => xor_column_wf(*x.0),
            None => true,
        },
    ensures
        final(vm).extends(*old(vm)),
        final(vm).same_output(*old(vm)),
        final(vm).locals <= old(vm).locals + 256,
        final(vm).memory@.len() <= old(vm).memory@.len() + 40,
        forall|p: int| 0 <= p < 16 ==> (#[trigger] final(state)[p]).0 < final(vm).locals,
        forall|p: int| 0 <= p < 16 && p / 4 != col ==> #[trigger] final(state)[p] == old(state)[p],
        forall|input: Seq<u8>, v: int| 0 <= v < 4 ==> #[trigger] val(final(vm).env(input), final(state)[4 * col + v]) == step_byte(
            *work,
            match xor {
                Some(x) => Some(*x.0),
                None => None,
            },
            state_vals(*old(vm), input, *old(state)),
            col as int,
            v,
        ),
{
    let ghost o = *vm;
    let ghost st0 = *state;
    let mut sel = [[Local(0); 4]; 4];
    let mut k: usize = 0;
    while k < 4
        invariant
            k <= 4,
            col < 4,
            vm.extends(o),
            vm.same_output(o),
            vm.locals <= o.locals + 16 * k,
            vm.memory@.len() <= o.memory@.len() + 4 * k,
            o.locals + 256 <= usize::MAX,
            *state == st0,
            forall|p: int| 0 <= p < 16 ==> (#[trigger] st0[p]).0 < o.locals,
            forall|k2: int, v: int| 0 <= k2 < k && 0 <= v < 4 ==> (#[trigger] sel[k2][v]).0 < vm.locals,
            forall|input: Seq<u8>, k2: int, v: int|
                0 <= k2 < k && 0 <= v < 4 ==> #[trigger] val(vm.env(input), sel[k2][v]) == col_rows(*work, state_vals(o, input, st0), col as int)[k2][v],
        decreases 4 - k,
    {
        let pos = 4 * col + k;
        let mut v: usize = 0;
        while v < 4
            invariant
                k < 4,
                v <= 4,
                col < 4,
                pos == 4 * col + k,
                vm.extends(o),
                vm.same_output(o),
                vm.locals <= o.locals + 16 * k + 4 * v,
                vm.memory@.len() <= o.memory@.len() + 4 * k + v,
                o.locals + 256 <= usize::MAX,
                *state == st0,
                forall|p: int| 0 <= p < 16 ==> (#[trigger] st0[p]).0 < o.locals,
                forall|k2: int, v2: int| 0 <= k2 < k && 0 <= v2 < 4 ==> (#[trigger] sel[k2][v2]).0 < vm.locals,
                forall|v2: int| 0 <= v2 < v ==> (#[trigger] sel[k as int][v2]).0 < vm.locals,
                forall|input: Seq<u8>, k2: int, v2: int|
                    0 <= k2 < k && 0 <= v2 < 4 ==> #[trigger] val(vm.env(input), sel[k2][v2]) == col_rows(*work, state_vals(o, input, st0), col as int)[k2][v2],
                forall|input: Seq<u8>, v2: int|
                    0 <= v2 < v ==> #[trigger] val(vm.env(input), sel[k as int][v2]) == col_rows(*work, state_vals(o, input, st0), col as int)[k as int][v2],
            decreases 4 - v,
        {
            let ghost s0 = *vm;
            let table = work_column_table(work, pos, v);
            let ghost tab = table@;
            let m = vm.alloc_memory(table);
            let ghost s1 = *vm;
            assert(vm.memory@.len() == vm.mems().len() && s0.memory@.len() == s0.mems().len());
            let l = vm.select(m, state[pos]);
            proof {
                assert(vm.memory@.len() == vm.mems().len() && s1.memory@.len() == s1.mems().len());
                lemma_extends_trans(s1, s0, o);
                lemma_extends_trans(*vm, s1, o);
                lemma_extends_trans(*vm, s1, s0);
                assert forall|input: Seq<u8>| #[trigger] val(vm.env(input), l) == col_rows(*work, state_vals(o, input, st0), col as int)[k as int][v as int] by {
                    let x = val(s1.env(input), st0[pos as int]);
                    assert(val(s1.env(input), st0[pos as int]) == val(o.env(input), st0[pos as int]));
                    assert(s1.mems()[m.0 as int] == tab);
                    assert(state_vals(o, input, st0)[pos as int] == x);
                }
            }
            let ghost before = sel;
            sel[k][v] = l;
            proof {
                assert forall|input: Seq<u8>, k2: int, v2: int|
                    0 <= k2 < k && 0 <= v2 < 4 implies #[trigger] val(vm.env(input), sel[k2][v2]) == col_rows(*work, state_vals(o, input, st0), col as int)[k2][v2] by {
                    assert(sel[k2][v2] == before[k2][v2]);
                    assert(val(vm.env(input), before[k2][v2]) == val(s0.env(input), before[k2][v2]));
                }
                assert forall|input: Seq<u8>, v2: int|
                    0 <= v2 < v + 1 implies #[trigger] val(vm.env(input), sel[k as int][v2]) == col_rows(*work, state_vals(o, input, st0), col as int)[k as int][v2] by {
                    if v2 < v {
                        assert(sel[k as int][v2] == before[k as int][v2]);
                        assert(val(vm.env(input), before[k as int][v2]) == val(s0.env(input), before[k as int][v2]));
                    }
                }
                assert forall|k2: int, v2: int| 0 <= k2 < k && 0 <= v2 < 4 implies (#[trigger] sel[k2][v2]).0 < vm.locals by {
                    assert(sel[k2][v2] == before[k2][v2]);
                }
                assert forall|v2: int| 0 <= v2 < v + 1 implies (#[trigger] sel[k as int][v2]).0 < vm.locals by {
                    if v2 < v {
                        assert(sel[k as int][v2] == before[k as int][v2]);
                    }
                }
            }
            v += 1;
        }
        k += 1;
    }
    let ghost xs = match xor {
        Some(x) => Some(*x.0),
        None => None,
    };
    let ghost selected = sel;
    let ghost s_sel = *vm;
    let mut v: usize = 0;
    while v < 4
        invariant
            v <= 4,
            col < 4,
            vm.extends(o),
            vm.extends(s_sel),
            vm.same_output(o),
            vm.locals <= o.locals + 64 + 39 * v,
            vm.memory@.len() <= o.memory@.len() + 16 + 6 * v,
            o.locals + 256 <= usize::MAX,
            sel == selected,
            xs == match xor {
                Some(x) => Some(*x.0),
                None => None,
            },
            match xor {
                Some(x) => xor_column_wf(*x.0),
                None => true,
            },
            forall|k2: int, v2: int| 0 <= k2 < 4 && 0 <= v2 < 4 ==> (#[trigger] sel[k2][v2]).0 < s_sel.locals,
            forall|input: Seq<u8>, k2: int, v2: int|
                0 <= k2 < 4 && 0 <= v2 < 4 ==> #[trigger] val(s_sel.env(input), sel[k2][v2]) == col_rows(*work, state_vals(o, input, st0), col as int)[k2][v2],
            forall|p: int| 0 <= p < 16 ==> (#[trigger] state[p]).0 < vm.locals,
            forall|p: int| 0 <= p < 16 && (p / 4 != col || p % 4 >= v) ==> #[trigger] state[p] == st0[p],
            forall|input: Seq<u8>, v2: int| 0 <= v2 < v ==> #[trigger] val(vm.env(input), state[4 * col + v2]) == step_byte(
                *work,
                xs,
                state_vals(o, input, st0),
                col as int,
                v2,
            ),
            forall|p: int| 0 <= p < 16 ==> (#[trigger] st0[p]).0 < o.locals,
        decreases 4 - v,
    {
        let ghost s0 = *vm;
        let res = vm_combine(vm, xor, v, sel[0][v], sel[1][v], sel[2][v], sel[3][v]);
        proof {
            assert forall|input: Seq<u8>| #[trigger] val(vm.env(input), res) == step_byte(
                *work,
                xs,
                state_vals(o, input, st0),
                col as int,
                v as int,
            ) by {
                let rows = col_rows(*work, state_vals(o, input, st0), col as int);
                assert(val(s0.env(input), sel[0][v as int]) == val(s_sel.env(input), sel[0][v as int]));
                assert(val(s0.env(input), sel[1][v as int]) == val(s_sel.env(input), sel[1][v as int]));
                assert(val(s0.env(input), sel[2][v as int]) == val(s_sel.env(input), sel[2][v as int]));
                assert(val(s0.env(input), sel[3][v as int]) == val(s_sel.env(input), sel[3][v as int]));
                assert(val(s0.env(input), sel[0][v as int]) == rows[0][v as int]);
                assert(val(s0.env(input), sel[1][v as int]) == rows[1][v as int]);
                assert(val(s0.env(input), sel[2][v as int]) == rows[2][v as int]);
                assert(val(s0.env(input), sel[3][v as int]) == rows[3][v as int]);
            }
        }
        proof {
            lemma_extends_trans(*vm, s0, o);
            lemma_extends_trans(*vm, s0, s_sel);
        }
        let ghost before = *state;
        state[4 * col + v] = res;
        proof {
            assert forall|input: Seq<u8>, v2: int| 0 <= v2 < v + 1 implies #[trigger] val(vm.env(input), state[4 * col + v2]) == step_byte(
                *work,
                xs,
                state_vals(o, input, st0),
                col as int,
                v2,
            ) by {
                if v2 < v {
                    assert(state[4 * col + v2] == before[4 * col + v2]);
                    assert(val(vm.env(input), before[4 * col + v2]) == val(s0.env(input), before[4 * col + v2]));
                }
            }
        }
        v += 1;
    }
}

/// Byte `v` of an output column from the bytes `b0 .. b3` that the four
/// rows give it: their XOR, through the XOR tables when there are some.
pub open spec fn combine_spec(xor: Option<XorColumn>, v: int, b0: u8, b1: u8, b2: u8, b3: u8) -> u8 {
    match xor {
        Some(t) => (cascade_bytes(t, v, 0, b0, b1, b2, b3) * 16 + cascade_bytes(t, v, 1, b0, b1, b2, b3)) as u8,
        None => b0 ^ b1 ^ b2 ^ b3,
    }
}

/// Appends the combination of the four bytes `a .. d` into byte `v` of an
/// output column.
fn vm_combine(vm: &mut VM, xor: Option<XorPartial<'_>>, v: usize, a: Local, b: Local, c: Local, d: Local) -> (r: Local)
    requires
        old(vm).wf(),
        old(vm).locals + 40 <= usize::MAX,
        v < 4,
        a.0 < old(vm).locals,
        b.0 < old(vm).locals,
        c.0 < old(vm).locals,
        d.0 < old(vm).locals,
        match xor {
            Some(x) => xor_column_wf(*x.0),
            None => true,
        },
    ensures
        final(vm).extends(*old(vm)),
        final(vm).same_output(*old(vm)),
        final(vm).locals <= old(vm).locals + 39,
        final(vm).memory@.len() <= old(vm).memory@.len() + 6,
        r.0 < final(vm).locals,
        forall|input: Seq<u8>| #[trigger] val(final(vm).env(input), r) == combine_spec(
            match xor {
                Some(x) => Some(*x.0),
                None => None,
            },
            v as int,
            val(old(vm).env(input), a),
            val(old(vm).env(input), b),
            val(old(vm).env(input), c),
            val(old(vm).env(input), d),
        ),
{
    let ghost s0 = *vm;
    match xor {
        Some(x) => {
            let col = SColumn::from_index(v);
            let hi = xor_nibble(vm, x, col, HighLow::High, a, b, c, d);
            let ghost s1 = *vm;
            let lo = xor_nibble(vm, x, col, HighLow::Low, a, b, c, d);
            let ghost s2 = *vm;
            let res = vm.concat(hi, lo);
            proof {
                assert(vm.memory@.len() == vm.mems().len() && s2.memory@.len() == s2.mems().len());
                lemma_extends_trans(s2, s1, s0);
                lemma_extends_trans(*vm, s2, s0);
                assert forall|input: Seq<u8>| #[trigger] val(vm.env(input), res) == combine_spec(
                    Some(*x.0),
                    v as int,
                    val(s0.env(input), a),
                    val(s0.env(input), b),
                    val(s0.env(input), c),
                    val(s0.env(input), d),
                ) by {
                    let b0 = val(s0.env(input), a);
                    let b1 = val(s0.env(input), b);
                    let b2 = val(s0.env(input), c);
                    let b3 = val(s0.env(input), d);
                    assert(val(s1.env(input), a) == b0);
                    assert(val(s1.env(input), b) == b1);
                    assert(val(s1.env(input), c) == b2);
                    assert(val(s1.env(input), d) == b3);
                    lemma_cascade_bound(*x.0, v as int, 0, b0, b1, b2, b3);
                    lemma_cascade_bound(*x.0, v as int, 1, b0, b1, b2, b3);
                    let h = cascade_bytes(*x.0, v as int, 0, b0, b1, b2, b3) as u8;
                    let l = cascade_bytes(*x.0, v as int, 1, b0, b1, b2, b3) as u8;
                    assert(val(s2.env(input), hi) == h);
                    lemma_nibble_pack(h, l, 0);
                }
            }
            res
        },
        None => {
            let res = vm.xor4(a, b, c, d);
            assert(vm.memory@.len() == vm.mems().len() && s0.memory@.len() == s0.mems().len());
            res
        },
    }
}

/// The state that a run stores: the bytes at positions 0 .. 16.
pub open spec fn stored(out: Map<usize, u8>) -> Seq<u8> {
    Seq::new(16, |p: int| if out.dom().contains(p as usize) { out[p as usize] } else { 0 })
}

/// Appends one round of the table cipher: the state moved by (Inv)ShiftRows,
/// then for every column the work tables and, where used, the mixing
/// bijections.
#[verifier::spinoff_prover]
#[verifier::rlimit(40)]
fn vm_round<const NRM1: usize>(vm: &mut VM, tables: &Tables<NRM1>, r: usize, tab: &ShiftRowsBijection, state: &mut [Local; 16])
    requires
        old(vm).wf(),
        tables.wf(),
        r < NRM1,
        old(vm).locals + 2048 <= usize::MAX,
        tab.wf(),
        forall|p: nat| p < 16 ==> tab.map_spec(p) == if tables.inv {
            inv_shift_rows_src(p)
        } else {
            shift_rows_src(p)
        },
        forall|p: int| 0 <= p < 16 ==> (#[trigger] old(state)[p]).0 < old(vm).locals,
    ensures
        final(vm).extends(*old(vm)),
        final(vm).same_output(*old(vm)),
        final(vm).locals <= old(vm).locals + 2048,
        final(vm).memory@.len() <= old(vm).memory@.len() + 320,
        forall|p: int| 0 <= p < 16 ==> (#[trigger] final(state)[p]).0 < final(vm).locals,
        forall|input: Seq<u8>| #[trigger] state_vals(*final(vm), input, *final(state)) == tables.round_spec(
            r as int,
            state_vals(*old(vm), input, *old(state)),
        ),
{
    let ghost o = *vm;
    let ghost st0 = *state;
    let mut shifted = [Local(0); 16];
    let mut p: usize = 0;
    while p < 16
        invariant
            p <= 16,
            tab.wf(),
            *state == st0,
            forall|q: int| 0 <= q < p ==> #[trigger] shifted[q] == st0[tab.map_spec(q as nat) as int],
        decreases 16 - p,
    {
        shifted[p] = state[tab.map(SPos::from_index(p)).as_index()];
        p += 1;
    }
    *state = shifted;
    let ghost st1 = *state;
    proof {
        assert forall|input: Seq<u8>| #[trigger] state_vals(o, input, st1) == tables.shift_spec(state_vals(o, input, st0)) by {
            assert(state_vals(o, input, st1) =~= tables.shift_spec(state_vals(o, input, st0)));
        }
    }
    let mut col: usize = 0;
    while col < 4
        invariant
            col <= 4,
            r < NRM1,
            tables.wf(),
            vm.extends(o),
            vm.same_output(o),
            vm.locals <= o.locals + 512 * col,
            vm.memory@.len() <= o.memory@.len() + 80 * col,
            o.locals + 2048 <= usize::MAX,
            forall|q: int| 0 <= q < 16 ==> (#[trigger] st1[q]).0 < o.locals,
            forall|q: int| 0 <= q < 16 ==> (#[trigger] state[q]).0 < vm.locals,
            forall|q: int| 0 <= q < 16 && q / 4 >= col ==> #[trigger] state[q] == st1[q],
            forall|input: Seq<u8>, q: int|
                0 <= q < 16 && q / 4 < col ==> #[trigger] val(vm.env(input), state[q]) == tables.round_spec(
                    r as int,
                    state_vals(o, input, st0),
                )[q],
            forall|input: Seq<u8>| #[trigger] state_vals(o, input, st1) == tables.shift_spec(state_vals(o, input, st0)),
        decreases 4 - col,
    {
        let ghost s0 = *vm;
        let ghost sta = *state;
        let c = SColumn::from_index(col);
        let xor = if tables.uses_xor {
            Some(tables.xor.partial_map(RI(r), c))
        } else {
            None
        };
        proof {
            assert(tables.xor.0.0[r as int].wf());
        }
        vm_step_column(vm, &tables.tyboxes.0.0[r], xor, col, state);
        let ghost s1 = *vm;
        let ghost stb = *state;
        proof {
            lemma_extends_trans(s1, s0, o);
            assert forall|input: Seq<u8>, q: int| 0 <= q < 16 && q / 4 == col implies #[trigger] val(s1.env(input), stb[q]) == step_spec(
                tables.tyboxes.0.0[r as int],
                if tables.uses_xor {
                    Some(tables.xor.0.0[r as int])
                } else {
                    None
                },
                tables.shift_spec(state_vals(o, input, st0)),
            )[q] by {
                let d1 = tables.shift_spec(state_vals(o, input, st0));
                assert(col_rows(tables.tyboxes.0.0[r as int], state_vals(s0, input, sta), col as int) =~= col_rows(
                    tables.tyboxes.0.0[r as int],
                    d1,
                    col as int,
                )) by {
                    assert forall|k: int| 0 <= k < 4 implies #[trigger] state_vals(s0, input, sta)[4 * col + k] == d1[4 * col + k] by {
                        assert(sta[4 * col + k] == st1[4 * col + k]);
                        assert(val(s0.env(input), st1[4 * col + k]) == val(o.env(input), st1[4 * col + k]));
                        assert(state_vals(o, input, st1)[4 * col + k] == d1[4 * col + k]);
                    }
                }
                assert(q == 4 * col + q % 4);
            }
        }
        if tables.uses_mbl {
            let xor2 = if tables.uses_xor_mbl {
                Some(tables.xor_mbl.partial_map(RI(r), c))
            } else {
                None
            };
            proof {
                assert(tables.xor_mbl.0.0[r as int].wf());
            }
            vm_step_column(vm, &tables.mbl.0.0[r], xor2, col, state);
            proof {
                lemma_extends_trans(*vm, s1, o);
                assert forall|input: Seq<u8>, q: int| 0 <= q < 16 && q / 4 == col implies #[trigger] val(vm.env(input), state[q]) == tables.round_spec(
                    r as int,
                    state_vals(o, input, st0),
                )[q] by {
                    let d1 = tables.shift_spec(state_vals(o, input, st0));
                    let d2 = step_spec(
                        tables.tyboxes.0.0[r as int],
                        if tables.uses_xor {
                            Some(tables.xor.0.0[r as int])
                        } else {
                            None
                        },
                        d1,
                    );
                    assert(col_rows(tables.mbl.0.0[r as int], state_vals(s1, input, stb), col as int) =~= col_rows(
                        tables.mbl.0.0[r as int],
                        d2,
                        col as int,
                    )) by {
                        assert forall|k: int| 0 <= k < 4 implies #[trigger] state_vals(s1, input, stb)[4 * col + k] == d2[4 * col + k] by {
                            assert((4 * col + k) / 4 == col);
                        }
                    }
                    assert(q == 4 * col + q % 4);
                }
            }
        } else {
            proof {
                assert forall|input: Seq<u8>, q: int| 0 <= q < 16 && q / 4 == col implies #[trigger] val(vm.env(input), state[q]) == tables.round_spec(
                    r as int,
                    state_vals(o, input, st0),
                )[q] by {
                    assert(val(s1.env(input), stb[q]) == step_spec(
                        tables.tyboxes.0.0[r as int],
                        if tables.uses_xor {
                            Some(tables.xor.0.0[r as int])
                        } else {
                            None
                        },
                        tables.shift_spec(state_vals(o, input, st0)),
                    )[q]);
                }
            }
        }
        proof {
            lemma_extends_trans(*vm, s0, o);
            assert forall|input: Seq<u8>, q: int| 0 <= q < 16 && q / 4 < col implies #[trigger] val(vm.env(input), state[q]) == tables.round_spec(
                r as int,
                state_vals(o, input, st0),
            )[q] by {
                assert(state[q] == sta[q]);
                assert(val(vm.env(input), sta[q]) == val(s0.env(input), sta[q]));
            }
        }
        col += 1;
    }
    proof {
        assert forall|input: Seq<u8>| #[trigger] state_vals(*vm, input, *state) == tables.round_spec(r as int, state_vals(o, input, st0)) by {
            assert(state_vals(*vm, input, *state) =~= tables.round_spec(r as int, state_vals(o, input, st0)));
        }
    }
}

impl VM {
    /// The program that computes the cipher of `tables`: it loads the input
    /// state, runs every round, the last T-box, and stores the result. For
    /// every input block it stores what the tables' cipher gives.
    pub fn compile<const NRM1: usize>(tables: &Tables<NRM1>) -> (vm: VM)
        requires
            tables.wf(),
            2048 * NRM1 + 64 <= usize::MAX,
        ensures
            vm.wf(),
            vm.memory@.len() <= 320 * NRM1 + 16,
            forall|input: Seq<u8>| input.len() == 16 ==> #[trigger] stored(vm.output(input)) == tables.cipher_spec(input),
    {
        let mut vm = VM::new();
        let mut state = [Local(0); 16];
        let mut i: usize = 0;
        while i < 16
            invariant
                i <= 16,
                vm.wf(),
                vm.locals == i,
                vm.memory@.len() == 0,
                forall|input: Seq<u8>| #[trigger] vm.output(input) == Map::<usize, u8>::empty(),
                forall|p: int| 0 <= p < 16 ==> (#[trigger] state[p]).0 < 16,
                forall|p: int| 0 <= p < i ==> (#[trigger] state[p]).0 < vm.locals,
                forall|input: Seq<u8>, p: int| 0 <= p < i ==> #[trigger] val(vm.env(input), state[p]) == input[p],
            decreases 16 - i,
        {
            let ghost s0 = vm;
            let l = vm.load_state(i);
            assert(vm.memory@.len() == vm.mems().len() && s0.memory@.len() == s0.mems().len());
            let ghost before = state;
            state[i] = l;
            proof {
                assert forall|input: Seq<u8>, p: int| 0 <= p < i + 1 implies #[trigger] val(vm.env(input), state[p]) == input[p] by {
                    if p < i {
                        assert(state[p] == before[p]);
                        assert(val(vm.env(input), before[p]) == val(s0.env(input), before[p]));
                    }
                }
                assert forall|input: Seq<u8>| #[trigger] vm.output(input) == Map::<usize, u8>::empty() by {
                    assert(vm.output(input) == s0.output(input));
                }
            }
            i += 1;
        }
        proof {
            assert forall|input: Seq<u8>| input.len() == 16 implies #[trigger] state_vals(vm, input, state) == tables.rounds_spec(input, 0) by {
                assert(state_vals(vm, input, state) =~= input);
            }
        }
        let tab = if tables.inv {
            inv_shift_rows_tab()
        } else {
            shift_rows_tab()
        };
        let mut r: usize = 0;
        while r < NRM1
            invariant
                r <= NRM1,
                2048 * NRM1 + 64 <= usize::MAX,
                tables.wf(),
                vm.wf(),
                vm.locals <= 16 + 2048 * r,
                vm.memory@.len() <= 320 * r,
                tab.wf(),
                forall|p: nat| p < 16 ==> tab.map_spec(p) == if tables.inv {
                    inv_shift_rows_src(p)
                } else {
                    shift_rows_src(p)
                },
                forall|input: Seq<u8>| #[trigger] vm.output(input) == Map::<usize, u8>::empty(),
                forall|p: int| 0 <= p < 16 ==> (#[trigger] state[p]).0 < vm.locals,
                forall|input: Seq<u8>| input.len() == 16 ==> #[trigger] state_vals(vm, input, state) == tables.rounds_spec(input, r as nat),
            decreases NRM1 - r,
        {
            let ghost s0 = vm;
            let ghost st0 = state;
            vm_round(&mut vm, tables, r, &tab, &mut state);
            proof {
                assert forall|input: Seq<u8>| input.len() == 16 implies #[trigger] state_vals(vm, input, state) == tables.rounds_spec(input, (r + 1) as nat) by {
                    assert(state_vals(vm, input, state) == tables.round_spec(r as int, state_vals(s0, input, st0)));
                }
                assert forall|input: Seq<u8>| #[trigger] vm.output(input) == Map::<usize, u8>::empty() by {
                    assert(vm.output(input) == s0.output(input));
                }
            }
            r += 1;
        }
        let ghost s_rounds = vm;
        let ghost st_rounds = state;
        let mut shifted = [Local(0); 16];
        let mut p: usize = 0;
        while p < 16
            invariant
                p <= 16,
                tab.wf(),
                state == st_rounds,
                forall|q: int| 0 <= q < p ==> #[trigger] shifted[q] == st_rounds[tab.map_spec(q as nat) as int],
            decreases 16 - p,
        {
            shifted[p] = state[tab.map(SPos::from_index(p)).as_index()];
            p += 1;
        }
        let ghost d_shift = shifted;
        let mut finals = [Local(0); 16];
        let mut p: usize = 0;
        while p < 16
            invariant
                p <= 16,
                vm.extends(s_rounds),
                vm.same_output(s_rounds),
                vm.locals <= s_rounds.locals + p,
                s_rounds.locals <= 16 + 2048 * NRM1,
                vm.memory@.len() <= s_rounds.memory@.len() + p,
                s_rounds.memory@.len() <= 320 * NRM1,
                2048 * NRM1 + 64 <= usize::MAX,
                shifted == d_shift,
                forall|q: int| 0 <= q < 16 ==> (#[trigger] d_shift[q]).0 < s_rounds.locals,
                forall|q: int| 0 <= q < p ==> (#[trigger] finals[q]).0 < vm.locals,
                forall|input: Seq<u8>, q: int| 0 <= q < p ==> #[trigger] val(vm.env(input), finals[q]) == tables.tboxes_last.entry(
                    val(s_rounds.env(input), d_shift[q]) as int,
                    q,
                ),
            decreases 16 - p,
        {
            let ghost s0 = vm;
            let mut data: Vec<u8> = Vec::new();
            let mut x: usize = 0;
            while x < 256
                invariant
                    x <= 256,
                    p < 16,
                    data@ == Seq::new(x as nat, |y: int| tables.tboxes_last.entry(y, p as int)),
                decreases 256 - x,
            {
                data.push(tables.tboxes_last.0.0[x].0[p]);
                assert(data@ =~= Seq::new((x + 1) as nat, |y: int| tables.tboxes_last.entry(y, p as int)));
                x += 1;
            }
            let ghost dd = data@;
            let m = vm.alloc_memory(data);
            let ghost s1 = vm;
            assert(vm.memory@.len() == vm.mems().len() && s0.memory@.len() == s0.mems().len());
            let l = vm.select(m, shifted[p]);
            proof {
                assert(vm.memory@.len() == vm.mems().len() && s1.memory@.len() == s1.mems().len());
                lemma_extends_trans(s1, s0, s_rounds);
                lemma_extends_trans(vm, s1, s_rounds);
                lemma_extends_trans(vm, s1, s0);
                assert(s1.mems()[m.0 as int] == dd);
            }
            let ghost before = finals;
            finals[p] = l;
            proof {
                assert forall|input: Seq<u8>, q: int| 0 <= q < p + 1 implies #[trigger] val(vm.env(input), finals[q]) == tables.tboxes_last.entry(
                    val(s_rounds.env(input), d_shift[q]) as int,
                    q,
                ) by {
                    if q < p {
                        assert(finals[q] == before[q]);
                        assert(val(vm.env(input), before[q]) == val(s0.env(input), before[q]));
                    } else {
                        assert(val(s1.env(input), d_shift[q]) == val(s_rounds.env(input), d_shift[q]));
                    }
                }
                assert forall|q: int| 0 <= q < p + 1 implies (#[trigger] finals[q]).0 < vm.locals by {
                    if q < p {
                        assert(finals[q] == before[q]);
                    }
                }
            }
            p += 1;
        }
        let ghost s_final = vm;
        let mut p: usize = 0;
        while p < 16
            invariant
                p <= 16,
                vm.extends(s_final),
                vm.locals == s_final.locals,
                vm.memory@.len() == s_final.memory@.len(),
                forall|q: int| 0 <= q < 16 ==> (#[trigger] finals[q]).0 < s_final.locals,
                forall|input: Seq<u8>| #[trigger] s_final.output(input) == Map::<usize, u8>::empty(),
                forall|input: Seq<u8>| #[trigger] vm.output(input).dom() =~= Set::new(|k: usize| k < p),
                forall|input: Seq<u8>, q: int| 0 <= q < p ==> #[trigger] vm.output(input)[q as usize] == val(s_final.env(input), finals[q]),
            decreases 16 - p,
        {
            let ghost s0 = vm;
            assert forall|input: Seq<u8>| !(#[trigger] vm.output(input)).dom().contains(p) by {
                assert(vm.output(input).dom() =~= Set::new(|k: usize| k < p));
            }
            vm.store_state(finals[p], p);
            proof {
                assert(vm.memory@.len() == vm.mems().len() && s0.memory@.len() == s0.mems().len());
                lemma_extends_trans(vm, s0, s_final);
                assert forall|input: Seq<u8>| #[trigger] vm.output(input).dom() =~= Set::new(|k: usize| k < p + 1) by {
                    assert(vm.output(input) == s0.output(input).insert(p, val(s0.env(input), finals[p as int])));
                }
                assert forall|input: Seq<u8>, q: int| 0 <= q < p + 1 implies #[trigger] vm.output(input)[q as usize] == val(s_final.env(input), finals[q]) by {
                    assert(vm.output(input) == s0.output(input).insert(p, val(s0.env(input), finals[p as int])));
                    assert(val(s0.env(input), finals[p as int]) == val(s_final.env(input), finals[p as int]));
                }
            }
            p += 1;
        }
        proof {
            assert forall|input: Seq<u8>| input.len() == 16 implies #[trigger] stored(vm.output(input)) == tables.cipher_spec(input) by {
                let d = tables.rounds_spec(input, NRM1 as nat);
                assert(state_vals(s_rounds, input, st_rounds) == d);
                assert forall|q: int| 0 <= q < 16 implies #[trigger] stored(vm.output(input))[q] == tables.cipher_spec(input)[q] by {
                    assert(vm.output(input).dom().contains(q as usize));
                    assert(val(s_final.env(input), finals[q]) == tables.tboxes_last.entry(val(s_rounds.env(input), d_shift[q]) as int, q));
                    assert(val(s_rounds.env(input), d_shift[q]) == tables.shift_spec(d)[q]);
                }
                assert(stored(vm.output(input)) =~= tables.cipher_spec(input));
            }
        }
        vm
    }
}

/// An instruction with the locals it reads and the locals it assigns.
pub struct OpData {
    pub uses: Vec<Local>,
    pub provides: Vec<Local>,
    pub op: Op,
}

/// The locals that the instruction assigns, as a sequence.
pub open spec fn op_provides(op: Op) -> Seq<Local> {
    match op_defines(op) {
        Some(l) => seq![l],
        None => seq![],
    }
}

impl Op {
    /// The instruction with the locals it reads and assigns.
    pub fn into_data(self) -> (r: OpData)
        ensures
            r.op == self,
            r.uses@ == op_uses(self),
            r.provides@ == op_provides(self),
    {
        let r = match self {
            Op::LoadState { idx: _, to } => OpData { uses: vec![], provides: vec![to], op: self },
            Op::StoreState { from, to_idx: _ } => OpData { uses: vec![from], provides: vec![], op: self },
            Op::Select { mem: _, idx, to } => OpData { uses: vec![idx], provides: vec![to], op: self },
            Op::ConcatNimbles { high, low, to } => OpData { uses: vec![high, low], provides: vec![to], op: self },
            Op::Nibble { from, nib: _, to } => OpData { uses: vec![from], provides: vec![to], op: self },
            Op::NibbleDyn { from, nib, to } => OpData { uses: vec![from, nib], provides: vec![to], op: self },
            Op::Div2 { from, to } => OpData { uses: vec![from], provides: vec![to], op: self },
            Op::Mod2 { from, to } => OpData { uses: vec![from], provides: vec![to], op: self },
            Op::Xor4 { a, b, c, d, to } => OpData { uses: vec![a, b, c, d], provides: vec![to], op: self },
        };
        assert(r.uses@ =~= op_uses(self));
        assert(r.provides@ =~= op_provides(self));
        r
    }
}

/// The total length of the first `n` tables.
pub open spec fn memory_offset(memory: Seq<Memory>, n: nat) -> nat
    decreases n,
{
    if n == 0 {
        0
    } else {
        memory_offset(memory, (n - 1) as nat) + memory[n - 1].data@.len()
    }
}

/// Tables of at most 256 bytes each take at most 256 bytes apiece.
proof fn lemma_memory_offset_bound(memory: Seq<Memory>, n: nat)
    requires
        n <= memory.len(),
        forall|i: int| 0 <= i < memory.len() ==> (#[trigger] memory[i]).data@.len() <= 256,
    ensures
        memory_offset(memory, n) <= 256 * n,
    decreases n,
{
    if n > 0 {
        lemma_memory_offset_bound(memory, (n - 1) as nat);
        assert(memory[n - 1].data@.len() <= 256);
    }
}

/// The offsets only grow.
pub(crate) proof fn lemma_memory_offset_mono(memory: Seq<Memory>, a: nat, b: nat)
    requires
        a <= b,
    ensures
        memory_offset(memory, a) <= memory_offset(memory, b),
    decreases b,
{
    if a < b {
        lemma_memory_offset_mono(memory, a, (b - 1) as nat);
    }
}

impl VM {
    /// Lays the tables out one after the other, in a random order unless
    /// `no_reorder` is set: each table's offset is the total length of the
    /// tables before it.
    pub fn finalize_memory(&mut self, no_reorder: bool, rng: &mut rand::rngs::ThreadRng)
        requires
            memory_offset(old(self).memory@, old(self).memory@.len()) <= usize::MAX,
        ensures
            final(self).locals == old(self).locals,
            final(self).memory_id == old(self).memory_id,
            final(self).ops@ == old(self).ops@,
            final(self).memory@.len() == old(self).memory@.len(),
            no_reorder ==> forall|i: int| 0 <= i < old(self).memory@.len() ==> (#[trigger] final(self).memory@[i]).id == old(self).memory@[i].id
                && final(self).memory@[i].data@ == old(self).memory@[i].data@,
            forall|j: int| 0 <= j < old(self).memory@.len() ==> has_table(final(self).memory@, (#[trigger] old(self).memory@[j]).id, old(self).memory@[j].data@),
            forall|i: int| 0 <= i < final(self).memory@.len() ==> has_table(old(self).memory@, (#[trigger] final(self).memory@[i]).id, final(self).memory@[i].data@),
            forall|i: int| 0 <= i < final(self).memory@.len() ==> (#[trigger] final(self).memory@[i]).cont_offset == memory_offset(
                final(self).memory@,
                i as nat,
            ),
    {
        let ghost m0 = self.memory@;
        if !no_reorder {
            crate::random::shuffle_vec(&mut self.memory, rng);
            proof {
                broadcast use vstd::seq_lib::group_to_multiset_ensures;
                assert forall|j: int| 0 <= j < m0.len() implies has_table(self.memory@, (#[trigger] m0[j]).id, m0[j].data@) by {
                    assert(m0.contains(m0[j]));
                    assert(self.memory@.to_multiset().count(m0[j]) > 0);
                    assert(self.memory@.contains(m0[j]));
                    let i = choose|i: int| 0 <= i < self.memory@.len() && self.memory@[i] == m0[j];
                    assert(self.memory@[i].id == m0[j].id);
                }
                assert forall|i: int| 0 <= i < self.memory@.len() implies has_table(m0, (#[trigger] self.memory@[i]).id, self.memory@[i].data@) by {
                    assert(self.memory@.contains(self.memory@[i]));
                    assert(m0.to_multiset().count(self.memory@[i]) > 0);
                    assert(m0.contains(self.memory@[i]));
                    let j = choose|j: int| 0 <= j < m0.len() && m0[j] == self.memory@[i];
                    assert(m0[j].id == self.memory@[i].id);
                }
                assert(self.memory@.len() == self.memory@.to_multiset().len());
                assert(m0.len() == m0.to_multiset().len());
                assert(self.memory@.len() == m0.len());
                lemma_offset_perm(self.memory@, m0);
            }
        } else {
            proof {
                assert forall|j: int| 0 <= j < m0.len() implies has_table(self.memory@, (#[trigger] m0[j]).id, m0[j].data@) by {
                    assert(self.memory@[j] == m0[j]);
                }
                assert forall|i: int| 0 <= i < self.memory@.len() implies has_table(m0, (#[trigger] self.memory@[i]).id, self.memory@[i].data@) by {
                    assert(self.memory@[i] == m0[i]);
                }
            }
        }
        let ghost m1 = self.memory@;
        let mut src: Vec<Memory> = Vec::new();
        std::mem::swap(&mut src, &mut self.memory);
        let mut reversed: Vec<Memory> = Vec::new();
        while src.len() > 0
            invariant
                src@.len() + reversed@.len() == m1.len(),
                src@ == m1.subrange(0, src@.len() as int),
                forall|k: int| 0 <= k < reversed@.len() ==> #[trigger] reversed@[k] == m1[m1.len() - 1 - k],
            decreases src@.len(),
        {
            let m = src.pop().unwrap();
            reversed.push(m);
        }
        let mut out: Vec<Memory> = Vec::new();
        let mut off: usize = 0;
        while reversed.len() > 0
            invariant
                out@.len() + reversed@.len() == m1.len(),
                m1 == m1,
                memory_offset(m1, m1.len()) <= usize::MAX,
                forall|k: int| 0 <= k < reversed@.len() ==> #[trigger] reversed@[k] == m1[m1.len() - 1 - k],
                forall|k: int| 0 <= k < out@.len() ==> (#[trigger] out@[k]).id == m1[k].id && out@[k].data@ == m1[k].data@,
                forall|k: int| 0 <= k < out@.len() ==> (#[trigger] out@[k]).cont_offset == memory_offset(m1, k as nat),
                off == memory_offset(m1, out@.len() as nat),
            decreases reversed@.len(),
        {
            let ghost k = out@.len();
            let m = reversed.pop().unwrap();
            assert(m == m1[k as int]);
            proof {
                lemma_memory_offset_mono(m1, (k + 1) as nat, m1.len());
            }
            let len = m.data.len();
            out.push(Memory { id: m.id, data: m.data, cont_offset: off });
            off = off + len;
        }
        self.memory = out;
        proof {
            assert forall|a: nat| a <= m1.len() implies #[trigger] memory_offset(self.memory@, a) == memory_offset(m1, a) by {
                lemma_memory_offset_same(self.memory@, m1, a);
            }
            assert forall|j: int| 0 <= j < m0.len() implies has_table(self.memory@, (#[trigger] m0[j]).id, m0[j].data@) by {
                assert(has_table(m1, m0[j].id, m0[j].data@));
                let i = choose|i: int| 0 <= i < m1.len() && m1[i].id == m0[j].id && m1[i].data@ == m0[j].data@;
                assert(self.memory@[i].id == m1[i].id);
            }
            assert forall|i: int| 0 <= i < self.memory@.len() implies has_table(m0, (#[trigger] self.memory@[i]).id, self.memory@[i].data@) by {
                assert(has_table(m0, m1[i].id, m1[i].data@));
            }
            if no_reorder {
                assert(m1 == m0);
            }
        }
    }
}

/// Some table has the id `id` and the bytes `data`.
pub open spec fn has_table(memory: Seq<Memory>, id: MemoryId, data: Seq<u8>) -> bool {
    exists|i: int| 0 <= i < memory.len() && memory[i].id == id && memory[i].data@ == data
}

/// Offsets depend on the lengths of the tables alone.
proof fn lemma_memory_offset_same(a: Seq<Memory>, b: Seq<Memory>, n: nat)
    requires
        n <= a.len(),
        n <= b.len(),
        forall|k: int| 0 <= k < n ==> (#[trigger] a[k]).data@ == b[k].data@,
    ensures
        memory_offset(a, n) == memory_offset(b, n),
    decreases n,
{
    if n > 0 {
        lemma_memory_offset_same(a, b, (n - 1) as nat);
    }
}

/// Removing a table takes its length off the total.
proof fn lemma_offset_remove(s: Seq<Memory>, i: int)
    requires
        0 <= i < s.len(),
    ensures
        memory_offset(s, s.len()) == memory_offset(s.remove(i), (s.len() - 1) as nat) + s[i].data@.len(),
    decreases s.len(),
{
    let n = s.len();
    let init = s.drop_last();
    lemma_memory_offset_same(s, init, (n - 1) as nat);
    if i == n - 1 {
        assert(s.remove(i) =~= init);
    } else {
        lemma_offset_remove(init, i);
        let r = s.remove(i);
        assert(r =~= init.remove(i).push(s.last()));
        lemma_memory_offset_same(r, init.remove(i), (n - 2) as nat);
    }
}

/// The total length of the tables does not depend on their order.
proof fn lemma_offset_perm(a: Seq<Memory>, b: Seq<Memory>)
    requires
        a.to_multiset() == b.to_multiset(),
    ensures
        memory_offset(a, a.len()) == memory_offset(b, b.len()),
    decreases a.len(),
{
    broadcast use vstd::seq_lib::group_to_multiset_ensures;
    broadcast use vstd::multiset::group_multiset_axioms;
    assert(a.len() == a.to_multiset().len());
    assert(b.len() == b.to_multiset().len());
    if a.len() > 0 {
        let x = a.last();
        assert(a.contains(x));
        assert(b.to_multiset().count(x) > 0);
        assert(b.contains(x));
        let i = choose|i: int| 0 <= i < b.len() && b[i] == x;
        let a2 = a.drop_last();
        let b2 = b.remove(i);
        assert(a2.to_multiset() =~= a.to_multiset().remove(x)) by {
            assert(a =~= a2.push(x));
        }
        assert(b2.to_multiset() == b.to_multiset().remove(x));
        lemma_offset_perm(a2, b2);
        lemma_offset_remove(b, i);
        lemma_memory_offset_same(a, a2, (a.len() - 1) as nat);
    }
}

/// Some instruction before position `k` assigns `l`.
pub open spec fn defined_before(ops: Seq<Op>, k: int, l: Local) -> bool {
    exists|j: int| 0 <= j < k && #[trigger] op_defines(ops[j]) == Some(l)
}

/// The table read of instruction `k`, if any, stays inside its table when
/// the program runs on `input`.
pub open spec fn read_ok(ops: Seq<Op>, mems: Seq<Seq<u8>>, k: int, input: Seq<u8>) -> bool {
    match ops[k] {
        Op::Select { mem, idx, .. } => 0 <= mem.0 < mems.len() && (val(run(ops.take(k), mems, input).0, idx) as int) < mems[mem.0 as int].len(),
        _ => true,
    }
}

/// Every table read stays inside its table, for every input.
pub open spec fn reads_in_range(ops: Seq<Op>, mems: Seq<Seq<u8>>) -> bool {
    forall|k: int, input: Seq<u8>| 0 <= k < ops.len() ==> #[trigger] read_ok(ops, mems, k, input)
}

/// A table read by `op` after `ops` stays inside its table.
pub open spec fn next_read_ok(op: Op, ops: Seq<Op>, mems: Seq<Seq<u8>>) -> bool {
    match op {
        Op::Select { mem, idx, .. } => 0 <= mem.0 < mems.len() && forall|input: Seq<u8>|
            (val(#[trigger] run(ops, mems, input).0, idx) as int) < mems[mem.0 as int].len(),
        _ => true,
    }
}

/// The state byte that the instruction stores, if any.
pub open spec fn op_store(op: Op) -> Option<usize> {
    match op {
        Op::StoreState { to_idx, .. } => Some(to_idx),
        _ => None,
    }
}

/// No two instructions store the same state byte.
pub open spec fn stores_distinct(ops: Seq<Op>) -> bool {
    forall|a: int, b: int|
        0 <= a < ops.len() && 0 <= b < ops.len() && a != b && op_store(ops[a]) is Some ==> #[trigger] op_store(ops[a]) != #[trigger] op_store(ops[b])
}

/// A stored byte stays in the output.
pub proof fn lemma_store_in_output(ops: Seq<Op>, mems: Seq<Seq<u8>>, input: Seq<u8>, k: int)
    requires
        0 <= k < ops.len(),
        op_store(ops[k]) is Some,
    ensures
        run(ops, mems, input).1.dom().contains(op_store(ops[k])->0),
    decreases ops.len(),
{
    if k < ops.len() - 1 {
        assert(ops.drop_last()[k] == ops[k]);
        lemma_store_in_output(ops.drop_last(), mems, input, k);
    }
}

/// No two instructions assign the same local.
pub open spec fn single_assignment(ops: Seq<Op>) -> bool {
    forall|a: int, b: int|
        0 <= a < ops.len() && 0 <= b < ops.len() && a != b && op_defines(ops[a]) is Some ==> #[trigger] op_defines(ops[a]) != #[trigger] op_defines(ops[b])
}

/// Every local that an instruction reads is assigned by an earlier one.
pub open spec fn ordered(ops: Seq<Op>) -> bool {
    forall|k: int, u: int| 0 <= k < ops.len() && 0 <= u < op_uses(ops[k]).len() ==> defined_before(ops, k, #[trigger] op_uses(ops[k])[u])
}

/// `out` holds the instructions of `ops`, each once, in the order `perm`.
pub open spec fn reorders(out: Seq<Op>, ops: Seq<Op>, perm: Seq<int>) -> bool {
    &&& perm.len() == out.len()
    &&& out.len() == ops.len()
    &&& perm.no_duplicates()
    &&& forall|k: int| 0 <= k < perm.len() ==> 0 <= #[trigger] perm[k] < ops.len() && out[k] == ops[perm[k]]
}

/// Position `k` holds the least element of `s`.
pub open spec fn is_min_at(s: Seq<usize>, k: int) -> bool {
    0 <= k < s.len() && forall|k2: int| 0 <= k2 < s.len() ==> s[k] <= #[trigger] s[k2]
}

/// A nonempty sequence has a least element.
proof fn lemma_seq_min(s: Seq<usize>)
    requires
        s.len() > 0,
    ensures
        exists|k: int| #[trigger] is_min_at(s, k),
    decreases s.len(),
{
    if s.len() == 1 {
        assert(is_min_at(s, 0));
    } else {
        let init = s.drop_last();
        lemma_seq_min(init);
        let k = choose|k: int| #[trigger] is_min_at(init, k);
        if s.last() < init[k] {
            assert forall|k2: int| 0 <= k2 < s.len() implies s[s.len() - 1] <= #[trigger] s[k2] by {
                if k2 < s.len() - 1 {
                    assert(init[k2] == s[k2]);
                }
            }
            assert(is_min_at(s, s.len() - 1));
        } else {
            assert forall|k2: int| 0 <= k2 < s.len() implies s[k] <= #[trigger] s[k2] by {
                if k2 < s.len() - 1 {
                    assert(init[k2] == s[k2]);
                }
            }
            assert(is_min_at(s, k));
        }
    }
}

/// Some local that instruction `i` reads is not provided.
pub open spec fn blocked(ops: Seq<Op>, provided: Seq<bool>, i: usize) -> bool {
    exists|u: int| 0 <= u < op_uses(ops[i as int]).len() && !provided[op_uses(ops[i as int])[u].0 as int]
}

/// Whether every local in `uses` is provided.
fn all_provided(uses: &Vec<Local>, provided: &Vec<bool>) -> (r: bool)
    requires
        forall|u: int| 0 <= u < uses@.len() ==> (#[trigger] uses@[u]).0 < provided@.len(),
    ensures
        r <==> forall|u: int| 0 <= u < uses@.len() ==> #[trigger] provided@[uses@[u].0 as int],
{
    let mut i: usize = 0;
    while i < uses.len()
        invariant
            i <= uses@.len(),
            forall|u: int| 0 <= u < uses@.len() ==> (#[trigger] uses@[u]).0 < provided@.len(),
            forall|u: int| 0 <= u < i ==> #[trigger] provided@[uses@[u].0 as int],
        decreases uses@.len() - i,
    {
        if !provided[uses[i].0] {
            return false;
        }
        i += 1;
    }
    true
}

/// Orders the instructions so that each comes after the ones that assign
/// what it reads, in a random order unless `no_reorder` is set: rounds over
/// the pending instructions take every one whose operands are assigned.
pub fn schedule(ops: &Vec<Op>, locals: usize, no_reorder: bool, rng: &mut rand::rngs::ThreadRng) -> (out: Vec<Op>)
    requires
        ordered(ops@),
        forall|k: int| 0 <= k < ops@.len() ==> op_locals_below(#[trigger] ops@[k], locals as nat),
    ensures
        ordered(out@),
        exists|perm: Seq<int>| reorders(out@, ops@, perm),
{
    let n = ops.len();
    let mut pending: Vec<usize> = Vec::new();
    let mut i: usize = 0;
    while i < n
        invariant
            i <= n,
            n == ops@.len(),
            pending@ == Seq::new(i as nat, |k: int| k as usize),
        decreases n - i,
    {
        pending.push(i);
        assert(pending@ =~= Seq::new((i + 1) as nat, |k: int| k as usize));
        i += 1;
    }
    proof {
        assert(pending@.no_duplicates());
        assert forall|j: int| 0 <= j < n implies #[trigger] pending@.contains(j as usize) by {
            assert(pending@[j] == j as usize);
        }
    }
    if !no_reorder {
        let ghost p0 = pending@;
        crate::random::shuffle_vec(&mut pending, rng);
        proof {
            broadcast use vstd::seq_lib::group_to_multiset_ensures;
            assert(pending@.len() == pending@.to_multiset().len());
            assert(p0.len() == p0.to_multiset().len());
            p0.lemma_multiset_has_no_duplicates();
            assert forall|x: usize| pending@.to_multiset().contains(x) implies pending@.to_multiset().count(x) == 1 by {
                assert(p0.to_multiset().contains(x));
            }
            pending@.lemma_multiset_has_no_duplicates_conv();
            assert forall|j: int| 0 <= j < n implies #[trigger] pending@.contains(j as usize) by {
                assert(p0.contains(j as usize));
                assert(p0.to_multiset().count(j as usize) > 0);
            }
            assert forall|k: int| 0 <= k < pending@.len() implies #[trigger] pending@[k] < n by {
                assert(pending@.contains(pending@[k]));
                assert(p0.to_multiset().count(pending@[k]) > 0);
                assert(p0.contains(pending@[k]));
            }
        }
    }
    let mut provided: Vec<bool> = Vec::new();
    let mut l: usize = 0;
    while l < locals
        invariant
            l <= locals,
            provided@ == Seq::new(l as nat, |k: int| false),
        decreases locals - l,
    {
        provided.push(false);
        assert(provided@ =~= Seq::new((l + 1) as nat, |k: int| false));
        l += 1;
    }
    let mut out: Vec<Op> = Vec::new();
    let ghost mut out_idx: Seq<int> = Seq::empty();
    while pending.len() > 0
        invariant
            n == ops@.len(),
            ordered(ops@),
            forall|k: int| 0 <= k < ops@.len() ==> op_locals_below(#[trigger] ops@[k], locals as nat),
            provided@.len() == locals,
            pending@.no_duplicates(),
            forall|k: int| 0 <= k < pending@.len() ==> #[trigger] pending@[k] < n,
            out_idx.len() == out@.len(),
            out_idx.no_duplicates(),
            forall|k: int| 0 <= k < out_idx.len() ==> 0 <= #[trigger] out_idx[k] < n && out@[k] == ops@[out_idx[k]],
            forall|k: int| 0 <= k < pending@.len() ==> !out_idx.contains(#[trigger] pending@[k] as int),
            forall|j: int| 0 <= j < n ==> pending@.contains(j as usize) || #[trigger] out_idx.contains(j),
            forall|v: int| 0 <= v < locals ==> (#[trigger] provided@[v] <==> exists|k: int|
                0 <= k < out@.len() && op_defines(out@[k]) == Some(Local(v as usize))),
            ordered(out@),
        decreases pending@.len(),
    {
        let ghost pend0 = pending@;
        let ghost prov0 = provided@;
        let mut new_pending: Vec<usize> = Vec::new();
        let mut added: usize = 0;
        let mut k: usize = 0;
        while k < pending.len()
            invariant
                pending@ == pend0,
                k <= pend0.len(),
                n == ops@.len(),
                forall|q: int| 0 <= q < ops@.len() ==> op_locals_below(#[trigger] ops@[q], locals as nat),
                provided@.len() == locals,
                pend0.no_duplicates(),
                forall|q: int| 0 <= q < pend0.len() ==> #[trigger] pend0[q] < n,
                added <= k,
                added == 0 ==> provided@ == prov0,
                added == 0 ==> new_pending@ == pend0.subrange(0, k as int),
                new_pending@.len() + added == k,
                new_pending@.no_duplicates(),
                forall|q: int| 0 <= q < new_pending@.len() ==> pend0.subrange(0, k as int).contains(#[trigger] new_pending@[q]),
                forall|q: int| 0 <= q < new_pending@.len() ==> #[trigger] new_pending@[q] < n,
                added == 0 ==> forall|q: int| 0 <= q < new_pending@.len() ==> blocked(ops@, prov0, #[trigger] new_pending@[q]),
                out_idx.len() == out@.len(),
                out_idx.no_duplicates(),
                forall|q: int| 0 <= q < out_idx.len() ==> 0 <= #[trigger] out_idx[q] < n && out@[q] == ops@[out_idx[q]],
                forall|q: int| k <= q < pend0.len() ==> !out_idx.contains(#[trigger] pend0[q] as int),
                forall|q: int| 0 <= q < new_pending@.len() ==> !out_idx.contains(#[trigger] new_pending@[q] as int),
                forall|j: int| 0 <= j < n ==> pend0.contains(j as usize) || #[trigger] out_idx.contains(j),
                forall|q: int| 0 <= q < k ==> new_pending@.contains(#[trigger] pend0[q]) || out_idx.contains(pend0[q] as int),
                forall|v: int| 0 <= v < locals ==> (#[trigger] provided@[v] <==> exists|q: int|
                    0 <= q < out@.len() && op_defines(out@[q]) == Some(Local(v as usize))),
                ordered(out@),
            decreases pend0.len() - k,
        {
            let idx = pending[k];
            let op = ops[idx];
            let data = op.into_data();
            let ghost oi0 = out_idx;
            let ghost np0 = new_pending@;
            proof {
                assert(op_locals_below(ops@[idx as int], locals as nat));
            }
            if all_provided(&data.uses, &provided) {
                let ghost out_before = out@;
                let ghost prov_before = provided@;
                out.push(op);
                proof {
                    out_idx = out_idx.push(idx as int);
                }
                let mut t: usize = 0;
                while t < data.provides.len()
                    invariant
                        t <= data.provides@.len(),
                        data.provides@ == op_provides(op),
                        out@ == out_before.push(op),
                        provided@.len() == locals,
                        op_locals_below(op, locals as nat),
                        forall|v: int| 0 <= v < locals ==> (#[trigger] provided@[v] <==> (prov_before[v] || exists|q: int|
                            0 <= q < t && data.provides@[q] == Local(v as usize))),
                    decreases data.provides@.len() - t,
                {
                    let pl = data.provides[t].0;
                    proof {
                        assert(op_defines(op) == Some(data.provides@[t as int]));
                    }
                    provided.set(pl, true);
                    t += 1;
                }
                proof {
                    assert forall|v: int| 0 <= v < locals implies (#[trigger] provided@[v] <==> exists|q: int|
                        0 <= q < out@.len() && op_defines(out@[q]) == Some(Local(v as usize))) by {
                        if provided@[v] {
                            if prov_before[v] {
                                let q = choose|q: int| 0 <= q < out_before.len() && op_defines(out_before[q]) == Some(Local(v as usize));
                                assert(out@[q] == out_before[q]);
                            } else {
                                let q = choose|q: int| 0 <= q < data.provides@.len() && data.provides@[q] == Local(v as usize);
                                assert(op_defines(out@[out_before.len() as int]) == Some(Local(v as usize)));
                            }
                        }
                        if exists|q: int| 0 <= q < out@.len() && op_defines(out@[q]) == Some(Local(v as usize)) {
                            let q = choose|q: int| 0 <= q < out@.len() && op_defines(out@[q]) == Some(Local(v as usize));
                            if q < out_before.len() {
                                assert(out_before[q] == out@[q]);
                            } else {
                                assert(data.provides@[0] == Local(v as usize));
                            }
                        }
                    }
                    assert forall|kk: int, u: int|
                        0 <= kk < out@.len() && 0 <= u < op_uses(out@[kk]).len() implies defined_before(out@, kk, #[trigger] op_uses(out@[kk])[u]) by {
                        if kk < out_before.len() {
                            assert(out@[kk] == out_before[kk]);
                            assert(defined_before(out_before, kk, op_uses(out_before[kk])[u]));
                            let j = choose|j: int| 0 <= j < kk && #[trigger] op_defines(out_before[j]) == Some(op_uses(out_before[kk])[u]);
                            assert(out@[j] == out_before[j]);
                        } else {
                            let ul = op_uses(op)[u];
                            assert(data.uses@[u] == ul);
                            assert(prov_before[ul.0 as int]);
                            assert(ul.0 < locals);
                            let q = choose|q: int| 0 <= q < out_before.len() && op_defines(out_before[q]) == Some(Local(ul.0 as usize));
                            assert(out@[q] == out_before[q]);
                            assert(Local(ul.0 as usize) == ul);
                        }
                    }
                    assert(out_idx.no_duplicates()) by {
                        assert(!out_idx.drop_last().contains(idx as int));
                        assert forall|a: int, b: int| 0 <= a < b < out_idx.len() implies out_idx[a] != out_idx[b] by {
                            if b == out_idx.len() - 1 {
                                assert(out_idx.drop_last()[a] == out_idx[a]);
                            } else {
                                assert(out_idx.drop_last()[a] == out_idx[a]);
                                assert(out_idx.drop_last()[b] == out_idx[b]);
                            }
                        }
                    }
                }
                added += 1;
            } else {
                let ghost np_before = new_pending@;
                new_pending.push(idx);
                proof {
                    assert(!np_before.contains(idx)) by {
                        if np_before.contains(idx) {
                            let q = choose|q: int| 0 <= q < np_before.len() && np_before[q] == idx;
                            assert(pend0.subrange(0, k as int).contains(idx));
                            let q2 = choose|q2: int| 0 <= q2 < k && pend0.subrange(0, k as int)[q2] == idx;
                            assert(pend0[q2] == pend0[k as int]);
                        }
                    }
                    if added == 0 {
                        let u = choose|u: int| 0 <= u < data.uses@.len() && !provided@[data.uses@[u].0 as int];
                        assert(op_uses(ops@[idx as int])[u] == data.uses@[u]);
                        assert(blocked(ops@, prov0, idx));
                        assert forall|q: int| 0 <= q < new_pending@.len() implies blocked(ops@, prov0, #[trigger] new_pending@[q]) by {
                            if q < np_before.len() {
                                assert(new_pending@[q] == np_before[q]);
                            }
                        }
                    }
                }
            }
            proof {
                assert forall|q: int| 0 <= q < new_pending@.len() implies pend0.subrange(0, k + 1).contains(#[trigger] new_pending@[q]) by {
                    if q < new_pending@.len() - 1 || !(new_pending@[q] == idx) {
                        if pend0.subrange(0, k as int).contains(new_pending@[q]) {
                            let q2 = choose|q2: int| 0 <= q2 < k && pend0.subrange(0, k as int)[q2] == new_pending@[q];
                            assert(pend0.subrange(0, k + 1)[q2] == new_pending@[q]);
                        }
                    } else {
                        assert(pend0.subrange(0, k + 1)[k as int] == idx);
                    }
                }
                if added == 0 {
                    assert(new_pending@ =~= pend0.subrange(0, k + 1));
                }
                assert forall|j: int| 0 <= j < n implies pend0.contains(j as usize) || #[trigger] out_idx.contains(j) by {
                    if oi0.contains(j) {
                        let q = choose|q: int| 0 <= q < oi0.len() && oi0[q] == j;
                        assert(out_idx[q] == j);
                    }
                }
                assert forall|q: int| 0 <= q < k + 1 implies new_pending@.contains(#[trigger] pend0[q]) || out_idx.contains(pend0[q] as int) by {
                    if q < k {
                        if np0.contains(pend0[q]) {
                            let q2 = choose|q2: int| 0 <= q2 < np0.len() && np0[q2] == pend0[q];
                            assert(new_pending@[q2] == pend0[q]);
                        } else {
                            assert(oi0.contains(pend0[q] as int));
                            let q2 = choose|q2: int| 0 <= q2 < oi0.len() && oi0[q2] == pend0[q] as int;
                            assert(out_idx[q2] == pend0[q] as int);
                        }
                    } else {
                        if new_pending@.len() > np0.len() {
                            assert(new_pending@[new_pending@.len() - 1] == idx);
                        } else {
                            assert(out_idx[out_idx.len() - 1] == idx as int);
                        }
                    }
                }
            }
            k += 1;
        }
        proof {
            if added == 0 {
                assert(new_pending@ =~= pend0);
                lemma_seq_min(pend0);
                let m = choose|m: int| #[trigger] is_min_at(pend0, m);
                let mi = pend0[m] as int;
                assert(blocked(ops@, prov0, new_pending@[m]));
                let u = choose|u: int| 0 <= u < op_uses(ops@[pend0[m] as int]).len() && !prov0[op_uses(ops@[pend0[m] as int])[u].0 as int];
                let ul = op_uses(ops@[mi])[u];
                assert(defined_before(ops@, mi, ul));
                let j = choose|j: int| 0 <= j < mi && #[trigger] op_defines(ops@[j]) == Some(ul);
                assert(!pend0.contains(j as usize)) by {
                    if pend0.contains(j as usize) {
                        let q = choose|q: int| 0 <= q < pend0.len() && pend0[q] == j as usize;
                        assert(pend0[m] <= pend0[q]);
                    }
                }
                assert(out_idx.contains(j));
                let q = choose|q: int| 0 <= q < out_idx.len() && out_idx[q] == j;
                assert(out@[q] == ops@[j]);
                assert(op_locals_below(ops@[mi], locals as nat));
                assert(ul.0 < locals);
                assert(Local(ul.0 as usize) == ul);
                assert(prov0[ul.0 as int]);
                assert(false);
            }
            assert forall|j: int| 0 <= j < n implies new_pending@.contains(j as usize) || #[trigger] out_idx.contains(j) by {
                if pend0.contains(j as usize) {
                    let q = choose|q: int| 0 <= q < pend0.len() && pend0[q] == j as usize;
                    assert(new_pending@.contains(pend0[q]) || out_idx.contains(pend0[q] as int));
                }
            }
        }
        pending = new_pending;
    }
    proof {
        assert forall|j: int| 0 <= j < n implies #[trigger] out_idx.contains(j) by {
            assert(!pending@.contains(j as usize));
        }
        assert(out_idx.len() == n) by {
            lemma_perm_len(out_idx, n as int);
        }
        assert(reorders(out@, ops@, out_idx));
    }
    out
}

/// A sequence of distinct integers in `0 .. n` that holds all of them has
/// length `n`.
proof fn lemma_perm_len(s: Seq<int>, n: int)
    requires
        0 <= n,
        s.no_duplicates(),
        forall|k: int| 0 <= k < s.len() ==> 0 <= #[trigger] s[k] < n,
        forall|j: int| 0 <= j < n ==> #[trigger] s.contains(j),
    ensures
        s.len() == n,
{
    let full = Set::new(|j: int| 0 <= j < n);
    assert(s.to_set() =~= full) by {
        assert forall|j: int| full.contains(j) implies s.to_set().contains(j) by {
            assert(s.contains(j));
        }
    }
    s.unique_seq_to_set();
    vstd::set_lib::lemma_int_range(0, n);
    assert(full =~= vstd::set_lib::set_int_range(0, n));
}

/// The last instruction among the first `n` that reads `l`.
pub open spec fn last_use(ops: Seq<Op>, l: Local, n: nat) -> Option<int>
    decreases n,
{
    if n == 0 {
        None
    } else if op_uses(ops[n - 1]).contains(l) {
        Some(n - 1)
    } else {
        last_use(ops, l, (n - 1) as nat)
    }
}

/// For every local, the last instruction that reads it, if any.
pub fn last_uses(ops: &Vec<Op>, locals: usize) -> (r: Vec<Option<usize>>)
    requires
        forall|k: int| 0 <= k < ops@.len() ==> op_locals_below(#[trigger] ops@[k], locals as nat),
    ensures
        r@.len() == locals,
        forall|l: int| 0 <= l < locals ==> match #[trigger] r@[l] {
            Some(i) => last_use(ops@, Local(l as usize), ops@.len()) == Some(i as int),
            None => last_use(ops@, Local(l as usize), ops@.len()) is None,
        },
{
    let mut r: Vec<Option<usize>> = Vec::new();
    let mut l: usize = 0;
    while l < locals
        invariant
            l <= locals,
            r@ == Seq::new(l as nat, |k: int| None::<usize>),
        decreases locals - l,
    {
        r.push(None);
        assert(r@ =~= Seq::new((l + 1) as nat, |k: int| None::<usize>));
        l += 1;
    }
    let mut insn: usize = 0;
    while insn < ops.len()
        invariant
            insn <= ops@.len(),
            r@.len() == locals,
            forall|k: int| 0 <= k < ops@.len() ==> op_locals_below(#[trigger] ops@[k], locals as nat),
            forall|l2: int| 0 <= l2 < locals ==> match #[trigger] r@[l2] {
                Some(i) => last_use(ops@, Local(l2 as usize), insn as nat) == Some(i as int),
                None => last_use(ops@, Local(l2 as usize), insn as nat) is None,
            },
        decreases ops@.len() - insn,
    {
        let data = ops[insn].into_data();
        let ghost r0 = r@;
        proof {
            assert(op_locals_below(ops@[insn as int], locals as nat));
        }
        let mut u: usize = 0;
        while u < data.uses.len()
            invariant
                u <= data.uses@.len(),
                data.uses@ == op_uses(ops@[insn as int]),
                insn < ops@.len(),
                r@.len() == locals,
                op_locals_below(ops@[insn as int], locals as nat),
                forall|l2: int| 0 <= l2 < locals ==> #[trigger] r@[l2] == if data.uses@.subrange(0, u as int).contains(Local(l2 as usize)) {
                    Some(insn)
                } else {
                    r0[l2]
                },
            decreases data.uses@.len() - u,
        {
            let ul = data.uses[u];
            r.set(ul.0, Some(insn));
            proof {
                let sub0 = data.uses@.subrange(0, u as int);
                let sub1 = data.uses@.subrange(0, u + 1);
                assert forall|l2: int| 0 <= l2 < locals implies #[trigger] r@[l2] == if data.uses@.subrange(0, u + 1).contains(Local(l2 as usize)) {
                    Some(insn)
                } else {
                    r0[l2]
                } by {
                    if sub0.contains(Local(l2 as usize)) {
                        let q = choose|q: int| 0 <= q < sub0.len() && sub0[q] == Local(l2 as usize);
                        assert(sub1[q] == Local(l2 as usize));
                    }
                    if sub1.contains(Local(l2 as usize)) {
                        let q = choose|q: int| 0 <= q < sub1.len() && sub1[q] == Local(l2 as usize);
                        if q < u {
                            assert(sub0[q] == Local(l2 as usize));
                        } else {
                            assert(ul == Local(l2 as usize));
                        }
                    }
                    if l2 == ul.0 {
                        assert(sub1[u as int] == ul);
                        assert(Local(l2 as usize) == ul);
                    }
                }
            }
            u += 1;
        }
        proof {
            assert(data.uses@.subrange(0, data.uses@.len() as int) =~= data.uses@);
        }
        insn += 1;
    }
    r
}

/// The locals whose last read is instruction `insn`, each once: after it,
/// their registers are free.
pub fn freed_after(ops: &Vec<Op>, last: &Vec<Option<usize>>, insn: usize) -> (r: Vec<Local>)
    requires
        insn < ops@.len(),
        op_locals_below(ops@[insn as int], last@.len()),
    ensures
        r@.no_duplicates(),
        forall|x: Local| r@.contains(x) <==> op_uses(ops@[insn as int]).contains(x) && last@[x.0 as int] == Some(insn),
{
    let data = ops[insn].into_data();
    let mut out: Vec<Local> = Vec::new();
    let mut u: usize = 0;
    while u < data.uses.len()
        invariant
            u <= data.uses@.len(),
            data.uses@ == op_uses(ops@[insn as int]),
            op_locals_below(ops@[insn as int], last@.len()),
            out@.no_duplicates(),
            forall|x: Local| out@.contains(x) <==> data.uses@.subrange(0, u as int).contains(x) && last@[x.0 as int] == Some(insn),
        decreases data.uses@.len() - u,
    {
        let ul = data.uses[u];
        let mut seen = false;
        let mut k: usize = 0;
        while k < out.len()
            invariant
                k <= out@.len(),
                seen <==> out@.subrange(0, k as int).contains(ul),
            decreases out@.len() - k,
        {
            let ghost o0 = out@.subrange(0, k as int);
            let ghost o1 = out@.subrange(0, k + 1);
            if out[k] == ul {
                seen = true;
                assert(o1[k as int] == ul);
            } else {
                proof {
                    if o1.contains(ul) {
                        let q = choose|q: int| 0 <= q < o1.len() && o1[q] == ul;
                        assert(o0[q] == ul);
                    }
                }
            }
            proof {
                if o0.contains(ul) {
                    let q = choose|q: int| 0 <= q < o0.len() && o0[q] == ul;
                    assert(o1[q] == ul);
                }
            }
            k += 1;
        }
        assert(out@.subrange(0, out@.len() as int) =~= out@);
        let ghost out0 = out@;
        proof {
            assert(ul.0 < last@.len());
        }
        if !seen && last[ul.0] == Some(insn) {
            out.push(ul);
        }
        proof {
            let sub0 = data.uses@.subrange(0, u as int);
            let sub1 = data.uses@.subrange(0, u + 1);
            assert forall|x: Local| out@.contains(x) <==> sub1.contains(x) && last@[x.0 as int] == Some(insn) by {
                if sub0.contains(x) {
                    let q = choose|q: int| 0 <= q < sub0.len() && sub0[q] == x;
                    assert(sub1[q] == x);
                }
                if sub1.contains(x) {
                    let q = choose|q: int| 0 <= q < sub1.len() && sub1[q] == x;
                    if q < u {
                        assert(sub0[q] == x);
                    } else {
                        assert(x == ul);
                    }
                }
                if out0.contains(x) {
                    let q = choose|q: int| 0 <= q < out0.len() && out0[q] == x;
                    assert(out@[q] == x);
                }
                if out@.contains(x) && !out0.contains(x) {
                    let q = choose|q: int| 0 <= q < out@.len() && out@[q] == x;
                    if q < out0.len() {
                        assert(out0[q] == x);
                    }
                    assert(x == ul);
                    assert(sub1[u as int] == ul);
                }
                if x == ul && !seen && last@[ul.0 as int] == Some(insn) {
                    assert(out@[out@.len() - 1] == ul);
                }
            }
        }
        u += 1;
    }
    assert(data.uses@.subrange(0, data.uses@.len() as int) =~= data.uses@);
    out
}

/// The registers of the printed program: each local gets a register while
/// it is live; freed registers are reused.
pub struct RegAlloc {
    /// The register of each local, while it has one.
    pub allocated: Vec<Option<usize>>,
    pub free_list: Vec<usize>,
    /// The number of registers created so far.
    pub last_allocated: usize,
    pub lang: Language,
    pub no_reorder: bool,
}

impl RegAlloc {
    /// No two locals share a register, and a free register belongs to no local.
    pub open spec fn wf(self) -> bool {
        &&& forall|a: int, b: int|
            0 <= a < b < self.allocated@.len() && self.allocated@[a] is Some && self.allocated@[b] is Some ==> (#[trigger] self.allocated@[a])->0
                != (#[trigger] self.allocated@[b])->0
        &&& forall|a: int| 0 <= a < self.allocated@.len() && (#[trigger] self.allocated@[a]) is Some ==> self.allocated@[a]->0 < self.last_allocated
        &&& self.free_list@.no_duplicates()
        &&& forall|k: int| 0 <= k < self.free_list@.len() ==> #[trigger] self.free_list@[k] < self.last_allocated
        &&& forall|k: int, a: int|
            0 <= k < self.free_list@.len() && 0 <= a < self.allocated@.len() && (#[trigger] self.allocated@[a]) is Some ==> self.allocated@[a]->0
                != #[trigger] self.free_list@[k]
    }

    /// No register yet, for `locals` locals.
    pub fn new(lang: Language, no_reorder: bool, locals: usize) -> (r: Self)
        ensures
            r.wf(),
            r.allocated@ == Seq::new(locals as nat, |k: int| None::<usize>),
            r.free_list@.len() == 0,
            r.last_allocated == 0,
            r.lang == lang,
            r.no_reorder == no_reorder,
    {
        let mut allocated: Vec<Option<usize>> = Vec::new();
        let mut l: usize = 0;
        while l < locals
            invariant
                l <= locals,
                allocated@ == Seq::new(l as nat, |k: int| None::<usize>),
            decreases locals - l,
        {
            allocated.push(None);
            assert(allocated@ =~= Seq::new((l + 1) as nat, |k: int| None::<usize>));
            l += 1;
        }
        RegAlloc { allocated, free_list: Vec::new(), last_allocated: 0, lang, no_reorder }
    }

    /// Starts a new function (Java methods have a size limit): the free
    /// registers are forgotten and the live ones returned, to be passed on.
    pub fn split_function(&mut self) -> (pass: Vec<usize>)
        requires
            old(self).wf(),
            old(self).lang == Language::Java,
        ensures
            final(self).wf(),
            final(self).allocated@ == old(self).allocated@,
            final(self).last_allocated == old(self).last_allocated,
            final(self).lang == old(self).lang,
            final(self).no_reorder == old(self).no_reorder,
            final(self).free_list@.len() == 0,
            forall|x: usize| pass@.contains(x) <==> exists|a: int| 0 <= a < old(self).allocated@.len() && old(self).allocated@[a] == Some(x),
    {
        self.free_list = Vec::new();
        let mut pass: Vec<usize> = Vec::new();
        let mut a: usize = 0;
        while a < self.allocated.len()
            invariant
                a <= self.allocated@.len(),
                self.allocated@ == old(self).allocated@,
                forall|x: usize| pass@.contains(x) <==> exists|b: int| 0 <= b < a && self.allocated@[b] == Some(x),
            decreases self.allocated@.len() - a,
        {
            let ghost p0 = pass@;
            match self.allocated[a] {
                Some(reg) => {
                    pass.push(reg);
                    proof {
                        assert forall|x: usize| pass@.contains(x) <==> exists|b: int| 0 <= b < a + 1 && self.allocated@[b] == Some(x) by {
                            if p0.contains(x) {
                                let q = choose|q: int| 0 <= q < p0.len() && p0[q] == x;
                                assert(pass@[q] == x);
                            }
                            if pass@.contains(x) && !p0.contains(x) {
                                let q = choose|q: int| 0 <= q < pass@.len() && pass@[q] == x;
                                if q < p0.len() {
                                    assert(p0[q] == x);
                                }
                                assert(self.allocated@[a as int] == Some(x));
                            }
                            if exists|b: int| 0 <= b < a + 1 && self.allocated@[b] == Some(x) {
                                let b = choose|b: int| 0 <= b < a + 1 && self.allocated@[b] == Some(x);
                                if b == a {
                                    assert(pass@[pass@.len() - 1] == x);
                                }
                            }
                        }
                    }
                },
                None => {
                    proof {
                        assert forall|x: usize| pass@.contains(x) <==> exists|b: int| 0 <= b < a + 1 && self.allocated@[b] == Some(x) by {
                            if exists|b: int| 0 <= b < a + 1 && self.allocated@[b] == Some(x) {
                                let b = choose|b: int| 0 <= b < a + 1 && self.allocated@[b] == Some(x);
                                assert(b < a);
                            }
                        }
                    }
                },
            }
            a += 1;
        }
        pass
    }

    /// Gives `l` a register: a new one when none is free, else a free one,
    /// the first or, unless `no_reorder` is set, one picked at random. The
    /// first result tells whether the register is new.
    pub fn alloc_name(&mut self, l: Local, rng: &mut rand::rngs::ThreadRng) -> (r: (bool, usize))
        requires
            old(self).wf(),
            l.0 < old(self).allocated@.len(),
            old(self).allocated@[l.0 as int] is None,
            old(self).free_list@.len() == 0 ==> old(self).last_allocated < usize::MAX,
        ensures
            final(self).wf(),
            final(self).lang == old(self).lang,
            final(self).no_reorder == old(self).no_reorder,
            final(self).allocated@ == old(self).allocated@.update(l.0 as int, Some(r.1)),
            r.0 <==> old(self).free_list@.len() == 0,
            r.0 ==> r.1 == old(self).last_allocated && final(self).last_allocated == old(self).last_allocated + 1,
            !r.0 ==> old(self).free_list@.contains(r.1) && final(self).last_allocated == old(self).last_allocated,
            forall|x: usize| #[trigger] final(self).free_list@.contains(x) ==> old(self).free_list@.contains(x),
            forall|a: int| 0 <= a < old(self).allocated@.len() && a != l.0 && (#[trigger] old(self).allocated@[a]) is Some ==> old(self).allocated@[a]->0 != r.1,
    {
        if self.free_list.len() == 0 {
            let i = self.last_allocated;
            self.last_allocated += 1;
            self.allocated.set(l.0, Some(i));
            proof {
                assert forall|a: int, b: int|
                    0 <= a < b < self.allocated@.len() && self.allocated@[a] is Some && self.allocated@[b] is Some implies (#[trigger] self.allocated@[a])->0
                        != (#[trigger] self.allocated@[b])->0 by {
                    if a != l.0 && b != l.0 {
                        assert(self.allocated@[a] == old(self).allocated@[a]);
                        assert(self.allocated@[b] == old(self).allocated@[b]);
                    } else if a == l.0 {
                        assert(self.allocated@[b] == old(self).allocated@[b]);
                    } else {
                        assert(self.allocated@[a] == old(self).allocated@[a]);
                    }
                }
                assert forall|a: int| 0 <= a < self.allocated@.len() && (#[trigger] self.allocated@[a]) is Some implies self.allocated@[a]->0
                    < self.last_allocated by {
                    if a != l.0 {
                        assert(self.allocated@[a] == old(self).allocated@[a]);
                    }
                }
            }
            (true, i)
        } else {
            let idx = if self.no_reorder {
                0
            } else {
                crate::random::random_below(rng, self.free_list.len())
            };
            let ghost f0 = self.free_list@;
            let reg = self.free_list.remove(idx);
            self.allocated.set(l.0, Some(reg));
            proof {
                assert forall|x: usize| #[trigger] self.free_list@.contains(x) implies f0.contains(x) by {
                    let k = choose|k: int| 0 <= k < self.free_list@.len() && self.free_list@[k] == x;
                    if k < idx {
                        assert(f0[k] == x);
                    } else {
                        assert(f0[k + 1] == x);
                    }
                }
                assert(f0[idx as int] == reg);
                assert(f0.contains(reg));
                assert forall|k: int| 0 <= k < self.free_list@.len() implies #[trigger] self.free_list@[k] != reg by {
                    if k < idx {
                        assert(self.free_list@[k] == f0[k]);
                    } else {
                        assert(self.free_list@[k] == f0[k + 1]);
                    }
                }
                assert(self.free_list@.no_duplicates()) by {
                    assert forall|a: int, b: int| 0 <= a < b < self.free_list@.len() implies self.free_list@[a] != self.free_list@[b] by {
                        let a2 = if a < idx { a } else { a + 1 };
                        let b2 = if b < idx { b } else { b + 1 };
                        assert(self.free_list@[a] == f0[a2]);
                        assert(self.free_list@[b] == f0[b2]);
                    }
                }
                assert forall|k: int| 0 <= k < self.free_list@.len() implies #[trigger] self.free_list@[k] < self.last_allocated by {
                    if k < idx {
                        assert(self.free_list@[k] == f0[k]);
                    } else {
                        assert(self.free_list@[k] == f0[k + 1]);
                    }
                }
                assert forall|a: int, b: int|
                    0 <= a < b < self.allocated@.len() && self.allocated@[a] is Some && self.allocated@[b] is Some implies (#[trigger] self.allocated@[a])->0
                        != (#[trigger] self.allocated@[b])->0 by {
                    if a != l.0 && b != l.0 {
                        assert(self.allocated@[a] == old(self).allocated@[a]);
                        assert(self.allocated@[b] == old(self).allocated@[b]);
                    } else if a == l.0 {
                        assert(self.allocated@[b] == old(self).allocated@[b]);
                        assert(old(self).allocated@[b]->0 != f0[idx as int]);
                    } else {
                        assert(self.allocated@[a] == old(self).allocated@[a]);
                        assert(old(self).allocated@[a]->0 != f0[idx as int]);
                    }
                }
                assert forall|a: int| 0 <= a < self.allocated@.len() && (#[trigger] self.allocated@[a]) is Some implies self.allocated@[a]->0
                    < self.last_allocated by {
                    if a != l.0 {
                        assert(self.allocated@[a] == old(self).allocated@[a]);
                    }
                }
                assert forall|k: int, a: int|
                    0 <= k < self.free_list@.len() && 0 <= a < self.allocated@.len() && (#[trigger] self.allocated@[a]) is Some implies self.allocated@[a]->0
                        != #[trigger] self.free_list@[k] by {
                    let k2 = if k < idx { k } else { k + 1 };
                    assert(self.free_list@[k] == f0[k2]);
                    if a != l.0 {
                        assert(self.allocated@[a] == old(self).allocated@[a]);
                    }
                }
                assert forall|a: int| 0 <= a < old(self).allocated@.len() && a != l.0 && (#[trigger] old(self).allocated@[a]) is Some implies old(
                    self,
                ).allocated@[a]->0 != reg by {
                    assert(old(self).allocated@[a]->0 != f0[idx as int]);
                }
            }
            (false, reg)
        }
    }

    /// Frees the register of `l`.
    pub fn free(&mut self, l: Local)
        requires
            old(self).wf(),
            l.0 < old(self).allocated@.len(),
            old(self).allocated@[l.0 as int] is Some,
        ensures
            final(self).wf(),
            final(self).lang == old(self).lang,
            final(self).no_reorder == old(self).no_reorder,
            final(self).last_allocated == old(self).last_allocated,
            final(self).allocated@ == old(self).allocated@.update(l.0 as int, None),
            final(self).free_list@ == old(self).free_list@.push(old(self).allocated@[l.0 as int]->0),
    {
        let reg = self.allocated[l.0].unwrap();
        self.allocated.set(l.0, None);
        let ghost f0 = self.free_list@;
        self.free_list.push(reg);
        proof {
            assert forall|k: int| 0 <= k < f0.len() implies #[trigger] f0[k] != reg by {
                assert(old(self).allocated@[l.0 as int]->0 != f0[k]);
            }
            assert(self.free_list@.no_duplicates()) by {
                assert forall|a: int, b: int| 0 <= a < b < self.free_list@.len() implies self.free_list@[a] != self.free_list@[b] by {
                    if b == f0.len() {
                        assert(self.free_list@[a] == f0[a]);
                    } else {
                        assert(self.free_list@[a] == f0[a]);
                        assert(self.free_list@[b] == f0[b]);
                    }
                }
            }
            assert forall|a: int, b: int|
                0 <= a < b < self.allocated@.len() && self.allocated@[a] is Some && self.allocated@[b] is Some implies (#[trigger] self.allocated@[a])->0
                    != (#[trigger] self.allocated@[b])->0 by {
                assert(self.allocated@[a] == old(self).allocated@[a]);
                assert(self.allocated@[b] == old(self).allocated@[b]);
            }
            assert forall|k: int, a: int|
                0 <= k < self.free_list@.len() && 0 <= a < self.allocated@.len() && (#[trigger] self.allocated@[a]) is Some implies self.allocated@[a]->0
                    != #[trigger] self.free_list@[k] by {
                assert(self.allocated@[a] == old(self).allocated@[a]);
                assert(a != l.0);
                if k < f0.len() {
                    assert(self.free_list@[k] == f0[k]);
                } else {
                    assert(self.free_list@[k] == reg);
                    if a < l.0 {
                        assert(old(self).allocated@[a]->0 != old(self).allocated@[l.0 as int]->0);
                    } else {
                        assert(old(self).allocated@[l.0 as int]->0 != old(self).allocated@[a]->0);
                    }
                }
            }
            assert forall|a: int| 0 <= a < self.allocated@.len() && (#[trigger] self.allocated@[a]) is Some implies self.allocated@[a]->0
                < self.last_allocated by {
                assert(self.allocated@[a] == old(self).allocated@[a]);
            }
            assert forall|k: int| 0 <= k < self.free_list@.len() implies #[trigger] self.free_list@[k] < self.last_allocated by {
                if k < f0.len() {
                    assert(self.free_list@[k] == f0[k]);
                }
            }
        }
    }

    /// The register of `l`.
    pub fn used(&self, l: Local) -> (r: usize)
        requires
            l.0 < self.allocated@.len(),
            self.allocated@[l.0 as int] is Some,
        ensures
            r == self.allocated@[l.0 as int]->0,
    {
        self.allocated[l.0].unwrap()
    }
}

impl VM {
    /// All tables one after the other: table `i` starts after the first `i`.
    pub fn memory_bytes(&self) -> (r: Vec<u8>)
        ensures
            r@.len() == memory_offset(self.memory@, self.memory@.len()),
            forall|i: int, b: int|
                0 <= i < self.memory@.len() && 0 <= b < self.memory@[i].data@.len() ==> r@[memory_offset(self.memory@, i as nat) + b]
                    == #[trigger] self.memory@[i].data@[b],
    {
        let mut r: Vec<u8> = Vec::new();
        let mut i: usize = 0;
        while i < self.memory.len()
            invariant
                i <= self.memory@.len(),
                r@.len() == memory_offset(self.memory@, i as nat),
                forall|i2: int, b: int|
                    0 <= i2 < i && 0 <= b < self.memory@[i2].data@.len() ==> r@[memory_offset(self.memory@, i2 as nat) + b]
                        == #[trigger] self.memory@[i2].data@[b],
            decreases self.memory@.len() - i,
        {
            let ghost start = r@;
            let mut b: usize = 0;
            while b < self.memory[i].data.len()
                invariant
                    i < self.memory@.len(),
                    b <= self.memory@[i as int].data@.len(),
                    r@.len() == start.len() + b,
                    forall|c: int| 0 <= c < start.len() ==> #[trigger] r@[c] == start[c],
                    forall|c: int| 0 <= c < b ==> r@[start.len() + c] == #[trigger] self.memory@[i as int].data@[c],
                decreases self.memory@[i as int].data@.len() - b,
            {
                r.push(self.memory[i].data[b]);
                b += 1;
            }
            proof {
                assert forall|i2: int, c: int|
                    0 <= i2 < i + 1 && 0 <= c < self.memory@[i2].data@.len() implies r@[memory_offset(self.memory@, i2 as nat) + c]
                        == #[trigger] self.memory@[i2].data@[c] by {
                    if i2 < i {
                        lemma_memory_offset_mono(self.memory@, (i2 + 1) as nat, i as nat);
                        assert(r@[memory_offset(self.memory@, i2 as nat) + c] == start[memory_offset(self.memory@, i2 as nat) + c]);
                    }
                }
            }
            i += 1;
        }
        r
    }
}

/// Where the first table with id `id` among `memory[i..]` starts.
pub open spec fn find_offset(memory: Seq<Memory>, id: MemoryId, i: nat) -> Option<usize>
    decreases memory.len() - i,
{
    if i >= memory.len() {
        None
    } else if memory[i as int].id == id {
        Some(memory[i as int].cont_offset)
    } else {
        find_offset(memory, id, i + 1)
    }
}

impl VM {
    /// The program is well formed and computes the cipher of `tables`: run on
    /// any block, the bytes it stores are the block the tables encrypt it to.
    pub open spec fn computes<const NRM1: usize>(self, tables: Tables<NRM1>) -> bool {
        &&& self.wf()
        &&& forall|input: Seq<u8>| input.len() == 16 ==> #[trigger] stored(self.output(input)) == tables.cipher_spec(input)
    }

    /// This program is `c` with its tables laid out: the same instructions
    /// and locals, every table of `c` somewhere and only tables of `c`, and
    /// the offsets the running totals of the table lengths.
    pub open spec fn laid_out_from(self, c: VM) -> bool {
        &&& self.ops@ == c.ops@
        &&& self.locals == c.locals
        &&& self.memory@.len() == c.memory@.len()
        &&& forall|j: int| 0 <= j < c.memory@.len() ==> has_table(self.memory@, (#[trigger] c.memory@[j]).id, c.memory@[j].data@)
        &&& forall|i: int| 0 <= i < self.memory@.len() ==> has_table(c.memory@, (#[trigger] self.memory@[i]).id, self.memory@[i].data@)
        &&& forall|i: int| 0 <= i < self.memory@.len() ==> (#[trigger] self.memory@[i]).cont_offset == memory_offset(self.memory@, i as nat)
    }

    /// Where the table `id` starts in the concatenation of all tables.
    pub fn offset_of(&self, id: MemoryId) -> (r: Option<usize>)
        ensures
            r == find_offset(self.memory@, id, 0),
            r is Some <==> exists|i: int| 0 <= i < self.memory@.len() && (#[trigger] self.memory@[i]).id == id,
            r is Some ==> exists|i: int| 0 <= i < self.memory@.len() && (#[trigger] self.memory@[i]).id == id && self.memory@[i].cont_offset == r->0,
    {
        let mut i: usize = 0;
        while i < self.memory.len()
            invariant
                i <= self.memory@.len(),
                forall|k: int| 0 <= k < i ==> (#[trigger] self.memory@[k]).id != id,
                find_offset(self.memory@, id, 0) == find_offset(self.memory@, id, i as nat),
            decreases self.memory@.len() - i,
        {
            if self.memory[i].id == id {
                return Some(self.memory[i].cont_offset);
            }
            i += 1;
        }
        None
    }
}

/// The program for the tables, ready to print: compiled, its tables laid
/// out one after the other (in a random order unless `no_reorder` is set),
/// and its instructions reordered (at random unless `no_reorder` is set) so
/// that each comes after those that assign what it reads. Each round adds
/// at most 320 tables of at most 256 bytes, so all of them fit in memory
/// together when `81920 * NRM1 + 4096` does.
pub fn vm_program<const NRM1: usize>(tables: &Tables<NRM1>, no_reorder: bool, rng: &mut rand::rngs::ThreadRng) -> (r: (VM, Vec<Op>))
    requires
        tables.wf(),
        81920 * NRM1 + 4096 <= usize::MAX,
    ensures
        exists|c: VM| #[trigger] r.0.laid_out_from(c) && c.computes(*tables),
        ordered(r.1@),
        exists|perm: Seq<int>| reorders(r.1@, r.0.ops@, perm),
{
    let mut vm = VM::compile(tables);
    let ghost c = vm;
    assert(c.computes(*tables));
    proof {
        lemma_memory_offset_bound(vm.memory@, vm.memory@.len());
        assert(256 * vm.memory@.len() <= 256 * (320 * NRM1 + 16)) by (nonlinear_arith)
            requires
                vm.memory@.len() <= 320 * NRM1 + 16,
        ;
    }
    vm.finalize_memory(no_reorder, rng);
    let ops = schedule(&vm.ops, vm.locals, no_reorder, rng);
    proof {
        assert(c.computes(*tables));
        assert(vm.laid_out_from(c));
        assert forall|k: int| 0 <= k < vm.ops@.len() implies op_locals_below(#[trigger] vm.ops@[k], vm.locals as nat) by {
            assert(op_in_range(c.ops@[k], c.locals as nat, c.memory@.len()));
        }
    }
    let ghost perm = choose|perm: Seq<int>| reorders(ops@, vm.ops@, perm);
    let r = (vm, ops);
    assert(r.0.laid_out_from(c));
    assert(reorders(r.1@, r.0.ops@, perm));
    r
}

} // verus!
