//! What the printed program computes: the statements run on registers, with
//! the tables as one array of bytes, store the same block as the program
//! they were printed from.

use vstd::prelude::*;

use crate::emit::{line_ok, live_at, printed_program, Expr, Line, Stmt};
use crate::vm::{
    defined_before, exec_op, find_offset, has_table, mem_byte, memory_offset, op_defines, op_in_range, op_store, op_uses, ordered,
    read_ok, reorders, run, single_assignment, stored, stores_distinct, val, Local, Memory, MemoryId, Op, VM,
};
use crate::HighLow;

verus! {

/// The value that `op` assigns, with the locals `env`.
pub open spec fn op_value(op: Op, env: Map<usize, u8>, mems: Seq<Seq<u8>>, input: Seq<u8>) -> u8 {
    match op {
        Op::LoadState { idx, .. } => input[idx as int],
        Op::StoreState { .. } => 0,
        Op::Select { mem, idx, .. } => mem_byte(mems, mem, val(env, idx) as int),
        Op::ConcatNimbles { high, low, .. } => (val(env, high) << 4u8) | val(env, low),
        Op::Nibble { from, nib, .. } => match nib {
            HighLow::High => val(env, from) >> 4u8,
            HighLow::Low => val(env, from) & 15u8,
        },
        Op::NibbleDyn { from, nib, .. } => (val(env, from) >> ((4 * val(env, nib)) as u8)) & 15u8,
        Op::Div2 { from, .. } => val(env, from) >> 1u8,
        Op::Mod2 { from, .. } => val(env, from) & 1u8,
        Op::Xor4 { a, b, c, d, .. } => val(env, a) ^ val(env, b) ^ val(env, c) ^ val(env, d),
    }
}

/// The local that a store reads.
pub open spec fn store_from(op: Op) -> Local {
    match op {
        Op::StoreState { from, .. } => from,
        _ => Local(0),
    }
}

/// One instruction: an assignment sets its local to its value, a store
/// writes its local to the output.
proof fn lemma_exec_op(op: Op, env: Map<usize, u8>, out: Map<usize, u8>, mems: Seq<Seq<u8>>, input: Seq<u8>)
    ensures
        op_defines(op) matches Some(d) ==> exec_op(op, env, out, mems, input) == (env.insert(d.0, op_value(op, env, mems, input)), out),
        op_store(op) matches Some(p) ==> exec_op(op, env, out, mems, input) == (env, out.insert(p, val(env, store_from(op)))),
        op_defines(op) is Some || op_store(op) is Some,
{
}

/// The value of an instruction depends on the values of the locals it reads alone.
proof fn lemma_op_value_reads(op: Op, e1: Map<usize, u8>, e2: Map<usize, u8>, mems: Seq<Seq<u8>>, input: Seq<u8>)
    requires
        forall|u: int| 0 <= u < op_uses(op).len() ==> val(e1, #[trigger] op_uses(op)[u]) == val(e2, op_uses(op)[u]),
    ensures
        op_value(op, e1, mems, input) == op_value(op, e2, mems, input),
{
    match op {
        Op::LoadState { .. } => {},
        Op::StoreState { .. } => {},
        Op::Select { idx, .. } => {
            assert(op_uses(op)[0] == idx);
        },
        Op::ConcatNimbles { high, low, .. } => {
            assert(op_uses(op)[0] == high && op_uses(op)[1] == low);
        },
        Op::Nibble { from, .. } => {
            assert(op_uses(op)[0] == from);
        },
        Op::NibbleDyn { from, nib, .. } => {
            assert(op_uses(op)[0] == from && op_uses(op)[1] == nib);
        },
        Op::Div2 { from, .. } => {
            assert(op_uses(op)[0] == from);
        },
        Op::Mod2 { from, .. } => {
            assert(op_uses(op)[0] == from);
        },
        Op::Xor4 { a, b, c, d, .. } => {
            assert(op_uses(op)[0] == a && op_uses(op)[1] == b && op_uses(op)[2] == c && op_uses(op)[3] == d);
        },
    }
}

/// The locals after the first `k` instructions.
pub open spec fn env_at(ops: Seq<Op>, mems: Seq<Seq<u8>>, input: Seq<u8>, k: int) -> Map<usize, u8> {
    run(ops.take(k), mems, input).0
}

/// Running the first `k + 1` instructions runs instruction `k` after the first `k`.
proof fn lemma_run_step(ops: Seq<Op>, mems: Seq<Seq<u8>>, input: Seq<u8>, k: int)
    requires
        0 <= k < ops.len(),
    ensures
        run(ops.take(k + 1), mems, input) == exec_op(ops[k], run(ops.take(k), mems, input).0, run(ops.take(k), mems, input).1, mems, input),
{
    assert(ops.take(k + 1).drop_last() =~= ops.take(k));
    assert(ops.take(k + 1).last() == ops[k]);
}

/// A local that no instruction from `k1` to `k2` assigns keeps its value.
proof fn lemma_val_persists(ops: Seq<Op>, mems: Seq<Seq<u8>>, input: Seq<u8>, a: Local, k1: int, k2: int)
    requires
        0 <= k1 <= k2 <= ops.len(),
        forall|j: int| k1 <= j < k2 ==> op_defines(#[trigger] ops[j]) != Some(a),
    ensures
        val(env_at(ops, mems, input, k2), a) == val(env_at(ops, mems, input, k1), a),
    decreases k2 - k1,
{
    if k1 < k2 {
        lemma_val_persists(ops, mems, input, a, k1, k2 - 1);
        lemma_run_step(ops, mems, input, k2 - 1);
        lemma_exec_op(ops[k2 - 1], env_at(ops, mems, input, k2 - 1), run(ops.take(k2 - 1), mems, input).1, mems, input);
    }
}

/// The local assigned at `j` holds, at every later point, the value of its
/// instruction.
proof fn lemma_def_value(ops: Seq<Op>, mems: Seq<Seq<u8>>, input: Seq<u8>, j: int, k: int)
    requires
        single_assignment(ops),
        0 <= j < k <= ops.len(),
        op_defines(ops[j]) is Some,
    ensures
        val(env_at(ops, mems, input, k), op_defines(ops[j])->0) == op_value(ops[j], env_at(ops, mems, input, j), mems, input),
{
    let d = op_defines(ops[j])->0;
    lemma_run_step(ops, mems, input, j);
    lemma_exec_op(ops[j], env_at(ops, mems, input, j), run(ops.take(j), mems, input).1, mems, input);
    assert forall|i: int| j + 1 <= i < k implies op_defines(#[trigger] ops[i]) != Some(d) by {
        assert(op_defines(ops[j]) != op_defines(ops[i]));
    }
    lemma_val_persists(ops, mems, input, d, j + 1, k);
}

/// A local read at `k` has, there, its value at the end.
proof fn lemma_use_value(ops: Seq<Op>, mems: Seq<Seq<u8>>, input: Seq<u8>, k: int, u: Local)
    requires
        ordered(ops),
        single_assignment(ops),
        0 <= k < ops.len(),
        defined_before(ops, k, u),
    ensures
        val(env_at(ops, mems, input, k), u) == val(env_at(ops, mems, input, ops.len() as int), u),
{
    let i = choose|i: int| 0 <= i < k && #[trigger] op_defines(ops[i]) == Some(u);
    lemma_def_value(ops, mems, input, i, k);
    lemma_def_value(ops, mems, input, i, ops.len() as int);
}

/// At the end, every assigned local holds the value of its instruction
/// evaluated at the end.
proof fn lemma_final_equation(ops: Seq<Op>, mems: Seq<Seq<u8>>, input: Seq<u8>, j: int)
    requires
        ordered(ops),
        single_assignment(ops),
        0 <= j < ops.len(),
        op_defines(ops[j]) is Some,
    ensures
        val(env_at(ops, mems, input, ops.len() as int), op_defines(ops[j])->0) == op_value(
            ops[j],
            env_at(ops, mems, input, ops.len() as int),
            mems,
            input,
        ),
{
    let n = ops.len() as int;
    lemma_def_value(ops, mems, input, j, n);
    assert forall|u: int| 0 <= u < op_uses(ops[j]).len() implies val(env_at(ops, mems, input, j), #[trigger] op_uses(ops[j])[u]) == val(
        env_at(ops, mems, input, n),
        op_uses(ops[j])[u],
    ) by {
        lemma_use_value(ops, mems, input, j, op_uses(ops[j])[u]);
    }
    lemma_op_value_reads(ops[j], env_at(ops, mems, input, j), env_at(ops, mems, input, n), mems, input);
}

/// The final locals of a run.
pub open spec fn final_env(ops: Seq<Op>, mems: Seq<Seq<u8>>, input: Seq<u8>) -> Map<usize, u8> {
    env_at(ops, mems, input, ops.len() as int)
}

/// A reordering reaches every position.
proof fn lemma_perm_onto(perm: Seq<int>, n: int, j: int)
    requires
        perm.len() == n,
        perm.no_duplicates(),
        forall|k: int| 0 <= k < perm.len() ==> 0 <= #[trigger] perm[k] < n,
        0 <= j < n,
    ensures
        exists|k: int| 0 <= k < n && perm[k] == j,
{
    let full = vstd::set_lib::set_int_range(0, n);
    vstd::set_lib::lemma_int_range(0, n);
    perm.unique_seq_to_set();
    assert(perm.to_set().subset_of(full));
    vstd::set_lib::lemma_len_subset(perm.to_set(), full);
    vstd::set_lib::lemma_subset_equality(perm.to_set(), full);
    assert(full.contains(j));
    assert(perm.to_set().contains(j));
}

/// Two orders of the same instructions, each reading only locals assigned
/// before, leave every local assigned in the first `k` instructions of
/// `ops` with the same value.
proof fn lemma_reorder_values(ops: Seq<Op>, other: Seq<Op>, perm: Seq<int>, mems: Seq<Seq<u8>>, input: Seq<u8>, k: int)
    requires
        reorders(ops, other, perm),
        ordered(ops),
        single_assignment(ops),
        ordered(other),
        single_assignment(other),
        0 <= k <= ops.len(),
    ensures
        forall|j: int|
            0 <= j < k && op_defines(ops[j]) is Some ==> val(final_env(ops, mems, input), #[trigger] op_defines(ops[j])->0) == val(
                final_env(other, mems, input),
                op_defines(ops[j])->0,
            ),
    decreases k,
{
    if k > 0 {
        lemma_reorder_values(ops, other, perm, mems, input, k - 1);
        let j = k - 1;
        if op_defines(ops[j]) is Some {
            let fs = final_env(ops, mems, input);
            let ft = final_env(other, mems, input);
            assert forall|u: int| 0 <= u < op_uses(ops[j]).len() implies val(fs, #[trigger] op_uses(ops[j])[u]) == val(ft, op_uses(ops[j])[u]) by {
                let l = op_uses(ops[j])[u];
                assert(defined_before(ops, j, l));
                let i = choose|i: int| 0 <= i < j && #[trigger] op_defines(ops[i]) == Some(l);
                assert(op_defines(ops[i])->0 == l);
            }
            lemma_op_value_reads(ops[j], fs, ft, mems, input);
            lemma_final_equation(ops, mems, input, j);
            let jt = perm[j];
            assert(other[jt] == ops[j]);
            lemma_final_equation(other, mems, input, jt);
        }
    }
}

/// After the first `k` instructions the output holds exactly the bytes that
/// they store, each the final value of the local stored.
proof fn lemma_output_prefix(ops: Seq<Op>, mems: Seq<Seq<u8>>, input: Seq<u8>, k: int)
    requires
        ordered(ops),
        single_assignment(ops),
        stores_distinct(ops),
        0 <= k <= ops.len(),
    ensures
        forall|p: usize| #[trigger]
            run(ops.take(k), mems, input).1.dom().contains(p) <==> exists|j: int| 0 <= j < k && #[trigger] op_store(ops[j]) == Some(p),
        forall|j: int|
            0 <= j < k && op_store(ops[j]) is Some ==> run(ops.take(k), mems, input).1[#[trigger] op_store(ops[j])->0] == val(
                final_env(ops, mems, input),
                store_from(ops[j]),
            ),
    decreases k,
{
    if k > 0 {
        let i = k - 1;
        lemma_output_prefix(ops, mems, input, i);
        lemma_run_step(ops, mems, input, i);
        let out0 = run(ops.take(i), mems, input).1;
        let out1 = run(ops.take(k), mems, input).1;
        lemma_exec_op(ops[i], env_at(ops, mems, input, i), out0, mems, input);
        if let Some(p) = op_store(ops[i]) {
            assert(op_uses(ops[i])[0] == store_from(ops[i]));
            assert(defined_before(ops, i, op_uses(ops[i])[0]));
            lemma_use_value(ops, mems, input, i, store_from(ops[i]));
            assert forall|j: int| 0 <= j < k && op_store(ops[j]) is Some implies out1[#[trigger] op_store(ops[j])->0] == val(
                final_env(ops, mems, input),
                store_from(ops[j]),
            ) by {
                if j < i {
                    assert(op_store(ops[j]) != op_store(ops[i]));
                }
            }
            assert forall|q: usize| #[trigger] out1.dom().contains(q) <==> exists|j: int| 0 <= j < k && #[trigger] op_store(ops[j]) == Some(q) by {
                if out1.dom().contains(q) && q != p {
                    assert(out0.dom().contains(q));
                }
            }
        } else {
            assert forall|q: usize| #[trigger] out1.dom().contains(q) <==> exists|j: int| 0 <= j < k && #[trigger] op_store(ops[j]) == Some(q) by {
                if exists|j: int| 0 <= j < k && #[trigger] op_store(ops[j]) == Some(q) {
                    let j = choose|j: int| 0 <= j < k && #[trigger] op_store(ops[j]) == Some(q);
                    assert(j != i);
                }
            }
        }
    }
}

/// Two orders of the same instructions, each reading only locals assigned
/// before and storing each byte once, store the same output.
proof fn lemma_reorder_output(ops: Seq<Op>, other: Seq<Op>, perm: Seq<int>, mems: Seq<Seq<u8>>, input: Seq<u8>)
    requires
        reorders(ops, other, perm),
        ordered(ops),
        single_assignment(ops),
        stores_distinct(ops),
        ordered(other),
        single_assignment(other),
        stores_distinct(other),
    ensures
        run(ops, mems, input).1 == run(other, mems, input).1,
{
    let n = ops.len() as int;
    assert(ops.take(n) =~= ops);
    assert(other.take(n) =~= other);
    lemma_output_prefix(ops, mems, input, n);
    lemma_output_prefix(other, mems, input, n);
    lemma_reorder_values(ops, other, perm, mems, input, n);
    let o1 = run(ops, mems, input).1;
    let o2 = run(other, mems, input).1;
    assert forall|p: usize| o1.dom().contains(p) <==> o2.dom().contains(p) by {
        if o1.dom().contains(p) {
            let j = choose|j: int| 0 <= j < n && #[trigger] op_store(ops[j]) == Some(p);
            assert(other[perm[j]] == ops[j]);
            assert(op_store(other[perm[j]]) == Some(p));
        }
        if o2.dom().contains(p) {
            let j2 = choose|j: int| 0 <= j < n && #[trigger] op_store(other[j]) == Some(p);
            lemma_perm_onto(perm, n, j2);
            let j = choose|j: int| 0 <= j < n && perm[j] == j2;
            assert(ops[j] == other[j2]);
            assert(op_store(ops[j]) == Some(p));
        }
    }
    assert forall|p: usize| o1.dom().contains(p) implies o1[p] == o2[p] by {
        let j = choose|j: int| 0 <= j < n && #[trigger] op_store(ops[j]) == Some(p);
        assert(other[perm[j]] == ops[j]);
        assert(op_store(other[perm[j]]) == Some(p));
        let from = store_from(ops[j]);
        assert(op_uses(ops[j])[0] == from);
        assert(defined_before(ops, j, op_uses(ops[j])[0]));
        let i = choose|i: int| 0 <= i < j && #[trigger] op_defines(ops[i]) == Some(from);
        assert(op_defines(ops[i])->0 == from);
    }
    assert(o1 =~= o2);
}

/// The value of register `r`; unassigned ones read as zero.
pub open spec fn reg_val(regs: Map<usize, u8>, r: usize) -> u8 {
    if regs.dom().contains(r) {
        regs[r]
    } else {
        0
    }
}

/// Byte `i` of `m`; out of range reads as zero.
pub open spec fn byte_at(m: Seq<u8>, i: int) -> u8 {
    if 0 <= i < m.len() {
        m[i]
    } else {
        0
    }
}

/// The value of `e` with the registers `regs`, the tables `m` and the input
/// block `input`.
pub open spec fn eval_expr(e: Expr, regs: Map<usize, u8>, m: Seq<u8>, input: Seq<u8>) -> u8 {
    match e {
        Expr::State { idx } => input[idx as int],
        Expr::Table { offset, idx } => byte_at(m, offset + reg_val(regs, idx)),
        Expr::Concat { high, low } => (reg_val(regs, high) << 4u8) | reg_val(regs, low),
        Expr::Nibble { from, nib } => match nib {
            HighLow::High => reg_val(regs, from) >> 4u8,
            HighLow::Low => reg_val(regs, from) & 15u8,
        },
        Expr::NibbleDyn { from, nib } => (reg_val(regs, from) >> ((4 * reg_val(regs, nib)) as u8)) & 15u8,
        Expr::Div2 { from } => reg_val(regs, from) >> 1u8,
        Expr::Mod2 { from } => reg_val(regs, from) & 1u8,
        Expr::Xor4 { a, b, c, d } => reg_val(regs, a) ^ reg_val(regs, b) ^ reg_val(regs, c) ^ reg_val(regs, d),
    }
}

/// The registers and the output after one statement.
pub open spec fn exec_stmt(s: Stmt, regs: Map<usize, u8>, out: Map<usize, u8>, m: Seq<u8>, input: Seq<u8>) -> (Map<usize, u8>, Map<usize, u8>) {
    match s {
        Stmt::Assign { reg, value, .. } => (regs.insert(reg, eval_expr(value, regs, m, input)), out),
        Stmt::Store { from, to_idx } => (regs, out.insert(to_idx, reg_val(regs, from))),
    }
}

/// The registers and the output after the statements, run in order on the
/// input block `input`, with the tables `m`.
pub open spec fn run_lines(lines: Seq<Line>, m: Seq<u8>, input: Seq<u8>) -> (Map<usize, u8>, Map<usize, u8>)
    decreases lines.len(),
{
    if lines.len() == 0 {
        (Map::empty(), Map::empty())
    } else {
        let prev = run_lines(lines.drop_last(), m, input);
        exec_stmt(lines.last().stmt, prev.0, prev.1, m, input)
    }
}

/// Running the first `k + 1` statements runs statement `k` after the first `k`.
proof fn lemma_run_lines_step(lines: Seq<Line>, m: Seq<u8>, input: Seq<u8>, k: int)
    requires
        0 <= k < lines.len(),
    ensures
        run_lines(lines.take(k + 1), m, input) == exec_stmt(
            lines[k].stmt,
            run_lines(lines.take(k), m, input).0,
            run_lines(lines.take(k), m, input).1,
            m,
            input,
        ),
{
    assert(lines.take(k + 1).drop_last() =~= lines.take(k));
    assert(lines.take(k + 1).last() == lines[k]);
}

/// Every table read at instruction `k` gives, through the offset of its
/// table in `memory`, the byte of `mems` it reads.
pub open spec fn table_read_agrees(ops: Seq<Op>, mems: Seq<Seq<u8>>, memory: Seq<Memory>, m: Seq<u8>, input: Seq<u8>, k: int) -> bool {
    match ops[k] {
        Op::Select { mem, idx, .. } => {
            let r = val(env_at(ops, mems, input, k), idx) as int;
            byte_at(m, find_offset(memory, mem, 0)->0 + r) == mem_byte(mems, mem, r)
        },
        _ => true,
    }
}

/// The statement of an instruction computes, from registers that hold the
/// locals it reads, the value of the instruction.
proof fn lemma_stmt_value(
    op: Op,
    regs: Seq<usize>,
    memory: Seq<Memory>,
    fresh: bool,
    rv: Map<usize, u8>,
    env: Map<usize, u8>,
    m: Seq<u8>,
    mems: Seq<Seq<u8>>,
    input: Seq<u8>,
)
    requires
        forall|u: int| 0 <= u < op_uses(op).len() ==> reg_val(rv, regs[(#[trigger] op_uses(op)[u]).0 as int]) == val(env, op_uses(op)[u]),
        op matches Op::Select { mem, idx, .. } ==> byte_at(m, find_offset(memory, mem, 0)->0 + val(env, idx) as int) == mem_byte(
            mems,
            mem,
            val(env, idx) as int,
        ),
    ensures
        crate::emit::stmt_of(op, regs, memory, fresh) matches Stmt::Assign { value, .. } ==> eval_expr(value, rv, m, input) == op_value(
            op,
            env,
            mems,
            input,
        ),
        crate::emit::stmt_of(op, regs, memory, fresh) matches Stmt::Store { from, .. } ==> reg_val(rv, from) == val(env, store_from(op)),
{
    match op {
        Op::LoadState { .. } => {},
        Op::StoreState { from, .. } => {
            assert(op_uses(op)[0] == from);
        },
        Op::Select { idx, .. } => {
            assert(op_uses(op)[0] == idx);
        },
        Op::ConcatNimbles { high, low, .. } => {
            assert(op_uses(op)[0] == high && op_uses(op)[1] == low);
        },
        Op::Nibble { from, .. } => {
            assert(op_uses(op)[0] == from);
        },
        Op::NibbleDyn { from, nib, .. } => {
            assert(op_uses(op)[0] == from && op_uses(op)[1] == nib);
        },
        Op::Div2 { from, .. } => {
            assert(op_uses(op)[0] == from);
        },
        Op::Mod2 { from, .. } => {
            assert(op_uses(op)[0] == from);
        },
        Op::Xor4 { a, b, c, d, .. } => {
            assert(op_uses(op)[0] == a && op_uses(op)[1] == b && op_uses(op)[2] == c && op_uses(op)[3] == d);
        },
    }
}

/// After the first `k` statements, the register of every live local holds
/// the local's value after the first `k` instructions, and the outputs agree.
proof fn lemma_lines_simulate(
    lines: Seq<Line>,
    ops: Seq<Op>,
    regs: Seq<usize>,
    memory: Seq<Memory>,
    lang: crate::vm::Language,
    m: Seq<u8>,
    mems: Seq<Seq<u8>>,
    input: Seq<u8>,
    k: int,
)
    requires
        ordered(ops),
        single_assignment(ops),
        lines.len() == ops.len(),
        forall|j: int| 0 <= j < lines.len() ==> #[trigger] line_ok(lines[j], ops, regs, memory, lang, j),
        forall|j: int| 0 <= j < ops.len() ==> #[trigger] table_read_agrees(ops, mems, memory, m, input, j),
        0 <= k <= ops.len(),
    ensures
        forall|a: Local| #[trigger] live_at(ops, a, k) ==> reg_val(run_lines(lines.take(k), m, input).0, regs[a.0 as int]) == val(
            env_at(ops, mems, input, k),
            a,
        ),
        run_lines(lines.take(k), m, input).1 == run(ops.take(k), mems, input).1,
    decreases k,
{
    if k > 0 {
        let i = k - 1;
        lemma_lines_simulate(lines, ops, regs, memory, lang, m, mems, input, i);
        lemma_run_lines_step(lines, m, input, i);
        lemma_run_step(ops, mems, input, i);
        let op = ops[i];
        let rv = run_lines(lines.take(i), m, input).0;
        let env = env_at(ops, mems, input, i);
        let out = run(ops.take(i), mems, input).1;
        lemma_exec_op(op, env, out, mems, input);
        assert(line_ok(lines[i], ops, regs, memory, lang, i));
        let fresh = crate::emit::stmt_fresh(lines[i].stmt);
        assert forall|u: int| 0 <= u < op_uses(op).len() implies reg_val(rv, regs[(#[trigger] op_uses(op)[u]).0 as int]) == val(
            env,
            op_uses(op)[u],
        ) by {
            let l = op_uses(op)[u];
            assert(op_uses(op).contains(l));
            crate::emit::lemma_read_live(ops, l, i);
            assert(defined_before(ops, i, l));
            assert(live_at(ops, l, i));
        }
        assert(table_read_agrees(ops, mems, memory, m, input, i));
        lemma_stmt_value(op, regs, memory, fresh, rv, env, m, mems, input);
        if let Some(d) = op_defines(op) {
            crate::emit::lemma_def_not_read(ops, i);
            assert forall|a: Local| #[trigger] live_at(ops, a, k) implies reg_val(run_lines(lines.take(k), m, input).0, regs[a.0 as int]) == val(
                env_at(ops, mems, input, k),
                a,
            ) by {
                if a != d {
                    let j = choose|j: int| 0 <= j < k && #[trigger] op_defines(ops[j]) == Some(a);
                    assert(j != i);
                    assert(defined_before(ops, i, a));
                    assert(live_at(ops, a, i));
                    assert(regs[a.0 as int] != regs[d.0 as int]);
                    assert(a.0 != d.0);
                }
            }
        } else {
            assert(op_store(op) is Some);
            assert(op_uses(op)[0] == store_from(op));
            assert forall|a: Local| #[trigger] live_at(ops, a, k) implies reg_val(run_lines(lines.take(k), m, input).0, regs[a.0 as int]) == val(
                env_at(ops, mems, input, k),
                a,
            ) by {
                let j = choose|j: int| 0 <= j < k && #[trigger] op_defines(ops[j]) == Some(a);
                assert(j != i);
                assert(defined_before(ops, i, a));
                assert(live_at(ops, a, i));
            }
        }
    }
}

/// Reordering keeps every state byte stored by one instruction.
proof fn lemma_reorders_stores_distinct(out: Seq<Op>, ops: Seq<Op>, perm: Seq<int>)
    requires
        reorders(out, ops, perm),
        stores_distinct(ops),
    ensures
        stores_distinct(out),
{
    assert forall|a: int, b: int|
        0 <= a < out.len() && 0 <= b < out.len() && a != b && op_store(out[a]) is Some implies #[trigger] op_store(out[a])
        != #[trigger] op_store(out[b]) by {
        assert(out[a] == ops[perm[a]] && out[b] == ops[perm[b]]);
        assert(perm[a] != perm[b]);
    }
}

/// A table found at offset `o` has the id looked for and starts at `o`.
proof fn lemma_find_offset_index(memory: Seq<Memory>, id: MemoryId, s: nat)
    requires
        find_offset(memory, id, s) is Some,
    ensures
        exists|i: int| s <= i < memory.len() && #[trigger] memory[i].id == id && memory[i].cont_offset == find_offset(memory, id, s)->0,
    decreases memory.len() - s,
{
    if s < memory.len() && memory[s as int].id != id {
        lemma_find_offset_index(memory, id, s + 1);
    }
}

/// In the printed program every table read finds, at the offset of its
/// table, the byte that the program it was printed from reads.
proof fn lemma_table_reads<const NRM1: usize>(
    tables: crate::tables::Tables<NRM1>,
    bytes: Seq<u8>,
    lines: Seq<Line>,
    lang: crate::vm::Language,
    c: VM,
    vm: VM,
    ops: Seq<Op>,
    regs: Seq<usize>,
    perm: Seq<int>,
    input: Seq<u8>,
    k: int,
)
    requires
        printed_program(tables, bytes, lines, lang, c, vm, ops, regs),
        reorders(ops, vm.ops@, perm),
        single_assignment(ops),
        0 <= k < ops.len(),
    ensures
        table_read_agrees(ops, c.mems(), vm.memory@, bytes, input, k),
{
    if let Op::Select { mem, idx, to } = ops[k] {
        let mems = c.mems();
        let kc = perm[k];
        assert(c.ops@[kc] == ops[k]);
        assert(c.wf());
        assert(read_ok(c.ops@, mems, kc, input));
        assert(op_in_range(c.ops@[kc], c.locals as nat, c.memory@.len()));
        // the index has the same value in both orders
        assert(op_uses(ops[k])[0] == idx);
        assert(defined_before(ops, k, idx));
        assert(defined_before(c.ops@, kc, idx));
        lemma_use_value(ops, mems, input, k, idx);
        lemma_use_value(c.ops@, mems, input, kc, idx);
        lemma_reorder_values(ops, c.ops@, perm, mems, input, ops.len() as int);
        let i = choose|i: int| 0 <= i < k && #[trigger] op_defines(ops[i]) == Some(idx);
        assert(op_defines(ops[i])->0 == idx);
        assert(c.ops@.take(kc) == c.ops@.take(kc));
        let r = val(env_at(ops, mems, input, k), idx) as int;
        assert(r < mems[mem.0 as int].len());
        // the table of `mem` in the laid-out memory
        assert(has_table(vm.memory@, c.memory@[mem.0 as int].id, c.memory@[mem.0 as int].data@));
        let i1 = choose|i1: int|
            0 <= i1 < vm.memory@.len() && vm.memory@[i1].id == c.memory@[mem.0 as int].id && vm.memory@[i1].data@ == c.memory@[mem.0 as int].data@;
        assert(c.memory@[mem.0 as int].id.0 == mem.0);
        crate::emit::lemma_find_offset_some(vm.memory@, mem, 0, i1);
        lemma_find_offset_index(vm.memory@, mem, 0);
        let i0 = choose|i0: int|
            0 <= i0 < vm.memory@.len() && #[trigger] vm.memory@[i0].id == mem && vm.memory@[i0].cont_offset == find_offset(vm.memory@, mem, 0)->0;
        assert(has_table(c.memory@, vm.memory@[i0].id, vm.memory@[i0].data@));
        let jc = choose|jc: int| 0 <= jc < c.memory@.len() && c.memory@[jc].id == vm.memory@[i0].id && c.memory@[jc].data@ == vm.memory@[i0].data@;
        assert(c.memory@[jc].id.0 == jc);
        assert(jc == mem.0);
        assert(mems[mem.0 as int] == vm.memory@[i0].data@);
        assert(vm.memory@[i0].cont_offset == memory_offset(vm.memory@, i0 as nat));
        assert(bytes[memory_offset(vm.memory@, i0 as nat) + r] == vm.memory@[i0].data@[r]);
        crate::vm::lemma_memory_offset_mono(vm.memory@, (i0 + 1) as nat, vm.memory@.len());
        assert(memory_offset(vm.memory@, (i0 + 1) as nat) == memory_offset(vm.memory@, i0 as nat) + vm.memory@[i0].data@.len());
    }
}

/// The printed program computes the cipher of the tables: for every input
/// block, its statements, run with its table bytes, store the block that
/// the tables encrypt it to.
pub proof fn lemma_printed_program_computes<const NRM1: usize>(
    tables: crate::tables::Tables<NRM1>,
    bytes: Seq<u8>,
    lines: Seq<Line>,
    lang: crate::vm::Language,
    c: VM,
    vm: VM,
    ops: Seq<Op>,
    regs: Seq<usize>,
    input: Seq<u8>,
)
    requires
        printed_program(tables, bytes, lines, lang, c, vm, ops, regs),
        input.len() == 16,
    ensures
        stored(run_lines(lines, bytes, input).1) == tables.cipher_spec(input),
{
    let perm = choose|perm: Seq<int>| reorders(ops, vm.ops@, perm);
    assert(c.wf());
    crate::emit::lemma_reorders_single_assignment(ops, vm.ops@, perm);
    lemma_reorders_stores_distinct(ops, vm.ops@, perm);
    let mems = c.mems();
    assert forall|k: int| 0 <= k < ops.len() implies #[trigger] table_read_agrees(ops, mems, vm.memory@, bytes, input, k) by {
        lemma_table_reads(tables, bytes, lines, lang, c, vm, ops, regs, perm, input, k);
    }
    let n = ops.len() as int;
    lemma_lines_simulate(lines, ops, regs, vm.memory@, lang, bytes, mems, input, n);
    assert(lines.take(n) =~= lines);
    assert(ops.take(n) =~= ops);
    lemma_reorder_output(ops, c.ops@, perm, mems, input);
    assert(run(c.ops@, mems, input).1 == c.output(input));
}

} // verus!
