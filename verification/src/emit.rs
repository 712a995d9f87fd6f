//! The program as statements on registers, ready to be printed: every local
//! gets a register while it is live, a register is reused once its local is
//! read for the last time, and Java code is cut into methods.

use vstd::prelude::*;

use crate::printed::{lemma_printed_program_computes, run_lines};
use crate::tables::Tables;
use crate::vm::{
    defined_before, find_offset, freed_after, has_table, last_use, last_uses, memory_offset, op_defines, op_in_range, op_locals_below,
    op_memory, op_uses, ordered, reorders, single_assignment, stored, vm_program, Language, Local, Memory, MemoryId, Op, RegAlloc, VM,
};
use crate::HighLow;

verus! {

/// The value that a statement assigns, over registers.
#[derive(Clone, Copy, PartialEq, Eq, Structural, Debug)]
pub enum Expr {
    /// `d[idx]`
    State { idx: usize },
    /// `M[offset + idx]`
    Table { offset: usize, idx: usize },
    /// `(high << 4) | low`
    Concat { high: usize, low: usize },
    /// The high or the low nibble of `from`.
    Nibble { from: usize, nib: HighLow },
    /// `(from >> (4 * nib)) & 15`
    NibbleDyn { from: usize, nib: usize },
    /// `from >> 1`
    Div2 { from: usize },
    /// `from & 1`
    Mod2 { from: usize },
    /// `a ^ b ^ c ^ d`
    Xor4 { a: usize, b: usize, c: usize, d: usize },
}

/// A statement of the printed program.
#[derive(Clone, Copy, PartialEq, Eq, Structural, Debug)]
pub enum Stmt {
    /// `reg = value`; `fresh` when the register is assigned for the first time.
    Assign { reg: usize, fresh: bool, value: Expr },
    /// `d[to_idx] = from`
    Store { from: usize, to_idx: usize },
}

/// A statement and, in Java, before it, the end of one method and the call
/// of the next, to which the live registers `split` are handed.
pub struct Line {
    pub split: Option<Vec<usize>>,
    pub stmt: Stmt,
}

pub open spec fn stmt_fresh(s: Stmt) -> bool {
    match s {
        Stmt::Assign { fresh, .. } => fresh,
        Stmt::Store { .. } => false,
    }
}

/// The statement of `op`: each local replaced by its register in `regs`,
/// the table by its offset in `memory`.
pub open spec fn stmt_of(op: Op, regs: Seq<usize>, memory: Seq<Memory>, fresh: bool) -> Stmt {
    match op {
        Op::LoadState { idx, to } => Stmt::Assign { reg: regs[to.0 as int], fresh, value: Expr::State { idx } },
        Op::StoreState { from, to_idx } => Stmt::Store { from: regs[from.0 as int], to_idx },
        Op::Select { mem, idx, to } => Stmt::Assign {
            reg: regs[to.0 as int],
            fresh,
            value: Expr::Table { offset: find_offset(memory, mem, 0)->0, idx: regs[idx.0 as int] },
        },
        Op::ConcatNimbles { high, low, to } => Stmt::Assign {
            reg: regs[to.0 as int],
            fresh,
            value: Expr::Concat { high: regs[high.0 as int], low: regs[low.0 as int] },
        },
        Op::Nibble { from, nib, to } => Stmt::Assign { reg: regs[to.0 as int], fresh, value: Expr::Nibble { from: regs[from.0 as int], nib } },
        Op::NibbleDyn { from, nib, to } => Stmt::Assign {
            reg: regs[to.0 as int],
            fresh,
            value: Expr::NibbleDyn { from: regs[from.0 as int], nib: regs[nib.0 as int] },
        },
        Op::Div2 { from, to } => Stmt::Assign { reg: regs[to.0 as int], fresh, value: Expr::Div2 { from: regs[from.0 as int] } },
        Op::Mod2 { from, to } => Stmt::Assign { reg: regs[to.0 as int], fresh, value: Expr::Mod2 { from: regs[from.0 as int] } },
        Op::Xor4 { a, b, c, d, to } => Stmt::Assign {
            reg: regs[to.0 as int],
            fresh,
            value: Expr::Xor4 { a: regs[a.0 as int], b: regs[b.0 as int], c: regs[c.0 as int], d: regs[d.0 as int] },
        },
    }
}

/// Local `l` holds a value when instruction `k` runs that is still to be
/// read: an earlier instruction assigned it, and it is read at `k` or
/// later, or never.
pub open spec fn live_at(ops: Seq<Op>, l: Local, k: int) -> bool {
    &&& defined_before(ops, k, l)
    &&& match last_use(ops, l, ops.len()) {
        Some(j) => j >= k,
        None => true,
    }
}

/// The instruction at which the method that holds instruction `k` begins:
/// Java methods hold 500 instructions, the other languages one function.
pub open spec fn method_start(lang: Language, k: int) -> int {
    if lang == Language::Java {
        (k / 500) * 500
    } else {
        0
    }
}

/// The last read of `l` came before instruction `k`, in the method that
/// holds `k`.
pub open spec fn freed_in_method(ops: Seq<Op>, l: Local, lang: Language, k: int) -> bool {
    last_use(ops, l, ops.len()) matches Some(j) && method_start(lang, k) <= j < k
}

/// Line `k` prints instruction `k` of `ops` with the registers `regs`:
/// - its statement is the instruction with every local replaced by its
///   register and its table by the table's offset;
/// - in Java, every 500 instructions a new method begins, and it is handed
///   exactly the registers of the live locals;
/// - an assigned register is not that of any live local; a fresh one is
///   not that of any earlier local; a reused one belonged to a local whose
///   last read came before, in the same method.
pub open spec fn line_ok(line: Line, ops: Seq<Op>, regs: Seq<usize>, memory: Seq<Memory>, lang: Language, k: int) -> bool {
    &&& line.stmt == stmt_of(ops[k], regs, memory, stmt_fresh(line.stmt))
    &&& (line.split is Some <==> lang == Language::Java && k % 500 == 0 && k != 0)
    &&& line.split is Some ==> forall|x: usize|
        #![trigger line.split->0@.contains(x)]
        line.split->0@.contains(x) <==> exists|a: Local| #[trigger] live_at(ops, a, k) && regs[a.0 as int] == x
    &&& match op_defines(ops[k]) {
        Some(d) => {
            &&& forall|a: Local| #[trigger] live_at(ops, a, k) ==> regs[a.0 as int] != regs[d.0 as int]
            &&& stmt_fresh(line.stmt) ==> forall|a: Local| #[trigger] defined_before(ops, k, a) ==> regs[a.0 as int] != regs[d.0 as int]
            &&& !stmt_fresh(line.stmt) ==> exists|a: Local|
                #[trigger] defined_before(ops, k, a) && regs[a.0 as int] == regs[d.0 as int] && freed_in_method(ops, a, lang, k)
        },
        None => !stmt_fresh(line.stmt),
    }
}

/// `lines` print `ops`, locals stored in the registers `regs`.
pub open spec fn assigned_as(lines: Seq<Line>, ops: Seq<Op>, regs: Seq<usize>, memory: Seq<Memory>, lang: Language) -> bool {
    &&& lines.len() == ops.len()
    &&& forall|k: int| 0 <= k < lines.len() ==> #[trigger] line_ok(lines[k], ops, regs, memory, lang, k)
}

/// The last read of a local, if any, and no read after it.
proof fn lemma_last_use(ops: Seq<Op>, l: Local, n: nat)
    requires
        n <= ops.len(),
    ensures
        match last_use(ops, l, n) {
            Some(j) => 0 <= j < n && op_uses(ops[j]).contains(l) && forall|m: int| j < m < n ==> !(#[trigger] op_uses(ops[m])).contains(l),
            None => forall|m: int| 0 <= m < n ==> !(#[trigger] op_uses(ops[m])).contains(l),
        },
    decreases n,
{
    if n > 0 {
        lemma_last_use(ops, l, (n - 1) as nat);
    }
}

/// A local that instruction `k` reads is read for the last time at `k` or later.
pub(crate) proof fn lemma_read_live(ops: Seq<Op>, l: Local, k: int)
    requires
        0 <= k < ops.len(),
        op_uses(ops[k]).contains(l),
    ensures
        last_use(ops, l, ops.len()) matches Some(j) && j >= k,
{
    lemma_last_use(ops, l, ops.len());
}

/// The local that instruction `k` assigns is not read at `k` or before.
pub(crate) proof fn lemma_def_not_read(ops: Seq<Op>, k: int)
    requires
        0 <= k < ops.len(),
        ordered(ops),
        single_assignment(ops),
        op_defines(ops[k]) is Some,
    ensures
        !defined_before(ops, k, op_defines(ops[k])->0),
        forall|m: int| 0 <= m <= k ==> !(#[trigger] op_uses(ops[m])).contains(op_defines(ops[k])->0),
        match last_use(ops, op_defines(ops[k])->0, ops.len()) {
            Some(j) => j > k,
            None => true,
        },
{
    let d = op_defines(ops[k])->0;
    if defined_before(ops, k, d) {
        let j = choose|j: int| 0 <= j < k && #[trigger] op_defines(ops[j]) == Some(d);
        assert(op_defines(ops[j]) != op_defines(ops[k]));
    }
    assert forall|m: int| 0 <= m <= k implies !(#[trigger] op_uses(ops[m])).contains(d) by {
        if op_uses(ops[m]).contains(d) {
            let u = choose|u: int| 0 <= u < op_uses(ops[m]).len() && op_uses(ops[m])[u] == d;
            assert(defined_before(ops, m, op_uses(ops[m])[u]));
            let j = choose|j: int| 0 <= j < m && #[trigger] op_defines(ops[j]) == Some(d);
            assert(op_defines(ops[j]) != op_defines(ops[k]));
        }
    }
    lemma_last_use(ops, d, ops.len());
}

/// Changing the registers of locals assigned after instruction `k` keeps line `k` right.
proof fn lemma_line_ok_extend(line: Line, ops: Seq<Op>, regs: Seq<usize>, regs2: Seq<usize>, memory: Seq<Memory>, lang: Language, k: int)
    requires
        0 <= k < ops.len(),
        ordered(ops),
        line_ok(line, ops, regs, memory, lang, k),
        regs.len() == regs2.len(),
        forall|a: Local| #[trigger] defined_before(ops, k + 1, a) ==> regs2[a.0 as int] == regs[a.0 as int],
    ensures
        line_ok(line, ops, regs2, memory, lang, k),
{
    let op = ops[k];
    assert forall|u: int| 0 <= u < op_uses(op).len() implies regs2[(#[trigger] op_uses(op)[u]).0 as int] == regs[op_uses(op)[u].0 as int] by {
        let l = op_uses(op)[u];
        assert(defined_before(ops, k, l));
        let j = choose|j: int| 0 <= j < k && #[trigger] op_defines(ops[j]) == Some(l);
        assert(defined_before(ops, k + 1, l));
    }
    if let Some(d) = op_defines(op) {
        assert(defined_before(ops, k + 1, d));
    }
    assert(stmt_of(op, regs2, memory, stmt_fresh(line.stmt)) == stmt_of(op, regs, memory, stmt_fresh(line.stmt))) by {
        match op {
            Op::LoadState { idx, to } => {
                assert(regs2[to.0 as int] == regs[to.0 as int]);
            },
            Op::StoreState { from, to_idx } => {
                assert(op_uses(op)[0] == from);
                assert(regs2[from.0 as int] == regs[from.0 as int]);
            },
            Op::Select { mem, idx, to } => {
                assert(op_uses(op)[0] == idx);
                assert(regs2[idx.0 as int] == regs[idx.0 as int]);
                assert(regs2[to.0 as int] == regs[to.0 as int]);
            },
            Op::ConcatNimbles { high, low, to } => {
                assert(op_uses(op)[0] == high && op_uses(op)[1] == low);
                assert(regs2[high.0 as int] == regs[high.0 as int]);
                assert(regs2[low.0 as int] == regs[low.0 as int]);
                assert(regs2[to.0 as int] == regs[to.0 as int]);
            },
            Op::Nibble { from, nib, to } => {
                assert(op_uses(op)[0] == from);
                assert(regs2[from.0 as int] == regs[from.0 as int]);
                assert(regs2[to.0 as int] == regs[to.0 as int]);
            },
            Op::NibbleDyn { from, nib, to } => {
                assert(op_uses(op)[0] == from && op_uses(op)[1] == nib);
                assert(regs2[from.0 as int] == regs[from.0 as int]);
                assert(regs2[nib.0 as int] == regs[nib.0 as int]);
                assert(regs2[to.0 as int] == regs[to.0 as int]);
            },
            Op::Div2 { from, to } => {
                assert(op_uses(op)[0] == from);
                assert(regs2[from.0 as int] == regs[from.0 as int]);
                assert(regs2[to.0 as int] == regs[to.0 as int]);
            },
            Op::Mod2 { from, to } => {
                assert(op_uses(op)[0] == from);
                assert(regs2[from.0 as int] == regs[from.0 as int]);
                assert(regs2[to.0 as int] == regs[to.0 as int]);
            },
            Op::Xor4 { a, b, c, d, to } => {
                assert(op_uses(op)[0] == a && op_uses(op)[1] == b && op_uses(op)[2] == c && op_uses(op)[3] == d);
                assert(regs2[a.0 as int] == regs[a.0 as int]);
                assert(regs2[b.0 as int] == regs[b.0 as int]);
                assert(regs2[c.0 as int] == regs[c.0 as int]);
                assert(regs2[d.0 as int] == regs[d.0 as int]);
                assert(regs2[to.0 as int] == regs[to.0 as int]);
            },
        }
    }
    assert forall|a: Local| #[trigger] live_at(ops, a, k) implies regs2[a.0 as int] == regs[a.0 as int] by {
        let j = choose|j: int| 0 <= j < k && #[trigger] op_defines(ops[j]) == Some(a);
        assert(defined_before(ops, k + 1, a));
    }
    assert forall|a: Local| #[trigger] defined_before(ops, k, a) implies regs2[a.0 as int] == regs[a.0 as int] by {
        let j = choose|j: int| 0 <= j < k && #[trigger] op_defines(ops[j]) == Some(a);
        assert(defined_before(ops, k + 1, a));
    }
    if line.split is Some {
        assert forall|x: usize| #![trigger line.split->0@.contains(x)]
            line.split->0@.contains(x) <==> exists|a: Local| #[trigger] live_at(ops, a, k) && regs2[a.0 as int] == x by {
            if line.split->0@.contains(x) {
                let a = choose|a: Local| #[trigger] live_at(ops, a, k) && regs[a.0 as int] == x;
                assert(live_at(ops, a, k) && regs2[a.0 as int] == x);
            }
            if exists|a: Local| #[trigger] live_at(ops, a, k) && regs2[a.0 as int] == x {
                let a = choose|a: Local| #[trigger] live_at(ops, a, k) && regs2[a.0 as int] == x;
                assert(live_at(ops, a, k) && regs[a.0 as int] == x);
            }
        }
    }
    if let Some(d) = op_defines(op) {
        if !stmt_fresh(line.stmt) {
            let a = choose|a: Local|
                #[trigger] defined_before(ops, k, a) && regs[a.0 as int] == regs[d.0 as int] && freed_in_method(ops, a, lang, k);
            assert(defined_before(ops, k, a) && regs2[a.0 as int] == regs2[d.0 as int]);
        }
    }
}

/// The last read of `l` came before instruction `i`, after the start of the
/// method that holds instruction `i - 1`.
pub open spec fn free_since(ops: Seq<Op>, l: Local, lang: Language, i: int) -> bool {
    last_use(ops, l, ops.len()) matches Some(j) && j < i && (i > 0 ==> method_start(lang, i - 1) <= j)
}

/// Without a new method at `i`, the method of `i` is that of `i - 1`.
proof fn lemma_same_method(lang: Language, i: int)
    requires
        i > 0,
        !(lang == Language::Java && i % 500 == 0),
    ensures
        method_start(lang, i) == method_start(lang, i - 1),
{
    if lang == Language::Java {
        assert((i / 500) * 500 == ((i - 1) / 500) * 500) by (nonlinear_arith)
            requires
                i > 0,
                i % 500 != 0,
        ;
    }
}

/// The local that `op` assigns.
fn defined_local(op: Op) -> (r: Option<Local>)
    ensures
        r == op_defines(op),
{
    match op {
        Op::LoadState { to, .. } => Some(to),
        Op::StoreState { .. } => None,
        Op::Select { to, .. } => Some(to),
        Op::ConcatNimbles { to, .. } => Some(to),
        Op::Nibble { to, .. } => Some(to),
        Op::NibbleDyn { to, .. } => Some(to),
        Op::Div2 { to, .. } => Some(to),
        Op::Mod2 { to, .. } => Some(to),
        Op::Xor4 { to, .. } => Some(to),
    }
}

/// The statement of `op` with the registers that `reg` holds for what it
/// reads, `r` for what it assigns.
fn build_stmt(reg: &RegAlloc, vm: &VM, op: Op, fresh: bool, r: usize, Ghost(regs): Ghost<Seq<usize>>) -> (s: Stmt)
    requires
        forall|u: int|
            0 <= u < op_uses(op).len() ==> (#[trigger] op_uses(op)[u]).0 < reg.allocated@.len() && reg.allocated@[op_uses(op)[u].0 as int]
                == Some(regs[op_uses(op)[u].0 as int]),
        op_memory(op) is Some ==> find_offset(vm.memory@, op_memory(op)->0, 0) is Some,
        op_defines(op) matches Some(d) ==> regs[d.0 as int] == r,
        op_defines(op) is None ==> !fresh,
    ensures
        s == stmt_of(op, regs, vm.memory@, fresh),
        stmt_fresh(s) == fresh,
{
    match op {
        Op::LoadState { idx, to } => Stmt::Assign { reg: r, fresh, value: Expr::State { idx } },
        Op::StoreState { from, to_idx } => {
            assert(op_uses(op)[0] == from);
            Stmt::Store { from: reg.used(from), to_idx }
        },
        Op::Select { mem, idx, to } => {
            assert(op_uses(op)[0] == idx);
            let off = vm.offset_of(mem);
            Stmt::Assign { reg: r, fresh, value: Expr::Table { offset: off.unwrap(), idx: reg.used(idx) } }
        },
        Op::ConcatNimbles { high, low, to } => {
            assert(op_uses(op)[0] == high && op_uses(op)[1] == low);
            Stmt::Assign { reg: r, fresh, value: Expr::Concat { high: reg.used(high), low: reg.used(low) } }
        },
        Op::Nibble { from, nib, to } => {
            assert(op_uses(op)[0] == from);
            Stmt::Assign { reg: r, fresh, value: Expr::Nibble { from: reg.used(from), nib } }
        },
        Op::NibbleDyn { from, nib, to } => {
            assert(op_uses(op)[0] == from && op_uses(op)[1] == nib);
            Stmt::Assign { reg: r, fresh, value: Expr::NibbleDyn { from: reg.used(from), nib: reg.used(nib) } }
        },
        Op::Div2 { from, to } => {
            assert(op_uses(op)[0] == from);
            Stmt::Assign { reg: r, fresh, value: Expr::Div2 { from: reg.used(from) } }
        },
        Op::Mod2 { from, to } => {
            assert(op_uses(op)[0] == from);
            Stmt::Assign { reg: r, fresh, value: Expr::Mod2 { from: reg.used(from) } }
        },
        Op::Xor4 { a, b, c, d, to } => {
            assert(op_uses(op)[0] == a && op_uses(op)[1] == b && op_uses(op)[2] == c && op_uses(op)[3] == d);
            Stmt::Assign {
                reg: r,
                fresh,
                value: Expr::Xor4 { a: reg.used(a), b: reg.used(b), c: reg.used(c), d: reg.used(d) },
            }
        },
    }
}

/// Frees the registers of the locals `freed`.
fn free_all(reg: &mut RegAlloc, freed: &Vec<Local>)
    requires
        old(reg).wf(),
        freed@.no_duplicates(),
        forall|q: int|
            0 <= q < freed@.len() ==> (#[trigger] freed@[q]).0 < old(reg).allocated@.len() && old(reg).allocated@[freed@[q].0 as int] is Some,
    ensures
        final(reg).wf(),
        final(reg).lang == old(reg).lang,
        final(reg).no_reorder == old(reg).no_reorder,
        final(reg).last_allocated == old(reg).last_allocated,
        final(reg).allocated@.len() == old(reg).allocated@.len(),
        forall|a: int|
            0 <= a < old(reg).allocated@.len() ==> #[trigger] final(reg).allocated@[a] == if freed@.contains(Local(a as usize)) {
                None
            } else {
                old(reg).allocated@[a]
            },
        forall|x: usize|
            #[trigger] final(reg).free_list@.contains(x) ==> old(reg).free_list@.contains(x) || exists|q: int|
                0 <= q < freed@.len() && old(reg).allocated@[(#[trigger] freed@[q]).0 as int] == Some(x),
{
    let mut f: usize = 0;
    while f < freed.len()
        invariant
            f <= freed@.len(),
            reg.wf(),
            reg.lang == old(reg).lang,
            reg.no_reorder == old(reg).no_reorder,
            reg.last_allocated == old(reg).last_allocated,
            reg.allocated@.len() == old(reg).allocated@.len(),
            freed@.no_duplicates(),
            forall|q: int|
                0 <= q < freed@.len() ==> (#[trigger] freed@[q]).0 < old(reg).allocated@.len() && old(reg).allocated@[freed@[q].0 as int] is Some,
            forall|a: int|
                0 <= a < old(reg).allocated@.len() ==> #[trigger] reg.allocated@[a] == if freed@.subrange(0, f as int).contains(Local(a as usize)) {
                    None
                } else {
                    old(reg).allocated@[a]
                },
            forall|x: usize|
                #[trigger] reg.free_list@.contains(x) ==> old(reg).free_list@.contains(x) || exists|q: int|
                    0 <= q < freed@.len() && old(reg).allocated@[(#[trigger] freed@[q]).0 as int] == Some(x),
        decreases freed@.len() - f,
    {
        let l = freed[f];
        proof {
            if freed@.subrange(0, f as int).contains(l) {
                let q = choose|q: int| 0 <= q < f && freed@.subrange(0, f as int)[q] == l;
                assert(freed@[q] == freed@[f as int]);
            }
            assert(reg.allocated@[l.0 as int] == old(reg).allocated@[l.0 as int]);
        }
        let ghost before = *reg;
        reg.free(l);
        proof {
            assert forall|a: int| 0 <= a < old(reg).allocated@.len() implies #[trigger] reg.allocated@[a] == if freed@.subrange(
                0,
                f + 1,
            ).contains(Local(a as usize)) {
                None
            } else {
                old(reg).allocated@[a]
            } by {
                assert(freed@.subrange(0, f + 1) == freed@.subrange(0, f as int).push(l));
                if a == l.0 {
                    assert(Local(a as usize) == l);
                    assert(freed@.subrange(0, f + 1)[f as int] == l);
                } else {
                    assert(old(reg).allocated@.len() == old(reg).allocated.len());
                    assert((a as usize) as int == a);
                    assert(Local(a as usize) != l);
                    assert(before.allocated@[a] == reg.allocated@[a]);
                }
            }
            assert forall|x: usize| #[trigger] reg.free_list@.contains(x) implies old(reg).free_list@.contains(x) || exists|q: int|
                0 <= q < freed@.len() && old(reg).allocated@[(#[trigger] freed@[q]).0 as int] == Some(x) by {
                let p = choose|p: int| 0 <= p < reg.free_list@.len() && reg.free_list@[p] == x;
                if p < before.free_list@.len() {
                    assert(before.free_list@[p] == x);
                    assert(before.free_list@.contains(x));
                } else {
                    assert(x == before.allocated@[l.0 as int]->0);
                    assert(old(reg).allocated@[freed@[f as int].0 as int] == Some(x));
                }
            }
        }
        f += 1;
    }
    proof {
        assert(freed@.subrange(0, freed@.len() as int) == freed@);
    }
}

/// The program `ops` of `vm` as statements on registers, in `lang`. A local
/// gets a register when it is assigned: a new one when none is free, else a
/// free one (the first, or a random one unless `no_reorder` is set); the
/// registers of the locals read for the last time are freed after each
/// statement. In Java a new method begins every 500 statements, handed the
/// live registers, and registers freed before it are not reused.
pub fn assign_registers(vm: &VM, ops: &Vec<Op>, lang: Language, no_reorder: bool, rng: &mut rand::rngs::ThreadRng) -> (lines: Vec<Line>)
    requires
        ordered(ops@),
        single_assignment(ops@),
        forall|k: int| 0 <= k < ops@.len() ==> op_locals_below(#[trigger] ops@[k], vm.locals as nat),
        forall|k: int|
            0 <= k < ops@.len() && op_memory(ops@[k]) is Some ==> find_offset(vm.memory@, op_memory(#[trigger] ops@[k])->0, 0) is Some,
    ensures
        exists|regs: Seq<usize>| regs.len() == vm.locals && #[trigger] assigned_as(lines@, ops@, regs, vm.memory@, lang),
{
    let n = ops.len();
    let locals = vm.locals;
    let last = last_uses(ops, locals);
    let mut reg = RegAlloc::new(lang, no_reorder, locals);
    let ghost mut regs: Seq<usize> = Seq::new(locals as nat, |q: int| 0usize);
    let mut lines: Vec<Line> = Vec::new();
    let mut i: usize = 0;
    proof {
        assert forall|a: Local| a.0 < locals implies (reg.allocated@[a.0 as int] is Some <==> #[trigger] live_at(ops@, a, 0)) by {}
    }
    while i < n
        invariant
            n == ops@.len(),
            i <= n,
            locals == vm.locals,
            ordered(ops@),
            single_assignment(ops@),
            forall|k: int| 0 <= k < ops@.len() ==> op_locals_below(#[trigger] ops@[k], locals as nat),
            forall|k: int|
                0 <= k < ops@.len() && op_memory(ops@[k]) is Some ==> find_offset(vm.memory@, op_memory(#[trigger] ops@[k])->0, 0) is Some,
            last@.len() == locals,
            forall|l: int|
                0 <= l < locals ==> match #[trigger] last@[l] {
                    Some(j) => last_use(ops@, Local(l as usize), n as nat) == Some(j as int),
                    None => last_use(ops@, Local(l as usize), n as nat) is None,
                },
            reg.wf(),
            reg.lang == lang,
            reg.no_reorder == no_reorder,
            reg.allocated@.len() == locals,
            regs.len() == locals,
            reg.last_allocated <= i,
            forall|a: Local| a.0 < locals ==> (reg.allocated@[a.0 as int] is Some <==> #[trigger] live_at(ops@, a, i as int)),
            forall|a: Local| #[trigger] live_at(ops@, a, i as int) ==> reg.allocated@[a.0 as int] == Some(regs[a.0 as int]),
            forall|a: Local| #[trigger] defined_before(ops@, i as int, a) ==> regs[a.0 as int] < reg.last_allocated,
            forall|x: usize|
                #[trigger] reg.free_list@.contains(x) ==> exists|a: Local|
                    #[trigger] defined_before(ops@, i as int, a) && regs[a.0 as int] == x && free_since(ops@, a, lang, i as int),
            lines@.len() == i,
            forall|k: int| 0 <= k < i ==> #[trigger] line_ok(lines@[k], ops@, regs, vm.memory@, lang, k),
        decreases n - i,
    {
        let ghost i0 = i as int;
        let ghost ops_s = ops@;
        let split = if lang == Language::Java && i % 500 == 0 && i != 0 {
            Some(reg.split_function())
        } else {
            None
        };
        let ghost r0 = reg;
        proof {
            if !(lang == Language::Java && i % 500 == 0 && i != 0) && i > 0 {
                lemma_same_method(lang, i0);
            }
            assert forall|x: usize| #[trigger] reg.free_list@.contains(x) implies exists|a: Local|
                #[trigger] defined_before(ops_s, i0, a) && regs[a.0 as int] == x && freed_in_method(ops_s, a, lang, i0) by {
                if i > 0 && !(lang == Language::Java && i % 500 == 0) {
                    lemma_same_method(lang, i0);
                }
            }
        }
        let op = ops[i];
        let d = defined_local(op);
        proof {
            assert(op_locals_below(ops_s[i0], locals as nat));
            assert forall|u: int| 0 <= u < op_uses(op).len() implies #[trigger] live_at(ops_s, op_uses(op)[u], i0) by {
                let l = op_uses(op)[u];
                assert(op_uses(op).contains(l));
                lemma_read_live(ops_s, l, i0);
            }
            if d is Some {
                lemma_def_not_read(ops_s, i0);
            }
        }
        let (fresh, r) = match d {
            Some(to) => {
                proof {
                    assert(!live_at(ops_s, to, i0));
                }
                reg.alloc_name(to, rng)
            },
            None => (false, 0),
        };
        let ghost regs1 = match d {
            Some(to) => regs.update(to.0 as int, r),
            None => regs,
        };
        proof {
            assert forall|a: Local| #[trigger] defined_before(ops_s, i0 + 1, a) && d != Some(a) implies defined_before(ops_s, i0, a) by {
                let j = choose|j: int| 0 <= j < i0 + 1 && #[trigger] op_defines(ops_s[j]) == Some(a);
                assert(j != i0);
            }
            assert forall|a: Local| #[trigger] defined_before(ops_s, i0, a) implies regs1[a.0 as int] == regs[a.0 as int] && d != Some(a) by {
                if d is Some {
                    assert(!defined_before(ops_s, i0, d->0));
                }
            }
            assert forall|u: int| 0 <= u < op_uses(op).len() implies (#[trigger] op_uses(op)[u]).0 < reg.allocated@.len()
                && reg.allocated@[op_uses(op)[u].0 as int] == Some(regs1[op_uses(op)[u].0 as int]) by {
                let l = op_uses(op)[u];
                assert(live_at(ops_s, l, i0));
                assert(defined_before(ops_s, i0, l));
                assert(r0.allocated@[l.0 as int] == Some(regs[l.0 as int]));
            }
            assert(op_memory(ops_s[i0]) is Some ==> find_offset(vm.memory@, op_memory(ops_s[i0])->0, 0) is Some);
        }
        let stmt = build_stmt(&reg, vm, op, fresh, r, Ghost(regs1));
        let ghost r1 = reg;
        let freed = freed_after(ops, &last, i);
        proof {
            assert forall|q: int| 0 <= q < freed@.len() implies (#[trigger] freed@[q]).0 < reg.allocated@.len()
                && reg.allocated@[freed@[q].0 as int] is Some by {
                let l = freed@[q];
                assert(freed@.contains(l));
                let u = choose|u: int| 0 <= u < op_uses(op).len() && op_uses(op)[u] == l;
                assert(live_at(ops_s, op_uses(op)[u], i0));
                if d is Some {
                    assert(defined_before(ops_s, i0, l));
                }
            }
        }
        free_all(&mut reg, &freed);
        let line = Line { split, stmt };
        proof {
            let lines0 = lines@;
            // the new line
            assert(line_ok(line, ops_s, regs1, vm.memory@, lang, i0)) by {
                if split is Some {
                    assert forall|x: usize| #![trigger line.split->0@.contains(x)]
                        line.split->0@.contains(x) <==> exists|a: Local| #[trigger] live_at(ops_s, a, i0) && regs1[a.0 as int] == x by {
                        if line.split->0@.contains(x) {
                            let b = choose|b: int| 0 <= b < r0.allocated@.len() && r0.allocated@[b] == Some(x);
                            let a = Local(b as usize);
                            assert(r0.allocated@.len() == r0.allocated.len());
                            assert(a.0 == b);
                            assert(live_at(ops_s, a, i0));
                            assert(defined_before(ops_s, i0, a));
                        }
                        if exists|a: Local| #[trigger] live_at(ops_s, a, i0) && regs1[a.0 as int] == x {
                            let a = choose|a: Local| #[trigger] live_at(ops_s, a, i0) && regs1[a.0 as int] == x;
                            assert(defined_before(ops_s, i0, a));
                            let j = choose|j: int| 0 <= j < i0 && #[trigger] op_defines(ops_s[j]) == Some(a);
                            assert(op_locals_below(ops_s[j], locals as nat));
                            assert(r0.allocated@[a.0 as int] == Some(x));
                        }
                    }
                }
                if let Some(to) = d {
                    assert forall|a: Local| #[trigger] live_at(ops_s, a, i0) implies regs1[a.0 as int] != regs1[to.0 as int] by {
                        assert(defined_before(ops_s, i0, a));
                        let j = choose|j: int| 0 <= j < i0 && #[trigger] op_defines(ops_s[j]) == Some(a);
                        assert(op_locals_below(ops_s[j], locals as nat));
                        assert(a.0 != to.0);
                    }
                    if fresh {
                        assert forall|a: Local| #[trigger] defined_before(ops_s, i0, a) implies regs1[a.0 as int] != regs1[to.0 as int] by {}
                    } else {
                        assert(r0.free_list@.contains(r));
                        let a = choose|a: Local|
                            #[trigger] defined_before(ops_s, i0, a) && regs[a.0 as int] == r && freed_in_method(ops_s, a, lang, i0);
                        assert(defined_before(ops_s, i0, a) && regs1[a.0 as int] == regs1[to.0 as int] && freed_in_method(ops_s, a, lang, i0));
                    }
                }
            }
        }
        lines.push(line);
        proof {
            let i1 = i0 + 1;
            // earlier lines stay right with the new register
            assert forall|k: int| 0 <= k < i1 implies #[trigger] line_ok(lines@[k], ops_s, regs1, vm.memory@, lang, k) by {
                if k < i0 {
                    assert(lines@[k] == lines@.drop_last()[k]);
                    assert forall|a: Local| #[trigger] defined_before(ops_s, k + 1, a) implies regs1[a.0 as int] == regs[a.0 as int] by {
                        let j = choose|j: int| 0 <= j < k + 1 && #[trigger] op_defines(ops_s[j]) == Some(a);
                        assert(defined_before(ops_s, i0, a));
                    }
                    lemma_line_ok_extend(lines@[k], ops_s, regs, regs1, vm.memory@, lang, k);
                }
            }
            // liveness at the next instruction
            assert forall|a: Local| a.0 < locals implies (reg.allocated@[a.0 as int] is Some <==> #[trigger] live_at(ops_s, a, i1)) && (live_at(
                ops_s,
                a,
                i1,
            ) ==> reg.allocated@[a.0 as int] == Some(regs1[a.0 as int])) by {
                lemma_last_use(ops_s, a, n as nat);
                assert(Local(a.0 as usize) == a);
                let fr = freed@.contains(a);
                assert(reg.allocated@[a.0 as int] == if fr { None } else { r1.allocated@[a.0 as int] });
                assert(fr <==> (op_uses(op).contains(a) && last@[a.0 as int] == Some(i)));
                assert(last@[a.0 as int] == Some(i) <==> last_use(ops_s, a, n as nat) == Some(i0));
                if d == Some(a) {
                    lemma_def_not_read(ops_s, i0);
                    assert(op_defines(ops_s[i0]) == Some(a));
                    assert(defined_before(ops_s, i1, a));
                    assert(!fr);
                    assert(r1.allocated@[a.0 as int] == Some(r));
                    assert(regs1[a.0 as int] == r);
                    assert(live_at(ops_s, a, i1));
                } else {
                    assert(d is None || a.0 != (d->0).0);
                    assert(regs1[a.0 as int] == regs[a.0 as int]);
                    assert(r1.allocated@[a.0 as int] == r0.allocated@[a.0 as int]);
                    if defined_before(ops_s, i1, a) {
                        let j = choose|j: int| 0 <= j < i1 && #[trigger] op_defines(ops_s[j]) == Some(a);
                        assert(j != i0);
                        assert(defined_before(ops_s, i0, a));
                    }
                    if defined_before(ops_s, i0, a) {
                        let j = choose|j: int| 0 <= j < i0 && #[trigger] op_defines(ops_s[j]) == Some(a);
                        assert(defined_before(ops_s, i1, a));
                    }
                    if last_use(ops_s, a, n as nat) == Some(i0) {
                        assert(op_uses(ops_s[i0]).contains(a));
                        assert(fr);
                    }
                    if fr {
                        assert(last_use(ops_s, a, n as nat) == Some(i0));
                        assert(!live_at(ops_s, a, i1));
                    } else {
                        assert(live_at(ops_s, a, i1) == live_at(ops_s, a, i0));
                    }
                }
            }
            assert forall|a: Local| #[trigger] live_at(ops_s, a, i1) implies reg.allocated@[a.0 as int] == Some(regs1[a.0 as int]) by {
                assert(defined_before(ops_s, i1, a));
                let j = choose|j: int| 0 <= j < i1 && #[trigger] op_defines(ops_s[j]) == Some(a);
                assert(op_locals_below(ops_s[j], locals as nat));
            }
            assert forall|a: Local| #[trigger] defined_before(ops_s, i1, a) implies regs1[a.0 as int] < reg.last_allocated by {
                if d != Some(a) {
                    assert(defined_before(ops_s, i0, a));
                }
            }
            assert forall|x: usize| #[trigger] reg.free_list@.contains(x) implies exists|a: Local|
                #[trigger] defined_before(ops_s, i1, a) && regs1[a.0 as int] == x && free_since(ops_s, a, lang, i1) by {
                if r1.free_list@.contains(x) {
                    assert(r0.free_list@.contains(x));
                    let a = choose|a: Local|
                        #[trigger] defined_before(ops_s, i0, a) && regs[a.0 as int] == x && freed_in_method(ops_s, a, lang, i0);
                    assert(defined_before(ops_s, i1, a)) by {
                        let j = choose|j: int| 0 <= j < i0 && #[trigger] op_defines(ops_s[j]) == Some(a);
                    }
                    assert(free_since(ops_s, a, lang, i1));
                } else {
                    let q = choose|q: int| 0 <= q < freed@.len() && r1.allocated@[(#[trigger] freed@[q]).0 as int] == Some(x);
                    let a = freed@[q];
                    assert(freed@.contains(a));
                    let u = choose|u: int| 0 <= u < op_uses(op).len() && op_uses(op)[u] == a;
                    assert(live_at(ops_s, op_uses(op)[u], i0));
                    assert(defined_before(ops_s, i0, a));
                    let j = choose|j: int| 0 <= j < i0 && #[trigger] op_defines(ops_s[j]) == Some(a);
                    assert(op_locals_below(ops_s[j], locals as nat));
                    assert(last@[a.0 as int] == Some(i));
                    assert(Local(a.0 as usize) == a);
                    assert(defined_before(ops_s, i1, a));
                    assert(r0.allocated@[a.0 as int] == Some(regs[a.0 as int]));
                }
            }
        }
        proof {
            regs = regs1;
        }
        i += 1;
    }
    proof {
        assert(assigned_as(lines@, ops@, regs, vm.memory@, lang));
    }
    lines
}

/// Reordering keeps every local assigned by one instruction.
pub(crate) proof fn lemma_reorders_single_assignment(out: Seq<Op>, ops: Seq<Op>, perm: Seq<int>)
    requires
        reorders(out, ops, perm),
        single_assignment(ops),
    ensures
        single_assignment(out),
{
    assert forall|a: int, b: int|
        0 <= a < out.len() && 0 <= b < out.len() && a != b && op_defines(out[a]) is Some implies #[trigger] op_defines(out[a])
        != #[trigger] op_defines(out[b]) by {
        assert(out[a] == ops[perm[a]] && out[b] == ops[perm[b]]);
        assert(perm[a] != perm[b]);
    }
}

/// A table with id `id` at `i` or later is found.
pub(crate) proof fn lemma_find_offset_some(memory: Seq<Memory>, id: MemoryId, s: nat, i: int)
    requires
        s <= i < memory.len(),
        memory[i].id == id,
    ensures
        find_offset(memory, id, s) is Some,
    decreases memory.len() - s,
{
    if memory[s as int].id != id {
        lemma_find_offset_some(memory, id, s + 1, i);
    }
}

/// `bytes` and `lines` print the program `vm`, which is `c`, a program that
/// computes the cipher of `tables`, with its tables laid out; `ops` are its
/// instructions reordered, and `regs` the registers of its locals.
pub open spec fn printed_program<const NRM1: usize>(
    tables: Tables<NRM1>,
    bytes: Seq<u8>,
    lines: Seq<Line>,
    lang: Language,
    c: VM,
    vm: VM,
    ops: Seq<Op>,
    regs: Seq<usize>,
) -> bool {
    &&& c.computes(tables)
    &&& vm.laid_out_from(c)
    &&& ordered(ops)
    &&& exists|perm: Seq<int>| reorders(ops, vm.ops@, perm)
    &&& bytes.len() == memory_offset(vm.memory@, vm.memory@.len())
    &&& forall|i: int, b: int|
        0 <= i < vm.memory@.len() && 0 <= b < vm.memory@[i].data@.len() ==> bytes[memory_offset(vm.memory@, i as nat) + b]
            == #[trigger] vm.memory@[i].data@[b]
    &&& regs.len() == vm.locals
    &&& assigned_as(lines, ops, regs, vm.memory@, lang)
}

/// The program that computes the cipher of `tables`, ready to print in
/// `lang`: the bytes of all its tables, one after the other, and its
/// statements on registers.
pub fn whitebox_program<const NRM1: usize>(tables: &Tables<NRM1>, lang: Language, no_reorder: bool, rng: &mut rand::rngs::ThreadRng) -> (r: (Vec<u8>, Vec<Line>))
    requires
        tables.wf(),
        81920 * NRM1 + 4096 <= usize::MAX,
    ensures
        exists|c: VM, vm: VM, ops: Seq<Op>, regs: Seq<usize>| #[trigger] printed_program(*tables, r.0@, r.1@, lang, c, vm, ops, regs),
        forall|input: Seq<u8>| input.len() == 16 ==> #[trigger] stored(run_lines(r.1@, r.0@, input).1) == tables.cipher_spec(input),
{
    let (vm, ops) = vm_program(tables, no_reorder, rng);
    let ghost c = choose|c: VM| #[trigger] vm.laid_out_from(c) && c.computes(*tables);
    let ghost perm = choose|perm: Seq<int>| reorders(ops@, vm.ops@, perm);
    proof {
        lemma_reorders_single_assignment(ops@, vm.ops@, perm);
        assert forall|k: int| 0 <= k < ops@.len() implies op_locals_below(#[trigger] ops@[k], vm.locals as nat)
            && (op_memory(ops@[k]) is Some ==> find_offset(vm.memory@, op_memory(ops@[k])->0, 0) is Some) by {
            let j = perm[k];
            assert(ops@[k] == c.ops@[j]);
            assert(op_in_range(c.ops@[j], c.locals as nat, c.memory@.len()));
            if let Some(m) = op_memory(ops@[k]) {
                assert(c.memory@[m.0 as int].id.0 == m.0);
                assert(has_table(vm.memory@, c.memory@[m.0 as int].id, c.memory@[m.0 as int].data@));
                let i = choose|i: int| 0 <= i < vm.memory@.len() && vm.memory@[i].id == c.memory@[m.0 as int].id && vm.memory@[i].data@ == c.memory@[m.0 as int].data@;
                lemma_find_offset_some(vm.memory@, m, 0, i);
            }
        }
    }
    let bytes = vm.memory_bytes();
    let lines = assign_registers(&vm, &ops, lang, no_reorder, rng);
    let ghost regs = choose|regs: Seq<usize>| regs.len() == vm.locals && #[trigger] assigned_as(lines@, ops@, regs, vm.memory@, lang);
    proof {
        assert(printed_program(*tables, bytes@, lines@, lang, c, vm, ops@, regs));
    }
    let r = (bytes, lines);
    assert(printed_program(*tables, r.0@, r.1@, lang, c, vm, ops@, regs));
    assert forall|input: Seq<u8>| input.len() == 16 implies #[trigger] stored(run_lines(r.1@, r.0@, input).1) == tables.cipher_spec(input) by {
        lemma_printed_program_computes(*tables, r.0@, r.1@, lang, c, vm, ops@, regs, input);
    }
    r
}

} // verus!
