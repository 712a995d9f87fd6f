use rand::rng;

use pykrete_wb::key::Aes128Key;
use pykrete_wb::tables::Aes128Tables;
use std::collections::HashMap;

use pykrete_wb::emit::{whitebox_program, Expr, Line, Stmt};
use pykrete_wb::vm::{freed_after, last_uses, schedule, vm_program, Language, Local, MemoryId, Op, RegAlloc, VM};
use pykrete_wb::{HighLow, Security, State};

fn uses(op: &Op) -> Vec<usize> {
    match *op {
        Op::LoadState { .. } => vec![],
        Op::StoreState { from, .. } => vec![from.0],
        Op::Select { idx, .. } => vec![idx.0],
        Op::ConcatNimbles { high, low, .. } => vec![high.0, low.0],
        Op::Nibble { from, .. } => vec![from.0],
        Op::NibbleDyn { from, nib, .. } => vec![from.0, nib.0],
        Op::Div2 { from, .. } => vec![from.0],
        Op::Mod2 { from, .. } => vec![from.0],
        Op::Xor4 { a, b, c, d, .. } => vec![a.0, b.0, c.0, d.0],
    }
}

fn defines(op: &Op) -> Option<usize> {
    match *op {
        Op::LoadState { to, .. }
        | Op::Select { to, .. }
        | Op::ConcatNimbles { to, .. }
        | Op::Nibble { to, .. }
        | Op::NibbleDyn { to, .. }
        | Op::Div2 { to, .. }
        | Op::Mod2 { to, .. }
        | Op::Xor4 { to, .. } => Some(to.0),
        Op::StoreState { .. } => None,
    }
}

/// Runs the printed form of the program: all tables in one array, each at
/// its offset.
fn run(vm: &VM, ops: &[Op], d: &mut [u8; 16]) {
    let mut m = vec![0u8; 0];
    for t in vm.memory.iter() {
        assert_eq!(t.cont_offset, m.len());
        m.extend_from_slice(&t.data);
    }
    let mut l = vec![0u8; vm.locals];
    for op in ops {
        match *op {
            Op::LoadState { idx, to } => l[to.0] = d[idx],
            Op::StoreState { from, to_idx } => d[to_idx] = l[from.0],
            Op::Select { mem, idx, to } => {
                let off = vm.offset_of(mem).unwrap();
                l[to.0] = m[off + l[idx.0] as usize];
            }
            Op::ConcatNimbles { high, low, to } => l[to.0] = (l[high.0] << 4) | l[low.0],
            Op::Nibble { from, nib, to } => {
                l[to.0] = match nib {
                    HighLow::High => l[from.0] >> 4,
                    HighLow::Low => l[from.0] & 15,
                }
            }
            Op::NibbleDyn { from, nib, to } => l[to.0] = (l[from.0] >> (4 * l[nib.0])) & 15,
            Op::Div2 { from, to } => l[to.0] = l[from.0] >> 1,
            Op::Mod2 { from, to } => l[to.0] = l[from.0] & 1,
            Op::Xor4 { a, b, c, d: dd, to } => l[to.0] = l[a.0] ^ l[b.0] ^ l[c.0] ^ l[dd.0],
        }
    }
}

fn check_program(tables: &Aes128Tables, no_reorder: bool) {
    let (vm, ops) = vm_program(tables, no_reorder, &mut rng());
    assert_eq!(ops.len(), vm.ops.len());
    let mut defined = vec![false; vm.locals];
    for op in ops.iter() {
        for u in uses(op) {
            assert!(defined[u], "local read before it is assigned");
        }
        if let Some(t) = defines(op) {
            assert!(!defined[t], "local assigned twice");
            defined[t] = true;
        }
    }
    let blocks: [[u8; 16]; 3] = [
        [0; 16],
        [0x32, 0x43, 0xf6, 0xa8, 0x88, 0x5a, 0x30, 0x8d, 0x31, 0x31, 0x98, 0xa2, 0xe0, 0x37, 0x07, 0x34],
        [0xff; 16],
    ];
    for block in blocks {
        let mut expected = State(block);
        tables.cipher(&mut expected);
        let mut d = block;
        run(&vm, &ops, &mut d);
        assert_eq!(d, expected.0);
    }
}

#[test]
fn program_computes_plain_tables() {
    let tables = Aes128Tables::from_key(Aes128Key::kung_fu_test_vector(), false);
    check_program(&tables, true);
    check_program(&tables, false);
}

#[test]
fn program_computes_secured_tables() {
    let mut tables = Aes128Tables::from_key(Aes128Key::nist_cfb_e2(), false);
    tables.apply_security(Security::full(), &mut rng());
    check_program(&tables, false);
    let mut inv = Aes128Tables::from_key(Aes128Key::nist_cfb_e2(), true);
    inv.apply_security(Security::full(), &mut rng());
    check_program(&inv, true);
}

#[test]
fn plain_program_matches_aes() {
    let tables = Aes128Tables::from_key(Aes128Key::kung_fu_test_vector(), false);
    let (vm, ops) = vm_program(&tables, false, &mut rng());
    let mut d = State::two_one_nine_two_test_vector().0;
    run(&vm, &ops, &mut d);
    assert_eq!(d, State::two_one_nine_two_aes128_kung_fu_test_vector().0);
}

fn small_program() -> Vec<Op> {
    vec![
        Op::LoadState { idx: 0, to: Local(0) },
        Op::LoadState { idx: 1, to: Local(1) },
        Op::Div2 { from: Local(0), to: Local(2) },
        Op::Xor4 { a: Local(2), b: Local(1), c: Local(0), d: Local(2), to: Local(3) },
        Op::StoreState { from: Local(3), to_idx: 0 },
    ]
}

#[test]
fn schedule_keeps_order_without_reorder() {
    let ops = small_program();
    let out = schedule(&ops, 4, true, &mut rng());
    assert_eq!(out.len(), ops.len());
    for (a, b) in out.iter().zip(ops.iter()) {
        assert_eq!(uses(a), uses(b));
        assert_eq!(defines(a), defines(b));
    }
}

#[test]
fn schedule_respects_dependencies() {
    let ops = small_program();
    for _ in 0..20 {
        let out = schedule(&ops, 4, false, &mut rng());
        assert_eq!(out.len(), ops.len());
        let mut defined = [false; 4];
        for op in out.iter() {
            for u in uses(op) {
                assert!(defined[u]);
            }
            if let Some(t) = defines(op) {
                defined[t] = true;
            }
        }
        assert!(matches!(out[out.len() - 1], Op::StoreState { to_idx: 0, .. }));
    }
}

#[test]
fn last_uses_of_small_program() {
    let ops = small_program();
    let last = last_uses(&ops, 5);
    assert_eq!(last, vec![Some(3), Some(3), Some(3), Some(4), None]);
    let freed = freed_after(&ops, &last, 3);
    let mut freed: Vec<usize> = freed.iter().map(|l| l.0).collect();
    freed.sort();
    assert_eq!(freed, vec![0, 1, 2]);
    assert!(freed_after(&ops, &last, 2).is_empty());
    assert_eq!(freed_after(&ops, &last, 4), vec![Local(3)]);
}

#[test]
fn registers_are_reused_after_free() {
    let mut r = rng();
    let mut reg = RegAlloc::new(Language::Js, true, 4);
    assert_eq!(reg.alloc_name(Local(0), &mut r), (true, 0));
    assert_eq!(reg.alloc_name(Local(1), &mut r), (true, 1));
    assert_eq!(reg.used(Local(1)), 1);
    reg.free(Local(0));
    assert_eq!(reg.alloc_name(Local(2), &mut r), (false, 0));
    assert_eq!(reg.alloc_name(Local(3), &mut r), (true, 2));
    assert_eq!(reg.used(Local(2)), 0);
    assert_eq!(reg.used(Local(3)), 2);
}

#[test]
fn split_function_passes_live_registers() {
    let mut r = rng();
    let mut reg = RegAlloc::new(Language::Java, false, 3);
    reg.alloc_name(Local(0), &mut r);
    reg.alloc_name(Local(1), &mut r);
    reg.alloc_name(Local(2), &mut r);
    reg.free(Local(1));
    let mut pass = reg.split_function();
    pass.sort();
    assert_eq!(pass, vec![0, 2]);
    assert!(reg.free_list.is_empty());
    assert_eq!(reg.alloc_name(Local(1), &mut r), (true, 3));
}

#[test]
fn offsets_follow_table_lengths() {
    let mut vm = VM::new();
    let a = vm.alloc_memory(vec![1, 2, 3]);
    let b = vm.alloc_memory(vec![4, 5]);
    vm.finalize_memory(true, &mut rng());
    assert_eq!(vm.offset_of(a), Some(0));
    assert_eq!(vm.offset_of(b), Some(3));
    assert_eq!(vm.offset_of(MemoryId(7)), None);
}

/// Runs the printed statements as the generated code would: a register must
/// be declared (fresh) once before it is reassigned or read, and a new
/// method only sees the registers handed to it.
fn run_lines(m: &[u8], lines: &[Line], d: &mut [u8; 16]) {
    let mut regs: HashMap<usize, u8> = HashMap::new();
    let get = |regs: &HashMap<usize, u8>, r: usize| *regs.get(&r).expect("register read before it is in scope");
    for line in lines {
        if let Some(pass) = &line.split {
            let mut next = HashMap::new();
            for r in pass {
                assert!(next.insert(*r, get(&regs, *r)).is_none(), "register handed twice");
            }
            regs = next;
        }
        match line.stmt {
            Stmt::Assign { reg, fresh, value } => {
                let v = match value {
                    Expr::State { idx } => d[idx],
                    Expr::Table { offset, idx } => m[offset + get(&regs, idx) as usize],
                    Expr::Concat { high, low } => (get(&regs, high) << 4) | get(&regs, low),
                    Expr::Nibble { from, nib: HighLow::High } => get(&regs, from) >> 4,
                    Expr::Nibble { from, nib: HighLow::Low } => get(&regs, from) & 15,
                    Expr::NibbleDyn { from, nib } => (get(&regs, from) >> (4 * get(&regs, nib))) & 15,
                    Expr::Div2 { from } => get(&regs, from) >> 1,
                    Expr::Mod2 { from } => get(&regs, from) & 1,
                    Expr::Xor4 { a, b, c, d: dd } => get(&regs, a) ^ get(&regs, b) ^ get(&regs, c) ^ get(&regs, dd),
                };
                assert_eq!(fresh, !regs.contains_key(&reg), "fresh exactly when the register is not in scope");
                regs.insert(reg, v);
            }
            Stmt::Store { from, to_idx } => d[to_idx] = get(&regs, from),
        }
    }
}

fn check_lines(tables: &Aes128Tables, lang: Language, no_reorder: bool) {
    let (m, lines) = whitebox_program(tables, lang, no_reorder, &mut rng());
    for (k, line) in lines.iter().enumerate() {
        assert_eq!(line.split.is_some(), lang == Language::Java && k % 500 == 0 && k != 0);
    }
    let blocks: [[u8; 16]; 2] = [
        [0x32, 0x43, 0xf6, 0xa8, 0x88, 0x5a, 0x30, 0x8d, 0x31, 0x31, 0x98, 0xa2, 0xe0, 0x37, 0x07, 0x34],
        [0x5a; 16],
    ];
    for block in blocks {
        let mut expected = State(block);
        tables.cipher(&mut expected);
        let mut d = block;
        run_lines(&m, &lines, &mut d);
        assert_eq!(d, expected.0);
    }
}

#[test]
fn printed_statements_compute_tables() {
    let mut tables = Aes128Tables::from_key(Aes128Key::nist_cfb_e2(), false);
    check_lines(&tables, Language::Js, true);
    check_lines(&tables, Language::Python, false);
    tables.apply_security(Security::full(), &mut rng());
    check_lines(&tables, Language::Rust, false);
    check_lines(&tables, Language::Java, false);
    check_lines(&tables, Language::Java, true);
}

#[test]
fn printed_statements_match_aes() {
    let tables = Aes128Tables::from_key(Aes128Key::kung_fu_test_vector(), false);
    let (m, lines) = whitebox_program(&tables, Language::Js, false, &mut rng());
    let mut d = State::two_one_nine_two_test_vector().0;
    run_lines(&m, &lines, &mut d);
    assert_eq!(d, State::two_one_nine_two_aes128_kung_fu_test_vector().0);
}

#[test]
fn memory_bytes_concatenate_tables() {
    let mut vm = VM::new();
    let a = vm.alloc_memory(vec![1, 2, 3]);
    let b = vm.alloc_memory(vec![4, 5]);
    let c = vm.alloc_memory(vec![6]);
    vm.finalize_memory(false, &mut rng());
    let bytes = vm.memory_bytes();
    assert_eq!(bytes.len(), 6);
    let check = |id: MemoryId, data: &[u8]| {
        let off = vm.offset_of(id).unwrap();
        assert_eq!(&bytes[off..off + data.len()], data);
    };
    check(a, &[1, 2, 3]);
    check(b, &[4, 5]);
    check(c, &[6]);
}

#[test]
fn registers_of_printed_program_stay_few() {
    let tables = Aes128Tables::from_key(Aes128Key::nist_cfb_e2(), false);
    let (vm, ops) = vm_program(&tables, true, &mut rng());
    let lines = pykrete_wb::emit::assign_registers(&vm, &ops, Language::Python, true, &mut rng());
    assert_eq!(lines.len(), ops.len());
    let mut highest = 0;
    for line in lines.iter() {
        if let Stmt::Assign { reg, .. } = line.stmt {
            highest = highest.max(reg);
        }
    }
    // Far fewer registers than locals: registers are reused once freed.
    assert!(highest < vm.locals / 4);
}
