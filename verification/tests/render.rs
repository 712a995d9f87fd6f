use pykrete_wb::emit::{Expr, Stmt};
use pykrete_wb::render::{render_reg, render_stmt};
use pykrete_wb::vm::Language;
use pykrete_wb::HighLow;

fn s(bytes: Vec<u8>) -> String {
    String::from_utf8(bytes).unwrap()
}

fn assign(reg: usize, fresh: bool, value: Expr) -> Stmt {
    Stmt::Assign { reg, fresh, value }
}

#[test]
fn registers_are_named_by_number() {
    assert_eq!(s(render_reg(0)), "r0");
    assert_eq!(s(render_reg(7)), "r7");
    assert_eq!(s(render_reg(10)), "r10");
    assert_eq!(s(render_reg(4093)), "r4093");
}

#[test]
fn expressions_in_every_language() {
    let js = Language::Js;
    assert_eq!(s(render_stmt(&assign(1, false, Expr::State { idx: 15 }), js)), "r1=d[15]");
    assert_eq!(s(render_stmt(&assign(2, false, Expr::Table { offset: 1024, idx: 3 }), js)), "r2=M[1024+r3]");
    assert_eq!(
        s(render_stmt(&assign(2, false, Expr::Table { offset: 0, idx: 3 }), Language::Rust)),
        "r2=M[0+r3 as usize]"
    );
    assert_eq!(s(render_stmt(&assign(4, false, Expr::Concat { high: 5, low: 6 }), js)), "r4=(r5<<4)|r6");
    assert_eq!(s(render_stmt(&assign(4, false, Expr::Nibble { from: 9, nib: HighLow::High }), js)), "r4=r9>>4");
    assert_eq!(s(render_stmt(&assign(4, false, Expr::Nibble { from: 9, nib: HighLow::Low }), js)), "r4=r9&15");
    assert_eq!(s(render_stmt(&assign(4, false, Expr::NibbleDyn { from: 9, nib: 2 }), js)), "r4=(r9>>(4*r2))&15");
    assert_eq!(s(render_stmt(&assign(4, false, Expr::Div2 { from: 12 }), js)), "r4=r12>>1");
    assert_eq!(s(render_stmt(&assign(4, false, Expr::Mod2 { from: 12 }), js)), "r4=r12&1");
    assert_eq!(s(render_stmt(&assign(4, false, Expr::Xor4 { a: 0, b: 1, c: 2, d: 3 }), js)), "r4=r0^r1^r2^r3");
}

#[test]
fn fresh_registers_are_declared() {
    let e = Expr::State { idx: 0 };
    assert_eq!(s(render_stmt(&assign(3, true, e), Language::Js)), "let r3=d[0]");
    assert_eq!(s(render_stmt(&assign(3, true, e), Language::Rust)), "let mut r3:u8=d[0]");
    assert_eq!(s(render_stmt(&assign(3, true, e), Language::Java)), "int r3=d[0]");
    assert_eq!(s(render_stmt(&assign(3, true, e), Language::Python)), "r3=d[0]");
}

#[test]
fn stores() {
    let st = Stmt::Store { from: 8, to_idx: 11 };
    assert_eq!(s(render_stmt(&st, Language::Js)), "d[11]=r8");
    assert_eq!(s(render_stmt(&st, Language::Java)), "d[11]=(byte) r8");
}
