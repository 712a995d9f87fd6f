//! The text of the printed program: registers, expressions and statements
//! as ASCII bytes in the syntax of each target language. Literal text is
//! written as its ASCII codes, with the text beside it.

use vstd::prelude::*;

use crate::emit::{Expr, Stmt};
use crate::vm::Language;
use crate::HighLow;

verus! {

/// The decimal digits of `n`, most significant first.
pub open spec fn decimal(n: nat) -> Seq<u8>
    decreases n,
{
    if n < 10 {
        seq![(48 + n) as u8]
    } else {
        decimal(n / 10).push((48 + n % 10) as u8)
    }
}

/// The name of register `r`: `r` followed by its number.
pub open spec fn reg_text(r: nat) -> Seq<u8> {
    seq![114u8] + decimal(r)  // "r"
}

/// The text of an expression.
pub open spec fn expr_text(e: Expr, lang: Language) -> Seq<u8> {
    match e {
        Expr::State { idx } => seq![100u8, 91u8] + decimal(idx as nat) + seq![93u8],  // "d[" "]"
        Expr::Table { offset, idx } => seq![77u8, 91u8] + decimal(offset as nat) + seq![43u8] + reg_text(idx as nat) + if lang is Rust {  // "M[" "+"
            seq![32u8, 97u8, 115u8, 32u8, 117u8, 115u8, 105u8, 122u8, 101u8, 93u8]  // " as usize]"
        } else {
            seq![93u8]  // "]"
        },
        Expr::Concat { high, low } => seq![40u8] + reg_text(high as nat) + seq![60u8, 60u8, 52u8, 41u8, 124u8] + reg_text(low as nat),  // "(" "<<4)|"
        Expr::Nibble { from, nib } => reg_text(from as nat) + match nib {
            HighLow::High => seq![62u8, 62u8, 52u8],  // ">>4"
            HighLow::Low => seq![38u8, 49u8, 53u8],  // "&15"
        },
        Expr::NibbleDyn { from, nib } => seq![40u8] + reg_text(from as nat) + seq![62u8, 62u8, 40u8, 52u8, 42u8] + reg_text(nib as nat)  // "(" ">>(4*"
            + seq![41u8, 41u8, 38u8, 49u8, 53u8],  // "))&15"
        Expr::Div2 { from } => reg_text(from as nat) + seq![62u8, 62u8, 49u8],  // ">>1"
        Expr::Mod2 { from } => reg_text(from as nat) + seq![38u8, 49u8],  // "&1"
        Expr::Xor4 { a, b, c, d } => reg_text(a as nat) + seq![94u8] + reg_text(b as nat) + seq![94u8] + reg_text(c as nat) + seq![94u8]  // "^" "^" "^"
            + reg_text(d as nat),
    }
}

/// The text of a statement. A register assigned for the first time is
/// declared in JavaScript (`let`), Rust (`let mut`, a byte) and Java (`int`).
pub open spec fn stmt_text(s: Stmt, lang: Language) -> Seq<u8> {
    match s {
        Stmt::Assign { reg, fresh, value } => {
            let decl = if !fresh {
                Seq::empty()
            } else {
                match lang {
                    Language::Js => seq![108u8, 101u8, 116u8, 32u8],  // "let "
                    Language::Rust => seq![108u8, 101u8, 116u8, 32u8, 109u8, 117u8, 116u8, 32u8],  // "let mut "
                    Language::Java => seq![105u8, 110u8, 116u8, 32u8],  // "int "
                    Language::Python => Seq::empty(),
                }
            };
            let ty = if fresh && lang is Rust {
                seq![58u8, 117u8, 56u8]  // ":u8"
            } else {
                Seq::empty()
            };
            decl + reg_text(reg as nat) + ty + seq![61u8] + expr_text(value, lang)  // "="
        },
        Stmt::Store { from, to_idx } => seq![100u8, 91u8] + decimal(to_idx as nat) + seq![93u8, 61u8] + if lang is Java {  // "d[" "]="
            seq![40u8, 98u8, 121u8, 116u8, 101u8, 41u8, 32u8]  // "(byte) "
        } else {
            Seq::empty()
        } + reg_text(from as nat),
    }
}

/// Appends the bytes of `lit`.
fn push_lit<const N: usize>(out: &mut Vec<u8>, lit: [u8; N])
    ensures
        final(out)@ == old(out)@ + lit@,
{
    let mut i: usize = 0;
    while i < N
        invariant
            i <= N,
            out@ == old(out)@ + lit@.subrange(0, i as int),
        decreases N - i,
    {
        out.push(lit[i]);
        assert(lit@.subrange(0, i + 1) =~= lit@.subrange(0, i as int).push(lit[i as int]));
        i += 1;
    }
    assert(lit@.subrange(0, N as int) =~= lit@);
}

/// Appends the decimal digits of `n`.
fn push_decimal(out: &mut Vec<u8>, n: usize)
    ensures
        final(out)@ == old(out)@ + decimal(n as nat),
    decreases n,
{
    if n >= 10 {
        push_decimal(out, n / 10);
    }
    let d = n % 10;
    out.push(48 + d as u8);
    proof {
        if n >= 10 {
            assert(old(out)@ + decimal(n as nat) =~= (old(out)@ + decimal((n / 10) as nat)).push((48 + n % 10) as u8));
        } else {
            assert(decimal(n as nat) =~= seq![(48 + n) as u8]);
        }
    }
}

/// Appends the name of register `r`.
fn push_reg(out: &mut Vec<u8>, r: usize)
    ensures
        final(out)@ == old(out)@ + reg_text(r as nat),
{
    push_lit(out, [114u8]);  // "r"
    push_decimal(out, r);
    assert(old(out)@ + reg_text(r as nat) =~= old(out)@ + seq![114u8] + decimal(r as nat));  // "r"
}

/// The name of register `r`, as it is printed.
pub fn render_reg(r: usize) -> (t: Vec<u8>)
    ensures
        t@ == reg_text(r as nat),
        reg_end(t@) == Some(r as nat),
{
    let mut out = Vec::new();
    push_reg(&mut out, r);
    assert(out@ =~= reg_text(r as nat));
    proof {
        lemma_read_reg(r as nat, Seq::empty());
        assert(reg_text(r as nat) + Seq::<u8>::empty() =~= reg_text(r as nat));
    }
    out
}

/// Appends the text of `e`.
fn push_expr(out: &mut Vec<u8>, e: &Expr, lang: Language)
    ensures
        final(out)@ == old(out)@ + expr_text(*e, lang),
{
    let ghost o = out@;
    match *e {
        Expr::State { idx } => {
            push_lit(out, [100u8, 91u8]);  // "d["
            push_decimal(out, idx);
            push_lit(out, [93u8]);  // "]"
        },
        Expr::Table { offset, idx } => {
            push_lit(out, [77u8, 91u8]);  // "M["
            push_decimal(out, offset);
            push_lit(out, [43u8]);  // "+"
            push_reg(out, idx);
            match lang {
                Language::Rust => push_lit(out, [32u8, 97u8, 115u8, 32u8, 117u8, 115u8, 105u8, 122u8, 101u8, 93u8]),  // " as usize]"
                _ => push_lit(out, [93u8]),  // "]"
            }
        },
        Expr::Concat { high, low } => {
            push_lit(out, [40u8]);  // "("
            push_reg(out, high);
            push_lit(out, [60u8, 60u8, 52u8, 41u8, 124u8]);  // "<<4)|"
            push_reg(out, low);
        },
        Expr::Nibble { from, nib } => {
            push_reg(out, from);
            match nib {
                HighLow::High => push_lit(out, [62u8, 62u8, 52u8]),  // ">>4"
                HighLow::Low => push_lit(out, [38u8, 49u8, 53u8]),  // "&15"
            }
        },
        Expr::NibbleDyn { from, nib } => {
            push_lit(out, [40u8]);  // "("
            push_reg(out, from);
            push_lit(out, [62u8, 62u8, 40u8, 52u8, 42u8]);  // ">>(4*"
            push_reg(out, nib);
            push_lit(out, [41u8, 41u8, 38u8, 49u8, 53u8]);  // "))&15"
        },
        Expr::Div2 { from } => {
            push_reg(out, from);
            push_lit(out, [62u8, 62u8, 49u8]);  // ">>1"
        },
        Expr::Mod2 { from } => {
            push_reg(out, from);
            push_lit(out, [38u8, 49u8]);  // "&1"
        },
        Expr::Xor4 { a, b, c, d } => {
            push_reg(out, a);
            push_lit(out, [94u8]);  // "^"
            push_reg(out, b);
            push_lit(out, [94u8]);  // "^"
            push_reg(out, c);
            push_lit(out, [94u8]);  // "^"
            push_reg(out, d);
        },
    }
    assert(out@ =~= o + expr_text(*e, lang));
}

/// The text of the statement `s` in `lang`, as it is printed.
pub fn render_stmt(s: &Stmt, lang: Language) -> (t: Vec<u8>)
    ensures
        t@ == stmt_text(*s, lang),
        read_stmt(t@, lang) == Some(as_written(*s, lang)),
{
    let mut out: Vec<u8> = Vec::new();
    match s {
        Stmt::Assign { reg, fresh, value } => {
            if *fresh {
                match lang {
                    Language::Js => push_lit(&mut out, [108u8, 101u8, 116u8, 32u8]),  // "let "
                    Language::Rust => push_lit(&mut out, [108u8, 101u8, 116u8, 32u8, 109u8, 117u8, 116u8, 32u8]),  // "let mut "
                    Language::Java => push_lit(&mut out, [105u8, 110u8, 116u8, 32u8]),  // "int "
                    Language::Python => {},
                }
            }
            push_reg(&mut out, *reg);
            if *fresh {
                match lang {
                    Language::Rust => push_lit(&mut out, [58u8, 117u8, 56u8]),  // ":u8"
                    _ => {},
                }
            }
            push_lit(&mut out, [61u8]);  // "="
            push_expr(&mut out, value, lang);
        },
        Stmt::Store { from, to_idx } => {
            push_lit(&mut out, [100u8, 91u8]);  // "d["
            push_decimal(&mut out, *to_idx);
            push_lit(&mut out, [93u8, 61u8]);  // "]="
            match lang {
                Language::Java => push_lit(&mut out, [40u8, 98u8, 121u8, 116u8, 101u8, 41u8, 32u8]),  // "(byte) "
                _ => {},
            }
            push_reg(&mut out, *from);
        },
    }
    assert(out@ =~= stmt_text(*s, lang));
    proof {
        lemma_read_stmt(*s, lang);
    }
    out
}


/// A decimal digit.
pub open spec fn is_digit(b: u8) -> bool {
    48 <= b <= 57
}

/// The number of decimal digits at the front of `t`.
pub open spec fn leading_digits(t: Seq<u8>) -> nat
    decreases t.len(),
{
    if t.len() > 0 && is_digit(t[0]) {
        1 + leading_digits(t.drop_first())
    } else {
        0
    }
}

/// The value of a string of decimal digits, most significant first.
pub open spec fn digits_value(t: Seq<u8>) -> nat
    decreases t.len(),
{
    if t.len() == 0 {
        0
    } else {
        digits_value(t.drop_last()) * 10 + (t.last() - 48) as nat
    }
}

/// The text after the literal `lit` at the front of `t`, if it is there.
pub open spec fn after(t: Seq<u8>, lit: Seq<u8>) -> Option<Seq<u8>> {
    if lit.len() <= t.len() && t.subrange(0, lit.len() as int) == lit {
        Some(t.skip(lit.len() as int))
    } else {
        None
    }
}

/// The decimal number at the front of `t` and the text after it.
pub open spec fn read_num(t: Seq<u8>) -> Option<(nat, Seq<u8>)> {
    let l = leading_digits(t);
    if l == 0 {
        None
    } else {
        Some((digits_value(t.take(l as int)), t.skip(l as int)))
    }
}

/// The register named at the front of `t` (`r` and its number) and the text after it.
pub open spec fn read_reg(t: Seq<u8>) -> Option<(nat, Seq<u8>)> {
    match after(t, seq![114u8]) {
        Some(u) => read_num(u),
        None => None,
    }
}

/// The digits of a number are digits, at least one, and read back as the number.
proof fn lemma_decimal(n: nat)
    ensures
        decimal(n).len() >= 1,
        forall|i: int| 0 <= i < decimal(n).len() ==> #[trigger] is_digit(decimal(n)[i]),
        digits_value(decimal(n)) == n,
    decreases n,
{
    if n >= 10 {
        lemma_decimal(n / 10);
        let d = decimal(n);
        assert(d.drop_last() =~= decimal(n / 10));
        assert(d.last() == (48 + n % 10) as u8);
        assert((d.last() - 48) as nat == n % 10);
        assert((n / 10) * 10 + n % 10 == n);
        assert(digits_value(d) == digits_value(d.drop_last()) * 10 + (d.last() - 48) as nat);
    } else {
        assert(decimal(n).drop_last() =~= Seq::<u8>::empty());
        assert(decimal(n).last() == (48 + n) as u8);
        assert((decimal(n).last() - 48) as nat == n);
        assert(digits_value(Seq::<u8>::empty()) == 0);
        assert(digits_value(decimal(n)) == digits_value(decimal(n).drop_last()) * 10 + (decimal(n).last() - 48) as nat);
    }
}

/// Text that does not go on with a digit.
pub open spec fn no_digit_first(t: Seq<u8>) -> bool {
    t.len() == 0 || !is_digit(t[0])
}

proof fn lemma_leading_digits(ds: Seq<u8>, rest: Seq<u8>)
    requires
        forall|i: int| 0 <= i < ds.len() ==> #[trigger] is_digit(ds[i]),
        no_digit_first(rest),
    ensures
        leading_digits(ds + rest) == ds.len(),
    decreases ds.len(),
{
    if ds.len() > 0 {
        assert((ds + rest).drop_first() =~= ds.drop_first() + rest);
        lemma_leading_digits(ds.drop_first(), rest);
    } else {
        assert(ds + rest =~= rest);
    }
}

/// A number followed by text that does not start with a digit is read back.
proof fn lemma_read_num(n: nat, rest: Seq<u8>)
    requires
        no_digit_first(rest),
    ensures
        read_num(decimal(n) + rest) == Some((n, rest)),
{
    lemma_decimal(n);
    lemma_leading_digits(decimal(n), rest);
    let t = decimal(n) + rest;
    assert(t.take(decimal(n).len() as int) =~= decimal(n));
    assert(t.skip(decimal(n).len() as int) =~= rest);
}

/// A literal at the front is found, and the text after it is the rest.
proof fn lemma_after(lit: Seq<u8>, rest: Seq<u8>)
    ensures
        after(lit + rest, lit) == Some(rest),
{
    assert((lit + rest).subrange(0, lit.len() as int) =~= lit);
    assert((lit + rest).skip(lit.len() as int) =~= rest);
}

/// A literal whose byte `i` differs from that of the text is not at its front.
proof fn lemma_after_differs(t: Seq<u8>, lit: Seq<u8>, i: int)
    requires
        0 <= i < lit.len(),
        i < t.len(),
        t[i] != lit[i],
    ensures
        after(t, lit) is None,
{
    if lit.len() <= t.len() {
        assert(t.subrange(0, lit.len() as int)[i] != lit[i]);
    }
}

/// A register name followed by text that does not start with a digit is read back.
proof fn lemma_read_reg(r: nat, rest: Seq<u8>)
    requires
        no_digit_first(rest),
    ensures
        read_reg(reg_text(r) + rest) == Some((r, rest)),
{
    assert(reg_text(r) + rest =~= seq![114u8] + (decimal(r) + rest));
    lemma_after(seq![114u8], decimal(r) + rest);
    lemma_read_num(r, rest);
}


/// The register named by all of `t`.
pub open spec fn reg_end(t: Seq<u8>) -> Option<nat> {
    match read_reg(t) {
        Some((r, u)) => if u.len() == 0 { Some(r) } else { None },
        None => None,
    }
}

/// The expression that the text `t` of `lang` reads as, if it is one.
pub open spec fn read_expr(t: Seq<u8>, lang: Language) -> Option<Expr> {
    match after(t, seq![100u8, 91u8]) {  // "d["
        Some(u) => match read_num(u) {
            Some((n, v)) => if v == seq![93u8] && n <= usize::MAX { Some(Expr::State { idx: n as usize }) } else { None },  // "]"
            None => None,
        },
        None => match after(t, seq![77u8, 91u8]) {  // "M["
            Some(u) => match read_num(u) {
                Some((off, v)) => match after(v, seq![43u8]) {  // "+"
                    Some(w) => match read_reg(w) {
                        Some((idx, x)) => if x == (if lang is Rust {
                            seq![32u8, 97u8, 115u8, 32u8, 117u8, 115u8, 105u8, 122u8, 101u8, 93u8]  // " as usize]"
                        } else {
                            seq![93u8]  // "]"
                        }) && off <= usize::MAX && idx <= usize::MAX {
                            Some(Expr::Table { offset: off as usize, idx: idx as usize })
                        } else {
                            None
                        },
                        None => None,
                    },
                    None => None,
                },
                None => None,
            },
            None => match after(t, seq![40u8]) {  // "("
                Some(u) => match read_reg(u) {
                    Some((a, v)) => match after(v, seq![60u8, 60u8, 52u8, 41u8, 124u8]) {  // "<<4)|"
                        Some(w) => match reg_end(w) {
                            Some(b) => if a <= usize::MAX && b <= usize::MAX { Some(Expr::Concat { high: a as usize, low: b as usize }) } else { None },
                            None => None,
                        },
                        None => match after(v, seq![62u8, 62u8, 40u8, 52u8, 42u8]) {  // ">>(4*"
                            Some(w) => match read_reg(w) {
                                Some((b, x)) => if x == seq![41u8, 41u8, 38u8, 49u8, 53u8] && a <= usize::MAX && b <= usize::MAX {  // "))&15"
                                    Some(Expr::NibbleDyn { from: a as usize, nib: b as usize })
                                } else {
                                    None
                                },
                                None => None,
                            },
                            None => None,
                        },
                    },
                    None => None,
                },
                None => match read_reg(t) {
                    Some((a, v)) => if a > usize::MAX {
                        None
                    } else if v == seq![62u8, 62u8, 52u8] {  // ">>4"
                        Some(Expr::Nibble { from: a as usize, nib: HighLow::High })
                    } else if v == seq![38u8, 49u8, 53u8] {  // "&15"
                        Some(Expr::Nibble { from: a as usize, nib: HighLow::Low })
                    } else if v == seq![62u8, 62u8, 49u8] {  // ">>1"
                        Some(Expr::Div2 { from: a as usize })
                    } else if v == seq![38u8, 49u8] {  // "&1"
                        Some(Expr::Mod2 { from: a as usize })
                    } else {
                        match after(v, seq![94u8]) {  // "^"
                            Some(w) => match read_reg(w) {
                                Some((b, x)) => match after(x, seq![94u8]) {
                                    Some(y) => match read_reg(y) {
                                        Some((c, z)) => match after(z, seq![94u8]) {
                                            Some(zz) => match reg_end(zz) {
                                                Some(d) => if b <= usize::MAX && c <= usize::MAX && d <= usize::MAX {
                                                    Some(Expr::Xor4 { a: a as usize, b: b as usize, c: c as usize, d: d as usize })
                                                } else {
                                                    None
                                                },
                                                None => None,
                                            },
                                            None => None,
                                        },
                                        None => None,
                                    },
                                    None => None,
                                },
                                None => None,
                            },
                            None => None,
                        }
                    },
                    None => None,
                },
            },
        },
    }
}

/// The keyword that declares a register in `lang`; Python has none.
pub open spec fn declaration(lang: Language) -> Seq<u8> {
    match lang {
        Language::Js => seq![108u8, 101u8, 116u8, 32u8],  // "let "
        Language::Rust => seq![108u8, 101u8, 116u8, 32u8, 109u8, 117u8, 116u8, 32u8],  // "let mut "
        Language::Java => seq![105u8, 110u8, 116u8, 32u8],  // "int "
        Language::Python => Seq::empty(),
    }
}

/// The statement that the text `t` of `lang` reads as, if it is one: a
/// store `d[i]=r` (in Java the register cast to a byte), or an assignment
/// of an expression to a register, declared when the text declares it.
pub open spec fn read_stmt(t: Seq<u8>, lang: Language) -> Option<Stmt> {
    match after(t, seq![100u8, 91u8]) {  // "d["
        Some(u) => match read_num(u) {
            Some((to, v)) => match after(v, seq![93u8, 61u8]) {  // "]="
                Some(w) => match (if lang is Java { after(w, seq![40u8, 98u8, 121u8, 116u8, 101u8, 41u8, 32u8]) } else { Some(w) }) {  // "(byte) "
                    Some(x) => match reg_end(x) {
                        Some(from) => if to <= usize::MAX && from <= usize::MAX {
                            Some(Stmt::Store { from: from as usize, to_idx: to as usize })
                        } else {
                            None
                        },
                        None => None,
                    },
                    None => None,
                },
                None => None,
            },
            None => None,
        },
        None => {
            let declared = !(lang is Python) && after(t, declaration(lang)) is Some;
            let u = if declared { t.skip(declaration(lang).len() as int) } else { t };
            match read_reg(u) {
                Some((r, v)) => match (if declared && lang is Rust { after(v, seq![58u8, 117u8, 56u8]) } else { Some(v) }) {  // ":u8"
                    Some(w) => match after(w, seq![61u8]) {  // "="
                        Some(x) => match read_expr(x, lang) {
                            Some(e) => if r <= usize::MAX { Some(Stmt::Assign { reg: r as usize, fresh: declared, value: e }) } else { None },
                            None => None,
                        },
                        None => None,
                    },
                    None => None,
                },
                None => None,
            }
        },
    }
}

/// The statement as the text of `lang` can show it: Python declares no
/// register, so there no assignment reads as the first one.
pub open spec fn as_written(s: Stmt, lang: Language) -> Stmt {
    match s {
        Stmt::Assign { reg, fresh, value } => Stmt::Assign { reg, fresh: fresh && !(lang is Python), value },
        Stmt::Store { .. } => s,
    }
}


proof fn lemma_read_state(idx: usize, lang: Language)
    ensures
        read_expr(expr_text(Expr::State { idx }, lang), lang) == Some(Expr::State { idx }),
{
    let t = expr_text(Expr::State { idx }, lang);
    let d_open = seq![100u8, 91u8];
    let close = seq![93u8];
    assert(t =~= d_open + (decimal(idx as nat) + close));
    lemma_after(d_open, decimal(idx as nat) + close);
    lemma_read_num(idx as nat, close);
}

#[verifier::spinoff_prover]
proof fn lemma_read_table(offset: usize, idx: usize, lang: Language)
    ensures
        read_expr(expr_text(Expr::Table { offset, idx }, lang), lang) == Some(Expr::Table { offset, idx }),
{
    let t = expr_text(Expr::Table { offset, idx }, lang);
    let tail = if lang is Rust {
        seq![32u8, 97u8, 115u8, 32u8, 117u8, 115u8, 105u8, 122u8, 101u8, 93u8]
    } else {
        seq![93u8]
    };
    let plus = seq![43u8];
    let m_open = seq![77u8, 91u8];
    assert(t =~= m_open + (decimal(offset as nat) + (plus + (reg_text(idx as nat) + tail))));
    lemma_after_differs(t, seq![100u8, 91u8], 0);
    lemma_after(m_open, decimal(offset as nat) + (plus + (reg_text(idx as nat) + tail)));
    lemma_read_num(offset as nat, plus + (reg_text(idx as nat) + tail));
    lemma_after(plus, reg_text(idx as nat) + tail);
    lemma_read_reg(idx as nat, tail);
}

#[verifier::spinoff_prover]
proof fn lemma_read_concat(high: usize, low: usize, lang: Language)
    ensures
        read_expr(expr_text(Expr::Concat { high, low }, lang), lang) == Some(Expr::Concat { high, low }),
{
    let t = expr_text(Expr::Concat { high, low }, lang);
    let par = seq![40u8];
    let mid = seq![60u8, 60u8, 52u8, 41u8, 124u8];
    assert(t =~= par + (reg_text(high as nat) + (mid + reg_text(low as nat))));
    lemma_after_differs(t, seq![100u8, 91u8], 0);
    lemma_after_differs(t, seq![77u8, 91u8], 0);
    lemma_after(par, reg_text(high as nat) + (mid + reg_text(low as nat)));
    lemma_read_reg(high as nat, mid + reg_text(low as nat));
    lemma_after(mid, reg_text(low as nat));
    lemma_read_reg(low as nat, Seq::empty());
    assert(reg_text(low as nat) + Seq::<u8>::empty() =~= reg_text(low as nat));
}

#[verifier::spinoff_prover]
proof fn lemma_read_nibble_dyn(from: usize, nib: usize, lang: Language)
    ensures
        read_expr(expr_text(Expr::NibbleDyn { from, nib }, lang), lang) == Some(Expr::NibbleDyn { from, nib }),
{
    let t = expr_text(Expr::NibbleDyn { from, nib }, lang);
    let par = seq![40u8];
    let mid = seq![62u8, 62u8, 40u8, 52u8, 42u8];
    let end = seq![41u8, 41u8, 38u8, 49u8, 53u8];
    assert(t =~= par + (reg_text(from as nat) + (mid + (reg_text(nib as nat) + end))));
    lemma_after_differs(t, seq![100u8, 91u8], 0);
    lemma_after_differs(t, seq![77u8, 91u8], 0);
    lemma_after(par, reg_text(from as nat) + (mid + (reg_text(nib as nat) + end)));
    lemma_read_reg(from as nat, mid + (reg_text(nib as nat) + end));
    lemma_after_differs(mid + (reg_text(nib as nat) + end), seq![60u8, 60u8, 52u8, 41u8, 124u8], 0);
    lemma_after(mid, reg_text(nib as nat) + end);
    lemma_read_reg(nib as nat, end);
}

/// An expression that starts with a register is not read as one of the
/// forms that start with a bracket.
proof fn lemma_reg_first(t: Seq<u8>, from: usize, suffix: Seq<u8>)
    requires
        t == reg_text(from as nat) + suffix,
        no_digit_first(suffix),
    ensures
        after(t, seq![100u8, 91u8]) is None,
        after(t, seq![77u8, 91u8]) is None,
        after(t, seq![40u8]) is None,
        read_reg(t) == Some((from as nat, suffix)),
{
    assert(t[0] == 114u8);
    lemma_after_differs(t, seq![100u8, 91u8], 0);
    lemma_after_differs(t, seq![77u8, 91u8], 0);
    lemma_after_differs(t, seq![40u8], 0);
    lemma_read_reg(from as nat, suffix);
}

#[verifier::spinoff_prover]
proof fn lemma_read_unary(e: Expr, lang: Language)
    requires
        e is Nibble || e is Div2 || e is Mod2,
    ensures
        read_expr(expr_text(e, lang), lang) == Some(e),
{
    let t = expr_text(e, lang);
    match e {
        Expr::Nibble { from, nib } => {
            let suffix = match nib {
                HighLow::High => seq![62u8, 62u8, 52u8],
                HighLow::Low => seq![38u8, 49u8, 53u8],
            };
            lemma_reg_first(t, from, suffix);
            if nib is Low {
                assert(suffix[0] != seq![62u8, 62u8, 52u8][0]);
            }
        },
        Expr::Div2 { from } => {
            let suffix = seq![62u8, 62u8, 49u8];
            lemma_reg_first(t, from, suffix);
            assert(suffix[2] != seq![62u8, 62u8, 52u8][2]);
            assert(suffix[0] != seq![38u8, 49u8, 53u8][0]);
        },
        Expr::Mod2 { from } => {
            let suffix = seq![38u8, 49u8];
            lemma_reg_first(t, from, suffix);
            assert(suffix.len() != seq![62u8, 62u8, 52u8].len());
            assert(suffix.len() != seq![38u8, 49u8, 53u8].len());
            assert(suffix.len() != seq![62u8, 62u8, 49u8].len());
        },
        _ => {},
    }
}

#[verifier::spinoff_prover]
#[verifier::rlimit(40)]
proof fn lemma_read_xor4(a: usize, b: usize, c: usize, d: usize, lang: Language)
    ensures
        read_expr(expr_text(Expr::Xor4 { a, b, c, d }, lang), lang) == Some(Expr::Xor4 { a, b, c, d }),
{
    let t = expr_text(Expr::Xor4 { a, b, c, d }, lang);
    let x = seq![94u8];
    let r3 = x + reg_text(d as nat);
    let r2 = x + (reg_text(c as nat) + r3);
    let suffix = x + (reg_text(b as nat) + r2);
    assert(t =~= reg_text(a as nat) + suffix);
    lemma_reg_first(t, a, suffix);
    assert(suffix[0] == 94u8);
    assert(suffix[0] != seq![62u8, 62u8, 52u8][0]);
    assert(suffix[0] != seq![38u8, 49u8, 53u8][0]);
    assert(suffix[0] != seq![62u8, 62u8, 49u8][0]);
    assert(suffix[0] != seq![38u8, 49u8][0]);
    lemma_after(x, reg_text(b as nat) + r2);
    lemma_read_reg(b as nat, r2);
    lemma_after(x, reg_text(c as nat) + r3);
    lemma_read_reg(c as nat, r3);
    lemma_after(x, reg_text(d as nat));
    lemma_read_reg(d as nat, Seq::empty());
    assert(reg_text(d as nat) + Seq::<u8>::empty() =~= reg_text(d as nat));
}

/// The text of every expression reads back as that expression.
pub proof fn lemma_read_expr(e: Expr, lang: Language)
    ensures
        read_expr(expr_text(e, lang), lang) == Some(e),
{
    match e {
        Expr::State { idx } => lemma_read_state(idx, lang),
        Expr::Table { offset, idx } => lemma_read_table(offset, idx, lang),
        Expr::Concat { high, low } => lemma_read_concat(high, low, lang),
        Expr::NibbleDyn { from, nib } => lemma_read_nibble_dyn(from, nib, lang),
        Expr::Xor4 { a, b, c, d } => lemma_read_xor4(a, b, c, d, lang),
        _ => lemma_read_unary(e, lang),
    }
}

#[verifier::spinoff_prover]
proof fn lemma_read_store(from: usize, to_idx: usize, lang: Language)
    ensures
        read_stmt(stmt_text(Stmt::Store { from, to_idx }, lang), lang) == Some(Stmt::Store { from, to_idx }),
{
    let t = stmt_text(Stmt::Store { from, to_idx }, lang);
    let d_open = seq![100u8, 91u8];
    let eq = seq![93u8, 61u8];
    let cast = if lang is Java {
        seq![40u8, 98u8, 121u8, 116u8, 101u8, 41u8, 32u8]
    } else {
        Seq::empty()
    };
    assert(t =~= d_open + (decimal(to_idx as nat) + (eq + (cast + reg_text(from as nat)))));
    lemma_after(d_open, decimal(to_idx as nat) + (eq + (cast + reg_text(from as nat))));
    lemma_read_num(to_idx as nat, eq + (cast + reg_text(from as nat)));
    lemma_after(eq, cast + reg_text(from as nat));
    if lang is Java {
        lemma_after(cast, reg_text(from as nat));
    } else {
        assert(cast + reg_text(from as nat) =~= reg_text(from as nat));
    }
    lemma_read_reg(from as nat, Seq::empty());
    assert(reg_text(from as nat) + Seq::<u8>::empty() =~= reg_text(from as nat));
}

#[verifier::spinoff_prover]
#[verifier::rlimit(40)]
proof fn lemma_read_assign(reg: usize, fresh: bool, value: Expr, lang: Language)
    ensures
        read_stmt(stmt_text(Stmt::Assign { reg, fresh, value }, lang), lang) == Some(
            as_written(Stmt::Assign { reg, fresh, value }, lang),
        ),
{
    let t = stmt_text(Stmt::Assign { reg, fresh, value }, lang);
    let d_open = seq![100u8, 91u8];
    let declared = fresh && !(lang is Python);
    let decl = if declared { declaration(lang) } else { Seq::empty() };
    let ty = if declared && lang is Rust { seq![58u8, 117u8, 56u8] } else { Seq::empty() };
    let eq = seq![61u8];
    let rest = ty + (eq + expr_text(value, lang));
    assert(t =~= decl + (reg_text(reg as nat) + rest));
    if declared {
        assert(t[0] != d_open[0]);
        lemma_after_differs(t, d_open, 0);
        lemma_after(decl, reg_text(reg as nat) + rest);
        assert(t.skip(declaration(lang).len() as int) =~= reg_text(reg as nat) + rest);
    } else {
        assert(t =~= reg_text(reg as nat) + rest);
        assert(t[0] == 114u8);
        lemma_after_differs(t, d_open, 0);
        if !(lang is Python) {
            lemma_after_differs(t, declaration(lang), 0);
        }
    }
    lemma_read_reg(reg as nat, rest);
    if declared && lang is Rust {
        lemma_after(ty, eq + expr_text(value, lang));
    } else {
        assert(rest =~= eq + expr_text(value, lang));
    }
    lemma_after(eq, expr_text(value, lang));
    lemma_read_expr(value, lang);
}

/// The text of every statement reads back, in its language, as that
/// statement (in Python, which declares nothing, as an assignment that is
/// not the first).
pub proof fn lemma_read_stmt(s: Stmt, lang: Language)
    ensures
        read_stmt(stmt_text(s, lang), lang) == Some(as_written(s, lang)),
{
    match s {
        Stmt::Store { from, to_idx } => lemma_read_store(from, to_idx, lang),
        Stmt::Assign { reg, fresh, value } => lemma_read_assign(reg, fresh, value, lang),
    }
}

} // verus!
