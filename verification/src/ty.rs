//! Ty tables: MixColumns split into the contribution of each input byte.

use vstd::prelude::*;

use crate::aes::dual_coeffs;
use crate::consts::{gf_mul, gf_mul_pol_slow};
use crate::dual::{Dual, MixColCoeffs, Poly};
use crate::{Column, Row, SColumn, SRow, X};

verus! {

/// For every input row `j` and byte `x`, the column that `x` contributes:
/// entry `k` is the MixColumns matrix entry `(k, j)` times `x`.
#[derive(Clone, Copy)]
pub struct Ty(pub [[[u8; 4]; 256]; 4]);

/// MixColumns matrix entry `(k, j)` times `x`: the coefficients 2, 3, 1, 1
/// rotated right by `k`.
pub open spec fn ty_forward_entry(x: u8, j: int, k: int, co: MixColCoeffs, m: u16) -> u8 {
    let d = (j - k + 4) % 4;
    if d == 0 {
        gf_mul(x, co.c2, m)
    } else if d == 1 {
        gf_mul(x, co.c3, m)
    } else {
        x
    }
}

/// InvMixColumns matrix entry `(k, j)` times `x`: the coefficients 14, 11, 13, 9
/// rotated right by `k`.
pub open spec fn ty_inverse_entry(x: u8, j: int, k: int, co: MixColCoeffs, m: u16) -> u8 {
    let d = (j - k + 4) % 4;
    if d == 0 {
        gf_mul(x, co.c14, m)
    } else if d == 1 {
        gf_mul(x, co.c11, m)
    } else if d == 2 {
        gf_mul(x, co.c13, m)
    } else {
        gf_mul(x, co.c9, m)
    }
}

impl Ty {
    /// The tables of MixColumns, or with `inv` of InvMixColumns, of `config`.
    pub open spec fn matches(self, inv: bool, co: MixColCoeffs, m: u16) -> bool {
        forall|j: int, x: int, k: int|
            0 <= j < 4 && 0 <= x < 256 && 0 <= k < 4 ==> #[trigger] self.0[j][x][k] == if inv {
                ty_inverse_entry(x as u8, j, k, co, m)
            } else {
                ty_forward_entry(x as u8, j, k, co, m)
            }
    }

    pub fn new(inv: bool, config: Dual) -> (r: Self)
        requires
            config.wf(),
        ensures
            r.matches(inv, dual_coeffs(config), config.poly.0),
    {
        let coeffs = MixColCoeffs::for_dual(config);
        let poly = config.poly;
        if inv {
            Self::new_inv(&coeffs, poly)
        } else {
            Self::new_forward(&coeffs, poly)
        }
    }

    fn gf_mul(x: X, coeff: u8, poly: Poly) -> (r: X)
        requires
            poly.0 != 0,
            poly.0 < 512,
        ensures
            r.0 == gf_mul(x.0, coeff, poly.0),
    {
        proof {
            crate::dual::lemma_gf_mul_byte(x.0, coeff, poly.0);
        }
        X(gf_mul_pol_slow(x.0, coeff, poly))
    }

    fn fill(coeffs: &MixColCoeffs, poly: Poly, inv: bool) -> (r: Self)
        requires
            poly.0 != 0,
            poly.0 < 512,
        ensures
            r.matches(inv, *coeffs, poly.0),
    {
        let mut out = [[[0u8; 4]; 256]; 4];
        let mut x: usize = 0;
        while x < 256
            invariant
                x <= 256,
                poly.0 != 0,
                poly.0 < 512,
                forall|j: int, y: int, k: int|
                    0 <= j < 4 && 0 <= y < x && 0 <= k < 4 ==> #[trigger] out[j][y][k] == if inv {
                        ty_inverse_entry(y as u8, j, k, *coeffs, poly.0)
                    } else {
                        ty_forward_entry(y as u8, j, k, *coeffs, poly.0)
                    },
            decreases 256 - x,
        {
            let xv = X(x as u8);
            let by_d: [u8; 4] = if inv {
                [
                    Self::gf_mul(xv, coeffs.c14, poly).0,
                    Self::gf_mul(xv, coeffs.c11, poly).0,
                    Self::gf_mul(xv, coeffs.c13, poly).0,
                    Self::gf_mul(xv, coeffs.c9, poly).0,
                ]
            } else {
                [
                    Self::gf_mul(xv, coeffs.c2, poly).0,
                    Self::gf_mul(xv, coeffs.c3, poly).0,
                    x as u8,
                    x as u8,
                ]
            };
            let ghost before = out;
            let mut j: usize = 0;
            while j < 4
                invariant
                    x < 256,
                    j <= 4,
                    forall|d: int| 0 <= d < 4 ==> #[trigger] by_d[d] == if inv {
                        ty_inverse_entry(x as u8, d, 0, *coeffs, poly.0)
                    } else {
                        ty_forward_entry(x as u8, d, 0, *coeffs, poly.0)
                    },
                    forall|j2: int, y: int, k: int|
                        0 <= j2 < 4 && 0 <= y < 256 && y != x && 0 <= k < 4 ==> #[trigger] out[j2][y][k] == before[j2][y][k],
                    forall|j2: int, k: int|
                        0 <= j2 < j && 0 <= k < 4 ==> #[trigger] out[j2][x as int][k] == if inv {
                            ty_inverse_entry(x as u8, j2, k, *coeffs, poly.0)
                        } else {
                            ty_forward_entry(x as u8, j2, k, *coeffs, poly.0)
                        },
                decreases 4 - j,
            {
                let mut col = [0u8; 4];
                let mut k: usize = 0;
                while k < 4
                    invariant
                        j < 4,
                        k <= 4,
                        forall|d: int| 0 <= d < 4 ==> #[trigger] by_d[d] == if inv {
                            ty_inverse_entry(x as u8, d, 0, *coeffs, poly.0)
                        } else {
                            ty_forward_entry(x as u8, d, 0, *coeffs, poly.0)
                        },
                        forall|k2: int| 0 <= k2 < k ==> #[trigger] col[k2] == if inv {
                            ty_inverse_entry(x as u8, j as int, k2, *coeffs, poly.0)
                        } else {
                            ty_forward_entry(x as u8, j as int, k2, *coeffs, poly.0)
                        },
                    decreases 4 - k,
                {
                    col[k] = by_d[(j + 4 - k) % 4];
                    k += 1;
                }
                let ghost before_j = out;
                let mut tj = out[j];
                tj[x] = col;
                out[j] = tj;
                proof {
                    assert forall|j2: int, y: int, k2: int|
                        0 <= j2 < 4 && 0 <= y < 256 && y != x && 0 <= k2 < 4 implies #[trigger] out[j2][y][k2] == before[j2][y][k2] by {
                        assert(out[j2][y][k2] == before_j[j2][y][k2]);
                    }
                    assert forall|j2: int, k2: int| 0 <= j2 < j + 1 && 0 <= k2 < 4 implies #[trigger] out[j2][x as int][k2] == if inv {
                        ty_inverse_entry(x as u8, j2, k2, *coeffs, poly.0)
                    } else {
                        ty_forward_entry(x as u8, j2, k2, *coeffs, poly.0)
                    } by {
                        if j2 < j {
                            assert(out[j2][x as int][k2] == before_j[j2][x as int][k2]);
                        }
                    }
                }
                j += 1;
            }
            proof {
                assert forall|j2: int, y: int, k: int|
                    0 <= j2 < 4 && 0 <= y < x + 1 && 0 <= k < 4 implies #[trigger] out[j2][y][k] == if inv {
                    ty_inverse_entry(y as u8, j2, k, *coeffs, poly.0)
                } else {
                    ty_forward_entry(y as u8, j2, k, *coeffs, poly.0)
                } by {
                    if y != x {
                        assert(out[j2][y][k] == before[j2][y][k]);
                    }
                }
            }
            x += 1;
        }
        Ty(out)
    }

    fn new_forward(coeffs: &MixColCoeffs, poly: Poly) -> (r: Self)
        requires
            poly.0 != 0,
            poly.0 < 512,
        ensures
            r.matches(false, *coeffs, poly.0),
    {
        Self::fill(coeffs, poly, false)
    }

    fn new_inv(coeffs: &MixColCoeffs, poly: Poly) -> (r: Self)
        requires
            poly.0 != 0,
            poly.0 < 512,
        ensures
            r.matches(true, *coeffs, poly.0),
    {
        Self::fill(coeffs, poly, true)
    }

    /// The column contributed by the byte `tboxv` of input row `i`.
    pub fn get_column(&self, tboxv: X, i: SColumn) -> (r: Column)
        ensures
            r.0 == self.0[i.0.idx() as int][tboxv.0 as int],
    {
        Column(self.0[i.as_index()][tboxv.0 as usize])
    }

    /// The same contribution, as the row of a work table.
    pub fn get_row(&self, tboxv: X, i: SRow) -> (r: Row)
        ensures
            r.0 == self.0[i.0.idx() as int][tboxv.0 as int],
    {
        Row(self.0[i.as_index()][tboxv.0 as usize])
    }
}

/// The four tables looked up at the bytes of a column and XORed give the
/// byte of MixColumns (or, with `inv`, InvMixColumns) of that column.
pub proof fn lemma_ty_columns(ty: Ty, inv: bool, co: MixColCoeffs, m: u16, s: Seq<u8>, col: int, k: int)
    requires
        ty.matches(inv, co, m),
        s.len() == 16,
        0 <= col < 4,
        0 <= k < 4,
    ensures
        ty.0[0][s[4 * col] as int][k] ^ ty.0[1][s[4 * col + 1] as int][k] ^ ty.0[2][s[4 * col + 2] as int][k]
            ^ ty.0[3][s[4 * col + 3] as int][k] == if inv {
            crate::aes::inv_mix_columns_spec(s, co, m)[4 * col + k]
        } else {
            crate::aes::mix_columns_spec(s, co, m)[4 * col + k]
        },
{
    let p = 4 * col + k;
    assert(p / 4 == col && p % 4 == k);
    assert(ty.0[0][s[4 * col] as int][k] == if inv { ty_inverse_entry(s[4 * col], 0, k, co, m) } else { ty_forward_entry(s[4 * col], 0, k, co, m) });
    assert(ty.0[1][s[4 * col + 1] as int][k] == if inv { ty_inverse_entry(s[4 * col + 1], 1, k, co, m) } else { ty_forward_entry(s[4 * col + 1], 1, k, co, m) });
    assert(ty.0[2][s[4 * col + 2] as int][k] == if inv { ty_inverse_entry(s[4 * col + 2], 2, k, co, m) } else { ty_forward_entry(s[4 * col + 2], 2, k, co, m) });
    assert(ty.0[3][s[4 * col + 3] as int][k] == if inv { ty_inverse_entry(s[4 * col + 3], 3, k, co, m) } else { ty_forward_entry(s[4 * col + 3], 3, k, co, m) });
}

} // verus!
