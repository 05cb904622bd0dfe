use crate::tables::{block_table, block_table_s, lemma_block_table_bounds};
use crate::types::EcLevel;
use vstd::prelude::*;

verus! {

/// Carry-less doubling in GF(256) with the field polynomial
/// x^8 + x^4 + x^3 + x^2 + 1: multiply by x, then reduce.
pub open spec fn gf_xtime_s(a: u8) -> u8 {
    (a << 1) ^ (if a & 0x80 == 0x80 {
        0x1d
    } else {
        0
    })
}

/// Product of `a` and `b` in GF(256), by shift-and-add over the bits of `b`.
pub open spec fn gf_mul_s(a: u8, b: u8) -> u8
    decreases b,
{
    if b == 0 {
        0
    } else {
        (if b & 1 == 1 {
            a
        } else {
            0
        }) ^ gf_mul_s(gf_xtime_s(a), b / 2)
    }
}

/// Executable GF(256) product.
pub fn gf_mul(a: u8, b: u8) -> (r: u8)
    ensures
        r == gf_mul_s(a, b),
    decreases b,
{
    if b == 0 {
        0
    } else {
        let xa: u8 = (a << 1u8) ^ (if a & 0x80 == 0x80 {
            0x1d
        } else {
            0
        });
        let rest = gf_mul(xa, b / 2);
        let lo: u8 = if b & 1 == 1 {
            a
        } else {
            0
        };
        lo ^ rest
    }
}

/// The `i`-th power of the field generator 2.
pub open spec fn alpha_pow_s(i: nat) -> u8
    decreases i,
{
    if i == 0 {
        1
    } else {
        gf_mul_s(alpha_pow_s((i - 1) as nat), 2)
    }
}

/// Coefficients, highest power first, of `p(x) * (x + a)` given those of the
/// monic polynomial `p`.
pub open spec fn mul_xa_s(p: Seq<u8>, a: u8) -> Seq<u8> {
    Seq::new(
        p.len() + 1,
        |j: int|
            (if j < p.len() {
                p[j]
            } else {
                0u8
            }) ^ (if j >= 1 {
                gf_mul_s(a, p[j - 1])
            } else {
                0u8
            }),
    )
}

/// Coefficients, highest power first, of the Reed-Solomon generator
/// polynomial with roots 1, 2, 4, ... (the first `ec` powers of 2).
pub open spec fn gen_poly_s(ec: nat) -> Seq<u8>
    decreases ec,
{
    if ec == 0 {
        seq![1u8]
    } else {
        mul_xa_s(gen_poly_s((ec - 1) as nat), alpha_pow_s((ec - 1) as nat))
    }
}

pub proof fn lemma_gen_poly_len(ec: nat)
    ensures
        gen_poly_s(ec).len() == ec + 1,
    decreases ec,
{
    if ec > 0 {
        lemma_gen_poly_len((ec - 1) as nat);
    }
}

/// Executable generator polynomial.
pub fn gen_poly(ec: usize) -> (r: Vec<u8>)
    requires
        ec <= 68,
    ensures
        r@ == gen_poly_s(ec as nat),
        r@.len() == ec + 1,
{
    proof {
        lemma_gen_poly_len(ec as nat);
    }
    let mut p: Vec<u8> = Vec::new();
    p.push(1);
    assert(p@ =~= gen_poly_s(0));
    let mut i: usize = 0;
    let mut alpha: u8 = 1;
    while i < ec
        invariant
            i <= ec <= 68,
            p@ == gen_poly_s(i as nat),
            p@.len() == i + 1,
            alpha == alpha_pow_s(i as nat),
        decreases ec - i,
    {
        let mut np: Vec<u8> = Vec::new();
        let mut j: usize = 0;
        while j < i + 2
            invariant
                i <= 68,
                j <= i + 2,
                p@.len() == i + 1,
                np@.len() == j,
                forall|t: int| 0 <= t < j ==> np@[t] == mul_xa_s(p@, alpha)[t],
            decreases i + 2 - j,
        {
            let lo: u8 = if j < i + 1 {
                p[j]
            } else {
                0
            };
            let hi: u8 = if j >= 1 {
                gf_mul(alpha, p[j - 1])
            } else {
                0
            };
            np.push(lo ^ hi);
            j += 1;
        }
        proof {
            assert(np@ =~= mul_xa_s(p@, alpha));
            lemma_gen_poly_len((i + 1) as nat);
        }
        p = np;
        alpha = gf_mul(alpha, 2);
        i += 1;
    }
    p
}

/// One division step of the running Reed-Solomon remainder `rem` under
/// generator `gen` when data byte `d` is consumed.
pub open spec fn rs_step_s(rem: Seq<u8>, gen: Seq<u8>, d: u8) -> Seq<u8> {
    let factor = d ^ rem[0];
    Seq::new(
        rem.len(),
        |k: int|
            (if k + 1 < rem.len() {
                rem[k + 1]
            } else {
                0u8
            }) ^ gf_mul_s(gen[k + 1], factor),
    )
}

/// The remainder after consuming `data` from position `i` on.
pub open spec fn rs_rem_s(data: Seq<u8>, i: int, rem: Seq<u8>, gen: Seq<u8>) -> Seq<u8>
    decreases data.len() - i,
{
    if i < data.len() {
        rs_rem_s(data, i + 1, rs_step_s(rem, gen, data[i]), gen)
    } else {
        rem
    }
}

/// A run of `k` zero codewords.
pub open spec fn zero_bytes_s(k: nat) -> Seq<u8> {
    Seq::new(k, |i: int| 0u8)
}

/// The `ec` Reed-Solomon error-correction codewords of `data`: the remainder
/// of `data` (as a polynomial over GF(256), padded by `ec` zeros) divided by
/// the generator polynomial of degree `ec`.
pub open spec fn rs_code_s(data: Seq<u8>, ec: nat) -> Seq<u8> {
    rs_rem_s(data, 0, zero_bytes_s(ec), gen_poly_s(ec))
}

pub proof fn lemma_rs_rem_len(data: Seq<u8>, i: int, rem: Seq<u8>, gen: Seq<u8>)
    ensures
        rs_rem_s(data, i, rem, gen).len() == rem.len(),
    decreases data.len() - i,
{
    if i < data.len() {
        lemma_rs_rem_len(data, i + 1, rs_step_s(rem, gen, data[i]), gen);
    }
}

/// Executable Reed-Solomon coder.
pub fn rs_remainder(data: &Vec<u8>, ec: usize) -> (r: Vec<u8>)
    requires
        1 <= ec <= 68,
    ensures
        r@ == rs_code_s(data@, ec as nat),
        r@.len() == ec,
{
    let gen = gen_poly(ec);
    let mut rem: Vec<u8> = Vec::new();
    let mut z: usize = 0;
    while z < ec
        invariant
            z <= ec,
            rem@.len() == z,
            forall|t: int| 0 <= t < z ==> rem@[t] == 0u8,
        decreases ec - z,
    {
        rem.push(0);
        z += 1;
    }
    assert(rem@ =~= zero_bytes_s(ec as nat));
    let mut i: usize = 0;
    while i < data.len()
        invariant
            i <= data@.len(),
            1 <= ec <= 68,
            rem@.len() == ec,
            gen@ == gen_poly_s(ec as nat),
            gen@.len() == ec + 1,
            rs_rem_s(data@, i as int, rem@, gen@) == rs_code_s(data@, ec as nat),
        decreases data@.len() - i,
    {
        let d = data[i];
        let factor: u8 = d ^ rem[0];
        let mut nr: Vec<u8> = Vec::new();
        let mut k: usize = 0;
        while k < ec
            invariant
                k <= ec <= 68,
                1 <= ec,
                rem@.len() == ec,
                gen@.len() == ec + 1,
                factor == d ^ rem@[0],
                nr@.len() == k,
                forall|t: int| 0 <= t < k ==> nr@[t] == rs_step_s(rem@, gen@, d)[t],
            decreases ec - k,
        {
            let lo: u8 = if k + 1 < ec {
                rem[k + 1]
            } else {
                0
            };
            nr.push(lo ^ gf_mul(gen[k + 1], factor));
            k += 1;
        }
        proof {
            assert(nr@ =~= rs_step_s(rem@, gen@, d));
        }
        rem = nr;
        i += 1;
    }
    rem
}

/// Data codeword count of block `bi` when the first `c1` blocks hold `s1`
/// codewords and the rest hold `s2`.
pub open spec fn blk_size_s(c1: int, s1: int, s2: int, bi: int) -> int {
    if bi < c1 {
        s1
    } else {
        s2
    }
}

/// Position in the linear data codeword sequence where block `bi` starts.
pub open spec fn blk_start_s(c1: int, s1: int, s2: int, bi: int) -> int {
    if bi <= c1 {
        bi * s1
    } else {
        c1 * s1 + (bi - c1) * s2
    }
}

pub proof fn lemma_blk_bounds(c1: int, s1: int, c2: int, s2: int, bi: int)
    requires
        1 <= c1,
        1 <= s1,
        0 <= c2,
        0 <= s2,
        0 <= bi < c1 + c2,
    ensures
        0 <= blk_start_s(c1, s1, s2, bi),
        blk_start_s(c1, s1, s2, bi + 1) == blk_start_s(c1, s1, s2, bi) + blk_size_s(
            c1,
            s1,
            s2,
            bi,
        ),
        blk_start_s(c1, s1, s2, bi) + blk_size_s(c1, s1, s2, bi) <= c1 * s1 + c2 * s2,
{
    if bi < c1 {
        assert(0 <= bi * s1) by (nonlinear_arith)
            requires
                0 <= bi,
                0 <= s1,
        ;
        assert((bi + 1) * s1 == bi * s1 + s1) by (nonlinear_arith);
        assert((bi + 1) * s1 <= c1 * s1) by (nonlinear_arith)
            requires
                bi + 1 <= c1,
                0 <= s1,
        ;
        assert(0 <= c2 * s2) by (nonlinear_arith)
            requires
                0 <= c2,
                0 <= s2,
        ;
    } else {
        let k = bi - c1;
        assert(0 <= k * s2) by (nonlinear_arith)
            requires
                0 <= k,
                0 <= s2,
        ;
        assert((k + 1) * s2 == k * s2 + s2) by (nonlinear_arith);
        assert((k + 1) * s2 <= c2 * s2) by (nonlinear_arith)
            requires
                k + 1 <= c2,
                0 <= s2,
        ;
        assert(0 <= c1 * s1) by (nonlinear_arith)
            requires
                0 <= c1,
                0 <= s1,
        ;
        if bi == c1 {
            assert(blk_start_s(c1, s1, s2, bi) == c1 * s1);
            assert(k * s2 == 0) by (nonlinear_arith)
                requires
                    k == 0,
            ;
        }
    }
}


/// Exec-side bounds of the block start offsets: everything stays far below
/// `usize` overflow, and the two branch formulas agree with `blk_start_s`.
pub proof fn lemma_blk_start_exec(c1: int, s1: int, c2: int, s2: int, bi: int)
    requires
        1 <= c1 <= 81,
        1 <= s1 <= 123,
        0 <= c2 <= 81,
        0 <= s2 <= 123,
        0 <= bi < c1 + c2,
    ensures
        bi < c1 ==> blk_start_s(c1, s1, s2, bi) == bi * s1,
        bi >= c1 ==> blk_start_s(c1, s1, s2, bi) == c1 * s1 + (bi - c1) * s2,
        0 <= bi * s1 <= 19926,
        0 <= c1 * s1 <= 9963,
        bi >= c1 ==> 0 <= (bi - c1) * s2 <= 9963,
        0 <= blk_start_s(c1, s1, s2, bi) + blk_size_s(c1, s1, s2, bi) <= c1 * s1 + c2 * s2,
{
    lemma_blk_bounds(c1, s1, c2, s2, bi);
    assert(0 <= bi * s1 <= 162 * 123) by (nonlinear_arith)
        requires
            0 <= bi <= 162,
            0 <= s1 <= 123,
    ;
    assert(0 <= c1 * s1 <= 81 * 123) by (nonlinear_arith)
        requires
            0 <= c1 <= 81,
            0 <= s1 <= 123,
    ;
    if bi >= c1 {
        assert(0 <= (bi - c1) * s2 <= 81 * 123) by (nonlinear_arith)
            requires
                0 <= bi - c1 <= 81,
                0 <= s2 <= 123,
        ;
        if bi == c1 {
            assert((bi - c1) * s2 == 0) by (nonlinear_arith)
                requires
                    bi - c1 == 0,
            ;
        }
    }
}

/// The data codewords of block `bi` of the linear sequence `data`.
pub open spec fn blk_data_s(data: Seq<u8>, c1: int, s1: int, s2: int, bi: int) -> Seq<u8> {
    data.subrange(
        blk_start_s(c1, s1, s2, bi),
        blk_start_s(c1, s1, s2, bi) + blk_size_s(c1, s1, s2, bi),
    )
}

/// Data codewords interleaved column-wise across blocks, from codeword
/// position `i` and block `bi` on; shorter blocks contribute only up to
/// their own length.
pub open spec fn inter_data_s(
    data: Seq<u8>,
    c1: int,
    s1: int,
    c2: int,
    s2: int,
    maxs: int,
    i: int,
    bi: int,
) -> Seq<u8>
    decreases maxs - i, c1 + c2 - bi,
{
    if i >= maxs || i < 0 || bi < 0 {
        Seq::empty()
    } else if bi >= c1 + c2 {
        inter_data_s(data, c1, s1, c2, s2, maxs, i + 1, 0)
    } else if i < blk_size_s(c1, s1, s2, bi) {
        seq![data[blk_start_s(c1, s1, s2, bi) + i]] + inter_data_s(
            data,
            c1,
            s1,
            c2,
            s2,
            maxs,
            i,
            bi + 1,
        )
    } else {
        inter_data_s(data, c1, s1, c2, s2, maxs, i, bi + 1)
    }
}

/// Error-correction codewords interleaved across blocks, from position `i`
/// and block `bi` on; every block carries `ecn` of them.
pub open spec fn inter_ec_s(
    data: Seq<u8>,
    c1: int,
    s1: int,
    c2: int,
    s2: int,
    ecn: int,
    i: int,
    bi: int,
) -> Seq<u8>
    decreases ecn - i, c1 + c2 - bi,
{
    if i >= ecn || i < 0 || bi < 0 {
        Seq::empty()
    } else if bi >= c1 + c2 {
        inter_ec_s(data, c1, s1, c2, s2, ecn, i + 1, 0)
    } else {
        seq![rs_code_s(blk_data_s(data, c1, s1, s2, bi), ecn as nat)[i]] + inter_ec_s(
            data,
            c1,
            s1,
            c2,
            s2,
            ecn,
            i,
            bi + 1,
        )
    }
}

/// The complete codeword sequence of a symbol of version `v` at level `l`:
/// interleaved data codewords, then interleaved error-correction codewords,
/// per the version's block structure.
pub open spec fn assembled_s(data: Seq<u8>, v: usize, l: EcLevel) -> Seq<u8> {
    let t = block_table_s(v, l);
    let maxs = blk_size_s(t.1 as int, t.2 as int, t.4 as int, (t.1 + t.3 - 1) as int);
    inter_data_s(data, t.1 as int, t.2 as int, t.3 as int, t.4 as int, maxs, 0, 0) + inter_ec_s(
        data,
        t.1 as int,
        t.2 as int,
        t.3 as int,
        t.4 as int,
        t.0 as int,
        0,
        0,
    )
}

/// Splits the data codewords into the version's blocks, computes the
/// error-correction codewords of each, and interleaves both column-wise
/// into the final codeword sequence.
pub fn assemble_codewords(data: &Vec<u8>, v: usize, l: EcLevel) -> (r: Vec<u8>)
    requires
        1 <= v <= 40,
        data@.len() == block_table_s(v, l).1 * block_table_s(v, l).2 + block_table_s(v, l).3
            * block_table_s(v, l).4,
    ensures
        r@ == assembled_s(data@, v, l),
{
    proof {
        lemma_block_table_bounds(v, l);
    }
    let t = block_table(v, l);
    let ecn: usize = t.0;
    let c1: usize = t.1;
    let s1: usize = t.2;
    let c2: usize = t.3;
    let s2: usize = t.4;
    let nb: usize = c1 + c2;
    let maxs: usize = if c2 > 0 {
        s2
    } else {
        s1
    };
    assert(maxs == blk_size_s(c1 as int, s1 as int, s2 as int, nb - 1));
    let ghost dv = data@;
    let mut out: Vec<u8> = Vec::new();
    let mut i: usize = 0;
    while i < maxs
        invariant
            i <= maxs <= 123,
            1 <= c1 <= 81,
            1 <= s1 <= 123,
            c2 <= 81,
            s2 <= 123,
            c1 + c2 == nb <= 81,
            dv == data@,
            dv.len() == c1 * s1 + c2 * s2,
            maxs == blk_size_s(c1 as int, s1 as int, s2 as int, nb - 1),
            out@ + inter_data_s(dv, c1 as int, s1 as int, c2 as int, s2 as int, maxs as int,
                i as int, 0) == inter_data_s(dv, c1 as int, s1 as int, c2 as int, s2 as int,
                maxs as int, 0, 0),
        decreases maxs - i,
    {
        let mut bi: usize = 0;
        while bi < nb
            invariant
                bi <= nb,
                i < maxs <= 123,
                1 <= c1 <= 81,
                1 <= s1 <= 123,
                c2 <= 81,
                s2 <= 123,
                c1 + c2 == nb <= 81,
                dv == data@,
                dv.len() == c1 * s1 + c2 * s2,
                maxs == blk_size_s(c1 as int, s1 as int, s2 as int, nb - 1),
                out@ + inter_data_s(dv, c1 as int, s1 as int, c2 as int, s2 as int, maxs as int,
                    i as int, bi as int) == inter_data_s(dv, c1 as int, s1 as int, c2 as int,
                    s2 as int, maxs as int, 0, 0),
            decreases nb - bi,
        {
            proof {
                lemma_blk_bounds(c1 as int, s1 as int, c2 as int, s2 as int, bi as int);
            }
            let size: usize = if bi < c1 {
                s1
            } else {
                s2
            };
            if i < size {
                proof {
                    lemma_blk_start_exec(c1 as int, s1 as int, c2 as int, s2 as int, bi as int);
                }
                let start: usize = if bi < c1 {
                    bi * s1
                } else {
                    c1 * s1 + (bi - c1) * s2
                };
                assert(start == blk_start_s(c1 as int, s1 as int, s2 as int, bi as int));
                let ghost pre = out@;
                out.push(data[start + i]);
                proof {
                    assert(pre + (seq![dv[blk_start_s(c1 as int, s1 as int, s2 as int, bi as int)
                        + i]] + inter_data_s(dv, c1 as int, s1 as int, c2 as int, s2 as int,
                        maxs as int, i as int, bi + 1)) =~= out@ + inter_data_s(dv, c1 as int,
                        s1 as int, c2 as int, s2 as int, maxs as int, i as int, bi + 1));
                }
            }
            bi += 1;
        }
        i += 1;
    }
    proof {
        assert(inter_data_s(dv, c1 as int, s1 as int, c2 as int, s2 as int, maxs as int,
            maxs as int, 0) =~= Seq::<u8>::empty());
        assert(out@ + Seq::<u8>::empty() =~= out@);
    }
    let mut ecs: Vec<Vec<u8>> = Vec::new();
    let mut bi: usize = 0;
    while bi < nb
        invariant
            bi <= nb,
            7 <= ecn <= 30,
            1 <= c1 <= 81,
            1 <= s1 <= 123,
            c2 <= 81,
            s2 <= 123,
            c1 + c2 == nb <= 81,
            dv == data@,
            dv.len() == c1 * s1 + c2 * s2,
            ecs@.len() == bi,
            forall|b2: int|
                0 <= b2 < bi ==> #[trigger] ecs@[b2]@ == rs_code_s(
                    blk_data_s(dv, c1 as int, s1 as int, s2 as int, b2),
                    ecn as nat,
                ),
        decreases nb - bi,
    {
        proof {
            lemma_blk_bounds(c1 as int, s1 as int, c2 as int, s2 as int, bi as int);
        }
        let size: usize = if bi < c1 {
            s1
        } else {
            s2
        };
        proof {
            lemma_blk_start_exec(c1 as int, s1 as int, c2 as int, s2 as int, bi as int);
        }
        let start: usize = if bi < c1 {
            bi * s1
        } else {
            c1 * s1 + (bi - c1) * s2
        };
        assert(start == blk_start_s(c1 as int, s1 as int, s2 as int, bi as int));
        assert(start + size <= dv.len());
        let dlen: usize = data.len();
        let mut blkv: Vec<u8> = Vec::new();
        let mut j: usize = 0;
        while j < size
            invariant
                j <= size,
                start + size <= dlen,
                dlen == dv.len(),
                dv == data@,
                blkv@.len() == j,
                forall|u: int| 0 <= u < j ==> blkv@[u] == dv[start + u],
            decreases size - j,
        {
            blkv.push(data[start + j]);
            j += 1;
        }
        assert(blkv@ =~= blk_data_s(dv, c1 as int, s1 as int, s2 as int, bi as int));
        let code = rs_remainder(&blkv, ecn);
        ecs.push(code);
        bi += 1;
    }
    let mut i2: usize = 0;
    while i2 < ecn
        invariant
            i2 <= ecn <= 30,
            7 <= ecn,
            1 <= c1 <= 81,
            1 <= s1 <= 123,
            c2 <= 81,
            s2 <= 123,
            c1 + c2 == nb <= 81,
            dv == data@,
            dv.len() == c1 * s1 + c2 * s2,
            ecs@.len() == nb,
            forall|b2: int|
                0 <= b2 < nb ==> #[trigger] ecs@[b2]@ == rs_code_s(
                    blk_data_s(dv, c1 as int, s1 as int, s2 as int, b2),
                    ecn as nat,
                ),
            out@ + inter_ec_s(dv, c1 as int, s1 as int, c2 as int, s2 as int, ecn as int,
                i2 as int, 0) == assembled_s(dv, v, l),
        decreases ecn - i2,
    {
        let mut bi2: usize = 0;
        while bi2 < nb
            invariant
                bi2 <= nb,
                i2 < ecn <= 30,
                7 <= ecn,
                1 <= c1 <= 81,
                1 <= s1 <= 123,
                c2 <= 81,
                s2 <= 123,
                c1 + c2 == nb <= 81,
                dv == data@,
                dv.len() == c1 * s1 + c2 * s2,
                ecs@.len() == nb,
                forall|b2: int|
                    0 <= b2 < nb ==> #[trigger] ecs@[b2]@ == rs_code_s(
                        blk_data_s(dv, c1 as int, s1 as int, s2 as int, b2),
                        ecn as nat,
                    ),
                out@ + inter_ec_s(dv, c1 as int, s1 as int, c2 as int, s2 as int, ecn as int,
                    i2 as int, bi2 as int) == assembled_s(dv, v, l),
            decreases nb - bi2,
        {
            proof {
                lemma_rs_rem_len(
                    blk_data_s(dv, c1 as int, s1 as int, s2 as int, bi2 as int),
                    0,
                    zero_bytes_s(ecn as nat),
                    gen_poly_s(ecn as nat),
                );
            }
            let row = &ecs[bi2];
            let ghost pre = out@;
            out.push(row[i2]);
            proof {
                assert(pre + (seq![rs_code_s(blk_data_s(dv, c1 as int, s1 as int, s2 as int,
                    bi2 as int), ecn as nat)[i2 as int]] + inter_ec_s(dv, c1 as int, s1 as int,
                    c2 as int, s2 as int, ecn as int, i2 as int, bi2 + 1)) =~= out@ + inter_ec_s(
                    dv, c1 as int, s1 as int, c2 as int, s2 as int, ecn as int, i2 as int,
                    bi2 + 1));
            }
            bi2 += 1;
        }
        i2 += 1;
    }
    proof {
        assert(inter_ec_s(dv, c1 as int, s1 as int, c2 as int, s2 as int, ecn as int, ecn as int,
            0) =~= Seq::<u8>::empty());
        assert(out@ + Seq::<u8>::empty() =~= out@);
    }
    out
}

} // verus!
