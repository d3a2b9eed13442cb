//! Properties of the cipher: the keyed block table still names every block once, decryption
//! undoes encryption, and encryption only moves pixels.

use vstd::prelude::*;
use vstd::arithmetic::div_mod::{
    lemma_fundamental_div_mod, lemma_fundamental_div_mod_converse_div,
    lemma_fundamental_div_mod_converse_mod,
};
use vstd::relations::injective_on;
use vstd::set_lib::{lemma_int_range, lemma_map_size, set_int_range};
use crate::cipher::{
    bits_valid, block_local, block_of, block_pos, cipher_schedule, config_error, dec_walk,
    decrypted, enc_walk, encrypted, geometry_error, in_block, layout_of, lemma_block_index,
    lemma_block_local, lemma_block_pos, lemma_table_bijective, names, permuted_table, put_block,
    table_init, Layout, N_ITER,
};
use crate::rotate::{
    bijective_on, family_fits, hits, lemma_rearranges_refl, lemma_rearranges_trans,
    lemma_rotated_moves, lemma_sweep_len, lemma_sweep_rearranges, rearrangement, rearranges, rotated,
    rotated_hits, rotated_source, sweep, Line,
};
use crate::sub_hcie::{
    anti_lines, col_lines, diag_lines, dirs_from, lemma_decipher_encipher, lemma_decipher_len,
    lemma_round_families, round_cost, row_lines, Schedule,
};

verus! {

/// The table names every block `1..=blocks` in exactly one cell, and no cell holds more.
pub open spec fn table_ok(t: Seq<usize>, blocks: nat) -> bool {
    &&& forall|x: int| 0 <= x < t.len() ==> #[trigger] t[x] <= blocks
    &&& forall|v: int| 1 <= v <= blocks ==> #[trigger] names(t, v)
    &&& forall|x: int, y: int|
        0 <= x < t.len() && 0 <= y < t.len() && x != y && #[trigger] t[x] != 0 ==> t[x] != #[trigger] t[y]
}

proof fn lemma_table_ok_rotated(t: Seq<usize>, ln: Line, p: nat, b: u8, blocks: nat)
    requires
        table_ok(t, blocks),
        ln.fits(t.len() as int),
    ensures
        table_ok(rotated(t, ln, p, b), blocks),
        rotated(t, ln, p, b).len() == t.len(),
{
    let r = rotated(t, ln, p, b);
    lemma_rotated_moves(t, ln, p, b);
    assert forall|x: int| 0 <= x < r.len() implies #[trigger] r[x] <= blocks by {
        assert(0 <= rotated_source(ln, p, b, x) < t.len());
    }
    assert forall|v: int| 1 <= v <= blocks implies #[trigger] names(r, v) by {
        assert(names(t, v));
        let x = choose|x: int| 0 <= x < t.len() && t[x] == v;
        assert(rotated_hits(ln, p, b, t.len() as int, x));
        let y = choose|y: int| 0 <= y < t.len() && rotated_source(ln, p, b, y) == x;
        assert(r[y] == v);
    }
    assert forall|x: int, y: int|
        0 <= x < r.len() && 0 <= y < r.len() && x != y && #[trigger] r[x] != 0 implies r[x] != #[trigger] r[y] by {
        let sx = rotated_source(ln, p, b, x);
        let sy = rotated_source(ln, p, b, y);
        assert(sx != sy);
        assert(t[sx] != 0);
        assert(t[sx] != t[sy]);
    }
}

proof fn lemma_table_ok_sweep(
    t: Seq<usize>,
    lines: spec_fn(int) -> Line,
    dirs: spec_fn(int) -> u8,
    p: nat,
    k: nat,
    blocks: nat,
)
    requires
        table_ok(t, blocks),
        family_fits(lines, dirs, k, t.len() as int),
    ensures
        table_ok(sweep(t, lines, dirs, p, k), blocks),
        sweep(t, lines, dirs, p, k).len() == t.len(),
    decreases k,
{
    if k > 0 {
        lemma_table_ok_sweep(t, lines, dirs, p, (k - 1) as nat, blocks);
        assert(lines(k - 1).fits(t.len() as int));
        lemma_table_ok_rotated(sweep(t, lines, dirs, p, (k - 1) as nat), lines(k - 1), p, dirs(k - 1), blocks);
    }
}

proof fn lemma_table_ok_rounds(sch: Schedule, t: Seq<usize>, m: nat, n: nat, base: int, r: nat, blocks: nat)
    requires
        sch.wf(),
        m > 0,
        n > 0,
        m * n <= usize::MAX,
        t.len() == m * n,
        table_ok(t, blocks),
    ensures
        table_ok(sch.enc_rounds(t, m, n, base, r), blocks),
        sch.enc_rounds(t, m, n, base, r).len() == t.len(),
    decreases r,
{
    if r > 0 {
        lemma_table_ok_rounds(sch, t, m, n, base, (r - 1) as nat, blocks);
        let c = sch.enc_rounds(t, m, n, base, (r - 1) as nat);
        let q = base + (r - 1) * round_cost(m as int, n as int);
        let pp = sch.shift_at(q);
        let bits = sch.bits;
        let k = (m + n - 1) as nat;
        lemma_round_families(sch, m, n, q);
        lemma_table_ok_sweep(c, row_lines(n), dirs_from(bits, q), pp, m, blocks);
        let c1 = sweep(c, row_lines(n), dirs_from(bits, q), pp, m);
        lemma_table_ok_sweep(c1, col_lines(m, n), dirs_from(bits, q + m), pp, n, blocks);
        let c2 = sweep(c1, col_lines(m, n), dirs_from(bits, q + m), pp, n);
        lemma_table_ok_sweep(c2, anti_lines(m, n), dirs_from(bits, q + m + n), pp, k, blocks);
        let c3 = sweep(c2, anti_lines(m, n), dirs_from(bits, q + m + n), pp, k);
        lemma_table_ok_sweep(c3, diag_lines(m, n), dirs_from(bits, q + 2 * m + 2 * n - 1), pp, k, blocks);
    }
}

/// After its keyed permutation the block table still names every block `1..=P` in exactly
/// one cell and holds 0 in every other cell, `P = b_m * b_n`.
pub proof fn lemma_permuted_table_bijective(bits: Seq<u8>, rows: nat, cols: nat, s_m: nat, s_n: nat)
    requires
        geometry_error(rows, cols, rows * cols, s_m, s_n) is None,
        bits_valid(bits),
    ensures
        permuted_table(bits, rows, cols, s_m, s_n).len() == s_m * s_n,
        table_ok(permuted_table(bits, rows, cols, s_m, s_n), (rows / s_m) * (cols / s_n)),
{
    let b_m = rows / s_m;
    let b_n = cols / s_n;
    lemma_table_bijective(s_m, s_n, b_m, b_n);
    let t = table_init(s_m, s_n, b_m, b_n);
    assert(table_ok(t, b_m * b_n));
    lemma_table_ok_rounds(cipher_schedule(bits), t, s_m, s_n, 0, N_ITER as nat, b_m * b_n);
}

/// The number of cells of `t[0..x]` that name a block.
pub open spec fn rank(t: Seq<usize>, x: nat) -> nat
    decreases x,
{
    if x == 0 {
        0
    } else {
        rank(t, (x - 1) as nat) + if t[x - 1] != 0 {
            1nat
        } else {
            0nat
        }
    }
}

proof fn lemma_rank_mono(t: Seq<usize>, x: nat, y: nat)
    requires
        x <= y,
    ensures
        rank(t, x) <= rank(t, y),
        x < y && t[x as int] != 0 ==> rank(t, x) < rank(t, y),
    decreases y,
{
    if x < y {
        lemma_rank_mono(t, x, (y - 1) as nat);
    }
}

proof fn lemma_rank_set(t: Seq<usize>, x: nat)
    requires
        x <= t.len(),
    ensures
        Set::new(|y: int| 0 <= y < x && t[y] != 0).finite(),
        Set::new(|y: int| 0 <= y < x && t[y] != 0).len() == rank(t, x),
    decreases x,
{
    let st = Set::new(|y: int| 0 <= y < x && t[y] != 0);
    if x == 0 {
        assert(st =~= Set::empty());
    } else {
        lemma_rank_set(t, (x - 1) as nat);
        let s0 = Set::new(|y: int| 0 <= y < x - 1 && t[y] != 0);
        if t[x - 1] != 0 {
            assert(st =~= s0.insert(x - 1));
        } else {
            assert(st =~= s0);
        }
    }
}

/// A table that names every block once has exactly as many naming cells as blocks.
proof fn lemma_rank_total(t: Seq<usize>, blocks: nat)
    requires
        table_ok(t, blocks),
    ensures
        rank(t, t.len()) == blocks,
{
    lemma_rank_set(t, t.len());
    let nz = Set::new(|y: int| 0 <= y < t.len() && t[y] != 0);
    let f = |y: int| t[y] as int;
    let vals = set_int_range(1, blocks as int + 1);
    assert(injective_on(f, nz));
    assert forall|v: int| vals.contains(v) implies nz.map(f).contains(v) by {
        assert(names(t, v));
        let x = choose|x: int| 0 <= x < t.len() && t[x] == v;
        assert(nz.contains(x));
    }
    assert(nz.map(f) =~= vals);
    lemma_map_size(nz, vals, f);
    lemma_int_range(1, blocks as int + 1);
}

/// Putting a block leaves every other block as it was and holds what was put.
proof fn lemma_put_block_of<T>(c: Seq<T>, lay: Layout, rows: nat, r: nat, s: nat, blk: Seq<T>, r2: nat, s2: nat)
    requires
        lay.valid(rows),
        c.len() == rows * lay.n,
        r < lay.b_m,
        s < lay.b_n,
        r2 < lay.b_m,
        s2 < lay.b_n,
        blk.len() == lay.s_m * lay.s_n,
    ensures
        put_block(c, lay.n, lay.s_m, lay.s_n, r, s, blk).len() == c.len(),
        r == r2 && s == s2 ==> block_of(put_block(c, lay.n, lay.s_m, lay.s_n, r, s, blk), lay.n, lay.s_m, lay.s_n, r2, s2)
            == blk,
        !(r == r2 && s == s2) ==> block_of(put_block(c, lay.n, lay.s_m, lay.s_n, r, s, blk), lay.n, lay.s_m, lay.s_n, r2, s2)
            == block_of(c, lay.n, lay.s_m, lay.s_n, r2, s2),
{
    let (n, s_m, s_n) = (lay.n, lay.s_m, lay.s_n);
    let pb = put_block(c, n, s_m, s_n, r, s, blk);
    let same = r == r2 && s == s2;
    assert forall|k: int| 0 <= k < s_m * s_n implies #[trigger] block_of(pb, n, s_m, s_n, r2, s2)[k] == (if same {
        blk[k]
    } else {
        block_of(c, n, s_m, s_n, r2, s2)[k]
    }) by {
        lemma_block_pos(n, s_m, s_n, lay.b_m, lay.b_n, r2, s2, k);
        let y = block_pos(n, s_m, s_n, r2, s2, k);
        assert(y < c.len());
        if !same {
            let a = k / (s_n as int);
            let e = k % (s_n as int);
            if r != r2 {
                assert(!(s_m * r <= s_m * r2 + a < s_m * r + s_m)) by (nonlinear_arith)
                    requires
                        r != r2,
                        0 <= a < s_m,
                ;
            } else {
                assert(!(s_n * s <= s_n * s2 + e < s_n * s + s_n)) by (nonlinear_arith)
                    requires
                        s != s2,
                        0 <= e < s_n,
                ;
            }
            assert(!in_block(n, s_m, s_n, r, s, y));
        }
    }
    if same {
        assert(block_of(pb, n, s_m, s_n, r2, s2) =~= blk);
    } else {
        assert(block_of(pb, n, s_m, s_n, r2, s2) =~= block_of(c, n, s_m, s_n, r2, s2));
    }
}

/// Distinct block numbers below `b_m * b_n` sit at distinct block positions.
proof fn lemma_block_numbers(b_m: nat, b_n: nat, u: int, w: int)
    requires
        b_n > 0,
        0 <= u < b_m * b_n,
        0 <= w < b_m * b_n,
        u != w,
    ensures
        !(u / (b_n as int) == w / (b_n as int) && u % (b_n as int) == w % (b_n as int)),
{
    lemma_fundamental_div_mod(u, b_n as int);
    lemma_fundamental_div_mod(w, b_n as int);
}

/// What the forward walk enciphers for naming cell `y`.
pub open spec fn enc_block(sch: Schedule, lay: Layout, src: Seq<u8>, t: Seq<usize>, start: int, y: int) -> Seq<u8> {
    let sb = (t[y] - 1) as nat;
    sch.encipher(
        block_of(src, lay.n, lay.s_m, lay.s_n, sb / lay.b_n, sb % lay.b_n),
        lay.s_m,
        lay.s_n,
        start + rank(t, y as nat) * lay.app_cost(),
    )
}

/// What the backward walk deciphers for naming cell `y`.
pub open spec fn dec_block(sch: Schedule, lay: Layout, cipher: Seq<u8>, t: Seq<usize>, start: int, y: int) -> Seq<u8> {
    let o = rank(t, y as nat);
    sch.decipher(
        block_of(cipher, lay.n, lay.s_m, lay.s_n, o / lay.b_n, o % lay.b_n),
        lay.s_m,
        lay.s_n,
        start + o * lay.app_cost(),
    )
}

/// The facts on the geometry that the walks rely on.
pub open spec fn walk_ready(sch: Schedule, lay: Layout, rows: nat, t: Seq<usize>) -> bool {
    &&& sch.wf()
    &&& lay.valid(rows)
    &&& lay.s_m * lay.s_n <= usize::MAX
    &&& t.len() == lay.s_m * lay.s_n
    &&& table_ok(t, lay.blocks())
}

proof fn lemma_enc_walk(sch: Schedule, lay: Layout, rows: nat, src: Seq<u8>, t: Seq<usize>, init: Seq<u8>, start: int, x: nat)
    requires
        walk_ready(sch, lay, rows, t),
        init.len() == rows * lay.n,
        x <= t.len(),
    ensures
        enc_walk(sch, lay, src, t, init, start, x).1 == rank(t, x),
        enc_walk(sch, lay, src, t, init, start, x).0.len() == init.len(),
        forall|y: int|
            0 <= y < x && t[y] != 0 ==> block_of(
                enc_walk(sch, lay, src, t, init, start, x).0,
                lay.n,
                lay.s_m,
                lay.s_n,
                rank(t, y as nat) / lay.b_n,
                rank(t, y as nat) % lay.b_n,
            ) == #[trigger] enc_block(sch, lay, src, t, start, y),
    decreases x,
{
    if x > 0 {
        lemma_enc_walk(sch, lay, rows, src, t, init, start, (x - 1) as nat);
        let (out, order) = enc_walk(sch, lay, src, t, init, start, (x - 1) as nat);
        let v = t[x - 1];
        if v != 0 {
            lemma_rank_total(t, lay.blocks());
            lemma_rank_mono(t, (x - 1) as nat, t.len());
            assert(lay.b_n > 0) by (nonlinear_arith)
                requires
                    order < lay.b_m * lay.b_n,
            ;
            lemma_block_index(lay.b_m, lay.b_n, order as int);
            let sb = (v - 1) as nat;
            lemma_block_index(lay.b_m, lay.b_n, sb as int);
            let blk0 = block_of(src, lay.n, lay.s_m, lay.s_n, sb / lay.b_n, sb % lay.b_n);
            lemma_decipher_encipher(sch, blk0, lay.s_m, lay.s_n, start + order * lay.app_cost());
            let blk = enc_block(sch, lay, src, t, start, x - 1);
            assert forall|y: int|
                0 <= y < x && t[y] != 0 implies block_of(
                    enc_walk(sch, lay, src, t, init, start, x).0,
                    lay.n,
                    lay.s_m,
                    lay.s_n,
                    rank(t, y as nat) / lay.b_n,
                    rank(t, y as nat) % lay.b_n,
                ) == #[trigger] enc_block(sch, lay, src, t, start, y) by {
                let ry = rank(t, y as nat);
                lemma_rank_mono(t, y as nat, (x - 1) as nat);
                lemma_block_index(lay.b_m, lay.b_n, ry as int);
                lemma_put_block_of(out, lay, rows, order / lay.b_n, order % lay.b_n, blk, ry / lay.b_n, ry % lay.b_n);
                if y < x - 1 {
                    lemma_block_numbers(lay.b_m, lay.b_n, ry as int, order as int);
                }
            }
            lemma_put_block_of(out, lay, rows, order / lay.b_n, order % lay.b_n, blk, 0, 0);
        }
    }
}

proof fn lemma_dec_walk(sch: Schedule, lay: Layout, rows: nat, cipher: Seq<u8>, t: Seq<usize>, init: Seq<u8>, start: int, k: nat)
    requires
        walk_ready(sch, lay, rows, t),
        init.len() == rows * lay.n,
        cipher.len() == rows * lay.n,
        k <= t.len(),
    ensures
        dec_walk(sch, lay, cipher, t, init, start, k).1 == rank(t, (t.len() - k) as nat),
        dec_walk(sch, lay, cipher, t, init, start, k).0.len() == init.len(),
        forall|y: int|
            t.len() - k <= y < t.len() && t[y] != 0 ==> block_of(
                dec_walk(sch, lay, cipher, t, init, start, k).0,
                lay.n,
                lay.s_m,
                lay.s_n,
                ((t[y] - 1) as nat) / lay.b_n,
                ((t[y] - 1) as nat) % lay.b_n,
            ) == #[trigger] dec_block(sch, lay, cipher, t, start, y),
    decreases k,
{
    if k == 0 {
        lemma_rank_total(t, lay.blocks());
    } else {
        lemma_dec_walk(sch, lay, rows, cipher, t, init, start, (k - 1) as nat);
        let (out, order) = dec_walk(sch, lay, cipher, t, init, start, (k - 1) as nat);
        let x = t.len() - k;
        let v = t[x];
        assert(order == rank(t, (x + 1) as nat));
        if v != 0 {
            let o = (order - 1) as nat;
            lemma_rank_total(t, lay.blocks());
            lemma_rank_mono(t, x as nat, t.len());
            assert(lay.b_n > 0) by (nonlinear_arith)
                requires
                    o < lay.b_m * lay.b_n,
            ;
            lemma_block_index(lay.b_m, lay.b_n, o as int);
            let sb = (v - 1) as nat;
            lemma_block_index(lay.b_m, lay.b_n, sb as int);
            lemma_block_pos(lay.n, lay.s_m, lay.s_n, lay.b_m, lay.b_n, 0, 0, 0);
            let cb = block_of(cipher, lay.n, lay.s_m, lay.s_n, o / lay.b_n, o % lay.b_n);
            lemma_decipher_len(sch, cb, lay.s_m, lay.s_n, start + o * lay.app_cost());
            let blk = dec_block(sch, lay, cipher, t, start, x);
            assert forall|y: int|
                t.len() - k <= y < t.len() && t[y] != 0 implies block_of(
                    dec_walk(sch, lay, cipher, t, init, start, k).0,
                    lay.n,
                    lay.s_m,
                    lay.s_n,
                    ((t[y] - 1) as nat) / lay.b_n,
                    ((t[y] - 1) as nat) % lay.b_n,
                ) == #[trigger] dec_block(sch, lay, cipher, t, start, y) by {
                let sy = (t[y] - 1) as nat;
                lemma_block_index(lay.b_m, lay.b_n, sy as int);
                lemma_put_block_of(out, lay, rows, sb / lay.b_n, sb % lay.b_n, blk, sy / lay.b_n, sy % lay.b_n);
                if y != x {
                    assert(t[y] != t[x]);
                    lemma_block_numbers(lay.b_m, lay.b_n, sy as int, sb as int);
                }
            }
            lemma_put_block_of(out, lay, rows, sb / lay.b_n, sb % lay.b_n, blk, 0, 0);
        }
    }
}

/// Every position of a grid cut exactly into blocks lies in some block, at the position
/// of its local index there.
proof fn lemma_position_in_block(lay: Layout, rows: nat, z: int)
    requires
        lay.valid(rows),
        0 <= z < rows * lay.n,
    ensures
        ({
            let r = (z / (lay.n as int)) / (lay.s_m as int);
            let s = (z % (lay.n as int)) / (lay.s_n as int);
            &&& 0 <= r < lay.b_m
            &&& 0 <= s < lay.b_n
            &&& in_block(lay.n, lay.s_m, lay.s_n, r as nat, s as nat, z)
            &&& 0 <= block_local(lay.n, lay.s_m, lay.s_n, r as nat, s as nat, z) < lay.s_m * lay.s_n
            &&& block_pos(lay.n, lay.s_m, lay.s_n, r as nat, s as nat, block_local(lay.n, lay.s_m, lay.s_n, r as nat, s as nat, z)) == z
        }),
{
    let n = lay.n as int;
    assert(n > 0) by (nonlinear_arith)
        requires
            0 <= z < rows * n,
    ;
    let i = z / n;
    let j = z % n;
    lemma_fundamental_div_mod(z, n);
    assert(0 <= i < rows) by (nonlinear_arith)
        requires
            z == n * i + j,
            0 <= j < n,
            0 <= z < rows * n,
    ;
    let r = i / (lay.s_m as int);
    let s = j / (lay.s_n as int);
    lemma_fundamental_div_mod(i, lay.s_m as int);
    lemma_fundamental_div_mod(j, lay.s_n as int);
    assert(0 <= r < lay.b_m) by (nonlinear_arith)
        requires
            i == lay.s_m * r + i % (lay.s_m as int),
            0 <= i % (lay.s_m as int) < lay.s_m,
            0 <= i < rows,
            rows == lay.b_m * lay.s_m,
    ;
    assert(0 <= s < lay.b_n) by (nonlinear_arith)
        requires
            j == lay.s_n * s + j % (lay.s_n as int),
            0 <= j % (lay.s_n as int) < lay.s_n,
            0 <= j < n,
            n == lay.b_n * lay.s_n,
    ;
    assert(lay.s_m * r == r * lay.s_m) by (nonlinear_arith);
    assert(lay.s_n * s == s * lay.s_n) by (nonlinear_arith);
    lemma_block_local(lay.n, lay.s_m, lay.s_n, lay.b_m, lay.b_n, r as nat, s as nat, z);
}

/// Deciphering the ciphertext of an image, with the same block sizes and stream, gives back
/// the image, for every request that is not refused.
pub proof fn lemma_round_trip(src: Seq<u8>, rows: nat, cols: nat, s_m: nat, s_n: nat, bits: Seq<u8>)
    requires
        config_error(rows, cols, src.len(), s_m, s_n, bits) is None,
    ensures
        encrypted(src, rows, cols, s_m, s_n, bits).len() == src.len(),
        decrypted(encrypted(src, rows, cols, s_m, s_n, bits), rows, cols, s_m, s_n, bits) == src,
{
    let lay = layout_of(rows, cols, s_m, s_n);
    let sch = cipher_schedule(bits);
    let t = permuted_table(bits, rows, cols, s_m, s_n);
    let init = Seq::new(rows * cols, |k: int| 0u8);
    let start = lay.app_cost();
    let total = s_m * s_n;
    lemma_permuted_table_bijective(bits, rows, cols, s_m, s_n);
    lemma_fundamental_div_mod(rows as int, s_m as int);
    lemma_fundamental_div_mod(cols as int, s_n as int);
    assert(rows == lay.b_m * s_m && cols == lay.b_n * s_n) by (nonlinear_arith)
        requires
            rows == s_m * (rows / s_m),
            cols == s_n * (cols / s_n),
            lay.b_m == rows / s_m,
            lay.b_n == cols / s_n,
    ;
    assert(walk_ready(sch, lay, rows, t));
    lemma_enc_walk(sch, lay, rows, src, t, init, start, total);
    let cipher = enc_walk(sch, lay, src, t, init, start, total).0;
    assert(cipher == encrypted(src, rows, cols, s_m, s_n, bits));
    lemma_dec_walk(sch, lay, rows, cipher, t, init, start, total);
    let plain = dec_walk(sch, lay, cipher, t, init, start, total).0;
    assert(plain == decrypted(cipher, rows, cols, s_m, s_n, bits));
    // each block comes back
    assert forall|y: int| 0 <= y < total && t[y] != 0 implies {
        let sb = (t[y] - 1) as nat;
        block_of(plain, cols, s_m, s_n, sb / lay.b_n, sb % lay.b_n) == block_of(src, cols, s_m, s_n, sb / lay.b_n, sb % lay.b_n)
    } by {
        let sb = (t[y] - 1) as nat;
        let ry = rank(t, y as nat);
        let blk0 = block_of(src, cols, s_m, s_n, sb / lay.b_n, sb % lay.b_n);
        assert(enc_block(sch, lay, src, t, start, y) == block_of(cipher, cols, s_m, s_n, ry / lay.b_n, ry % lay.b_n));
        assert(dec_block(sch, lay, cipher, t, start, y) == block_of(plain, cols, s_m, s_n, sb / lay.b_n, sb % lay.b_n));
        lemma_decipher_encipher(sch, blk0, s_m, s_n, start + ry * lay.app_cost());
    }
    // and so does every cell
    assert forall|z: int| 0 <= z < src.len() implies plain[z] == src[z] by {
        lemma_position_in_block(lay, rows, z);
        let r = (z / (cols as int)) / (s_m as int);
        let s = (z % (cols as int)) / (s_n as int);
        let b = r * lay.b_n + s;
        assert(0 <= b < lay.b_m * lay.b_n) by (nonlinear_arith)
            requires
                0 <= r < lay.b_m,
                0 <= s < lay.b_n,
                b == r * lay.b_n + s,
        ;
        assert(names(t, b + 1));
        let y = choose|y: int| 0 <= y < t.len() && t[y] == b + 1;
        lemma_fundamental_div_mod_converse_div(b, lay.b_n as int, r, s);
        lemma_fundamental_div_mod_converse_mod(b, lay.b_n as int, r, s);
        let k = block_local(cols, s_m, s_n, r as nat, s as nat, z);
        assert(block_of(plain, cols, s_m, s_n, r as nat, s as nat)[k] == plain[z]);
        assert(block_of(src, cols, s_m, s_n, r as nat, s as nat)[k] == src[z]);
    }
    assert(plain =~= src);
}

proof fn lemma_enc_rounds_len<T>(e: Schedule, c: Seq<T>, m: nat, n: nat, base: int, r: nat)
    requires
        e.wf(),
        m > 0,
        n > 0,
        m * n <= usize::MAX,
        c.len() == m * n,
    ensures
        e.enc_rounds(c, m, n, base, r).len() == c.len(),
    decreases r,
{
    if r > 0 {
        lemma_enc_rounds_len(e, c, m, n, base, (r - 1) as nat);
        let c0 = e.enc_rounds(c, m, n, base, (r - 1) as nat);
        let q = base + (r - 1) * round_cost(m as int, n as int);
        let p = e.shift_at(q);
        let bits = e.bits;
        let k = (m + n - 1) as nat;
        lemma_round_families(e, m, n, q);
        lemma_sweep_len(c0, row_lines(n), dirs_from(bits, q), p, m);
        let c1 = sweep(c0, row_lines(n), dirs_from(bits, q), p, m);
        lemma_sweep_len(c1, col_lines(m, n), dirs_from(bits, q + m), p, n);
        let c2 = sweep(c1, col_lines(m, n), dirs_from(bits, q + m), p, n);
        lemma_sweep_len(c2, anti_lines(m, n), dirs_from(bits, q + m + n), p, k);
        let c3 = sweep(c2, anti_lines(m, n), dirs_from(bits, q + m + n), p, k);
        lemma_sweep_len(c3, diag_lines(m, n), dirs_from(bits, q + 2 * m + 2 * n - 1), p, k);
    }
}

proof fn lemma_enc_rounds_rearrange<T>(e: Schedule, c: Seq<T>, m: nat, n: nat, base: int, r: nat)
    requires
        e.wf(),
        m > 0,
        n > 0,
        m * n <= usize::MAX,
        c.len() == m * n,
    ensures
        rearranges(e.enc_rounds(c, m, n, base, r), c),
    decreases r,
{
    if r == 0 {
        lemma_rearranges_refl(c);
    } else {
        lemma_enc_rounds_rearrange(e, c, m, n, base, (r - 1) as nat);
        lemma_enc_rounds_len(e, c, m, n, base, (r - 1) as nat);
        let c0 = e.enc_rounds(c, m, n, base, (r - 1) as nat);
        let q = base + (r - 1) * round_cost(m as int, n as int);
        let p = e.shift_at(q);
        let bits = e.bits;
        let k = (m + n - 1) as nat;
        lemma_round_families(e, m, n, q);
        lemma_sweep_rearranges(c0, row_lines(n), dirs_from(bits, q), p, m);
        lemma_sweep_len(c0, row_lines(n), dirs_from(bits, q), p, m);
        let c1 = sweep(c0, row_lines(n), dirs_from(bits, q), p, m);
        lemma_sweep_rearranges(c1, col_lines(m, n), dirs_from(bits, q + m), p, n);
        lemma_sweep_len(c1, col_lines(m, n), dirs_from(bits, q + m), p, n);
        let c2 = sweep(c1, col_lines(m, n), dirs_from(bits, q + m), p, n);
        lemma_sweep_rearranges(c2, anti_lines(m, n), dirs_from(bits, q + m + n), p, k);
        lemma_sweep_len(c2, anti_lines(m, n), dirs_from(bits, q + m + n), p, k);
        let c3 = sweep(c2, anti_lines(m, n), dirs_from(bits, q + m + n), p, k);
        lemma_sweep_rearranges(c3, diag_lines(m, n), dirs_from(bits, q + 2 * m + 2 * n - 1), p, k);
        let c4 = sweep(c3, diag_lines(m, n), dirs_from(bits, q + 2 * m + 2 * n - 1), p, k);
        lemma_rearranges_trans(c2, c1, c0);
        lemma_rearranges_trans(c3, c2, c0);
        lemma_rearranges_trans(c4, c3, c0);
        lemma_rearranges_trans(c4, c0, c);
    }
}

/// A forward application only moves the values of a block.
pub proof fn lemma_encipher_rearranges<T>(e: Schedule, c: Seq<T>, m: nat, n: nat, base: int)
    requires
        e.wf(),
        m > 0,
        n > 0,
        m * n <= usize::MAX,
        c.len() == m * n,
    ensures
        rearranges(e.encipher(c, m, n, base), c),
{
    lemma_enc_rounds_rearrange(e, c, m, n, base, e.n_iter);
}

proof fn lemma_rank_onto(t: Seq<usize>, x: nat, o: nat)
    requires
        x <= t.len(),
        o < rank(t, x),
    ensures
        exists|y: int| 0 <= y < x && t[y] != 0 && #[trigger] rank(t, y as nat) == o,
    decreases x,
{
    if o < rank(t, (x - 1) as nat) {
        lemma_rank_onto(t, (x - 1) as nat, o);
    } else {
        assert(t[x - 1] != 0 && rank(t, (x - 1) as nat) == o);
    }
}

/// Positions in distinct blocks are distinct.
proof fn lemma_blocks_disjoint(lay: Layout, rows: nat, r1: nat, s1: nat, k1: int, r2: nat, s2: nat, k2: int)
    requires
        lay.valid(rows),
        r1 < lay.b_m,
        s1 < lay.b_n,
        r2 < lay.b_m,
        s2 < lay.b_n,
        0 <= k1 < lay.s_m * lay.s_n,
        0 <= k2 < lay.s_m * lay.s_n,
        !(r1 == r2 && s1 == s2),
    ensures
        block_pos(lay.n, lay.s_m, lay.s_n, r1, s1, k1) != block_pos(lay.n, lay.s_m, lay.s_n, r2, s2, k2),
{
    let (n, s_m, s_n) = (lay.n, lay.s_m, lay.s_n);
    lemma_block_pos(n, s_m, s_n, lay.b_m, lay.b_n, r1, s1, k1);
    lemma_block_pos(n, s_m, s_n, lay.b_m, lay.b_n, r2, s2, k2);
    let a1 = k1 / (s_n as int);
    let a2 = k2 / (s_n as int);
    let e1 = k1 % (s_n as int);
    let e2 = k2 % (s_n as int);
    lemma_block_index(s_m, s_n, k1);
    lemma_block_index(s_m, s_n, k2);
    if r1 != r2 {
        assert(s_m * r1 + a1 != s_m * r2 + a2) by (nonlinear_arith)
            requires
                r1 != r2,
                0 <= a1 < s_m,
                0 <= a2 < s_m,
        ;
    } else {
        assert(s_n * s1 + e1 != s_n * s2 + e2) by (nonlinear_arith)
            requires
                s1 != s2,
                0 <= e1 < s_n,
                0 <= e2 < s_n,
        ;
    }
}

/// The naming cell whose block lands at destination `o`.
pub open spec fn cell_of_rank(t: Seq<usize>, o: nat) -> int {
    choose|y: int| 0 <= y < t.len() && t[y] != 0 && rank(t, y as nat) == o
}

/// How the forward application moves the cells of the block of naming cell `y`.
pub open spec fn block_move(sch: Schedule, lay: Layout, src: Seq<u8>, t: Seq<usize>, start: int, y: int) -> spec_fn(int) -> int {
    let sb = (t[y] - 1) as nat;
    rearrangement(
        enc_block(sch, lay, src, t, start, y),
        block_of(src, lay.n, lay.s_m, lay.s_n, sb / lay.b_n, sb % lay.b_n),
    )
}

/// The position of the image whose value the ciphertext holds at `z`.
pub open spec fn cipher_source(sch: Schedule, lay: Layout, src: Seq<u8>, t: Seq<usize>, start: int, z: int) -> int {
    let r = (z / (lay.n as int)) / (lay.s_m as int);
    let s = (z % (lay.n as int)) / (lay.s_n as int);
    let y = cell_of_rank(t, (r * lay.b_n + s) as nat);
    let sb = (t[y] - 1) as nat;
    let k = block_local(lay.n, lay.s_m, lay.s_n, r as nat, s as nat, z);
    block_pos(lay.n, lay.s_m, lay.s_n, sb / lay.b_n, sb % lay.b_n, block_move(sch, lay, src, t, start, y)(k))
}

/// Where the ciphertext cell `z` takes its value from: its block's naming cell `y`, its
/// index `k` in that block, and the image position `cipher_source` that the engine moved there.
proof fn lemma_source_cell(sch: Schedule, lay: Layout, rows: nat, src: Seq<u8>, t: Seq<usize>, start: int, z: int)
    requires
        walk_ready(sch, lay, rows, t),
        src.len() == rows * lay.n,
        rank(t, t.len()) == lay.blocks(),
        0 <= z < rows * lay.n,
    ensures
        ({
            let (n, s_m, s_n) = (lay.n, lay.s_m, lay.s_n);
            let r = (z / (n as int)) / (s_m as int);
            let s = (z % (n as int)) / (s_n as int);
            let o = (r * lay.b_n + s) as nat;
            let y = cell_of_rank(t, o);
            let k = block_local(n, s_m, s_n, r as nat, s as nat, z);
            let sb = (t[y] - 1) as nat;
            let f = block_move(sch, lay, src, t, start, y);
            &&& 0 <= r < lay.b_m
            &&& 0 <= s < lay.b_n
            &&& o < lay.blocks()
            &&& o / lay.b_n == r
            &&& o % lay.b_n == s
            &&& 0 <= y < t.len()
            &&& t[y] != 0
            &&& rank(t, y as nat) == o
            &&& 0 <= k < s_m * s_n
            &&& block_pos(n, s_m, s_n, r as nat, s as nat, k) == z
            &&& sb < lay.blocks()
            &&& sb / lay.b_n < lay.b_m
            &&& sb % lay.b_n < lay.b_n
            &&& bijective_on(f, (s_m * s_n) as int)
            &&& 0 <= f(k) < s_m * s_n
            &&& cipher_source(sch, lay, src, t, start, z) == block_pos(n, s_m, s_n, sb / lay.b_n, sb % lay.b_n, f(k))
            &&& 0 <= cipher_source(sch, lay, src, t, start, z) < rows * n
            &&& enc_block(sch, lay, src, t, start, y)[k] == src[cipher_source(sch, lay, src, t, start, z)]
        }),
{
    let (n, s_m, s_n) = (lay.n, lay.s_m, lay.s_n);
    lemma_position_in_block(lay, rows, z);
    let r = (z / (n as int)) / (s_m as int);
    let s = (z % (n as int)) / (s_n as int);
    let o = (r * lay.b_n + s) as nat;
    assert(0 <= r * lay.b_n + s < lay.b_m * lay.b_n) by (nonlinear_arith)
        requires
            0 <= r < lay.b_m,
            0 <= s < lay.b_n,
    ;
    lemma_fundamental_div_mod_converse_div(o as int, lay.b_n as int, r, s);
    lemma_fundamental_div_mod_converse_mod(o as int, lay.b_n as int, r, s);
    lemma_rank_onto(t, t.len(), o);
    let y = cell_of_rank(t, o);
    let sb = (t[y] - 1) as nat;
    lemma_block_index(lay.b_m, lay.b_n, sb as int);
    let blk0 = block_of(src, n, s_m, s_n, sb / lay.b_n, sb % lay.b_n);
    lemma_encipher_rearranges(sch, blk0, s_m, s_n, start + o * lay.app_cost());
    let f = block_move(sch, lay, src, t, start, y);
    let k = block_local(n, s_m, s_n, r as nat, s as nat, z);
    assert(0 <= f(k) < s_m * s_n);
    lemma_block_pos(n, s_m, s_n, lay.b_m, lay.b_n, sb / lay.b_n, sb % lay.b_n, f(k));
    assert(enc_block(sch, lay, src, t, start, y)[k] == blk0[f(k)]);
}

proof fn lemma_source_injective(sch: Schedule, lay: Layout, rows: nat, src: Seq<u8>, t: Seq<usize>, start: int, i: int, j: int)
    requires
        walk_ready(sch, lay, rows, t),
        src.len() == rows * lay.n,
        rank(t, t.len()) == lay.blocks(),
        0 <= i < rows * lay.n,
        0 <= j < rows * lay.n,
        i != j,
    ensures
        cipher_source(sch, lay, src, t, start, i) != cipher_source(sch, lay, src, t, start, j),
{
    let (n, s_m, s_n) = (lay.n, lay.s_m, lay.s_n);
    lemma_source_cell(sch, lay, rows, src, t, start, i);
    lemma_source_cell(sch, lay, rows, src, t, start, j);
    let ri = (i / (n as int)) / (s_m as int);
    let si = (i % (n as int)) / (s_n as int);
    let rj = (j / (n as int)) / (s_m as int);
    let sj = (j % (n as int)) / (s_n as int);
    let oi = (ri * lay.b_n + si) as nat;
    let oj = (rj * lay.b_n + sj) as nat;
    let yi = cell_of_rank(t, oi);
    let yj = cell_of_rank(t, oj);
    let sbi = (t[yi] - 1) as nat;
    let sbj = (t[yj] - 1) as nat;
    let ki = block_local(n, s_m, s_n, ri as nat, si as nat, i);
    let kj = block_local(n, s_m, s_n, rj as nat, sj as nat, j);
    let fi = block_move(sch, lay, src, t, start, yi);
    let fj = block_move(sch, lay, src, t, start, yj);
    if oi == oj {
        assert(ki != kj);
        assert(fi(ki) != fi(kj));
        lemma_block_pos(n, s_m, s_n, lay.b_m, lay.b_n, sbi / lay.b_n, sbi % lay.b_n, fi(ki));
        lemma_block_pos(n, s_m, s_n, lay.b_m, lay.b_n, sbi / lay.b_n, sbi % lay.b_n, fi(kj));
    } else {
        assert(yi != yj);
        assert(t[yi] != t[yj]);
        lemma_block_numbers(lay.b_m, lay.b_n, sbi as int, sbj as int);
        lemma_blocks_disjoint(lay, rows, sbi / lay.b_n, sbi % lay.b_n, fi(ki), sbj / lay.b_n, sbj % lay.b_n, fj(kj));
    }
}

proof fn lemma_source_onto(sch: Schedule, lay: Layout, rows: nat, src: Seq<u8>, t: Seq<usize>, start: int, x: int)
    requires
        walk_ready(sch, lay, rows, t),
        src.len() == rows * lay.n,
        rank(t, t.len()) == lay.blocks(),
        0 <= x < rows * lay.n,
    ensures
        exists|z: int| 0 <= z < rows * lay.n && cipher_source(sch, lay, src, t, start, z) == x,
{
    let (n, s_m, s_n) = (lay.n, lay.s_m, lay.s_n);
    let total = s_m * s_n;
    lemma_position_in_block(lay, rows, x);
    let r2 = (x / (n as int)) / (s_m as int);
    let s2 = (x % (n as int)) / (s_n as int);
    let k2 = block_local(n, s_m, s_n, r2 as nat, s2 as nat, x);
    let b = r2 * lay.b_n + s2;
    assert(0 <= b < lay.b_m * lay.b_n) by (nonlinear_arith)
        requires
            0 <= r2 < lay.b_m,
            0 <= s2 < lay.b_n,
            b == r2 * lay.b_n + s2,
    ;
    lemma_fundamental_div_mod_converse_div(b, lay.b_n as int, r2, s2);
    lemma_fundamental_div_mod_converse_mod(b, lay.b_n as int, r2, s2);
    assert(names(t, b + 1));
    let y = choose|y: int| 0 <= y < t.len() && t[y] == b + 1;
    let o = rank(t, y as nat);
    lemma_rank_mono(t, y as nat, t.len());
    lemma_block_index(lay.b_m, lay.b_n, o as int);
    let blk0 = block_of(src, n, s_m, s_n, r2 as nat, s2 as nat);
    lemma_encipher_rearranges(sch, blk0, s_m, s_n, start + o * lay.app_cost());
    let f = block_move(sch, lay, src, t, start, y);
    assert(hits(f, total as int, k2));
    let k = choose|k: int| 0 <= k < total && #[trigger] f(k) == k2;
    let z = block_pos(n, s_m, s_n, o / lay.b_n, o % lay.b_n, k);
    lemma_block_pos(n, s_m, s_n, lay.b_m, lay.b_n, o / lay.b_n, o % lay.b_n, k);
    lemma_source_cell(sch, lay, rows, src, t, start, z);
    lemma_fundamental_div_mod(o as int, lay.b_n as int);
    lemma_block_index(s_m, s_n, k);
    assert(s_m * (o / lay.b_n) == (o / lay.b_n) * s_m) by (nonlinear_arith);
    assert(s_n * (o % lay.b_n) == (o % lay.b_n) * s_n) by (nonlinear_arith);
    assert(z / (n as int) == (o / lay.b_n) * s_m + k / (s_n as int));
    assert(z % (n as int) == (o % lay.b_n) * s_n + k % (s_n as int));
    assert(0 <= k % (s_n as int) < s_n);
    assert(0 <= k / (s_n as int) < s_m);
    lemma_fundamental_div_mod_converse_div(z / (n as int), s_m as int, (o / lay.b_n) as int, k / (s_n as int));
    lemma_fundamental_div_mod_converse_div(z % (n as int), s_n as int, (o % lay.b_n) as int, k % (s_n as int));
    assert(((o / lay.b_n) * lay.b_n + o % lay.b_n) == o) by (nonlinear_arith)
        requires
            o == lay.b_n * (o / lay.b_n) + o % lay.b_n,
    ;
    let y2 = cell_of_rank(t, o);
    if y2 != y {
        if y2 < y {
            lemma_rank_mono(t, y2 as nat, y as nat);
        } else {
            lemma_rank_mono(t, y as nat, y2 as nat);
        }
    }
    assert(cipher_source(sch, lay, src, t, start, z) == x);
}

/// Encryption only moves the pixels: the ciphertext is the image with its cells permuted, so
/// it holds every value as many times as the image does.
pub proof fn lemma_encrypt_rearranges(src: Seq<u8>, rows: nat, cols: nat, s_m: nat, s_n: nat, bits: Seq<u8>)
    requires
        config_error(rows, cols, src.len(), s_m, s_n, bits) is None,
    ensures
        rearranges(encrypted(src, rows, cols, s_m, s_n, bits), src),
{
    let lay = layout_of(rows, cols, s_m, s_n);
    let sch = cipher_schedule(bits);
    let t = permuted_table(bits, rows, cols, s_m, s_n);
    let init = Seq::new(rows * cols, |k: int| 0u8);
    let start = lay.app_cost();
    let total = s_m * s_n;
    let len = src.len() as int;
    lemma_permuted_table_bijective(bits, rows, cols, s_m, s_n);
    lemma_fundamental_div_mod(rows as int, s_m as int);
    lemma_fundamental_div_mod(cols as int, s_n as int);
    assert(rows == lay.b_m * s_m && cols == lay.b_n * s_n) by (nonlinear_arith)
        requires
            rows == s_m * (rows / s_m),
            cols == s_n * (cols / s_n),
            lay.b_m == rows / s_m,
            lay.b_n == cols / s_n,
    ;
    assert(walk_ready(sch, lay, rows, t));
    lemma_enc_walk(sch, lay, rows, src, t, init, start, total);
    lemma_rank_total(t, lay.blocks());
    let cipher = enc_walk(sch, lay, src, t, init, start, total).0;
    assert(cipher == encrypted(src, rows, cols, s_m, s_n, bits));
    let sigma = |z: int| cipher_source(sch, lay, src, t, start, z);
    assert forall|i: int| 0 <= i < len implies 0 <= #[trigger] sigma(i) < len && cipher[i] == src[sigma(i)] by {
        lemma_source_cell(sch, lay, rows, src, t, start, i);
        let r = (i / (cols as int)) / (s_m as int);
        let s = (i % (cols as int)) / (s_n as int);
        let y = cell_of_rank(t, (r * lay.b_n + s) as nat);
        assert(block_of(cipher, cols, s_m, s_n, r as nat, s as nat) == enc_block(sch, lay, src, t, start, y));
    }
    assert forall|i: int, j: int| 0 <= i < len && 0 <= j < len && i != j implies #[trigger] sigma(i) != #[trigger] sigma(j) by {
        lemma_source_injective(sch, lay, rows, src, t, start, i, j);
    }
    assert forall|x: int| 0 <= x < len implies #[trigger] hits(sigma, len, x) by {
        lemma_source_onto(sch, lay, rows, src, t, start, x);
        let z = choose|z: int| 0 <= z < rows * lay.n && cipher_source(sch, lay, src, t, start, z) == x;
        assert(sigma(z) == x);
    }
    assert(bijective_on(sigma, len));
    assert(forall|i: int| 0 <= i < len ==> #[trigger] cipher[i] == src[sigma(i)]);
}

} // verus!
