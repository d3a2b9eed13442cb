use vstd::prelude::*;
use vstd::arithmetic::div_mod::{
    lemma_fundamental_div_mod, lemma_fundamental_div_mod_converse_div,
    lemma_fundamental_div_mod_converse_mod,
};
use crate::grid::{lemma_cell_index, Grid};
use crate::rotate::nonempty;
use crate::sub_hcie::{round_cost, same_config, Operation, Schedule, SubHCIE};

verus! {

/// Rounds per application of the engine.
pub const N_ITER: usize = 2;

/// Shift weights: a round rotates by `ALPHA + BETA * b0 + GAMMA * b1` for its first two bits.
pub const ALPHA: usize = 4;

pub const BETA: usize = 2;

pub const GAMMA: usize = 1;

/// Value of table cell `x` of an `s_m x s_n` table for a `b_m x b_n` arrangement of blocks:
/// cell `(i, j)` names block `i * b_n + j + 1` when that block exists, and holds 0 otherwise.
pub open spec fn table_cell(s_n: nat, b_m: nat, b_n: nat, x: int) -> usize {
    let i = x / (s_n as int);
    let j = x % (s_n as int);
    if i < b_m && j < b_n {
        (i * b_n + j + 1) as usize
    } else {
        0
    }
}

/// The block table before it is permuted, in row order.
pub open spec fn table_init(s_m: nat, s_n: nat, b_m: nat, b_n: nat) -> Seq<usize> {
    Seq::new(s_m * s_n, |x: int| table_cell(s_n, b_m, b_n, x))
}

/// Index `k` of an `s_m x s_n` block taken at block row `r`, block column `s` of a grid
/// with `n` columns, as a position in that grid.
pub open spec fn block_pos(n: nat, s_m: nat, s_n: nat, r: nat, s: nat, k: int) -> int {
    (s_m * r + k / (s_n as int)) * n + s_n * s + k % (s_n as int)
}

/// The `s_m x s_n` block at block row `r`, block column `s`, in row order.
pub open spec fn block_of<T>(c: Seq<T>, n: nat, s_m: nat, s_n: nat, r: nat, s: nat) -> Seq<T> {
    Seq::new(s_m * s_n, |k: int| c[block_pos(n, s_m, s_n, r, s, k)])
}

/// Position `y` of a grid with `n` columns lies in the block at `(r, s)`.
pub open spec fn in_block(n: nat, s_m: nat, s_n: nat, r: nat, s: nat, y: int) -> bool {
    &&& s_m * r <= y / (n as int) < s_m * r + s_m
    &&& s_n * s <= y % (n as int) < s_n * s + s_n
}

/// The index within its block of a position that lies in the block at `(r, s)`.
pub open spec fn block_local(n: nat, s_m: nat, s_n: nat, r: nat, s: nat, y: int) -> int {
    (y / (n as int) - s_m * r) * s_n + (y % (n as int) - s_n * s)
}

/// `c` with the block at `(r, s)` replaced by `blk[0..k]`, the rest of it left as it was.
pub open spec fn put_block_upto<T>(
    c: Seq<T>,
    n: nat,
    s_m: nat,
    s_n: nat,
    r: nat,
    s: nat,
    blk: Seq<T>,
    k: int,
) -> Seq<T> {
    Seq::new(
        c.len(),
        |y: int|
            if in_block(n, s_m, s_n, r, s, y) && block_local(n, s_m, s_n, r, s, y) < k {
                blk[block_local(n, s_m, s_n, r, s, y)]
            } else {
                c[y]
            },
    )
}

/// `c` with the block at `(r, s)` replaced by `blk`.
pub open spec fn put_block<T>(c: Seq<T>, n: nat, s_m: nat, s_n: nat, r: nat, s: nat, blk: Seq<T>) -> Seq<T> {
    put_block_upto(c, n, s_m, s_n, r, s, blk, (s_m * s_n) as int)
}

/// Where index `k` of the block at `(r, s)` lies, for a grid of `b_m x b_n` blocks.
pub(crate) proof fn lemma_block_pos(n: nat, s_m: nat, s_n: nat, b_m: nat, b_n: nat, r: nat, s: nat, k: int)
    requires
        s_m > 0,
        s_n > 0,
        n == b_n * s_n,
        r < b_m,
        s < b_n,
        0 <= k < s_m * s_n,
    ensures
        0 <= block_pos(n, s_m, s_n, r, s, k) < (b_m * s_m) * n,
        block_pos(n, s_m, s_n, r, s, k) / (n as int) == s_m * r + k / (s_n as int),
        block_pos(n, s_m, s_n, r, s, k) % (n as int) == s_n * s + k % (s_n as int),
        in_block(n, s_m, s_n, r, s, block_pos(n, s_m, s_n, r, s, k)),
        block_local(n, s_m, s_n, r, s, block_pos(n, s_m, s_n, r, s, k)) == k,
        0 <= s_m * r + k / (s_n as int) < b_m * s_m,
        0 <= s_n * s + k % (s_n as int) < n,
{
    let i = k / (s_n as int);
    let j = k % (s_n as int);
    lemma_fundamental_div_mod(k, s_n as int);
    assert(0 <= i < s_m) by (nonlinear_arith)
        requires
            k == s_n * i + j,
            0 <= j < s_n,
            0 <= k < s_m * s_n,
            s_n > 0,
    ;
    assert(0 <= s_m * r + i < b_m * s_m) by (nonlinear_arith)
        requires
            0 <= i < s_m,
            r < b_m,
            r >= 0,
    ;
    assert(0 <= s_n * s + j < n) by (nonlinear_arith)
        requires
            0 <= j < s_n,
            s < b_n,
            s >= 0,
            n == b_n * s_n,
    ;
    let y = block_pos(n, s_m, s_n, r, s, k);
    lemma_cell_index((b_m * s_m) as int, n as int, s_m * r + i, s_n * s + j);
    assert(y == (s_m * r + i) * n + (s_n * s + j));
    lemma_fundamental_div_mod_converse_div(y, n as int, s_m * r + i, s_n * s + j);
    lemma_fundamental_div_mod_converse_mod(y, n as int, s_m * r + i, s_n * s + j);
    assert(i * s_n + j == k) by (nonlinear_arith)
        requires
            k == s_n * i + j,
    ;
}

/// A position in the block at `(r, s)` is the block position of its local index.
pub(crate) proof fn lemma_block_local(n: nat, s_m: nat, s_n: nat, b_m: nat, b_n: nat, r: nat, s: nat, y: int)
    requires
        s_m > 0,
        s_n > 0,
        n == b_n * s_n,
        r < b_m,
        s < b_n,
        0 <= y,
        in_block(n, s_m, s_n, r, s, y),
    ensures
        0 <= block_local(n, s_m, s_n, r, s, y) < s_m * s_n,
        block_pos(n, s_m, s_n, r, s, block_local(n, s_m, s_n, r, s, y)) == y,
{
    let a = y / (n as int) - s_m * r;
    let b = y % (n as int) - s_n * s;
    let k = block_local(n, s_m, s_n, r, s, y);
    assert(0 <= k < s_m * s_n) by (nonlinear_arith)
        requires
            k == a * s_n + b,
            0 <= a < s_m,
            0 <= b < s_n,
    ;
    lemma_fundamental_div_mod_converse_div(k, s_n as int, a, b);
    lemma_fundamental_div_mod_converse_mod(k, s_n as int, a, b);
    assert(n > 0) by (nonlinear_arith)
        requires
            n == b_n * s_n,
            s < b_n,
            s_n > 0,
    ;
    lemma_fundamental_div_mod(y, n as int);
    assert(y == (y / (n as int)) * n + y % (n as int)) by (nonlinear_arith)
        requires
            y == n * (y / (n as int)) + y % (n as int),
    ;
}

/// Builds the block table of an `m x n` grid cut into `s_m x s_n` blocks: an `s_m x s_n`
/// grid whose cell `(i, j)` names block `i * (n / s_n) + j + 1` when that block exists,
/// and holds 0 otherwise.
pub fn pseudoimage(m: usize, n: usize, s_m: usize, s_n: usize) -> (r: Grid<usize>)
    requires
        s_m > 0,
        s_n > 0,
        m % s_m == 0,
        n % s_n == 0,
        m / s_m <= s_m,
        n / s_n <= s_n,
        s_m * s_n <= usize::MAX,
    ensures
        r.wf(),
        r.rows == s_m,
        r.cols == s_n,
        r.cells@ == table_init(s_m as nat, s_n as nat, (m / s_m) as nat, (n / s_n) as nat),
{
    let b_m = m / s_m;
    let b_n = n / s_n;
    let total = s_m * s_n;
    let mut cells: Vec<usize> = Vec::with_capacity(total);
    let mut x: usize = 0;
    while x < total
        invariant
            x <= total,
            total == s_m * s_n,
            s_n > 0,
            b_m <= s_m,
            b_n <= s_n,
            cells@.len() == x,
            forall|y: int| 0 <= y < x ==> cells@[y] == table_cell(s_n as nat, b_m as nat, b_n as nat, y),
        decreases total - x,
    {
        let i = x / s_n;
        let j = x % s_n;
        let v = if i < b_m && j < b_n {
            assert(i * b_n + j + 1 <= s_m * s_n) by (nonlinear_arith)
                requires
                    i < b_m,
                    j < b_n,
                    b_m <= s_m,
                    b_n <= s_n,
            ;
            i * b_n + j + 1
        } else {
            0
        };
        cells.push(v);
        x = x + 1;
    }
    assert(cells@ =~= table_init(s_m as nat, s_n as nat, b_m as nat, b_n as nat));
    Grid { rows: s_m, cols: s_n, cells }
}

/// Copies the `s_m x s_n` block at block row `r`, block column `s` of `f` into `sub`.
fn extract_block<T: Copy>(f: &Grid<T>, sub: &mut Grid<T>, r: usize, s: usize)
    requires
        f.wf(),
        old(sub).wf(),
        old(sub).rows > 0,
        old(sub).cols > 0,
        f.cols % old(sub).cols == 0,
        f.rows % old(sub).rows == 0,
        r < f.rows / old(sub).rows,
        s < f.cols / old(sub).cols,
    ensures
        final(sub).wf(),
        final(sub).rows == old(sub).rows,
        final(sub).cols == old(sub).cols,
        final(sub).cells@ == block_of(
            f.cells@,
            f.cols as nat,
            old(sub).rows as nat,
            old(sub).cols as nat,
            r as nat,
            s as nat,
        ),
{
    let s_m = sub.rows;
    let s_n = sub.cols;
    let ghost b_m = f.rows / s_m;
    let ghost b_n = f.cols / s_n;
    proof {
        lemma_fundamental_div_mod(f.rows as int, s_m as int);
        lemma_fundamental_div_mod(f.cols as int, s_n as int);
        assert(b_m * s_m == f.rows && b_n * s_n == f.cols) by (nonlinear_arith)
            requires
                f.rows == s_m * b_m,
                f.cols == s_n * b_n,
        ;
    }
    let total = s_m * s_n;
    let mut k: usize = 0;
    while k < total
        invariant
            f.wf(),
            sub.wf(),
            sub.rows == s_m,
            sub.cols == s_n,
            s_m > 0,
            s_n > 0,
            total == s_m * s_n,
            b_m * s_m == f.rows,
            b_n * s_n == f.cols,
            r < b_m,
            s < b_n,
            k <= total,
            forall|y: int|
                0 <= y < k ==> sub.cells@[y] == block_of(
                    f.cells@,
                    f.cols as nat,
                    s_m as nat,
                    s_n as nat,
                    r as nat,
                    s as nat,
                )[y],
        decreases total - k,
    {
        proof {
            lemma_block_pos(f.cols as nat, s_m as nat, s_n as nat, b_m as nat, b_n as nat, r as nat, s as nat, k as int);
        }
        let v = f.get(s_m * r + k / s_n, s_n * s + k % s_n);
        sub.cells.set(k, v);
        k = k + 1;
    }
    assert(sub.cells@ =~= block_of(f.cells@, f.cols as nat, s_m as nat, s_n as nat, r as nat, s as nat));
}

/// Writes the `s_m x s_n` grid `sub` over the block at block row `r`, block column `s` of `f`.
fn place_block<T: Copy>(f: &mut Grid<T>, sub: &Grid<T>, r: usize, s: usize)
    requires
        old(f).wf(),
        sub.wf(),
        sub.rows > 0,
        sub.cols > 0,
        old(f).cols % sub.cols == 0,
        old(f).rows % sub.rows == 0,
        r < old(f).rows / sub.rows,
        s < old(f).cols / sub.cols,
    ensures
        final(f).wf(),
        final(f).rows == old(f).rows,
        final(f).cols == old(f).cols,
        final(f).cells@ == put_block(
            old(f).cells@,
            old(f).cols as nat,
            sub.rows as nat,
            sub.cols as nat,
            r as nat,
            s as nat,
            sub.cells@,
        ),
{
    let s_m = sub.rows;
    let s_n = sub.cols;
    let ghost b_m = f.rows / s_m;
    let ghost b_n = f.cols / s_n;
    let ghost c0 = f.cells@;
    let ghost n = f.cols as nat;
    proof {
        lemma_fundamental_div_mod(f.rows as int, s_m as int);
        lemma_fundamental_div_mod(f.cols as int, s_n as int);
        assert(b_m * s_m == f.rows && b_n * s_n == f.cols) by (nonlinear_arith)
            requires
                f.rows == s_m * b_m,
                f.cols == s_n * b_n,
        ;
        assert(put_block_upto(c0, n, s_m as nat, s_n as nat, r as nat, s as nat, sub.cells@, 0) =~= c0);
    }
    let total = s_m * s_n;
    let mut k: usize = 0;
    while k < total
        invariant
            f.wf(),
            sub.wf(),
            sub.rows == s_m,
            sub.cols == s_n,
            f.cols == n,
            f.rows == old(f).rows,
            s_m > 0,
            s_n > 0,
            total == s_m * s_n,
            b_m * s_m == f.rows,
            b_n * s_n == f.cols,
            r < b_m,
            s < b_n,
            k <= total,
            c0 == old(f).cells@,
            f.cells@ == put_block_upto(c0, n, s_m as nat, s_n as nat, r as nat, s as nat, sub.cells@, k as int),
        decreases total - k,
    {
        proof {
            lemma_block_pos(n, s_m as nat, s_n as nat, b_m as nat, b_n as nat, r as nat, s as nat, k as int);
        }
        let v = sub.cells[k];
        let ghost prev = f.cells@;
        f.set(s_m * r + k / s_n, s_n * s + k % s_n, v);
        proof {
            let pk = block_pos(n, s_m as nat, s_n as nat, r as nat, s as nat, k as int);
            let next = put_block_upto(c0, n, s_m as nat, s_n as nat, r as nat, s as nat, sub.cells@, k + 1);
            assert forall|y: int| 0 <= y < f.cells@.len() implies f.cells@[y] == next[y] by {
                if y != pk && in_block(n, s_m as nat, s_n as nat, r as nat, s as nat, y) {
                    lemma_block_local(n, s_m as nat, s_n as nat, b_m as nat, b_n as nat, r as nat, s as nat, y);
                }
            }
            assert(f.cells@ =~= next);
        }
        k = k + 1;
    }
}

/// How an image is cut: `n` columns, blocks of `s_m x s_n`, `b_m x b_n` of them.
pub struct Layout {
    pub n: nat,
    pub s_m: nat,
    pub s_n: nat,
    pub b_m: nat,
    pub b_n: nat,
}

impl Layout {
    pub open spec fn blocks(self) -> nat {
        self.b_m * self.b_n
    }

    /// Stream bits that one application of the engine to a block consumes.
    pub open spec fn app_cost(self) -> int {
        N_ITER * round_cost(self.s_m as int, self.s_n as int)
    }

    /// The geometry is that of a grid of `rows` rows cut exactly into blocks.
    pub open spec fn valid(self, rows: nat) -> bool {
        &&& self.s_m > 0
        &&& self.s_n > 0
        &&& self.n == self.b_n * self.s_n
        &&& rows == self.b_m * self.s_m
    }
}

/// The engine's schedule for a cipher run on the stream `bits`.
pub open spec fn cipher_schedule(bits: Seq<u8>) -> Schedule {
    Schedule { bits, alpha: ALPHA as nat, beta: BETA as nat, gamma: GAMMA as nat, n_iter: N_ITER as nat }
}

/// The forward walk over the first `x` cells of the permuted table: each cell that names a
/// block takes that block of `src` through the engine, its cursor at `start` plus one
/// application per block already placed, and places it at the next destination in row order.
/// Returns the output so far and the number of blocks placed.
pub open spec fn enc_walk(
    sch: Schedule,
    lay: Layout,
    src: Seq<u8>,
    table: Seq<usize>,
    init: Seq<u8>,
    start: int,
    x: nat,
) -> (Seq<u8>, nat)
    decreases x,
{
    if x == 0 {
        (init, 0)
    } else {
        let (out, order) = enc_walk(sch, lay, src, table, init, start, (x - 1) as nat);
        let v = table[x - 1];
        if v != 0 && v <= lay.blocks() && order < lay.blocks() {
            let sb = (v - 1) as nat;
            let blk = sch.encipher(
                block_of(src, lay.n, lay.s_m, lay.s_n, sb / lay.b_n, sb % lay.b_n),
                lay.s_m,
                lay.s_n,
                start + order * lay.app_cost(),
            );
            (put_block(out, lay.n, lay.s_m, lay.s_n, order / lay.b_n, order % lay.b_n, blk), order + 1)
        } else {
            (out, order)
        }
    }
}

/// The backward walk over the last `k` cells of the permuted table, last cell first: each
/// cell that names a block takes the latest destination not yet undone, deciphers the block
/// found there and writes it back where the cell says it came from. Returns the output so far
/// and the number of destinations not yet undone.
pub open spec fn dec_walk(
    sch: Schedule,
    lay: Layout,
    cipher: Seq<u8>,
    table: Seq<usize>,
    init: Seq<u8>,
    start: int,
    k: nat,
) -> (Seq<u8>, nat)
    decreases k,
{
    if k == 0 {
        (init, lay.blocks())
    } else {
        let (out, order) = dec_walk(sch, lay, cipher, table, init, start, (k - 1) as nat);
        let v = table[table.len() - k];
        if v != 0 && v <= lay.blocks() && order > 0 {
            let o = (order - 1) as nat;
            let blk = sch.decipher(
                block_of(cipher, lay.n, lay.s_m, lay.s_n, o / lay.b_n, o % lay.b_n),
                lay.s_m,
                lay.s_n,
                start + o * lay.app_cost(),
            );
            let sb = (v - 1) as nat;
            (put_block(out, lay.n, lay.s_m, lay.s_n, sb / lay.b_n, sb % lay.b_n, blk), o)
        } else {
            (out, order)
        }
    }
}

pub(crate) proof fn lemma_costs(cost: int, order: int, app: int)
    requires
        app == N_ITER * cost,
    ensures
        (N_ITER + 1) * cost == app + cost,
        app == 2 * cost,
        order * app + app == (order + 1) * app,
{
    assert((N_ITER + 1) * cost == app + cost && app == 2 * cost) by (nonlinear_arith)
        requires
            app == N_ITER * cost,
            N_ITER == 2,
    ;
    assert(order * app + app == (order + 1) * app) by (nonlinear_arith);
}

pub(crate) proof fn lemma_block_index(b_m: nat, b_n: nat, t: int)
    requires
        b_n > 0,
        0 <= t < b_m * b_n,
    ensures
        0 <= t / (b_n as int) < b_m,
        0 <= t % (b_n as int) < b_n,
{
    lemma_fundamental_div_mod(t, b_n as int);
    assert(0 <= t / (b_n as int) < b_m) by (nonlinear_arith)
        requires
            t == b_n * (t / (b_n as int)) + t % (b_n as int),
            0 <= t % (b_n as int) < b_n,
            0 <= t < b_m * b_n,
            b_n > 0,
    ;
}

/// The forward walk: for each cell of the permuted table `f_table`, in row order, that names
/// a block of `f`, passes that block through `sub_hcie` and writes it to the next block of
/// `f_hcie` in row order.
pub fn hcie_apply(f_hcie: &mut Grid<u8>, f_table: &Grid<usize>, f: &Grid<u8>, sub_hcie: &mut SubHCIE)
    requires
        f.wf(),
        old(f_hcie).wf(),
        f_table.wf(),
        old(f_hcie).rows == f.rows,
        old(f_hcie).cols == f.cols,
        f_table.rows > 0,
        f_table.cols > 0,
        f.rows % f_table.rows == 0,
        f.cols % f_table.cols == 0,
        old(sub_hcie).wf(),
        old(sub_hcie).op == Operation::Encrypt,
        old(sub_hcie).n_iter == N_ITER,
        old(sub_hcie).offset + ((f.rows / f_table.rows) * (f.cols / f_table.cols) + 1) * (N_ITER
            * round_cost(f_table.rows as int, f_table.cols as int)) + round_cost(
            f_table.rows as int,
            f_table.cols as int,
        ) <= usize::MAX,
    ensures
        final(f_hcie).wf(),
        final(f_hcie).rows == f.rows,
        final(f_hcie).cols == f.cols,
        same_config(final(sub_hcie), old(sub_hcie)),
        ({
            let lay = Layout {
                n: f.cols as nat,
                s_m: f_table.rows as nat,
                s_n: f_table.cols as nat,
                b_m: (f.rows / f_table.rows) as nat,
                b_n: (f.cols / f_table.cols) as nat,
            };
            let w = enc_walk(
                old(sub_hcie).schedule(),
                lay,
                f.cells@,
                f_table.cells@,
                old(f_hcie).cells@,
                old(sub_hcie).offset as int,
                f_table.cells@.len(),
            );
            &&& final(f_hcie).cells@ == w.0
            &&& final(sub_hcie).offset == old(sub_hcie).offset + w.1 * lay.app_cost()
        }),
{
    let s_m = f_table.rows;
    let s_n = f_table.cols;
    let b_m = f.rows / s_m;
    let b_n = f.cols / s_n;
    let ghost lay = Layout { n: f.cols as nat, s_m: s_m as nat, s_n: s_n as nat, b_m: b_m as nat, b_n: b_n as nat };
    let ghost sch = sub_hcie.schedule();
    let ghost start = sub_hcie.offset as int;
    let ghost init = f_hcie.cells@;
    let ghost cost = round_cost(s_m as int, s_n as int);
    proof {
        lemma_fundamental_div_mod(f.rows as int, s_m as int);
        lemma_fundamental_div_mod(f.cols as int, s_n as int);
        assert(b_m * s_m == f.rows && b_n * s_n == f.cols) by (nonlinear_arith)
            requires
                f.rows == s_m * b_m,
                f.cols == s_n * b_n,
        ;
        assert(s_m * s_n == f_table.cells.len());
        assert(cost >= 1);
        lemma_costs(cost, 0, N_ITER * cost);
        assert(N_ITER * cost <= (b_m * b_n + 1) * (N_ITER * cost)) by (nonlinear_arith)
            requires
                cost >= 1,
                N_ITER == 2,
        ;
        assert(b_m * b_n <= (b_m * b_n + 1) * (N_ITER * cost)) by (nonlinear_arith)
            requires
                cost >= 1,
                N_ITER == 2,
        ;
    }
    let blocks = b_m * b_n;
    let app = N_ITER * (3 * s_m + 3 * s_n - 2);
    let mut f_sub: Grid<u8> = Grid::filled(s_m, s_n, 0);
    let mut order: usize = 0;
    let mut x: usize = 0;
    while x < f_table.cells.len()
        invariant
            f.wf(),
            f_table.wf(),
            f_table.rows == s_m,
            f_table.cols == s_n,
            s_m > 0,
            s_n > 0,
            b_m * s_m == f.rows,
            b_n * s_n == f.cols,
            f.rows % s_m == 0,
            f.cols % s_n == 0,
            b_m == f.rows / s_m,
            b_n == f.cols / s_n,
            blocks == b_m * b_n,
            app == lay.app_cost(),
            cost == round_cost(s_m as int, s_n as int),
            lay == (Layout { n: f.cols as nat, s_m: s_m as nat, s_n: s_n as nat, b_m: b_m as nat, b_n: b_n as nat }),
            f_hcie.wf(),
            f_hcie.rows == f.rows,
            f_hcie.cols == f.cols,
            f_sub.wf(),
            f_sub.rows == s_m,
            f_sub.cols == s_n,
            sub_hcie.wf(),
            same_config(sub_hcie, old(sub_hcie)),
            sub_hcie.n_iter == N_ITER,
            sub_hcie.op == Operation::Encrypt,
            sch == old(sub_hcie).schedule(),
            sub_hcie.offset == start + order * app,
            start + (blocks + 1) * app + cost <= usize::MAX,
            order <= blocks,
            x <= f_table.cells.len(),
            (f_hcie.cells@, order as nat) == enc_walk(sch, lay, f.cells@, f_table.cells@, init, start, x as nat),
        decreases f_table.cells.len() - x,
    {
        let v = f_table.cells[x];
        // For a table that names each block once, as `encrypt` builds it, every nonzero
        // cell passes both bounds; they keep the walk in the grid for any other table.
        if v != 0 && v <= blocks && order < blocks {
            let sb = v - 1;
            proof {
                assert(b_n > 0) by (nonlinear_arith)
                    requires
                        sb < b_m * b_n,
                ;
                lemma_block_index(b_m as nat, b_n as nat, sb as int);
                lemma_block_index(b_m as nat, b_n as nat, order as int);
                assert(order * app + app <= blocks * app) by (nonlinear_arith)
                    requires
                        order < blocks,
                        app >= 0,
                ;
                lemma_costs(cost, order as int, app as int);
                lemma_costs(cost, blocks as int, app as int);
            }
            extract_block(f, &mut f_sub, sb / b_n, sb % b_n);
            sub_hcie.apply(&mut f_sub);
            place_block(f_hcie, &f_sub, order / b_n, order % b_n);
            order = order + 1;
        }
        x = x + 1;
    }
}

/// The backward walk: for each cell of the permuted table `f_table`, last cell first, that
/// names a block, takes the latest block of `f_hcie` in row order not yet undone, passes it
/// through `sub_hcie` in decrypt mode and writes it to `f` where the cell says it came from.
pub fn hcie_apply_rev(f: &mut Grid<u8>, f_table: &Grid<usize>, f_hcie: &Grid<u8>, sub_hcie: &mut SubHCIE)
    requires
        f_hcie.wf(),
        old(f).wf(),
        f_table.wf(),
        old(f).rows == f_hcie.rows,
        old(f).cols == f_hcie.cols,
        f_table.rows > 0,
        f_table.cols > 0,
        f_hcie.rows % f_table.rows == 0,
        f_hcie.cols % f_table.cols == 0,
        old(sub_hcie).wf(),
        old(sub_hcie).op == Operation::Decrypt,
        old(sub_hcie).n_iter == N_ITER,
        ((f_hcie.rows / f_table.rows) * (f_hcie.cols / f_table.cols)) * (N_ITER * round_cost(
            f_table.rows as int,
            f_table.cols as int,
        )) <= old(sub_hcie).offset,
        old(sub_hcie).offset + (N_ITER + 1) * round_cost(f_table.rows as int, f_table.cols as int)
            <= usize::MAX,
    ensures
        final(f).wf(),
        final(f).rows == f_hcie.rows,
        final(f).cols == f_hcie.cols,
        same_config(final(sub_hcie), old(sub_hcie)),
        ({
            let lay = Layout {
                n: f_hcie.cols as nat,
                s_m: f_table.rows as nat,
                s_n: f_table.cols as nat,
                b_m: (f_hcie.rows / f_table.rows) as nat,
                b_n: (f_hcie.cols / f_table.cols) as nat,
            };
            let w = dec_walk(
                old(sub_hcie).schedule(),
                lay,
                f_hcie.cells@,
                f_table.cells@,
                old(f).cells@,
                old(sub_hcie).offset - lay.blocks() * lay.app_cost(),
                f_table.cells@.len(),
            );
            &&& final(f).cells@ == w.0
            &&& final(sub_hcie).offset == old(sub_hcie).offset - (lay.blocks() - w.1) * lay.app_cost()
        }),
{
    let s_m = f_table.rows;
    let s_n = f_table.cols;
    let b_m = f_hcie.rows / s_m;
    let b_n = f_hcie.cols / s_n;
    let ghost lay = Layout { n: f_hcie.cols as nat, s_m: s_m as nat, s_n: s_n as nat, b_m: b_m as nat, b_n: b_n as nat };
    let ghost sch = sub_hcie.schedule();
    let ghost init = f.cells@;
    let ghost cost = round_cost(s_m as int, s_n as int);
    let ghost start = sub_hcie.offset - (b_m * b_n) * lay.app_cost();
    proof {
        lemma_fundamental_div_mod(f_hcie.rows as int, s_m as int);
        lemma_fundamental_div_mod(f_hcie.cols as int, s_n as int);
        assert(b_m * s_m == f_hcie.rows && b_n * s_n == f_hcie.cols) by (nonlinear_arith)
            requires
                f_hcie.rows == s_m * b_m,
                f_hcie.cols == s_n * b_n,
        ;
        assert(s_m * s_n == f_table.cells.len());
        assert(cost >= 1);
        lemma_costs(cost, 0, N_ITER * cost);
        assert(b_m * b_n <= (b_m * b_n) * (N_ITER * cost)) by (nonlinear_arith)
            requires
                cost >= 1,
                N_ITER == 2,
        ;
    }
    let blocks = b_m * b_n;
    let app = N_ITER * (3 * s_m + 3 * s_n - 2);
    let mut f_sub: Grid<u8> = Grid::filled(s_m, s_n, 0);
    let mut order: usize = blocks;
    let total = f_table.cells.len();
    let mut x: usize = total;
    while x > 0
        invariant
            f_hcie.wf(),
            f_table.wf(),
            f_table.rows == s_m,
            f_table.cols == s_n,
            total == f_table.cells.len(),
            s_m > 0,
            s_n > 0,
            b_m * s_m == f_hcie.rows,
            b_n * s_n == f_hcie.cols,
            f_hcie.rows % s_m == 0,
            f_hcie.cols % s_n == 0,
            b_m == f_hcie.rows / s_m,
            b_n == f_hcie.cols / s_n,
            blocks == b_m * b_n,
            app == lay.app_cost(),
            cost == round_cost(s_m as int, s_n as int),
            lay == (Layout { n: f_hcie.cols as nat, s_m: s_m as nat, s_n: s_n as nat, b_m: b_m as nat, b_n: b_n as nat }),
            f.wf(),
            f.rows == f_hcie.rows,
            f.cols == f_hcie.cols,
            f_sub.wf(),
            f_sub.rows == s_m,
            f_sub.cols == s_n,
            sub_hcie.wf(),
            same_config(sub_hcie, old(sub_hcie)),
            sub_hcie.n_iter == N_ITER,
            sub_hcie.op == Operation::Decrypt,
            sch == old(sub_hcie).schedule(),
            start == old(sub_hcie).offset - blocks * app,
            start >= 0,
            sub_hcie.offset == start + order * app,
            old(sub_hcie).offset + (N_ITER + 1) * cost <= usize::MAX,
            order <= blocks,
            x <= total,
            (f.cells@, order as nat) == dec_walk(sch, lay, f_hcie.cells@, f_table.cells@, init, start, (total - x) as nat),
        decreases x,
    {
        x = x - 1;
        let v = f_table.cells[x];
        // As in `hcie_apply`, the bounds only matter for tables that `decrypt` does not build.
        if v != 0 && v <= blocks && order > 0 {
            order = order - 1;
            let sb = v - 1;
            proof {
                assert(b_n > 0) by (nonlinear_arith)
                    requires
                        sb < b_m * b_n,
                ;
                lemma_block_index(b_m as nat, b_n as nat, sb as int);
                lemma_block_index(b_m as nat, b_n as nat, order as int);
                assert(order * app + app <= blocks * app) by (nonlinear_arith)
                    requires
                        order < blocks,
                        app >= 0,
                ;
                lemma_costs(cost, order as int, app as int);
            }
            extract_block(f_hcie, &mut f_sub, order / b_n, order % b_n);
            sub_hcie.apply(&mut f_sub);
            let sq = sb / b_n;
            let sr = sb % b_n;
            place_block(f, &f_sub, sq, sr);
        }
    }
    proof {
        let o0 = old(sub_hcie).offset as int;
        assert(start + order * app == o0 - (blocks - order) * app) by (nonlinear_arith)
            requires
                start == o0 - blocks * app,
        ;
    }
}

/// Why a cipher request is refused.
#[derive(Clone, Copy, Debug, PartialEq, Eq, Structural)]
pub enum ConfigError {
    /// The grid does not hold `rows * cols` cells.
    MalformedGrid,
    /// A block side is zero.
    EmptyBlock,
    /// The block sides do not divide the grid sides.
    BlockDoesNotDivide,
    /// There are more block rows than block-table rows, or more block columns than columns.
    TooManyBlocks,
    /// The stream is empty or holds a value other than 0 and 1.
    InvalidBitStream,
    /// The stream positions the run reaches do not fit in `usize`.
    TooLarge,
}

/// The stream positions a run over `b_m x b_n` blocks of `s_m x s_n` reaches, with margin
/// for one more application.
pub open spec fn cursor_bound(b_m: nat, b_n: nat, s_m: nat, s_n: nat) -> int {
    (b_m * b_n + 2) * (N_ITER * round_cost(s_m as int, s_n as int)) + round_cost(s_m as int, s_n as int)
}

/// The first problem with the geometry of a request, if any.
pub open spec fn geometry_error(rows: nat, cols: nat, len: nat, s_m: nat, s_n: nat) -> Option<ConfigError> {
    if len != rows * cols {
        Some(ConfigError::MalformedGrid)
    } else if s_m == 0 || s_n == 0 {
        Some(ConfigError::EmptyBlock)
    } else if rows % s_m != 0 || cols % s_n != 0 {
        Some(ConfigError::BlockDoesNotDivide)
    } else if rows / s_m > s_m || cols / s_n > s_n {
        Some(ConfigError::TooManyBlocks)
    } else if s_m * s_n > usize::MAX || cursor_bound(rows / s_m, cols / s_n, s_m, s_n) > usize::MAX {
        Some(ConfigError::TooLarge)
    } else {
        None
    }
}

/// A usable stream: nonempty, and made of bits.
pub open spec fn bits_valid(bits: Seq<u8>) -> bool {
    bits.len() > 0 && forall|x: int| 0 <= x < bits.len() ==> #[trigger] bits[x] <= 1
}

/// The first problem with a request, if any.
pub open spec fn config_error(rows: nat, cols: nat, len: nat, s_m: nat, s_n: nat, bits: Seq<u8>) -> Option<ConfigError> {
    match geometry_error(rows, cols, len, s_m, s_n) {
        Some(e) => Some(e),
        None => if bits_valid(bits) {
            None
        } else {
            Some(ConfigError::InvalidBitStream)
        },
    }
}

pub open spec fn layout_of(rows: nat, cols: nat, s_m: nat, s_n: nat) -> Layout {
    Layout { n: cols, s_m, s_n, b_m: rows / s_m, b_n: cols / s_n }
}

/// The block table after its keyed permutation: one forward application from cursor 0.
pub open spec fn permuted_table(bits: Seq<u8>, rows: nat, cols: nat, s_m: nat, s_n: nat) -> Seq<usize> {
    cipher_schedule(bits).encipher(table_init(s_m, s_n, rows / s_m, cols / s_n), s_m, s_n, 0)
}

/// The ciphertext of the `rows x cols` image `src` in blocks of `s_m x s_n` under `bits`.
pub open spec fn encrypted(src: Seq<u8>, rows: nat, cols: nat, s_m: nat, s_n: nat, bits: Seq<u8>) -> Seq<u8> {
    let lay = layout_of(rows, cols, s_m, s_n);
    enc_walk(
        cipher_schedule(bits),
        lay,
        src,
        permuted_table(bits, rows, cols, s_m, s_n),
        Seq::new(rows * cols, |k: int| 0u8),
        lay.app_cost(),
        s_m * s_n,
    ).0
}

/// The plaintext that `decrypt` recovers from the `rows x cols` ciphertext `src`.
pub open spec fn decrypted(src: Seq<u8>, rows: nat, cols: nat, s_m: nat, s_n: nat, bits: Seq<u8>) -> Seq<u8> {
    let lay = layout_of(rows, cols, s_m, s_n);
    dec_walk(
        cipher_schedule(bits),
        lay,
        src,
        permuted_table(bits, rows, cols, s_m, s_n),
        Seq::new(rows * cols, |k: int| 0u8),
        lay.app_cost(),
        s_m * s_n,
    ).0
}

pub(crate) proof fn lemma_bound_parts(b: int, cost: int)
    requires
        b >= 0,
        cost >= 1,
    ensures
        (b + 2) * (N_ITER * cost) + cost >= 5 * cost,
        (b + 2) * (N_ITER * cost) + cost >= (b + 2) * (N_ITER * cost),
        (b + 2) * (N_ITER * cost) + cost >= b + 2,
{
    assert((b + 2) * (N_ITER * cost) + cost >= 5 * cost) by (nonlinear_arith)
        requires
            b >= 0,
            cost >= 0,
            N_ITER == 2,
    ;
    assert((b + 2) * (N_ITER * cost) >= b + 2) by (nonlinear_arith)
        requires
            b >= 0,
            cost >= 1,
            N_ITER == 2,
    ;
}

/// Whether the stream positions of a run fit in `usize`, and the table's cell count too.
fn sizes_fit(b_m: usize, b_n: usize, s_m: usize, s_n: usize) -> (r: bool)
    requires
        s_m > 0,
        s_n > 0,
        b_m <= s_m,
        b_n <= s_n,
    ensures
        r == (s_m * s_n <= usize::MAX && cursor_bound(b_m as nat, b_n as nat, s_m as nat, s_n as nat)
            <= usize::MAX),
{
    let ghost cost = round_cost(s_m as int, s_n as int);
    let ghost b = (b_m * b_n) as int;
    proof {
        assert(0 <= b <= s_m * s_n) by (nonlinear_arith)
            requires
                b == b_m * b_n,
                b_m <= s_m,
                b_n <= s_n,
        ;
        lemma_bound_parts(b, cost);
    }
    let cells = match s_m.checked_mul(s_n) {
        Some(c) => c,
        None => return false,
    };
    let blocks = b_m * b_n;
    let c1 = match s_m.checked_add(s_n) {
        Some(c) => c,
        None => return false,
    };
    let c3 = match c1.checked_mul(3) {
        Some(c) => c,
        None => return false,
    };
    let cost_x = c3 - 2;
    let app = match cost_x.checked_mul(N_ITER) {
        Some(a) => a,
        None => return false,
    };
    let k = match blocks.checked_add(2) {
        Some(k) => k,
        None => return false,
    };
    let prod = match k.checked_mul(app) {
        Some(x) => x,
        None => return false,
    };
    match prod.checked_add(cost_x) {
        Some(_) => true,
        None => false,
    }
}

/// The first problem with the geometry of a request on a grid with `len` cells, if any.
pub fn geometry_check(rows: usize, cols: usize, len: usize, s_m: usize, s_n: usize) -> (r: Option<ConfigError>)
    ensures
        r == geometry_error(rows as nat, cols as nat, len as nat, s_m as nat, s_n as nat),
{
    match rows.checked_mul(cols) {
        Some(t) => {
            if t != len {
                return Some(ConfigError::MalformedGrid);
            }
        },
        None => return Some(ConfigError::MalformedGrid),
    }
    if s_m == 0 || s_n == 0 {
        return Some(ConfigError::EmptyBlock);
    }
    if rows % s_m != 0 || cols % s_n != 0 {
        return Some(ConfigError::BlockDoesNotDivide);
    }
    if rows / s_m > s_m || cols / s_n > s_n {
        return Some(ConfigError::TooManyBlocks);
    }
    if !sizes_fit(rows / s_m, cols / s_n, s_m, s_n) {
        return Some(ConfigError::TooLarge);
    }
    None
}

fn bits_check(bits: &Vec<u8>) -> (r: bool)
    ensures
        r == bits_valid(bits@),
{
    if bits.len() == 0 {
        return false;
    }
    let mut x: usize = 0;
    while x < bits.len()
        invariant
            x <= bits.len(),
            forall|y: int| 0 <= y < x ==> bits@[y] <= 1,
        decreases bits.len() - x,
    {
        if bits[x] > 1 {
            return false;
        }
        x = x + 1;
    }
    true
}

/// The number of logistic-map iterates, of 8 stream bits each, that a request on a
/// `rows x cols` grid in `s_m x s_n` blocks calls for: one application to the table and one
/// per block, each of `N_ITER` rounds.
pub fn key_stream_len(rows: usize, cols: usize, s_m: usize, s_n: usize) -> (r: usize)
    requires
        geometry_error(rows as nat, cols as nat, (rows * cols) as nat, s_m as nat, s_n as nat) is None,
    ensures
        r == (1 + (rows / s_m) * (cols / s_n)) * (N_ITER * round_cost(s_m as int, s_n as int)),
{
    let b_m = rows / s_m;
    let b_n = cols / s_n;
    let ghost cost = round_cost(s_m as int, s_n as int);
    proof {
        assert(0 <= b_m * b_n <= s_m * s_n) by (nonlinear_arith)
            requires
                b_m <= s_m,
                b_n <= s_n,
        ;
        lemma_bound_parts((b_m * b_n) as int, cost);
        assert((b_m * b_n + 1) * (N_ITER * cost) <= (b_m * b_n + 2) * (N_ITER * cost)) by (nonlinear_arith)
            requires
                cost >= 0,
        ;
    }
    let cost_x = 3 * s_m + 3 * s_n - 2;
    (b_m * b_n + 1) * (N_ITER * cost_x)
}

/// Enciphers the `rows x cols` image `f`, cut into `s_m x s_n` blocks, under the stream `bits`:
/// the block table is permuted by one application of the engine, then each block that a cell
/// of the table names, in row order of the cells, is permuted by the engine and written to the
/// next block position in row order.
pub fn encrypt(f: &Grid<u8>, s_m: usize, s_n: usize, bits: Vec<u8>) -> (r: Result<Grid<u8>, ConfigError>)
    ensures
        match r {
            Ok(g) => {
                &&& config_error(f.rows as nat, f.cols as nat, f.cells.len() as nat, s_m as nat, s_n as nat, bits@) is None
                &&& g.wf()
                &&& g.rows == f.rows
                &&& g.cols == f.cols
                &&& g.cells@ == encrypted(f.cells@, f.rows as nat, f.cols as nat, s_m as nat, s_n as nat, bits@)
            },
            Err(e) => config_error(f.rows as nat, f.cols as nat, f.cells.len() as nat, s_m as nat, s_n as nat, bits@)
                == Some(e),
        },
{
    match geometry_check(f.rows, f.cols, f.cells.len(), s_m, s_n) {
        Some(e) => return Err(e),
        None => {},
    }
    if !bits_check(&bits) {
        return Err(ConfigError::InvalidBitStream);
    }
    let m = f.rows;
    let n = f.cols;
    let ghost bseq = bits@;
    let ghost cost = round_cost(s_m as int, s_n as int);
    let ghost blocks = ((m / s_m) * (n / s_n)) as int;
    proof {
        assert(0 <= blocks) by (nonlinear_arith)
            requires
                blocks == (m / s_m) * (n / s_n),
                m / s_m >= 0,
                n / s_n >= 0,
        ;
        lemma_bound_parts(blocks, cost);
        assert(N_ITER * cost + (blocks + 1) * (N_ITER * cost) == (blocks + 2) * (N_ITER * cost)) by (nonlinear_arith);
        assert((N_ITER + 1) * cost <= 5 * cost) by (nonlinear_arith)
            requires
                cost >= 0,
                N_ITER == 2,
        ;
    }
    let mut sub_hcie = SubHCIE::new(N_ITER, Operation::Encrypt, ALPHA, BETA, GAMMA, bits, 0);
    let mut f_table = pseudoimage(m, n, s_m, s_n);
    sub_hcie.apply(&mut f_table);
    proof {
        assert(sub_hcie.schedule() == cipher_schedule(bseq));
        assert(N_ITER * round_cost(s_m as int, s_n as int) == sub_hcie.offset);
    }
    let mut f_hcie = Grid::filled(m, n, 0u8);
    hcie_apply(&mut f_hcie, &f_table, f, &mut sub_hcie);
    Ok(f_hcie)
}

/// Deciphers the `rows x cols` ciphertext `f_hcie`, cut into `s_m x s_n` blocks, under the
/// stream `bits`: the block table is permuted as `encrypt` permutes it, then its cells are
/// walked last first, each block being taken from its destination, passed back through the
/// engine with the cursor of its forward application, and written to where it came from.
pub fn decrypt(f_hcie: &Grid<u8>, s_m: usize, s_n: usize, bits: Vec<u8>) -> (r: Result<Grid<u8>, ConfigError>)
    ensures
        match r {
            Ok(g) => {
                &&& config_error(
                    f_hcie.rows as nat,
                    f_hcie.cols as nat,
                    f_hcie.cells.len() as nat,
                    s_m as nat,
                    s_n as nat,
                    bits@,
                ) is None
                &&& g.wf()
                &&& g.rows == f_hcie.rows
                &&& g.cols == f_hcie.cols
                &&& g.cells@ == decrypted(
                    f_hcie.cells@,
                    f_hcie.rows as nat,
                    f_hcie.cols as nat,
                    s_m as nat,
                    s_n as nat,
                    bits@,
                )
            },
            Err(e) => config_error(
                f_hcie.rows as nat,
                f_hcie.cols as nat,
                f_hcie.cells.len() as nat,
                s_m as nat,
                s_n as nat,
                bits@,
            ) == Some(e),
        },
{
    match geometry_check(f_hcie.rows, f_hcie.cols, f_hcie.cells.len(), s_m, s_n) {
        Some(e) => return Err(e),
        None => {},
    }
    if !bits_check(&bits) {
        return Err(ConfigError::InvalidBitStream);
    }
    let m = f_hcie.rows;
    let n = f_hcie.cols;
    let ghost bseq = bits@;
    let ghost cost = round_cost(s_m as int, s_n as int);
    let ghost blocks_g = ((m / s_m) * (n / s_n)) as int;
    proof {
        assert(0 <= blocks_g) by (nonlinear_arith)
            requires
                blocks_g == (m / s_m) * (n / s_n),
                m / s_m >= 0,
                n / s_n >= 0,
        ;
        lemma_bound_parts(blocks_g, cost);
        assert((blocks_g + 1) * (N_ITER * cost) + (N_ITER + 1) * cost == (blocks_g + 2) * (N_ITER * cost) + cost)
            by (nonlinear_arith)
            requires
                N_ITER == 2,
        ;
        assert((N_ITER + 1) * cost <= 5 * cost) by (nonlinear_arith)
            requires
                cost >= 0,
                N_ITER == 2,
        ;
        assert(blocks_g * (N_ITER * cost) <= (blocks_g + 1) * (N_ITER * cost)) by (nonlinear_arith)
            requires
                cost >= 0,
                N_ITER == 2,
        ;
    }
    let mut sub_hcie = SubHCIE::new(N_ITER, Operation::Encrypt, ALPHA, BETA, GAMMA, bits, 0);
    let mut f_table = pseudoimage(m, n, s_m, s_n);
    sub_hcie.apply(&mut f_table);
    let init_offset = key_stream_len(m, n, s_m, s_n);
    sub_hcie.set_offset(init_offset);
    sub_hcie.set_op(Operation::Decrypt);
    proof {
        assert(sub_hcie.schedule() == cipher_schedule(bseq));
        assert(init_offset - blocks_g * (N_ITER * cost) == N_ITER * cost) by (nonlinear_arith)
            requires
                init_offset == (1 + blocks_g) * (N_ITER * cost),
        ;
    }
    let mut f = Grid::filled(m, n, 0u8);
    hcie_apply_rev(&mut f, &f_table, f_hcie, &mut sub_hcie);
    Ok(f)
}

/// Some cell of the table `t` holds `v`.
pub open spec fn names(t: Seq<usize>, v: int) -> bool {
    exists|x: int| 0 <= x < t.len() && t[x] == v
}

/// Before it is permuted, the block table of a grid of `b_m x b_n` blocks names every block
/// `1..=b_m * b_n` in exactly one cell, and holds 0 in every cell that names no block.
pub proof fn lemma_table_bijective(s_m: nat, s_n: nat, b_m: nat, b_n: nat)
    requires
        s_m > 0,
        s_n > 0,
        b_m <= s_m,
        b_n <= s_n,
        s_m * s_n <= usize::MAX,
    ensures
        table_init(s_m, s_n, b_m, b_n).len() == s_m * s_n,
        forall|x: int| 0 <= x < s_m * s_n ==> #[trigger] table_init(s_m, s_n, b_m, b_n)[x] <= b_m * b_n,
        forall|v: int| 1 <= v <= b_m * b_n ==> #[trigger] names(table_init(s_m, s_n, b_m, b_n), v),
        forall|x: int, y: int|
            0 <= x < s_m * s_n && 0 <= y < s_m * s_n && x != y && #[trigger] table_init(s_m, s_n, b_m, b_n)[x] != 0
                ==> table_init(s_m, s_n, b_m, b_n)[x] != #[trigger] table_init(s_m, s_n, b_m, b_n)[y],
{
    let t = table_init(s_m, s_n, b_m, b_n);
    assert(b_m * b_n <= s_m * s_n) by (nonlinear_arith)
        requires
            b_m <= s_m,
            b_n <= s_n,
    ;
    // the value of a naming cell, and where it sits
    assert forall|x: int| 0 <= x < s_m * s_n implies {
        let i = x / (s_n as int);
        let j = x % (s_n as int);
        &&& x == i * s_n + j
        &&& 0 <= j < s_n
        &&& (i < b_m && j < b_n) ==> #[trigger] t[x] == i * b_n + j + 1 && 1 <= i * b_n + j + 1 <= b_m * b_n
        &&& !(i < b_m && j < b_n) ==> t[x] == 0
    } by {
        let i = x / (s_n as int);
        let j = x % (s_n as int);
        lemma_fundamental_div_mod(x, s_n as int);
        assert(x == i * s_n + j) by (nonlinear_arith)
            requires
                x == s_n * i + j,
        ;
        assert(0 <= i) by (nonlinear_arith)
            requires
                x == s_n * i + j,
                0 <= j < s_n,
                x >= 0,
        ;
        if i < b_m && j < b_n {
            assert(1 <= i * b_n + j + 1 <= b_m * b_n) by (nonlinear_arith)
                requires
                    0 <= i < b_m,
                    0 <= j < b_n,
            ;
        }
    }
    assert forall|v: int| 1 <= v <= b_m * b_n implies #[trigger] names(t, v) by {
        let i = (v - 1) / (b_n as int);
        let j = (v - 1) % (b_n as int);
        assert(b_n > 0) by (nonlinear_arith)
            requires
                1 <= v <= b_m * b_n,
        ;
        lemma_block_index(b_m, b_n, v - 1);
        lemma_fundamental_div_mod(v - 1, b_n as int);
        let x = i * s_n + j;
        assert(0 <= x < s_m * s_n) by (nonlinear_arith)
            requires
                0 <= i < b_m,
                b_m <= s_m,
                0 <= j < b_n,
                b_n <= s_n,
                x == i * s_n + j,
        ;
        lemma_fundamental_div_mod_converse_div(x, s_n as int, i, j);
        lemma_fundamental_div_mod_converse_mod(x, s_n as int, i, j);
        assert(i * b_n + j + 1 == v) by (nonlinear_arith)
            requires
                v - 1 == b_n * i + j,
        ;
        assert(t[x] == v);
    }
    assert forall|x: int, y: int|
        0 <= x < s_m * s_n && 0 <= y < s_m * s_n && x != y && #[trigger] t[x] != 0 implies t[x] != #[trigger] t[y] by {
        let ix = x / (s_n as int);
        let jx = x % (s_n as int);
        let iy = y / (s_n as int);
        let jy = y % (s_n as int);
        if t[x] == t[y] {
            assert(t[x] == ix * b_n + jx + 1);
            assert(t[y] == iy * b_n + jy + 1);
            lemma_fundamental_div_mod_converse_div(t[x] - 1, b_n as int, ix, jx);
            lemma_fundamental_div_mod_converse_mod(t[x] - 1, b_n as int, ix, jx);
            lemma_fundamental_div_mod_converse_div(t[y] - 1, b_n as int, iy, jy);
            lemma_fundamental_div_mod_converse_mod(t[y] - 1, b_n as int, iy, jy);
        }
    }
}

} // verus!
