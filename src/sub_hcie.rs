use vstd::prelude::*;
use crate::grid::Grid;
use crate::rotate::{
    anti_line, col_line, diag_line, family_fits, lemma_anti_fits, lemma_col_fits, lemma_diag_fits,
    lemma_row_fits, lemma_sweep_len, lemma_unsweep_len, lemma_unsweep_sweep, nonempty,
    rolr, rotate_diagonal, roud, rour, row_line, sweep, unsweep, Line,
};

verus! {

/// Whether an engine permutes blocks forward or undoes that permutation.
#[derive(Clone, Copy, PartialEq, Eq, Structural)]
pub enum Operation {
    Encrypt,
    Decrypt,
}

/// The block permutation engine: it reads its rotation parameters from a bit stream,
/// starting at the cursor `offset`, which each application moves by a fixed amount.
pub struct SubHCIE {
    pub offset: usize,
    pub n_iter: usize,
    pub bit_sequence: Vec<u8>,
    pub alpha: usize,
    pub beta: usize,
    pub gamma: usize,
    pub op: Operation,
}

/// Bit `x` of a stream read cyclically.
pub open spec fn bit(bits: Seq<u8>, x: int) -> u8 {
    bits[x % (bits.len() as int)]
}

/// The number of stream bits one round consumes on an `m x n` block.
pub open spec fn round_cost(m: int, n: int) -> int {
    3 * m + 3 * n - 2
}

pub open spec fn row_lines(n: nat) -> spec_fn(int) -> Line {
    |i: int| row_line(n, i as nat)
}

pub open spec fn col_lines(m: nat, n: nat) -> spec_fn(int) -> Line {
    |j: int| col_line(m, n, j as nat)
}

pub open spec fn anti_lines(m: nat, n: nat) -> spec_fn(int) -> Line {
    |k: int| anti_line(m, n, k as nat)
}

pub open spec fn diag_lines(m: nat, n: nat) -> spec_fn(int) -> Line {
    |e: int| diag_line(m, n, e as nat)
}

/// Directions read from the stream from position `base` on.
pub open spec fn dirs_from(bits: Seq<u8>, base: int) -> spec_fn(int) -> u8 {
    |t: int| bit(bits, base + t)
}

/// Two engines that differ at most in their cursor.
pub open spec fn same_config(a: &SubHCIE, b: &SubHCIE) -> bool {
    &&& a.n_iter == b.n_iter
    &&& a.bit_sequence@ == b.bit_sequence@
    &&& a.alpha == b.alpha
    &&& a.beta == b.beta
    &&& a.gamma == b.gamma
    &&& a.op == b.op
}

/// The bit stream, shift weights and round count of an engine.
pub struct Schedule {
    pub bits: Seq<u8>,
    pub alpha: nat,
    pub beta: nat,
    pub gamma: nat,
    pub n_iter: nat,
}

impl Schedule {
    /// The stream is nonempty and made of bits.
    pub open spec fn wf(&self) -> bool {
        &&& self.bits.len() > 0
        &&& forall|x: int| 0 <= x < self.bits.len() ==> #[trigger] self.bits[x] <= 1
    }

    /// The shift of the round whose bits start at `q`.
    pub open spec fn shift_at(&self, q: int) -> nat {
        (self.alpha + self.beta * bit(self.bits, q) + self.gamma * bit(
            self.bits,
            q + 1,
        )) as nat
    }

    /// One forward round on an `m x n` block whose bits start at `q`: rows, columns,
    /// anti-diagonals, then diagonals.
    pub open spec fn round_fwd<T>(&self, c: Seq<T>, m: nat, n: nat, q: int) -> Seq<T> {
        let p = self.shift_at(q);
        let bits = self.bits;
        let c1 = sweep(c, row_lines(n), dirs_from(bits, q), p, m);
        let c2 = sweep(c1, col_lines(m, n), dirs_from(bits, q + m), p, n);
        let c3 = sweep(c2, anti_lines(m, n), dirs_from(bits, q + m + n), p, (m + n - 1) as nat);
        sweep(c3, diag_lines(m, n), dirs_from(bits, q + 2 * m + 2 * n - 1), p, (m + n - 1) as nat)
    }

    /// One backward round: the phases of `round_fwd` in reverse, each rotation reversed.
    pub open spec fn round_back<T>(&self, c: Seq<T>, m: nat, n: nat, q: int) -> Seq<T> {
        let p = self.shift_at(q);
        let bits = self.bits;
        let c3 = unsweep(c, diag_lines(m, n), dirs_from(bits, q + 2 * m + 2 * n - 1), p, (m + n - 1) as nat);
        let c2 = unsweep(c3, anti_lines(m, n), dirs_from(bits, q + m + n), p, (m + n - 1) as nat);
        let c1 = unsweep(c2, col_lines(m, n), dirs_from(bits, q + m), p, n);
        unsweep(c1, row_lines(n), dirs_from(bits, q), p, m)
    }

    /// Forward rounds `0..r` from cursor `base`.
    pub open spec fn enc_rounds<T>(&self, c: Seq<T>, m: nat, n: nat, base: int, r: nat) -> Seq<T>
        decreases r,
    {
        if r == 0 {
            c
        } else {
            self.round_fwd(
                self.enc_rounds(c, m, n, base, (r - 1) as nat),
                m,
                n,
                base + (r - 1) * round_cost(m as int, n as int),
            )
        }
    }

    /// Backward rounds `r - 1` down to `0` from cursor `base`.
    pub open spec fn dec_rounds<T>(&self, c: Seq<T>, m: nat, n: nat, base: int, r: nat) -> Seq<T>
        decreases r,
    {
        if r == 0 {
            c
        } else {
            self.dec_rounds(
                self.round_back(c, m, n, base + (r - 1) * round_cost(m as int, n as int)),
                m,
                n,
                base,
                (r - 1) as nat,
            )
        }
    }

    /// What a forward application does to an `m x n` block when the cursor is at `base`.
    pub open spec fn encipher<T>(&self, c: Seq<T>, m: nat, n: nat, base: int) -> Seq<T> {
        self.enc_rounds(c, m, n, base, self.n_iter)
    }

    /// What a backward application does to an `m x n` block, undoing the forward
    /// application that started at cursor `base`.
    pub open spec fn decipher<T>(&self, c: Seq<T>, m: nat, n: nat, base: int) -> Seq<T> {
        self.dec_rounds(c, m, n, base, self.n_iter)
    }
}

impl SubHCIE {
    /// The stream is nonempty and made of bits, and the shift `alpha + beta + gamma` fits.
    pub open spec fn wf(&self) -> bool {
        &&& self.bit_sequence.len() > 0
        &&& forall|x: int| 0 <= x < self.bit_sequence.len() ==> #[trigger] self.bit_sequence@[x] <= 1
        &&& self.alpha + self.beta + self.gamma <= usize::MAX
    }

    /// The parameters that decide what an application does: all but the cursor and mode.
    pub open spec fn schedule(&self) -> Schedule {
        Schedule {
            bits: self.bit_sequence@,
            alpha: self.alpha as nat,
            beta: self.beta as nat,
            gamma: self.gamma as nat,
            n_iter: self.n_iter as nat,
        }
    }

    /// Builds an engine with its cursor at `init_offset`.
    pub fn new(
        n_iter: usize,
        op: Operation,
        alpha: usize,
        beta: usize,
        gamma: usize,
        bit_sequence: Vec<u8>,
        init_offset: usize,
    ) -> (r: Self)
        ensures
            r.offset == init_offset,
            r.n_iter == n_iter,
            r.op == op,
            r.alpha == alpha,
            r.beta == beta,
            r.gamma == gamma,
            r.bit_sequence@ == bit_sequence@,
    {
        SubHCIE { offset: init_offset, n_iter, bit_sequence, alpha, beta, gamma, op }
    }

    pub fn set_op(&mut self, op: Operation)
        ensures
            final(self).op == op,
            final(self).offset == old(self).offset,
            final(self).n_iter == old(self).n_iter,
            final(self).bit_sequence@ == old(self).bit_sequence@,
            final(self).alpha == old(self).alpha,
            final(self).beta == old(self).beta,
            final(self).gamma == old(self).gamma,
    {
        self.op = op;
    }

    pub fn set_offset(&mut self, offset: usize)
        ensures
            final(self).offset == offset,
            same_config(final(self), old(self)),
    {
        self.offset = offset;
    }

    fn bit_at(&self, x: usize) -> (r: u8)
        requires
            self.wf(),
        ensures
            r == bit(self.bit_sequence@, x as int),
            r <= 1,
    {
        let k = x % self.bit_sequence.len();
        self.bit_sequence[k]
    }

    fn shift(&self, q: usize) -> (p: usize)
        requires
            self.wf(),
            q < usize::MAX,
        ensures
            p == self.schedule().shift_at(q as int),
    {
        let b0 = self.bit_at(q);
        let b1 = self.bit_at(q + 1);
        let x = if b0 == 1 {
            self.beta
        } else {
            0
        };
        let y = if b1 == 1 {
            self.gamma
        } else {
            0
        };
        assert(self.beta * (b0 as int) == x) by (nonlinear_arith)
            requires
                b0 <= 1,
                x == if b0 == 1 { self.beta } else { 0 },
        ;
        assert(self.gamma * (b1 as int) == y) by (nonlinear_arith)
            requires
                b1 <= 1,
                y == if b1 == 1 { self.gamma } else { 0 },
        ;
        self.alpha + x + y
    }

    /// One forward round of an `m x n` block with bits from `q` on.
    fn forward_round<T: Copy>(&self, f: &mut Grid<T>, q: usize)
        requires
            self.wf(),
            nonempty(old(f)),
            q + round_cost(old(f).rows as int, old(f).cols as int) <= usize::MAX,
        ensures
            final(f).rows == old(f).rows,
            final(f).cols == old(f).cols,
            nonempty(final(f)),
            final(f).cells@ == self.schedule().round_fwd(old(f).cells@, old(f).rows as nat, old(f).cols as nat, q as int),
    {
        let m = f.rows;
        let n = f.cols;
        let ghost mn = (m * n) as int;
        let p = self.shift(q);
        let ghost bits = self.bit_sequence@;
        let ghost c0 = f.cells@;
        let mut i: usize = 0;
        while i < m
            invariant
                self.wf(),
                f.rows == m,
                f.cols == n,
                nonempty(f),
                i <= m,
                q + round_cost(m as int, n as int) <= usize::MAX,
                bits == self.bit_sequence@,
                f.cells@ == sweep(c0, row_lines(n as nat), dirs_from(bits, q as int), p as nat, i as nat),
            decreases m - i,
        {
            let b = self.bit_at(i + q);
            rolr(f, i, p, b);
            i = i + 1;
        }
        let ghost c1 = f.cells@;
        let mut j: usize = 0;
        while j < n
            invariant
                self.wf(),
                f.rows == m,
                f.cols == n,
                nonempty(f),
                j <= n,
                q + round_cost(m as int, n as int) <= usize::MAX,
                bits == self.bit_sequence@,
                f.cells@ == sweep(c1, col_lines(m as nat, n as nat), dirs_from(bits, q + m), p as nat, j as nat),
            decreases n - j,
        {
            let b = self.bit_at(j + q + m);
            roud(f, j, p, b);
            j = j + 1;
        }
        let ghost c2 = f.cells@;
        let mut k: usize = 0;
        while k < m + n - 1
            invariant
                self.wf(),
                f.rows == m,
                f.cols == n,
                nonempty(f),
                k <= m + n - 1,
                q + round_cost(m as int, n as int) <= usize::MAX,
                bits == self.bit_sequence@,
                f.cells@ == sweep(c2, anti_lines(m as nat, n as nat), dirs_from(bits, q + m + n), p as nat, k as nat),
            decreases m + n - 1 - k,
        {
            let b = self.bit_at(k + q + m + n);
            rour(f, k, p, b);
            k = k + 1;
        }
        let ghost c3 = f.cells@;
        let mut e: usize = 0;
        while e < m + n - 1
            invariant
                self.wf(),
                f.rows == m,
                f.cols == n,
                nonempty(f),
                e <= m + n - 1,
                q + round_cost(m as int, n as int) <= usize::MAX,
                bits == self.bit_sequence@,
                f.cells@ == sweep(
                    c3,
                    diag_lines(m as nat, n as nat),
                    dirs_from(bits, q + 2 * m + 2 * n - 1),
                    p as nat,
                    e as nat,
                ),
            decreases m + n - 1 - e,
        {
            let b = self.bit_at(q + 2 * m + 2 * n - 1 + e);
            rotate_diagonal(f, e, p, b);
            e = e + 1;
        }
    }

    /// One backward round of an `m x n` block with bits from `q` on.
    fn backward_round<T: Copy>(&self, f: &mut Grid<T>, q: usize)
        requires
            self.wf(),
            nonempty(old(f)),
            q + round_cost(old(f).rows as int, old(f).cols as int) <= usize::MAX,
        ensures
            final(f).rows == old(f).rows,
            final(f).cols == old(f).cols,
            nonempty(final(f)),
            final(f).cells@ == self.schedule().round_back(old(f).cells@, old(f).rows as nat, old(f).cols as nat, q as int),
    {
        let m = f.rows;
        let n = f.cols;
        let p = self.shift(q);
        let ghost bits = self.bit_sequence@;
        let ghost c0 = f.cells@;
        let ghost dl = diag_lines(m as nat, n as nat);
        let ghost dd = dirs_from(bits, q + 2 * m + 2 * n - 1);
        let mut e: usize = m + n - 1;
        while e > 0
            invariant
                self.wf(),
                f.rows == m,
                f.cols == n,
                nonempty(f),
                e <= m + n - 1,
                q + round_cost(m as int, n as int) <= usize::MAX,
                bits == self.bit_sequence@,
                dl == diag_lines(m as nat, n as nat),
                dd == dirs_from(bits, q + 2 * m + 2 * n - 1),
                unsweep(f.cells@, dl, dd, p as nat, e as nat) == unsweep(c0, dl, dd, p as nat, (m + n - 1) as nat),
            decreases e,
        {
            e = e - 1;
            let b = self.bit_at(q + 2 * m + 2 * n - 1 + e);
            let ghost prev = f.cells@;
            rotate_diagonal(f, e, p, 1 - b);
            assert(dd(e as int) == b);
            assert(unsweep(prev, dl, dd, p as nat, (e + 1) as nat) == unsweep(
                f.cells@,
                dl,
                dd,
                p as nat,
                e as nat,
            ));
        }
        let ghost c3 = f.cells@;
        let ghost al = anti_lines(m as nat, n as nat);
        let ghost ad = dirs_from(bits, q + m + n);
        let mut k: usize = m + n - 1;
        while k > 0
            invariant
                self.wf(),
                f.rows == m,
                f.cols == n,
                nonempty(f),
                k <= m + n - 1,
                q + round_cost(m as int, n as int) <= usize::MAX,
                bits == self.bit_sequence@,
                al == anti_lines(m as nat, n as nat),
                ad == dirs_from(bits, q + m + n),
                unsweep(f.cells@, al, ad, p as nat, k as nat) == unsweep(c3, al, ad, p as nat, (m + n - 1) as nat),
            decreases k,
        {
            k = k - 1;
            let b = self.bit_at(k + q + m + n);
            let ghost prev = f.cells@;
            rour(f, k, p, 1 - b);
            assert(ad(k as int) == b);
            assert(unsweep(prev, al, ad, p as nat, (k + 1) as nat) == unsweep(
                f.cells@,
                al,
                ad,
                p as nat,
                k as nat,
            ));
        }
        let ghost c2 = f.cells@;
        let ghost cl = col_lines(m as nat, n as nat);
        let ghost cd = dirs_from(bits, q + m);
        let mut j: usize = n;
        while j > 0
            invariant
                self.wf(),
                f.rows == m,
                f.cols == n,
                nonempty(f),
                j <= n,
                q + round_cost(m as int, n as int) <= usize::MAX,
                bits == self.bit_sequence@,
                cl == col_lines(m as nat, n as nat),
                cd == dirs_from(bits, q + m),
                unsweep(f.cells@, cl, cd, p as nat, j as nat) == unsweep(c2, cl, cd, p as nat, n as nat),
            decreases j,
        {
            j = j - 1;
            let b = self.bit_at(j + q + m);
            let ghost prev = f.cells@;
            roud(f, j, p, 1 - b);
            assert(cd(j as int) == b);
            assert(unsweep(prev, cl, cd, p as nat, (j + 1) as nat) == unsweep(
                f.cells@,
                cl,
                cd,
                p as nat,
                j as nat,
            ));
        }
        let ghost c1 = f.cells@;
        let ghost rl = row_lines(n as nat);
        let ghost rd = dirs_from(bits, q as int);
        let mut i: usize = m;
        while i > 0
            invariant
                self.wf(),
                f.rows == m,
                f.cols == n,
                nonempty(f),
                i <= m,
                q + round_cost(m as int, n as int) <= usize::MAX,
                bits == self.bit_sequence@,
                rl == row_lines(n as nat),
                rd == dirs_from(bits, q as int),
                unsweep(f.cells@, rl, rd, p as nat, i as nat) == unsweep(c1, rl, rd, p as nat, m as nat),
            decreases i,
        {
            i = i - 1;
            let b = self.bit_at(i + q);
            let ghost prev = f.cells@;
            rolr(f, i, p, 1 - b);
            assert(rd(i as int) == b);
            assert(unsweep(prev, rl, rd, p as nat, (i + 1) as nat) == unsweep(
                f.cells@,
                rl,
                rd,
                p as nat,
                i as nat,
            ));
        }
    }

    /// Runs the rounds forward on `f`, reading bits from the cursor on, and moves the
    /// cursor past them.
    fn encrypt<T: Copy>(&mut self, f: &mut Grid<T>)
        requires
            old(self).wf(),
            nonempty(old(f)),
            old(self).offset + (old(self).n_iter + 1) * round_cost(old(f).rows as int, old(f).cols as int)
                <= usize::MAX,
        ensures
            final(f).rows == old(f).rows,
            final(f).cols == old(f).cols,
            nonempty(final(f)),
            same_config(final(self), old(self)),
            final(self).offset == old(self).offset + old(self).n_iter * round_cost(
                old(f).rows as int,
                old(f).cols as int,
            ),
            final(f).cells@ == old(self).schedule().encipher(
                old(f).cells@,
                old(f).rows as nat,
                old(f).cols as nat,
                old(self).offset as int,
            ),
    {
        let m = f.rows;
        let n = f.cols;
        let ghost c0 = f.cells@;
        let ghost cost = round_cost(m as int, n as int);
        proof {
            assert(cost <= (self.n_iter + 1) * cost) by (nonlinear_arith)
                requires
                    cost >= 0,
            ;
        }
        let cost = 3 * m + 3 * n - 2;
        let mut iter: usize = 0;
        while iter < self.n_iter
            invariant
                *self == *old(self),
                self.wf(),
                f.rows == m,
                f.cols == n,
                nonempty(f),
                iter <= self.n_iter,
                cost == round_cost(m as int, n as int),
                self.offset + (self.n_iter + 1) * cost <= usize::MAX,
                f.cells@ == self.schedule().enc_rounds(c0, m as nat, n as nat, self.offset as int, iter as nat),
            decreases self.n_iter - iter,
        {
            proof {
                assert(iter * cost + cost <= (self.n_iter + 1) * cost) by (nonlinear_arith)
                    requires
                        iter < self.n_iter,
                        cost >= 0,
                ;
            }
            let q = self.offset + iter * cost;
            self.forward_round(f, q);
            iter = iter + 1;
        }
        proof {
            assert(self.n_iter * cost <= (self.n_iter + 1) * cost) by (nonlinear_arith)
                requires
                    cost >= 0,
            ;
        }
        self.offset = self.offset + self.n_iter * cost;
    }

    /// Moves the cursor back over the bits of one forward application and undoes that
    /// application on `f`, last round first.
    fn decrypt<T: Copy>(&mut self, f: &mut Grid<T>)
        requires
            old(self).wf(),
            nonempty(old(f)),
            old(self).offset + round_cost(old(f).rows as int, old(f).cols as int) <= usize::MAX,
            old(self).n_iter * round_cost(old(f).rows as int, old(f).cols as int) <= old(self).offset,
        ensures
            final(f).rows == old(f).rows,
            final(f).cols == old(f).cols,
            nonempty(final(f)),
            same_config(final(self), old(self)),
            final(self).offset == old(self).offset - old(self).n_iter * round_cost(
                old(f).rows as int,
                old(f).cols as int,
            ),
            final(f).cells@ == old(self).schedule().decipher(
                old(f).cells@,
                old(f).rows as nat,
                old(f).cols as nat,
                final(self).offset as int,
            ),
    {
        let m = f.rows;
        let n = f.cols;
        let ghost c0 = f.cells@;
        let cost = 3 * m + 3 * n - 2;
        self.offset = self.offset - self.n_iter * cost;
        let ghost base = self.offset as int;
        let ghost target = self.schedule().dec_rounds(c0, m as nat, n as nat, base, self.n_iter as nat);
        let mut iter: usize = self.n_iter;
        while iter > 0
            invariant
                same_config(self, old(self)),
                self.wf(),
                self.offset == base,
                f.rows == m,
                f.cols == n,
                nonempty(f),
                iter <= self.n_iter,
                cost == round_cost(m as int, n as int),
                base + self.n_iter * cost + cost <= usize::MAX,
                target == self.schedule().dec_rounds(c0, m as nat, n as nat, base, self.n_iter as nat),
                self.schedule().dec_rounds(f.cells@, m as nat, n as nat, base, iter as nat) == target,
            decreases iter,
        {
            iter = iter - 1;
            proof {
                assert(iter * cost + cost <= self.n_iter * cost) by (nonlinear_arith)
                    requires
                        iter < self.n_iter,
                        cost >= 0,
                ;
            }
            let q = self.offset + iter * cost;
            self.backward_round(f, q);
        }
        proof {
            assert(self.schedule() == old(self).schedule());
        }
    }

    /// Applies the engine to the block `f` in its mode, moving the cursor forward over
    /// the bits it reads when enciphering and back over them when deciphering.
    pub fn apply<T: Copy>(&mut self, f: &mut Grid<T>)
        requires
            old(self).wf(),
            nonempty(old(f)),
            old(self).offset + (old(self).n_iter + 1) * round_cost(old(f).rows as int, old(f).cols as int)
                <= usize::MAX,
            old(self).op == Operation::Decrypt ==> old(self).n_iter * round_cost(
                old(f).rows as int,
                old(f).cols as int,
            ) <= old(self).offset,
        ensures
            final(f).rows == old(f).rows,
            final(f).cols == old(f).cols,
            nonempty(final(f)),
            same_config(final(self), old(self)),
            old(self).op == Operation::Encrypt ==> final(self).offset == old(self).offset + old(self).n_iter
                * round_cost(old(f).rows as int, old(f).cols as int) && final(f).cells@ == old(self).schedule().encipher(
                old(f).cells@,
                old(f).rows as nat,
                old(f).cols as nat,
                old(self).offset as int,
            ),
            old(self).op == Operation::Decrypt ==> final(self).offset == old(self).offset - old(self).n_iter
                * round_cost(old(f).rows as int, old(f).cols as int) && final(f).cells@ == old(self).schedule().decipher(
                old(f).cells@,
                old(f).rows as nat,
                old(f).cols as nat,
                final(self).offset as int,
            ),
    {
        proof {
            let cost = round_cost(f.rows as int, f.cols as int);
            assert(cost <= (self.n_iter + 1) * cost) by (nonlinear_arith)
                requires
                    cost >= 0,
            ;
        }
        match self.op {
            Operation::Encrypt => self.encrypt(f),
            Operation::Decrypt => self.decrypt(f),
        }
    }
}

/// Every line that a round rotates fits an `m x n` block, and every direction is a bit.
pub(crate) proof fn lemma_round_families(e: Schedule, m: nat, n: nat, q: int)
    requires
        e.wf(),
        m > 0,
        n > 0,
        m * n <= usize::MAX,
    ensures
        family_fits(row_lines(n), dirs_from(e.bits, q), m, (m * n) as int),
        family_fits(col_lines(m, n), dirs_from(e.bits, q + m), n, (m * n) as int),
        family_fits(anti_lines(m, n), dirs_from(e.bits, q + m + n), (m + n - 1) as nat, (m * n) as int),
        family_fits(
            diag_lines(m, n),
            dirs_from(e.bits, q + 2 * m + 2 * n - 1),
            (m + n - 1) as nat,
            (m * n) as int,
        ),
{
    let bits = e.bits;
    assert forall|x: int| bit(bits, x) <= 1 by {
        vstd::arithmetic::div_mod::lemma_mod_bound(x, bits.len() as int);
    }
    assert forall|t: int| 0 <= t < m implies (#[trigger] row_lines(n)(t)).fits((m * n) as int) by {
        lemma_row_fits(m, n, t as nat);
    }
    assert forall|t: int| 0 <= t < n implies (#[trigger] col_lines(m, n)(t)).fits((m * n) as int) by {
        lemma_col_fits(m, n, t as nat);
    }
    assert forall|t: int| 0 <= t < m + n - 1 implies (#[trigger] anti_lines(m, n)(t)).fits((m * n) as int) by {
        lemma_anti_fits(m, n, t as nat);
    }
    assert forall|t: int| 0 <= t < m + n - 1 implies (#[trigger] diag_lines(m, n)(t)).fits((m * n) as int) by {
        lemma_diag_fits(m, n, t as nat);
    }
}

/// A backward round undoes the forward round with the same bits.
proof fn lemma_round_inverse<T>(e: Schedule, c: Seq<T>, m: nat, n: nat, q: int)
    requires
        e.wf(),
        m > 0,
        n > 0,
        m * n <= usize::MAX,
        c.len() == m * n,
    ensures
        e.round_fwd(c, m, n, q).len() == c.len(),
        e.round_back(e.round_fwd(c, m, n, q), m, n, q) == c,
{
    let p = e.shift_at(q);
    let bits = e.bits;
    lemma_round_families(e, m, n, q);
    let k = (m + n - 1) as nat;
    let c1 = sweep(c, row_lines(n), dirs_from(bits, q), p, m);
    lemma_sweep_len(c, row_lines(n), dirs_from(bits, q), p, m);
    let c2 = sweep(c1, col_lines(m, n), dirs_from(bits, q + m), p, n);
    lemma_sweep_len(c1, col_lines(m, n), dirs_from(bits, q + m), p, n);
    let c3 = sweep(c2, anti_lines(m, n), dirs_from(bits, q + m + n), p, k);
    lemma_sweep_len(c2, anti_lines(m, n), dirs_from(bits, q + m + n), p, k);
    lemma_sweep_len(c3, diag_lines(m, n), dirs_from(bits, q + 2 * m + 2 * n - 1), p, k);
    lemma_unsweep_sweep(c3, diag_lines(m, n), dirs_from(bits, q + 2 * m + 2 * n - 1), p, k);
    lemma_unsweep_sweep(c2, anti_lines(m, n), dirs_from(bits, q + m + n), p, k);
    lemma_unsweep_sweep(c1, col_lines(m, n), dirs_from(bits, q + m), p, n);
    lemma_unsweep_sweep(c, row_lines(n), dirs_from(bits, q), p, m);
}

proof fn lemma_rounds_inverse<T>(e: Schedule, c: Seq<T>, m: nat, n: nat, base: int, r: nat)
    requires
        e.wf(),
        m > 0,
        n > 0,
        m * n <= usize::MAX,
        c.len() == m * n,
    ensures
        e.enc_rounds(c, m, n, base, r).len() == c.len(),
        e.dec_rounds(e.enc_rounds(c, m, n, base, r), m, n, base, r) == c,
    decreases r,
{
    if r > 0 {
        let q = base + (r - 1) * round_cost(m as int, n as int);
        let prev = e.enc_rounds(c, m, n, base, (r - 1) as nat);
        lemma_rounds_inverse(e, c, m, n, base, (r - 1) as nat);
        lemma_round_inverse(e, prev, m, n, q);
    }
}

/// A backward application started where a forward application ended gives back the block
/// that the forward application was given.
pub proof fn lemma_decipher_encipher<T>(e: Schedule, c: Seq<T>, m: nat, n: nat, base: int)
    requires
        e.wf(),
        m > 0,
        n > 0,
        m * n <= usize::MAX,
        c.len() == m * n,
    ensures
        e.encipher(c, m, n, base).len() == c.len(),
        e.decipher(e.encipher(c, m, n, base), m, n, base) == c,
{
    lemma_rounds_inverse(e, c, m, n, base, e.n_iter);
}

/// A backward application keeps the size of the block.
pub proof fn lemma_decipher_len<T>(e: Schedule, c: Seq<T>, m: nat, n: nat, base: int)
    requires
        e.wf(),
        m > 0,
        n > 0,
        m * n <= usize::MAX,
        c.len() == m * n,
    ensures
        e.decipher(c, m, n, base).len() == c.len(),
{
    lemma_dec_rounds_len(e, c, m, n, base, e.n_iter);
}

proof fn lemma_dec_rounds_len<T>(e: Schedule, c: Seq<T>, m: nat, n: nat, base: int, r: nat)
    requires
        e.wf(),
        m > 0,
        n > 0,
        m * n <= usize::MAX,
        c.len() == m * n,
    ensures
        e.dec_rounds(c, m, n, base, r).len() == c.len(),
    decreases r,
{
    if r > 0 {
        let q = base + (r - 1) * round_cost(m as int, n as int);
        let p = e.shift_at(q);
        let bits = e.bits;
        let k = (m + n - 1) as nat;
        lemma_round_families(e, m, n, q);
        lemma_unsweep_len(c, diag_lines(m, n), dirs_from(bits, q + 2 * m + 2 * n - 1), p, k);
        let c3 = unsweep(c, diag_lines(m, n), dirs_from(bits, q + 2 * m + 2 * n - 1), p, k);
        lemma_unsweep_len(c3, anti_lines(m, n), dirs_from(bits, q + m + n), p, k);
        let c2 = unsweep(c3, anti_lines(m, n), dirs_from(bits, q + m + n), p, k);
        lemma_unsweep_len(c2, col_lines(m, n), dirs_from(bits, q + m), p, n);
        let c1 = unsweep(c2, col_lines(m, n), dirs_from(bits, q + m), p, n);
        lemma_unsweep_len(c1, row_lines(n), dirs_from(bits, q), p, m);
        lemma_dec_rounds_len(e, e.round_back(c, m, n, q), m, n, base, (r - 1) as nat);
    }
}

} // verus!
