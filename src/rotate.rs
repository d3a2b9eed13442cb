use vstd::prelude::*;
use crate::grid::{lemma_cell_index, Grid};
use crate::arith::{gcd, gcd_spec, lemma_gcd_divides, lemma_orbit, lemma_orbit_covers, orbit};

verus! {

/// A sequence of `len` cell positions in arithmetic progression:
/// position `t` is `start + t * step`, or `start - t * step` when `down`.
pub struct Line {
    pub start: usize,
    pub step: usize,
    pub len: usize,
    pub down: bool,
}

impl Line {
    pub open spec fn pos(self, t: int) -> int {
        if self.down {
            self.start - t * self.step
        } else {
            self.start + t * self.step
        }
    }

    /// The line is nonempty, its positions are distinct and lie in `[0, size)`.
    pub open spec fn fits(self, size: int) -> bool {
        &&& self.len >= 1
        &&& (self.len == 1 || self.step > 0)
        &&& forall|t: int| 0 <= t < self.len ==> 0 <= #[trigger] self.pos(t) < size
    }

    /// Position `y` belongs to the line.
    pub open spec fn on(self, y: int) -> bool {
        exists|t: int| 0 <= t < self.len && self.pos(t) == y
    }

    fn pos_at(&self, t: usize) -> (r: usize)
        requires
            t < self.len,
            0 <= self.pos(t as int) <= usize::MAX,
        ensures
            r == self.pos(t as int),
    {
        if self.down {
            assert(t * self.step <= self.start) by (nonlinear_arith)
                requires
                    self.start - t * self.step >= 0,
            ;
            self.start - t * self.step
        } else {
            assert(t * self.step <= usize::MAX) by (nonlinear_arith)
                requires
                    self.start + t * self.step <= usize::MAX,
                    self.start >= 0,
            ;
            self.start + t * self.step
        }
    }
}

proof fn lemma_pos_injective(ln: Line, a: int, b: int)
    requires
        ln.len == 1 || ln.step > 0,
        0 <= a < ln.len,
        0 <= b < ln.len,
        a != b,
    ensures
        ln.pos(a) != ln.pos(b),
{
    if ln.len != 1 {
        assert(a * ln.step != b * ln.step) by (nonlinear_arith)
            requires
                a != b,
                ln.step > 0,
        ;
    }
}

/// The values along a line, in line order.
pub open spec fn line_of<T>(c: Seq<T>, ln: Line) -> Seq<T> {
    Seq::new(ln.len as nat, |t: int| c[ln.pos(t)])
}

/// `c` with the first `t` positions of the line overwritten by `v[0..t]`.
pub open spec fn write_line<T>(c: Seq<T>, ln: Line, v: Seq<T>, t: nat) -> Seq<T>
    decreases t,
{
    if t == 0 {
        c
    } else {
        write_line(c, ln, v, (t - 1) as nat).update(ln.pos(t - 1), v[t - 1])
    }
}

/// Left rotation by `k`: entry `i` of the result is entry `(i + k) mod len` of `s`.
pub open spec fn rotate_seq<T>(s: Seq<T>, k: int) -> Seq<T> {
    Seq::new(s.len(), |i: int| s[(i + k) % (s.len() as int)])
}

/// The left shift that direction `b` makes of a rotation by `p` over `len` entries:
/// `p mod len` for direction 0, its complement for direction 1.
pub open spec fn shift_of(len: nat, p: nat, b: u8) -> int {
    if b == 0 {
        (p % len) as int
    } else {
        len - p % len
    }
}

/// `c` with the values along `ln` rotated by `p` in direction `b`.
pub open spec fn rotated<T>(c: Seq<T>, ln: Line, p: nat, b: u8) -> Seq<T> {
    write_line(c, ln, rotate_seq(line_of(c, ln), shift_of(ln.len as nat, p, b)), ln.len as nat)
}

pub proof fn lemma_write_line<T>(c: Seq<T>, ln: Line, v: Seq<T>, t: nat)
    requires
        ln.fits(c.len() as int),
        t <= ln.len,
        v.len() == ln.len,
    ensures
        write_line(c, ln, v, t).len() == c.len(),
        forall|u: int| 0 <= u < t ==> #[trigger] write_line(c, ln, v, t)[ln.pos(u)] == v[u],
        forall|y: int|
            0 <= y < c.len() && !(exists|u: int| 0 <= u < t && ln.pos(u) == y) ==> #[trigger] write_line(
                c,
                ln,
                v,
                t,
            )[y] == c[y],
    decreases t,
{
    if t > 0 {
        lemma_write_line(c, ln, v, (t - 1) as nat);
        assert(0 <= ln.pos(t - 1) < c.len());
        assert forall|u: int| 0 <= u < t implies #[trigger] write_line(c, ln, v, t)[ln.pos(u)] == v[u] by {
            assert(0 <= ln.pos(u) < c.len());
            if u != t - 1 {
                lemma_pos_injective(ln, u, t - 1);
            }
        }
        assert forall|y: int|
            0 <= y < c.len() && !(exists|u: int| 0 <= u < t && ln.pos(u) == y) implies #[trigger] write_line(
                c,
                ln,
                v,
                t,
            )[y] == c[y] by {
            assert(ln.pos(t - 1) != y);
            assert(!(exists|u: int| 0 <= u < t - 1 && ln.pos(u) == y)) by {
                if exists|u: int| 0 <= u < t - 1 && ln.pos(u) == y {
                    let u = choose|u: int| 0 <= u < t - 1 && ln.pos(u) == y;
                    assert(0 <= u < t && ln.pos(u) == y);
                }
            }
        }
    }
}

/// Two sequences over the same cells agree when they agree along the line and off it.
proof fn lemma_line_ext<T>(a: Seq<T>, b: Seq<T>, ln: Line)
    requires
        ln.fits(a.len() as int),
        a.len() == b.len(),
        forall|t: int| 0 <= t < ln.len ==> #[trigger] a[ln.pos(t)] == b[ln.pos(t)],
        forall|y: int| 0 <= y < a.len() && !ln.on(y) ==> a[y] == b[y],
    ensures
        a == b,
{
    assert forall|y: int| 0 <= y < a.len() implies a[y] == b[y] by {
        if ln.on(y) {
            let t = choose|t: int| 0 <= t < ln.len && ln.pos(t) == y;
            assert(a[ln.pos(t)] == b[ln.pos(t)]);
        }
    }
    assert(a =~= b);
}

/// What `rotated` does, cell by cell.
pub proof fn lemma_rotated<T>(c: Seq<T>, ln: Line, p: nat, b: u8)
    requires
        ln.fits(c.len() as int),
    ensures
        rotated(c, ln, p, b).len() == c.len(),
        forall|t: int|
            0 <= t < ln.len ==> #[trigger] rotated(c, ln, p, b)[ln.pos(t)] == c[ln.pos(
                (t + shift_of(ln.len as nat, p, b)) % (ln.len as int),
            )],
        forall|y: int| 0 <= y < c.len() && !ln.on(y) ==> #[trigger] rotated(c, ln, p, b)[y] == c[y],
{
    let v = rotate_seq(line_of(c, ln), shift_of(ln.len as nat, p, b));
    lemma_write_line(c, ln, v, ln.len as nat);
    assert forall|t: int| 0 <= t < ln.len implies #[trigger] rotated(c, ln, p, b)[ln.pos(t)] == c[ln.pos(
        (t + shift_of(ln.len as nat, p, b)) % (ln.len as int),
    )] by {
        let k = (t + shift_of(ln.len as nat, p, b)) % (ln.len as int);
        assert(0 <= k < ln.len);
    }
    assert forall|y: int| 0 <= y < c.len() && !ln.on(y) implies #[trigger] rotated(c, ln, p, b)[y]
        == c[y] by {
        assert(!(exists|u: int| 0 <= u < ln.len && ln.pos(u) == y));
    }
}

/// The cycle through `i` has been walked for `s` steps and has reached `x`.
pub open spec fn visited(n: int, p: int, i: int, s: int, x: int) -> bool {
    exists|u: int| 0 <= u < s && orbit(n, p, i, u) == x
}

/// Rotates the values along `ln` in place by `p` positions in direction `b`, walking
/// the `gcd(len, shift)` disjoint cycles of the index permutation with one temporary.
pub fn rotate_line<T: Copy>(cells: &mut Vec<T>, ln: &Line, p: usize, b: u8)
    requires
        ln.fits(old(cells).len() as int),
    ensures
        final(cells)@ == rotated(old(cells)@, *ln, p as nat, b),
        final(cells).len() == old(cells).len(),
{
    let ghost old_cells = cells@;
    let n = ln.len;
    let p0 = p % n;
    let sh = if b == 0 {
        p0
    } else {
        n - p0
    };
    let d = gcd(n, sh);
    proof {
        lemma_gcd_divides(n as nat, sh as nat);
        lemma_rotated(old_cells, *ln, p as nat, b);
        vstd::arithmetic::div_mod::lemma_fundamental_div_mod(n as int, d as int);
        assert(d <= n && n as int / d as int >= 1) by (nonlinear_arith)
            requires
                n == d * (n as int / d as int),
                n > 0,
                d > 0,
        ;
    }
    let ghost m: int = n as int / d as int;
    let mut i: usize = 0;
    while i < d
        invariant
            0 <= i <= d,
            d == gcd_spec(n as nat, sh as nat),
            d > 0,
            d <= n,
            m >= 1,
            m == n as int / d as int,
            n == ln.len,
            sh <= n,
            old_cells.len() <= usize::MAX,
            ln.fits(old_cells.len() as int),
            cells@.len() == old_cells.len(),
            forall|x: int|
                0 <= x < n ==> #[trigger] cells@[ln.pos(x)] == (if x % (d as int) < i {
                    old_cells[ln.pos((x + sh) % (n as int))]
                } else {
                    old_cells[ln.pos(x)]
                }),
            forall|y: int| 0 <= y < old_cells.len() && !ln.on(y) ==> cells@[y] == old_cells[y],
        decreases d - i,
    {
        proof {
            lemma_orbit(n as int, sh as int, i as int, 0, 1);
            assert(0 <= ln.pos(i as int) < old_cells.len());
            vstd::arithmetic::div_mod::lemma_small_mod(i as nat, d as nat);
            vstd::arithmetic::div_mod::lemma_small_mod(i as nat, n as nat);
            assert(orbit(n as int, sh as int, i as int, 0) == i);
            assert(cells@[ln.pos(i as int)] == old_cells[ln.pos(i as int)]);
        }
        let temp = cells[ln.pos_at(i)];
        let mut j: usize = i;
        let ghost mut s: int = 0;
        loop
            invariant
                0 <= i < d,
                d == gcd_spec(n as nat, sh as nat),
                d > 0,
                d <= n,
                m >= 1,
                m == n as int / d as int,
                n == ln.len,
                sh <= n,
                old_cells.len() <= usize::MAX,
                ln.fits(old_cells.len() as int),
                cells@.len() == old_cells.len(),
                0 <= s < m,
                j == orbit(n as int, sh as int, i as int, s),
                temp == old_cells[ln.pos(i as int)],
                forall|x: int|
                    0 <= x < n ==> #[trigger] cells@[ln.pos(x)] == (if x % (d as int) < i || (x % (
                    d as int) == i && visited(n as int, sh as int, i as int, s, x)) {
                        old_cells[ln.pos((x + sh) % (n as int))]
                    } else {
                        old_cells[ln.pos(x)]
                    }),
                forall|y: int| 0 <= y < old_cells.len() && !ln.on(y) ==> cells@[y] == old_cells[y],
            ensures
                s == m - 1,
                j == orbit(n as int, sh as int, i as int, s),
                (j + sh) % (n as int) == i,
            decreases m - s,
        {
            proof {
                lemma_orbit(n as int, sh as int, i as int, s, s + 1);
                assert(orbit(n as int, sh as int, i as int, s + 1) == (j + sh) % (n as int)) by {
                    assert(i + (s + 1) * sh == (i + s * sh) + sh) by (nonlinear_arith);
                    vstd::arithmetic::div_mod::lemma_add_mod_noop(i + s * sh, sh as int, n as int);
                    vstd::arithmetic::div_mod::lemma_mod_twice(sh as int, n as int);
                    vstd::arithmetic::div_mod::lemma_add_mod_noop(j as int, sh as int, n as int);
                    vstd::arithmetic::div_mod::lemma_mod_twice(i + s * sh, n as int);
                }
            }
            let k = if j >= n - sh {
                j - (n - sh)
            } else {
                j + sh
            };
            assert(k < n);
            assert(k == (j + sh) % (n as int)) by {
                if j >= n - sh {
                    vstd::arithmetic::div_mod::lemma_mod_sub_multiples_vanish((j + sh) as int, n as int);
                    vstd::arithmetic::div_mod::lemma_small_mod((j + sh - n) as nat, n as nat);
                } else {
                    vstd::arithmetic::div_mod::lemma_small_mod((j + sh) as nat, n as nat);
                }
            }
            if k == i {
                proof {
                    vstd::arithmetic::div_mod::lemma_small_mod(i as nat, n as nat);
                    assert(orbit(n as int, sh as int, i as int, 0) == i);
                    if s + 1 < m {
                        lemma_orbit(n as int, sh as int, i as int, 0, s + 1);
                    }
                }
                break;
            }
            proof {
                // the cycle has not closed, so it is not yet complete
                if s + 1 == m {
                    assert(false);
                }
                lemma_orbit(n as int, sh as int, i as int, s + 1, s + 2);
                // k has not been visited: the cycle meets no position twice
                assert forall|u: int| 0 <= u < s + 1 implies orbit(n as int, sh as int, i as int, u) != k by {
                    lemma_orbit(n as int, sh as int, i as int, u, s + 1);
                }
                assert(ln.pos(k as int) != ln.pos(j as int)) by {
                    lemma_orbit(n as int, sh as int, i as int, s, s + 1);
                    lemma_pos_injective(*ln, k as int, j as int);
                }
                assert(cells@[ln.pos(k as int)] == old_cells[ln.pos(k as int)]);
                assert(0 <= ln.pos(j as int) < old_cells.len());
                assert(0 <= ln.pos(k as int) < old_cells.len());
            }
            let v = cells[ln.pos_at(k)];
            let pj = ln.pos_at(j);
            cells.set(pj, v);
            proof {
                let ghost s1 = s + 1;
                assert forall|x: int|
                    0 <= x < n implies #[trigger] cells@[ln.pos(x)] == (if x % (d as int) < i || (x % (
                    d as int) == i && visited(n as int, sh as int, i as int, s1, x)) {
                        old_cells[ln.pos((x + sh) % (n as int))]
                    } else {
                        old_cells[ln.pos(x)]
                    }) by {
                    if x == j {
                        assert(visited(n as int, sh as int, i as int, s1, x));
                    } else {
                        lemma_pos_injective(*ln, x, j as int);
                        if visited(n as int, sh as int, i as int, s1, x) {
                            let u = choose|u: int| 0 <= u < s1 && orbit(n as int, sh as int, i as int, u) == x;
                            if u < s {
                                assert(visited(n as int, sh as int, i as int, s, x));
                            }
                        }
                    }
                }
                assert forall|y: int| 0 <= y < old_cells.len() && !ln.on(y) implies cells@[y] == old_cells[y] by {
                    assert(y != pj);
                }
                s = s1;
            }
            j = k;
        }
        let pj = ln.pos_at(j);
        cells.set(pj, temp);
        proof {
            lemma_orbit(n as int, sh as int, i as int, s, s + 1);
            assert forall|x: int|
                0 <= x < n implies #[trigger] cells@[ln.pos(x)] == (if x % (d as int) < i + 1 {
                    old_cells[ln.pos((x + sh) % (n as int))]
                } else {
                    old_cells[ln.pos(x)]
                }) by {
                if x == j {
                } else {
                    lemma_pos_injective(*ln, x, j as int);
                    if x % (d as int) == i {
                        lemma_orbit_covers(n as int, sh as int, i as int, x);
                        let u = choose|u: int| 0 <= u < m && orbit(n as int, sh as int, i as int, u) == x;
                        if u == s {
                            assert(false);
                        }
                        assert(visited(n as int, sh as int, i as int, s, x));
                    }
                }
            }
            assert forall|y: int| 0 <= y < old_cells.len() && !ln.on(y) implies cells@[y] == old_cells[y] by {
                assert(y != pj);
            }
        }
        i = i + 1;
    }
    proof {
        assert(shift_of(ln.len as nat, p as nat, b) == sh);
        assert forall|x: int| 0 <= x < n implies #[trigger] cells@[ln.pos(x)] == old_cells[ln.pos(
            (x + shift_of(ln.len as nat, p as nat, b)) % (ln.len as int),
        )] by {
            vstd::arithmetic::div_mod::lemma_mod_bound(x, d as int);
        }
        lemma_line_ext(cells@, rotated(old_cells, *ln, p as nat, b), *ln);
    }
}

/// Row `i` of a grid with `n` columns, left to right.
pub open spec fn row_line(n: nat, i: nat) -> Line {
    Line { start: (i * n) as usize, step: 1, len: n as usize, down: false }
}

/// Column `j` of an `m x n` grid, top to bottom.
pub open spec fn col_line(m: nat, n: nat, j: nat) -> Line {
    Line { start: j as usize, step: n as usize, len: m as usize, down: false }
}

/// The cells `(i, j)` of an `m x n` grid with `i + j == k`, by decreasing `i`.
pub open spec fn anti_line(m: nat, n: nat, k: nat) -> Line {
    let max_i: int = if k + 1 >= m { m - 1 } else { k as int };
    let min_i: int = if k + 1 >= n { k - (n - 1) } else { 0 };
    let min_j: int = if k + 1 >= m { k - (m - 1) } else { 0 };
    Line {
        start: (max_i * n + min_j) as usize,
        step: (n - 1) as usize,
        len: (max_i - min_i + 1) as usize,
        down: true,
    }
}

/// The cells `(i, j)` of an `m x n` grid with `i - j == e - (n - 1)`, by increasing `i`.
pub open spec fn diag_line(m: nat, n: nat, e: nat) -> Line {
    let min_i: int = if e + 1 >= n { e - (n - 1) } else { 0 };
    let min_j: int = if e + 1 >= n { 0 } else { (n - 1) - e };
    let max_i: int = if e + 1 >= m { m - 1 } else { e as int };
    Line {
        start: (min_i * n + min_j) as usize,
        step: if m > 1 { (n + 1) as usize } else { 1 },
        len: (max_i - min_i + 1) as usize,
        down: false,
    }
}

/// The grid is well formed and has at least one row and one column.
pub open spec fn nonempty<T>(f: &Grid<T>) -> bool {
    f.cells.len() == f.rows * f.cols && f.rows > 0 && f.cols > 0
}

/// The sides of a nonempty grid are bounded by its cell count.
pub(crate) proof fn lemma_dims(m: int, n: int)
    requires
        m >= 1,
        n >= 1,
    ensures
        m + n - 1 <= m * n,
        m <= m * n,
        n <= m * n,
        m > 1 ==> n + 1 <= m * n,
{
    assert(m + n - 1 <= m * n && m <= m * n && n <= m * n && (m > 1 ==> n + 1 <= m * n)) by (nonlinear_arith)
        requires
            m >= 1,
            n >= 1,
    ;
}

pub(crate) proof fn lemma_row_fits(m: nat, n: nat, i: nat)
    requires
        m * n <= usize::MAX,
        i < m,
        n > 0,
    ensures
        row_line(n, i).fits((m * n) as int),
{
    lemma_cell_index(m as int, n as int, i as int, 0);
    lemma_dims(m as int, n as int);
    assert forall|t: int| 0 <= t < n implies 0 <= #[trigger] row_line(n, i).pos(t) < m * n by {
        lemma_cell_index(m as int, n as int, i as int, t);
    }
}

pub(crate) proof fn lemma_col_fits(m: nat, n: nat, j: nat)
    requires
        m * n <= usize::MAX,
        j < n,
        m > 0,
    ensures
        col_line(m, n, j).fits((m * n) as int),
{
    lemma_cell_index(m as int, n as int, 0, j as int);
    lemma_dims(m as int, n as int);
    assert forall|t: int| 0 <= t < m implies 0 <= #[trigger] col_line(m, n, j).pos(t) < m * n by {
        lemma_cell_index(m as int, n as int, t, j as int);
    }
}

pub(crate) proof fn lemma_anti_fits(m: nat, n: nat, k: nat)
    requires
        m * n <= usize::MAX,
        m > 0,
        n > 0,
        k + 2 <= m + n,
    ensures
        anti_line(m, n, k).fits((m * n) as int),
        forall|t: int|
            0 <= t < anti_line(m, n, k).len ==> {
                let i = (if k + 1 >= m { m - 1 } else { k as int }) - t;
                &&& 0 <= i < m
                &&& 0 <= k - i < n
                &&& #[trigger] anti_line(m, n, k).pos(t) == i * n + (k - i)
            },
{
    let max_i: int = if k + 1 >= m { m - 1 } else { k as int };
    let min_i: int = if k + 1 >= n { k - (n - 1) } else { 0 };
    let min_j: int = if k + 1 >= m { k - (m - 1) } else { 0 };
    lemma_cell_index(m as int, n as int, max_i, min_j);
    lemma_dims(m as int, n as int);
    let ln = anti_line(m, n, k);
    assert(ln.start == max_i * n + min_j && ln.step == n - 1);
    assert forall|t: int| 0 <= t < ln.len implies {
        let i = max_i - t;
        &&& 0 <= i < m
        &&& 0 <= k - i < n
        &&& #[trigger] ln.pos(t) == i * n + (k - i)
    } by {
        let i = max_i - t;
        assert(ln.pos(t) == i * n + (k - i)) by (nonlinear_arith)
            requires
                ln.pos(t) == (max_i * n + min_j) - t * (n - 1),
                max_i + min_j == k,
                i == max_i - t,
        ;
    }
    assert forall|t: int| 0 <= t < ln.len implies 0 <= #[trigger] ln.pos(t) < m * n by {
        let i = max_i - t;
        lemma_cell_index(m as int, n as int, i, k - i);
    }
}

pub(crate) proof fn lemma_diag_fits(m: nat, n: nat, e: nat)
    requires
        m * n <= usize::MAX,
        m > 0,
        n > 0,
        e + 2 <= m + n,
    ensures
        diag_line(m, n, e).fits((m * n) as int),
        forall|t: int|
            0 <= t < diag_line(m, n, e).len ==> {
                let i = (if e + 1 >= n { e - (n - 1) } else { 0 }) + t;
                &&& 0 <= i < m
                &&& 0 <= i - (e - (n - 1)) < n
                &&& #[trigger] diag_line(m, n, e).pos(t) == i * n + (i - (e - (n - 1)))
            },
{
    let min_i: int = if e + 1 >= n { e - (n - 1) } else { 0 };
    let min_j: int = if e + 1 >= n { 0 } else { (n - 1) - e };
    lemma_cell_index(m as int, n as int, min_i, min_j);
    lemma_dims(m as int, n as int);
    let ln = diag_line(m, n, e);
    assert(ln.start == min_i * n + min_j);
    assert(ln.len > 1 ==> ln.step == n + 1);
    assert forall|t: int| 0 <= t < ln.len implies {
        let i = min_i + t;
        &&& 0 <= i < m
        &&& 0 <= i - (e - (n - 1)) < n
        &&& #[trigger] ln.pos(t) == i * n + (i - (e - (n - 1)))
    } by {
        let i = min_i + t;
        if t == 0 {
            assert(ln.pos(t) == i * n + (i - (e - (n - 1))));
        } else {
            assert(ln.step == n + 1);
            assert(ln.pos(t) == i * n + (i - (e - (n - 1)))) by (nonlinear_arith)
                requires
                    ln.pos(t) == (min_i * n + min_j) + t * (n + 1),
                    min_j - min_i == (n - 1) - e,
                    i == min_i + t,
            ;
        }
    }
    assert forall|t: int| 0 <= t < ln.len implies 0 <= #[trigger] ln.pos(t) < m * n by {
        let i = min_i + t;
        lemma_cell_index(m as int, n as int, i, i - (e - (n - 1)));
    }
}

/// Rotates row `i` of `f` by `p` positions, left for `b == 0` and right for `b == 1`.
pub fn rolr<T: Copy>(f: &mut Grid<T>, i: usize, p: usize, b: u8)
    requires
        nonempty(old(f)),
        i < old(f).rows,
        b <= 1,
    ensures
        final(f).rows == old(f).rows,
        final(f).cols == old(f).cols,
        nonempty(final(f)),
        final(f).cells@ == rotated(old(f).cells@, row_line(old(f).cols as nat, i as nat), p as nat, b),
{
    proof {
        lemma_row_fits(f.rows as nat, f.cols as nat, i as nat);
        lemma_cell_index(f.rows as int, f.cols as int, i as int, 0);
    }
    let ln = Line { start: i * f.cols, step: 1, len: f.cols, down: false };
    rotate_line(&mut f.cells, &ln, p, b);
}

/// Rotates column `j` of `f` by `p` positions, up for `b == 0` and down for `b == 1`.
pub fn roud<T: Copy>(f: &mut Grid<T>, j: usize, p: usize, b: u8)
    requires
        nonempty(old(f)),
        j < old(f).cols,
        b <= 1,
    ensures
        final(f).rows == old(f).rows,
        final(f).cols == old(f).cols,
        nonempty(final(f)),
        final(f).cells@ == rotated(
            old(f).cells@,
            col_line(old(f).rows as nat, old(f).cols as nat, j as nat),
            p as nat,
            b,
        ),
{
    proof {
        lemma_col_fits(f.rows as nat, f.cols as nat, j as nat);
    }
    let ln = Line { start: j, step: f.cols, len: f.rows, down: false };
    rotate_line(&mut f.cells, &ln, p, b);
}

/// Rotates the anti-diagonal `i + j == k` of `f` by `p` positions along its cells taken
/// by decreasing row, towards the lower left for `b == 0` and the upper right for `b == 1`.
pub fn rour<T: Copy>(f: &mut Grid<T>, k: usize, p: usize, b: u8)
    requires
        nonempty(old(f)),
        k + 2 <= old(f).rows + old(f).cols,
        b <= 1,
    ensures
        final(f).rows == old(f).rows,
        final(f).cols == old(f).cols,
        nonempty(final(f)),
        final(f).cells@ == rotated(
            old(f).cells@,
            anti_line(old(f).rows as nat, old(f).cols as nat, k as nat),
            p as nat,
            b,
        ),
{
    let m = f.rows;
    let n = f.cols;
    proof {
        lemma_anti_fits(m as nat, n as nat, k as nat);
    }
    let max_i = if k >= m - 1 { m - 1 } else { k };
    let min_i = if k >= n - 1 { k - (n - 1) } else { 0 };
    let min_j = if k >= m - 1 { k - (m - 1) } else { 0 };
    proof {
        lemma_cell_index(m as int, n as int, max_i as int, min_j as int);
    }
    let ln = Line { start: max_i * n + min_j, step: n - 1, len: max_i - min_i + 1, down: true };
    rotate_line(&mut f.cells, &ln, p, b);
}

/// Rotates the diagonal `i - j == e - (cols - 1)` of `f` by `p` positions along its cells
/// taken by increasing row; the diagonal is named by its offset `e` from the top right.
pub(crate) fn rotate_diagonal<T: Copy>(f: &mut Grid<T>, e: usize, p: usize, b: u8)
    requires
        nonempty(old(f)),
        e + 2 <= old(f).rows + old(f).cols,
        b <= 1,
    ensures
        final(f).rows == old(f).rows,
        final(f).cols == old(f).cols,
        nonempty(final(f)),
        final(f).cells@ == rotated(
            old(f).cells@,
            diag_line(old(f).rows as nat, old(f).cols as nat, e as nat),
            p as nat,
            b,
        ),
{
    let m = f.rows;
    let n = f.cols;
    proof {
        lemma_diag_fits(m as nat, n as nat, e as nat);
    }
    let min_i = if e >= n - 1 { e - (n - 1) } else { 0 };
    let min_j = if e >= n - 1 { 0 } else { (n - 1) - e };
    let max_i = if e >= m - 1 { m - 1 } else { e };
    proof {
        lemma_cell_index(m as int, n as int, min_i as int, min_j as int);
        lemma_dims(m as int, n as int);
    }
    let step = if m > 1 { n + 1 } else { 1 };
    let ln = Line { start: min_i * n + min_j, step, len: max_i - min_i + 1, down: false };
    rotate_line(&mut f.cells, &ln, p, b);
}

/// Rotates the diagonal `i - j == l` of `f` by `p` positions along its cells taken by
/// increasing row, towards the upper left for `b == 0` and the lower right for `b == 1`.
pub fn roul<T: Copy>(f: &mut Grid<T>, l: isize, p: usize, b: u8)
    requires
        nonempty(old(f)),
        1 - old(f).cols <= l <= old(f).rows - 1,
        b <= 1,
    ensures
        final(f).rows == old(f).rows,
        final(f).cols == old(f).cols,
        nonempty(final(f)),
        final(f).cells@ == rotated(
            old(f).cells@,
            diag_line(old(f).rows as nat, old(f).cols as nat, (l + old(f).cols - 1) as nat),
            p as nat,
            b,
        ),
{
    proof {
        lemma_dims(f.rows as int, f.cols as int);
    }
    let e: usize = if l >= 0 {
        (l as usize) + (f.cols - 1)
    } else {
        (f.cols - 1) - ((-(l + 1)) as usize + 1)
    };
    rotate_diagonal(f, e, p, b);
}

/// Rotating the values along a line by `p` in direction `b`, then by `p` in the other
/// direction, gives back the cells unchanged.
pub proof fn lemma_rotation_involution<T>(c: Seq<T>, ln: Line, p: nat, b: u8)
    requires
        ln.fits(c.len() as int),
        b <= 1,
    ensures
        rotated(rotated(c, ln, p, b), ln, p, (1 - b) as u8) == c,
{
    let c1 = rotated(c, ln, p, b);
    lemma_rotated(c, ln, p, b);
    lemma_rotated(c1, ln, p, (1 - b) as u8);
    let c2 = rotated(c1, ln, p, (1 - b) as u8);
    let n = ln.len as int;
    let s1 = shift_of(ln.len as nat, p, b);
    let s2 = shift_of(ln.len as nat, p, (1 - b) as u8);
    assert(s1 + s2 == n);
    assert forall|t: int| 0 <= t < n implies #[trigger] c2[ln.pos(t)] == c[ln.pos(t)] by {
        let u = (t + s2) % n;
        vstd::arithmetic::div_mod::lemma_mod_bound(t + s2, n);
        assert(c2[ln.pos(t)] == c1[ln.pos(u)]);
        assert(c1[ln.pos(u)] == c[ln.pos((u + s1) % n)]);
        vstd::arithmetic::div_mod::lemma_add_mod_noop(t + s2, s1, n);
        vstd::arithmetic::div_mod::lemma_mod_twice(s1, n);
        vstd::arithmetic::div_mod::lemma_mod_twice(t + s2, n);
        vstd::arithmetic::div_mod::lemma_add_mod_noop(t + s2, s1, n);
        assert((u + s1) % n == (t + s2 + s1) % n) by {
            vstd::arithmetic::div_mod::lemma_add_mod_noop(u, s1, n);
            vstd::arithmetic::div_mod::lemma_mod_twice(t + s2, n);
            vstd::arithmetic::div_mod::lemma_add_mod_noop(t + s2, s1, n);
        }
        vstd::arithmetic::div_mod::lemma_mod_add_multiples_vanish(t, n);
        vstd::arithmetic::div_mod::lemma_small_mod(t as nat, n as nat);
    }
    lemma_line_ext(c2, c, ln);
}

/// The rotations of lines `0..k` of a family, in increasing order, rotation `t` running
/// along `lines(t)` in direction `dirs(t)`, all by `p`.
pub open spec fn sweep<T>(
    c: Seq<T>,
    lines: spec_fn(int) -> Line,
    dirs: spec_fn(int) -> u8,
    p: nat,
    k: nat,
) -> Seq<T>
    decreases k,
{
    if k == 0 {
        c
    } else {
        rotated(sweep(c, lines, dirs, p, (k - 1) as nat), lines(k - 1), p, dirs(k - 1))
    }
}

/// The rotations of lines `k - 1` down to `0` of a family, each in the direction
/// opposite to `dirs(t)`.
pub open spec fn unsweep<T>(
    c: Seq<T>,
    lines: spec_fn(int) -> Line,
    dirs: spec_fn(int) -> u8,
    p: nat,
    k: nat,
) -> Seq<T>
    decreases k,
{
    if k == 0 {
        c
    } else {
        unsweep(rotated(c, lines(k - 1), p, (1 - dirs(k - 1)) as u8), lines, dirs, p, (k - 1) as nat)
    }
}

/// Every line of the family up to `k` fits `size` cells, and every direction is a bit.
pub open spec fn family_fits(lines: spec_fn(int) -> Line, dirs: spec_fn(int) -> u8, k: nat, size: int) -> bool {
    forall|t: int| 0 <= t < k ==> (#[trigger] lines(t)).fits(size) && dirs(t) <= 1
}

pub proof fn lemma_sweep_len<T>(c: Seq<T>, lines: spec_fn(int) -> Line, dirs: spec_fn(int) -> u8, p: nat, k: nat)
    requires
        family_fits(lines, dirs, k, c.len() as int),
    ensures
        sweep(c, lines, dirs, p, k).len() == c.len(),
    decreases k,
{
    if k > 0 {
        lemma_sweep_len(c, lines, dirs, p, (k - 1) as nat);
        assert(lines(k - 1).fits(c.len() as int));
        lemma_rotated(sweep(c, lines, dirs, p, (k - 1) as nat), lines(k - 1), p, dirs(k - 1));
    }
}

pub proof fn lemma_unsweep_len<T>(c: Seq<T>, lines: spec_fn(int) -> Line, dirs: spec_fn(int) -> u8, p: nat, k: nat)
    requires
        family_fits(lines, dirs, k, c.len() as int),
    ensures
        unsweep(c, lines, dirs, p, k).len() == c.len(),
    decreases k,
{
    if k > 0 {
        assert(lines(k - 1).fits(c.len() as int));
        let c1 = rotated(c, lines(k - 1), p, (1 - dirs(k - 1)) as u8);
        lemma_rotated(c, lines(k - 1), p, (1 - dirs(k - 1)) as u8);
        lemma_unsweep_len(c1, lines, dirs, p, (k - 1) as nat);
    }
}

/// Undoing a sweep line by line, last line first and each in the opposite direction,
/// gives back the cells it started from.
pub proof fn lemma_unsweep_sweep<T>(c: Seq<T>, lines: spec_fn(int) -> Line, dirs: spec_fn(int) -> u8, p: nat, k: nat)
    requires
        family_fits(lines, dirs, k, c.len() as int),
    ensures
        unsweep(sweep(c, lines, dirs, p, k), lines, dirs, p, k) == c,
    decreases k,
{
    if k > 0 {
        let prev = sweep(c, lines, dirs, p, (k - 1) as nat);
        lemma_sweep_len(c, lines, dirs, p, (k - 1) as nat);
        assert(lines(k - 1).fits(c.len() as int));
        lemma_rotation_involution(prev, lines(k - 1), p, dirs(k - 1));
        lemma_unsweep_sweep(c, lines, dirs, p, (k - 1) as nat);
    }
}

/// The position whose value `rotated` moves to position `y`.
pub open spec fn rotated_source(ln: Line, p: nat, b: u8, y: int) -> int {
    if ln.on(y) {
        let t = choose|t: int| 0 <= t < ln.len && ln.pos(t) == y;
        ln.pos((t + shift_of(ln.len as nat, p, b)) % (ln.len as int))
    } else {
        y
    }
}

/// Some position of `[0, size)` takes its value from position `x`.
pub open spec fn rotated_hits(ln: Line, p: nat, b: u8, size: int, x: int) -> bool {
    exists|y: int| 0 <= y < size && rotated_source(ln, p, b, y) == x
}

/// A rotation only moves values: each cell of the result is the value of one cell of `c`,
/// no two cells take the value of the same cell, and every cell's value is taken.
pub proof fn lemma_rotated_moves<T>(c: Seq<T>, ln: Line, p: nat, b: u8)
    requires
        ln.fits(c.len() as int),
    ensures
        rotated(c, ln, p, b).len() == c.len(),
        forall|y: int|
            0 <= y < c.len() ==> 0 <= #[trigger] rotated_source(ln, p, b, y) < c.len() && rotated(c, ln, p, b)[y]
                == c[rotated_source(ln, p, b, y)],
        forall|y1: int, y2: int|
            0 <= y1 < c.len() && 0 <= y2 < c.len() && y1 != y2 ==> #[trigger] rotated_source(ln, p, b, y1)
                != #[trigger] rotated_source(ln, p, b, y2),
        forall|x: int| 0 <= x < c.len() ==> #[trigger] rotated_hits(ln, p, b, c.len() as int, x),
{
    lemma_rotated(c, ln, p, b);
    let n = ln.len as int;
    let k = shift_of(ln.len as nat, p, b);
    assert(0 <= k <= n);
    assert forall|y: int| 0 <= y < c.len() implies 0 <= #[trigger] rotated_source(ln, p, b, y) < c.len()
        && rotated(c, ln, p, b)[y] == c[rotated_source(ln, p, b, y)] by {
        if ln.on(y) {
            let t = choose|t: int| 0 <= t < ln.len && ln.pos(t) == y;
            vstd::arithmetic::div_mod::lemma_mod_bound(t + k, n);
            assert(rotated(c, ln, p, b)[ln.pos(t)] == c[ln.pos((t + k) % n)]);
        }
    }
    assert forall|y1: int, y2: int|
        0 <= y1 < c.len() && 0 <= y2 < c.len() && y1 != y2 implies #[trigger] rotated_source(ln, p, b, y1)
        != #[trigger] rotated_source(ln, p, b, y2) by {
        if ln.on(y1) {
            let t1 = choose|t: int| 0 <= t < ln.len && ln.pos(t) == y1;
            vstd::arithmetic::div_mod::lemma_mod_bound(t1 + k, n);
            if ln.on(y2) {
                let t2 = choose|t: int| 0 <= t < ln.len && ln.pos(t) == y2;
                vstd::arithmetic::div_mod::lemma_mod_bound(t2 + k, n);
                if (t1 + k) % n == (t2 + k) % n {
                    vstd::arithmetic::div_mod::lemma_mod_equivalence(t1 + k, t2 + k, n);
                    if t1 > t2 {
                        vstd::arithmetic::div_mod::lemma_small_mod((t1 - t2) as nat, n as nat);
                    } else if t2 > t1 {
                        vstd::arithmetic::div_mod::lemma_small_mod((t2 - t1) as nat, n as nat);
                        vstd::arithmetic::div_mod::lemma_mod_equivalence(t2 + k, t1 + k, n);
                    }
                } else {
                    lemma_pos_injective(ln, (t1 + k) % n, (t2 + k) % n);
                }
            } else {
                assert(ln.on(rotated_source(ln, p, b, y1)));
            }
        } else if ln.on(y2) {
            let t2 = choose|t: int| 0 <= t < ln.len && ln.pos(t) == y2;
            vstd::arithmetic::div_mod::lemma_mod_bound(t2 + k, n);
            assert(ln.on(rotated_source(ln, p, b, y2)));
        }
    }
    assert forall|x: int| 0 <= x < c.len() implies #[trigger] rotated_hits(ln, p, b, c.len() as int, x) by {
        if ln.on(x) {
            let t0 = choose|t: int| 0 <= t < ln.len && ln.pos(t) == x;
            let t = (t0 - k + n) % n;
            vstd::arithmetic::div_mod::lemma_mod_bound(t0 - k + n, n);
            let y = ln.pos(t);
            assert(ln.on(y));
            let ty = choose|u: int| 0 <= u < ln.len && ln.pos(u) == y;
            if ty != t {
                lemma_pos_injective(ln, ty, t);
            }
            assert((t + k) % n == t0) by {
                vstd::arithmetic::div_mod::lemma_add_mod_noop_right(k, t0 - k + n, n);
                assert(k + (t0 - k + n) == t0 + n);
                vstd::arithmetic::div_mod::lemma_mod_add_multiples_vanish(t0, n);
                vstd::arithmetic::div_mod::lemma_small_mod(t0 as nat, n as nat);
            }
            assert(rotated_source(ln, p, b, y) == x);
        } else {
            assert(rotated_source(ln, p, b, x) == x);
        }
    }
}

/// Some `i` in `[0, n)` has `f(i) == x`.
pub open spec fn hits(f: spec_fn(int) -> int, n: int, x: int) -> bool {
    exists|i: int| 0 <= i < n && #[trigger] f(i) == x
}

/// `f` maps `[0, n)` one to one onto itself.
pub open spec fn bijective_on(f: spec_fn(int) -> int, n: int) -> bool {
    &&& forall|i: int| 0 <= i < n ==> 0 <= #[trigger] f(i) < n
    &&& forall|i: int, j: int| 0 <= i < n && 0 <= j < n && i != j ==> #[trigger] f(i) != #[trigger] f(j)
    &&& forall|x: int| 0 <= x < n ==> #[trigger] hits(f, n, x)
}

/// `a` holds the values of `b`, moved by a bijection of the positions: each value of `b`
/// appears in `a` as many times as in `b`.
pub open spec fn rearranges<T>(a: Seq<T>, b: Seq<T>) -> bool {
    &&& a.len() == b.len()
    &&& exists|f: spec_fn(int) -> int|
        #[trigger] bijective_on(f, a.len() as int) && forall|i: int| 0 <= i < a.len() ==> #[trigger] a[i] == b[f(i)]
}

/// A bijection of the positions that moves `b` into `a`, when there is one.
pub open spec fn rearrangement<T>(a: Seq<T>, b: Seq<T>) -> spec_fn(int) -> int {
    choose|f: spec_fn(int) -> int|
        #[trigger] bijective_on(f, a.len() as int) && forall|i: int| 0 <= i < a.len() ==> #[trigger] a[i] == b[f(i)]
}

pub proof fn lemma_rearranges_refl<T>(a: Seq<T>)
    ensures
        rearranges(a, a),
{
    let f = |i: int| i;
    assert forall|x: int| 0 <= x < a.len() implies #[trigger] hits(f, a.len() as int, x) by {
        assert(f(x) == x);
    }
    assert(bijective_on(f, a.len() as int));
    assert(forall|i: int| 0 <= i < a.len() ==> #[trigger] a[i] == a[f(i)]);
}

pub proof fn lemma_rearranges_trans<T>(a: Seq<T>, b: Seq<T>, c: Seq<T>)
    requires
        rearranges(a, b),
        rearranges(b, c),
    ensures
        rearranges(a, c),
{
    let n = a.len() as int;
    let f = choose|f: spec_fn(int) -> int| bijective_on(f, n) && forall|i: int| 0 <= i < n ==> #[trigger] a[i] == b[f(i)];
    let g = choose|g: spec_fn(int) -> int| bijective_on(g, n) && forall|i: int| 0 <= i < n ==> #[trigger] b[i] == c[g(i)];
    let h = |i: int| g(f(i));
    assert forall|i: int| 0 <= i < n implies 0 <= #[trigger] h(i) < n by {
        assert(0 <= f(i) < n);
        assert(0 <= g(f(i)) < n);
    }
    assert forall|i: int, j: int| 0 <= i < n && 0 <= j < n && i != j implies #[trigger] h(i) != #[trigger] h(j) by {
        assert(f(i) != f(j));
        assert(0 <= f(i) < n && 0 <= f(j) < n);
        assert(g(f(i)) != g(f(j)));
    }
    assert forall|x: int| 0 <= x < n implies #[trigger] hits(h, n, x) by {
        assert(hits(g, n, x));
        let j = choose|j: int| 0 <= j < n && #[trigger] g(j) == x;
        assert(hits(f, n, j));
        let i = choose|i: int| 0 <= i < n && #[trigger] f(i) == j;
        assert(h(i) == x);
    }
    assert forall|i: int| 0 <= i < n implies #[trigger] a[i] == c[h(i)] by {
        assert(a[i] == b[f(i)]);
        assert(0 <= f(i) < n);
        assert(b[f(i)] == c[g(f(i))]);
    }
    assert(bijective_on(h, n));
}

/// A rotation rearranges the cells.
pub proof fn lemma_rotated_rearranges<T>(c: Seq<T>, ln: Line, p: nat, b: u8)
    requires
        ln.fits(c.len() as int),
    ensures
        rearranges(rotated(c, ln, p, b), c),
{
    lemma_rotated_moves(c, ln, p, b);
    let n = c.len() as int;
    let f = |y: int| rotated_source(ln, p, b, y);
    assert forall|x: int| 0 <= x < n implies #[trigger] hits(f, n, x) by {
        assert(rotated_hits(ln, p, b, n, x));
        let y = choose|y: int| 0 <= y < n && rotated_source(ln, p, b, y) == x;
        assert(f(y) == x);
    }
    assert forall|i: int, j: int| 0 <= i < n && 0 <= j < n && i != j implies #[trigger] f(i) != #[trigger] f(j) by {
        assert(rotated_source(ln, p, b, i) != rotated_source(ln, p, b, j));
    }
    assert forall|i: int| 0 <= i < n implies 0 <= #[trigger] f(i) < n by {
        assert(0 <= rotated_source(ln, p, b, i) < n);
    }
    assert(bijective_on(f, n));
    assert forall|i: int| 0 <= i < n implies #[trigger] rotated(c, ln, p, b)[i] == c[f(i)] by {
        assert(0 <= rotated_source(ln, p, b, i) < n);
    }
}

/// A sweep rearranges the cells.
pub proof fn lemma_sweep_rearranges<T>(c: Seq<T>, lines: spec_fn(int) -> Line, dirs: spec_fn(int) -> u8, p: nat, k: nat)
    requires
        family_fits(lines, dirs, k, c.len() as int),
    ensures
        rearranges(sweep(c, lines, dirs, p, k), c),
    decreases k,
{
    if k == 0 {
        lemma_rearranges_refl(c);
    } else {
        lemma_sweep_rearranges(c, lines, dirs, p, (k - 1) as nat);
        lemma_sweep_len(c, lines, dirs, p, (k - 1) as nat);
        let prev = sweep(c, lines, dirs, p, (k - 1) as nat);
        assert(lines(k - 1).fits(c.len() as int));
        lemma_rotated_rearranges(prev, lines(k - 1), p, dirs(k - 1));
        lemma_rearranges_trans(sweep(c, lines, dirs, p, k), prev, c);
    }
}

} // verus!
