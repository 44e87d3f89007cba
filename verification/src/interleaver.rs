//! Block interleaver: spreads burst errors by writing a sequence
//! row-major into a grid and reading it back column-major.

use vstd::prelude::*;

verus! {

use vstd::arithmetic::div_mod::lemma_fundamental_div_mod;
use vstd::arithmetic::div_mod::lemma_fundamental_div_mod_converse;

/// Number of grid rows for `n` entries in `c` columns (the ceiling of
/// `n / c`).
pub open spec fn rows_for(n: nat, c: nat) -> nat
    recommends
        c > 0,
{
    ((n + c - 1) / (c as int)) as nat
}

/// The input index that feeds output position `j` of `interleave`.
pub open spec fn interleave_src(j: int, c: nat, rows: nat) -> int {
    (j % (rows as int)) * c + j / (rows as int)
}

/// The output index that input position `i` of `interleave` feeds;
/// also the input index that feeds output position `i` of
/// `deinterleave`.
pub open spec fn interleave_dst(i: int, c: nat, rows: nat) -> int {
    (i % (c as int)) * rows + i / (c as int)
}

/// Column-major readout of a row-major grid with `c` columns.  Grid
/// cells whose source index falls beyond the ragged last row read as
/// `zero`.  A zero column count or an empty input passes through
/// unchanged.
pub open spec fn interleave_spec<T>(s: Seq<T>, c: nat, zero: T) -> Seq<T> {
    if c == 0 || s.len() == 0 {
        s
    } else {
        let rows = rows_for(s.len(), c);
        Seq::new(
            s.len(),
            |j: int|
                if interleave_src(j, c, rows) < s.len() {
                    s[interleave_src(j, c, rows)]
                } else {
                    zero
                },
        )
    }
}

/// The mirror operation of `interleave_spec`.
pub open spec fn deinterleave_spec<T>(s: Seq<T>, c: nat, zero: T) -> Seq<T> {
    if c == 0 || s.len() == 0 {
        s
    } else {
        let rows = rows_for(s.len(), c);
        Seq::new(
            s.len(),
            |j: int|
                if interleave_dst(j, c, rows) < s.len() {
                    s[interleave_dst(j, c, rows)]
                } else {
                    zero
                },
        )
    }
}

/// Ceiling-division bounds: the grid has at least `n` cells and fewer
/// than `n + c` of them.
proof fn lemma_rows_bounds(n: nat, c: nat)
    requires
        c > 0,
        n > 0,
    ensures
        rows_for(n, c) >= 1,
        n <= rows_for(n, c) * c < n + c,
{
    broadcast use vstd::arithmetic::mul::lemma_mul_is_commutative;

    let x = (n + c - 1) as int;
    let cc = c as int;
    lemma_fundamental_div_mod(x, cc);
    vstd::arithmetic::div_mod::lemma_div_pos_is_pos(x, cc);
    let q = x / cc;
    let r = x % cc;
    assert(x == cc * q + r);
    assert(rows_for(n, c) == q);
    assert(q * cc == x - r);
    assert(n <= q * cc) by {
        assert(r <= cc - 1);
    }
    assert(q >= 1) by (nonlinear_arith)
        requires
            q * cc >= n,
            n >= 1,
            cc > 0,
            q >= 0,
    ;
}

/// The two index maps invert each other on the full grid.
proof fn lemma_maps_inverse(t: int, n: nat, c: nat)
    requires
        c > 0,
        n > 0,
        0 <= t < n,
    ensures
        0 <= interleave_src(t, c, rows_for(n, c)) < rows_for(n, c) * c,
        0 <= interleave_dst(t, c, rows_for(n, c)) < rows_for(n, c) * c,
        interleave_dst(interleave_src(t, c, rows_for(n, c)), c, rows_for(n, c)) == t,
        interleave_src(interleave_dst(t, c, rows_for(n, c)), c, rows_for(n, c)) == t,
{
    broadcast use vstd::arithmetic::mul::lemma_mul_is_commutative;

    let rows = rows_for(n, c) as int;
    let cc = c as int;
    lemma_rows_bounds(n, c);
    lemma_fundamental_div_mod(t, rows);
    lemma_fundamental_div_mod(t, cc);
    // src(t) decomposes as (t % rows) * c + (t / rows) with the
    // second summand below c, so dst recovers both coordinates.
    let a1 = t % rows;
    let b1 = t / rows;
    assert(b1 * rows <= t) by (nonlinear_arith)
        requires
            t == b1 * rows + a1,
            a1 >= 0,
    ;
    assert(b1 < cc) by (nonlinear_arith)
        requires
            b1 * rows <= t,
            t < rows * cc,
            rows > 0,
            b1 >= 0,
    ;
    let s = interleave_src(t, c, rows_for(n, c));
    assert(s == a1 * cc + b1);
    assert(0 <= s < rows * cc) by (nonlinear_arith)
        requires
            s == a1 * cc + b1,
            0 <= a1 < rows,
            0 <= b1 < cc,
    ;
    lemma_fundamental_div_mod_converse(s, cc, a1, b1);
    assert(interleave_dst(s, c, rows_for(n, c)) == b1 * rows + a1);
    // dst(t) decomposes as (t % c) * rows + (t / c) with the second
    // summand below rows, so src recovers both coordinates.
    let a2 = t % cc;
    let b2 = t / cc;
    assert(b2 * cc <= t) by (nonlinear_arith)
        requires
            t == b2 * cc + a2,
            a2 >= 0,
    ;
    assert(b2 < rows) by (nonlinear_arith)
        requires
            b2 * cc <= t,
            t < rows * cc,
            cc > 0,
            b2 >= 0,
    ;
    let d = interleave_dst(t, c, rows_for(n, c));
    assert(d == a2 * rows + b2);
    assert(0 <= d < rows * cc) by (nonlinear_arith)
        requires
            d == a2 * rows + b2,
            0 <= a2 < cc,
            0 <= b2 < rows,
    ;
    lemma_fundamental_div_mod_converse(d, rows, a2, b2);
    assert(interleave_src(d, c, rows_for(n, c)) == b2 * cc + a2);
}

/// A vector of `n` copies of `zero`.
fn filled<T: Copy>(zero: T, n: usize) -> (r: Vec<T>)
    ensures
        r@.len() == n,
        forall|j: int| 0 <= j < n ==> r@[j] == zero,
{
    let mut r: Vec<T> = Vec::new();
    let mut i: usize = 0;
    while i < n
        invariant
            i <= n,
            r@.len() == i,
            forall|j: int| 0 <= j < i ==> r@[j] == zero,
        decreases n - i,
    {
        r.push(zero);
        i += 1;
    }
    r
}

/// A copy of a slice as a vector.
fn copied<T: Copy>(v: &[T]) -> (r: Vec<T>)
    ensures
        r@ == v@,
{
    let n: usize = v.len();
    let mut r: Vec<T> = Vec::new();
    let mut i: usize = 0;
    while i < n
        invariant
            i <= n,
            n == v@.len(),
            r@ == v@.subrange(0, i as int),
        decreases n - i,
    {
        let ghost prev = r@;
        r.push(v[i]);
        proof {
            assert(r@ =~= v@.subrange(0, i + 1));
        }
        i += 1;
    }
    proof {
        assert(r@ =~= v@);
    }
    r
}

/// The number of rows, computed without the `n + c - 1` intermediate.
fn rows_exec(n: usize, c: usize) -> (rows: usize)
    requires
        c > 0,
        n > 0,
    ensures
        rows as nat == rows_for(n as nat, c as nat),
{
    let q: usize = n / c;
    let r: usize = n % c;
    proof {
        broadcast use vstd::arithmetic::mul::lemma_mul_is_commutative;

        lemma_fundamental_div_mod(n as int, c as int);
        assert(n == q * c + r);
        if r == 0 {
            lemma_fundamental_div_mod_converse((n + c - 1) as int, c as int, q as int, (c - 1) as int);
        } else {
            assert((q as int + 1) * c == q * c + c) by (nonlinear_arith);
            lemma_fundamental_div_mod_converse((n + c - 1) as int, c as int, q as int + 1, (r - 1) as int);
            assert(q < usize::MAX) by (nonlinear_arith)
                requires
                    n == q * c + r,
                    0 < r < c,
                    0 <= q,
                    n <= usize::MAX,
            ;
        }
    }
    if r == 0 {
        q
    } else {
        q + 1
    }
}

/// Shared body of the two interleaving directions: scatters entry `i`
/// of the input to position `dst(i)` (when `deinter` is false) or
/// `src(i)` (when true) of the output, dropping targets past the end.
fn scatter<T: Copy>(v: &[T], c: usize, zero: T, deinter: bool) -> (r: Vec<T>)
    requires
        c > 0 && c < v@.len() ==> v@.len() + c <= usize::MAX,
    ensures
        !deinter ==> r@ == interleave_spec(v@, c as nat, zero),
        deinter ==> r@ == deinterleave_spec(v@, c as nat, zero),
{
    let n: usize = v.len();
    if c == 0 || n == 0 {
        return copied(v);
    }
    let rows: usize = rows_exec(n, c);
    proof {
        broadcast use vstd::arithmetic::mul::lemma_mul_is_commutative;

        lemma_rows_bounds(n as nat, c as nat);
        if n <= c {
            lemma_fundamental_div_mod_converse((n + c - 1) as int, c as int, 1, (n - 1) as int);
            assert(rows == 1);
        }
        assert(rows * c <= usize::MAX);
    }
    let mut out: Vec<T> = filled(zero, n);
    let mut i: usize = 0;
    while i < n
        invariant
            i <= n,
            c > 0,
            n > 0,
            n == v@.len(),
            rows as nat == rows_for(n as nat, c as nat),
            n <= rows * c <= usize::MAX,
            out@.len() == n,
            forall|j: int|
                0 <= j < n ==> out@[j] == {
                    let back = if deinter {
                        interleave_dst(j, c as nat, rows as nat)
                    } else {
                        interleave_src(j, c as nat, rows as nat)
                    };
                    if back < i {
                        v@[back]
                    } else {
                        zero
                    }
                },
        decreases n - i,
    {
        proof {
            lemma_maps_inverse(i as int, n as nat, c as nat);
        }
        let target: usize = if deinter {
            // col = i / rows, row = i % rows, target = row * c + col
            (i % rows) * c + i / rows
        } else {
            // row = i / c, col = i % c, target = col * rows + row
            (i % c) * rows + i / c
        };
        proof {
            if deinter {
                assert(target == interleave_src(i as int, c as nat, rows as nat));
            } else {
                assert(target == interleave_dst(i as int, c as nat, rows as nat));
            }
        }
        if target < n {
            out[target] = v[i];
        }
        proof {
            if deinter {
                assert forall|j: int|
                    0 <= j < n && j != target as int implies #[trigger] interleave_dst(
                    j,
                    c as nat,
                    rows as nat,
                ) != i as int by {
                    lemma_maps_inverse(j, n as nat, c as nat);
                }
            } else {
                assert forall|j: int|
                    0 <= j < n && j != target as int implies #[trigger] interleave_src(
                    j,
                    c as nat,
                    rows as nat,
                ) != i as int by {
                    lemma_maps_inverse(j, n as nat, c as nat);
                }
            }
        }
        i += 1;
    }
    proof {
        if deinter {
            assert(out@ =~= deinterleave_spec(v@, c as nat, zero));
        } else {
            assert(out@ =~= interleave_spec(v@, c as nat, zero));
        }
    }
    out
}

/// Writes the bits row-major into a grid of `num_columns` columns and
/// reads them back column-major.
pub fn interleave(bits: &[u8], num_columns: usize) -> (r: Vec<u8>)
    requires
        num_columns > 0 && num_columns < bits@.len() ==> bits@.len() + num_columns <= usize::MAX,
    ensures
        r@ == interleave_spec(bits@, num_columns as nat, 0u8),
{
    scatter(bits, num_columns, 0u8, false)
}

/// Inverts `interleave` for inputs whose length is an exact multiple
/// of the column count.
pub fn deinterleave(bits: &[u8], num_columns: usize) -> (r: Vec<u8>)
    requires
        num_columns > 0 && num_columns < bits@.len() ==> bits@.len() + num_columns <= usize::MAX,
    ensures
        r@ == deinterleave_spec(bits@, num_columns as nat, 0u8),
{
    scatter(bits, num_columns, 0u8, true)
}

/// `interleave` on soft values: repetition combining works in the
/// log-likelihood-ratio domain, so the same permutation must apply to
/// fixed-point confidences as well as to hard bits.
pub fn interleave_llrs(llrs: &[i64], num_columns: usize) -> (r: Vec<i64>)
    requires
        num_columns > 0 && num_columns < llrs@.len() ==> llrs@.len() + num_columns <= usize::MAX,
    ensures
        r@ == interleave_spec(llrs@, num_columns as nat, 0i64),
{
    scatter(llrs, num_columns, 0i64, false)
}

/// `deinterleave` on soft values.
pub fn deinterleave_llrs(llrs: &[i64], num_columns: usize) -> (r: Vec<i64>)
    requires
        num_columns > 0 && num_columns < llrs@.len() ==> llrs@.len() + num_columns <= usize::MAX,
    ensures
        r@ == deinterleave_spec(llrs@, num_columns as nat, 0i64),
{
    scatter(llrs, num_columns, 0i64, true)
}

/// Interleaving round-trip: for any sequence whose length is an exact
/// multiple of the column count, deinterleaving the interleaved
/// sequence gives back the original.
pub proof fn lemma_interleave_roundtrip<T>(s: Seq<T>, c: nat, zero: T)
    requires
        c > 0,
        s.len() % c == 0,
    ensures
        deinterleave_spec(interleave_spec(s, c, zero), c, zero) == s,
{
    let n = s.len();
    if n > 0 {
        let rows = rows_for(n, c);
        lemma_rows_bounds(n, c);
        // An exact multiple fills the grid completely.
        assert(rows * c == n) by {
            lemma_fundamental_div_mod(n as int, c as int);
            assert(n == (n / c) * c);
            lemma_fundamental_div_mod_converse(
                (n + c - 1) as int,
                c as int,
                (n / c) as int,
                (c - 1) as int,
            );
            assert(rows == n / c);
        }
        let mid = interleave_spec(s, c, zero);
        assert(mid.len() == n);
        assert forall|j: int| 0 <= j < n implies deinterleave_spec(mid, c, zero)[j] == s[j] by {
            lemma_maps_inverse(j, n, c);
            let d = interleave_dst(j, c, rows);
            assert(0 <= d < n);
            lemma_maps_inverse(d, n, c);
            assert(mid[d] == s[interleave_src(d, c, rows)]);
            assert(interleave_src(d, c, rows) == j);
        }
        assert(deinterleave_spec(mid, c, zero) =~= s);
    }
}

} // verus!
