use vstd::prelude::*;

use crate::matrix::{
    dot_acc, mapped, multiplied, pivot_choice, pivoted, rectangular, reduced, reduction_step, swapped,
    zipped,
};

verus! {

/// The `n` by `n` identity matrix with entries `zero` and `one`.
pub open spec fn identity<T>(n: nat, zero: T, one: T) -> Seq<Seq<T>> {
    Seq::new(n, |i: int| Seq::new(n, |j: int| if i == j { one } else { zero }))
}

/// Entrywise combination commutes when the entry operation does: every
/// possible outcome of `a` combined with `b` is a possible outcome of `b`
/// combined with `a`.
pub proof fn lemma_add_commutes<T, F: Fn(T, T) -> T>(
    plus: F,
    a: Seq<Seq<T>>,
    b: Seq<Seq<T>>,
    r: Seq<Seq<T>>,
)
    requires
        a.len() == b.len(),
        forall|i: int| 0 <= i < a.len() ==> (#[trigger] a[i]).len() == b[i].len(),
        forall|x: T, y: T, s: T| #[trigger] plus.ensures((x, y), s) ==> plus.ensures((y, x), s),
        zipped(plus, a, b, r),
    ensures
        zipped(plus, b, a, r),
{
    assert forall|i: int, j: int| 0 <= i < b.len() && 0 <= j < b[i].len() implies plus.ensures(
        (b[i][j], a[i][j]),
        #[trigger] r[i][j],
    ) by {
        assert(a[i].len() == b[i].len());
        assert(plus.ensures((a[i][j], b[i][j]), r[i][j]));
    }
}

/// Adding `b` and then subtracting `b` gives back `a`, when subtracting an
/// entry undoes adding it.
pub proof fn lemma_add_then_subtract<T, P: Fn(T, T) -> T, M: Fn(T, T) -> T>(
    plus: P,
    minus: M,
    a: Seq<Seq<T>>,
    b: Seq<Seq<T>>,
    s: Seq<Seq<T>>,
    r: Seq<Seq<T>>,
)
    requires
        a.len() == b.len(),
        forall|i: int| 0 <= i < a.len() ==> (#[trigger] a[i]).len() == b[i].len(),
        forall|x: T, y: T, t: T, u: T|
            #[trigger] plus.ensures((x, y), t) && #[trigger] minus.ensures((t, y), u) ==> u == x,
        zipped(plus, a, b, s),
        zipped(minus, s, b, r),
    ensures
        r == a,
{
    assert forall|i: int| 0 <= i < a.len() implies #[trigger] r[i] == a[i] by {
        assert forall|j: int| 0 <= j < a[i].len() implies #[trigger] r[i][j] == a[i][j] by {
            assert(plus.ensures((a[i][j], b[i][j]), s[i][j]));
            assert(s[i].len() == a[i].len());
            assert(minus.ensures((s[i][j], b[i][j]), r[i][j]));
        }
        assert(r[i] =~= a[i]);
    }
    assert(r =~= a);
}

/// The running sum of a row against column `j` of the identity, over the
/// first `k` terms, is the row's entry `j` once `j < k`, and `zero` before.
proof fn lemma_dot_identity_acc<T, M: Fn(T, T) -> T, P: Fn(T, T) -> T>(
    times: M,
    plus: P,
    zero: T,
    one: T,
    n: nat,
    row: Seq<T>,
    j: int,
    k: nat,
    acc: T,
)
    requires
        row.len() == n,
        0 <= j < n,
        k <= n,
        forall|x: T, t: T| #[trigger] times.ensures((x, one), t) ==> t == x,
        forall|x: T, t: T| #[trigger] times.ensures((x, zero), t) ==> t == zero,
        forall|x: T, t: T| #[trigger] plus.ensures((zero, x), t) ==> t == x,
        forall|x: T, t: T| #[trigger] plus.ensures((x, zero), t) ==> t == x,
        dot_acc(times, plus, zero, row, identity(n, zero, one), j, k, acc),
    ensures
        acc == (if j < k {
            row[j]
        } else {
            zero
        }),
    decreases k,
{
    if k > 0 {
        let id = identity(n, zero, one);
        let (prev, prod) = choose|prev: T, prod: T|
            dot_acc(times, plus, zero, row, id, j, (k - 1) as nat, prev) && times.ensures(
                (row[k - 1], id[k - 1][j]),
                prod,
            ) && plus.ensures((prev, prod), acc);
        lemma_dot_identity_acc(times, plus, zero, one, n, row, j, (k - 1) as nat, prev);
        if k - 1 == j {
            assert(id[k - 1][j] == one);
        } else {
            assert(id[k - 1][j] == zero);
        }
    }
}

/// The product of `a` (with `n` columns) and the `n` by `n` identity is `a`,
/// when `one` and `zero` act as the units of the entry operations.
pub proof fn lemma_dot_identity<T, M: Fn(T, T) -> T, P: Fn(T, T) -> T>(
    times: M,
    plus: P,
    zero: T,
    one: T,
    a: Seq<Seq<T>>,
    n: nat,
    r: Seq<Seq<T>>,
)
    requires
        rectangular(a, n),
        forall|x: T, t: T| #[trigger] times.ensures((x, one), t) ==> t == x,
        forall|x: T, t: T| #[trigger] times.ensures((x, zero), t) ==> t == zero,
        forall|x: T, t: T| #[trigger] plus.ensures((zero, x), t) ==> t == x,
        forall|x: T, t: T| #[trigger] plus.ensures((x, zero), t) ==> t == x,
        multiplied(times, plus, zero, a, identity(n, zero, one), n, n, r),
    ensures
        r == a,
{
    assert forall|i: int| 0 <= i < a.len() implies #[trigger] r[i] == a[i] by {
        assert forall|j: int| 0 <= j < n implies #[trigger] r[i][j] == a[i][j] by {
            lemma_dot_identity_acc(times, plus, zero, one, n, a[i], j, n, r[i][j]);
        }
        assert(r[i] =~= a[i]);
    }
    assert(r =~= a);
}

/// What the reduction needs of its entry operations: a pivot divided by
/// itself is `one`; `zero` divided by a pivot is `zero`; eliminating an entry
/// with its own multiplier leaves `zero`; eliminating against `zero` changes
/// nothing.
pub open spec fn field_like<T, Z: Fn(T) -> bool, D: Fn(T, T) -> T, E: Fn(T, T, T) -> T>(
    nonzero: Z,
    div: D,
    elim: E,
    zero: T,
    one: T,
) -> bool {
    &&& forall|y: T, t: T| #[trigger] nonzero.ensures((y,), true) && #[trigger] div.ensures((y, y), t) ==> t == one
    &&& forall|y: T, t: T|
        #[trigger] nonzero.ensures((y,), true) && #[trigger] div.ensures((zero, y), t) ==> t == zero
    &&& forall|x: T, y: T, m: T, t: T|
        #[trigger] nonzero.ensures((y,), true) && #[trigger] div.ensures((x, y), m) && #[trigger] elim.ensures(
            (x, y, m),
            t,
        ) ==> t == zero
    &&& forall|x: T, m: T, t: T| #[trigger] elim.ensures((x, zero, m), t) ==> t == x
}

/// After `k` passes the first `k` columns hold `one` on the diagonal and
/// `zero` everywhere else, and the grid keeps its shape.
proof fn lemma_reduced_pivot_columns<T, Z: Fn(T) -> bool, D: Fn(T, T) -> T, E: Fn(T, T, T) -> T>(
    nonzero: Z,
    div: D,
    elim: E,
    zero: T,
    one: T,
    a: Seq<Seq<T>>,
    cols: nat,
    k: nat,
    g: Seq<Seq<T>>,
)
    requires
        field_like(nonzero, div, elim, zero, one),
        rectangular(a, cols),
        k <= a.len() <= cols,
        reduced(nonzero, div, elim, a, k, g),
    ensures
        g.len() == a.len(),
        rectangular(g, cols),
        forall|i: int, c: int|
            0 <= i < g.len() && 0 <= c < k ==> #[trigger] g[i][c] == (if i == c {
                one
            } else {
                zero
            }),
    decreases k,
{
    if k > 0 {
        let lead = k - 1;
        let prev = choose|prev: Seq<Seq<T>>|
            #![trigger reduction_step(nonzero, div, elim, prev, k - 1, g)]
            reduced(nonzero, div, elim, a, (k - 1) as nat, prev) && reduction_step(
                nonzero,
                div,
                elim,
                prev,
                k - 1,
                g,
            );
        lemma_reduced_pivot_columns(nonzero, div, elim, zero, one, a, cols, (k - 1) as nat, prev);
        let p = choose|p: int|
            #![trigger pivot_choice(nonzero, prev, lead, p)]
            pivot_choice(nonzero, prev, lead, p) && pivoted(div, elim, swapped(prev, lead, p), lead, g);
        let s = swapped(prev, lead, p);
        assert(forall|i: int| 0 <= i < s.len() ==> (#[trigger] s[i]).len() == cols);
        assert forall|i: int, c: int| 0 <= i < s.len() && 0 <= c < lead implies #[trigger] s[i][c] == (if i
            == c {
            one
        } else {
            zero
        }) by {
            if i == lead {
                assert(s[i] == prev[p]);
            } else if i == p {
                assert(s[i] == prev[lead]);
            } else {
                assert(s[i] == prev[i]);
            }
        }
        let pivot = s[lead][lead];
        assert(nonzero.ensures((pivot,), true));
        assert forall|i: int| 0 <= i < g.len() implies (#[trigger] g[i]).len() == cols by {
            if i != lead {
                assert(s[i].len() == cols);
            }
        }
        assert forall|i: int, c: int| 0 <= i < g.len() && 0 <= c < k implies #[trigger] g[i][c] == (if i
            == c {
            one
        } else {
            zero
        }) by {
            assert(s[i].len() == cols && s[lead].len() == cols);
            if i == lead {
                assert(div.ensures((s[lead][c], pivot), g[lead][c]));
                if c < lead {
                    assert(s[lead][c] == zero);
                }
            } else {
                let m = choose|m: T|
                    #![trigger div.ensures((s[i][lead], s[lead][lead]), m)]
                    div.ensures((s[i][lead], s[lead][lead]), m) && forall|t: int|
                        0 <= t < s[i].len() ==> elim.ensures((s[i][t], s[lead][t], m), #[trigger] g[i][t]);
                assert(elim.ensures((s[i][c], s[lead][c], m), g[i][c]));
                if c < lead {
                    assert(s[lead][c] == zero);
                }
            }
        }
    }
}

/// Every successful reduction of an `n`-row matrix with at least `n` columns
/// leaves `one` on the diagonal and `zero` elsewhere in its first `n`
/// columns, when the entry operations act as in a field and the final
/// correction keeps `zero` and `one`.
pub proof fn lemma_rref_pivot_columns<
    T,
    Z: Fn(T) -> bool,
    D: Fn(T, T) -> T,
    E: Fn(T, T, T) -> T,
    C: Fn(T) -> T,
>(nonzero: Z, div: D, elim: E, fix: C, zero: T, one: T, a: Seq<Seq<T>>, cols: nat, r: Seq<Seq<T>>)
    requires
        field_like(nonzero, div, elim, zero, one),
        forall|t: T| #[trigger] fix.ensures((zero,), t) ==> t == zero,
        forall|t: T| #[trigger] fix.ensures((one,), t) ==> t == one,
        rectangular(a, cols),
        a.len() <= cols,
        exists|g: Seq<Seq<T>>|
            #![trigger reduced(nonzero, div, elim, a, a.len(), g)]
            reduced(nonzero, div, elim, a, a.len(), g) && mapped(fix, g, r),
    ensures
        r.len() == a.len(),
        rectangular(r, cols),
        forall|i: int, c: int|
            0 <= i < a.len() && 0 <= c < a.len() ==> #[trigger] r[i][c] == (if i == c {
                one
            } else {
                zero
            }),
{
    let g = choose|g: Seq<Seq<T>>|
        #![trigger reduced(nonzero, div, elim, a, a.len(), g)]
        reduced(nonzero, div, elim, a, a.len(), g) && mapped(fix, g, r);
    lemma_reduced_pivot_columns(nonzero, div, elim, zero, one, a, cols, a.len(), g);
    assert forall|i: int| 0 <= i < r.len() implies (#[trigger] r[i]).len() == cols by {
        assert(g[i].len() == cols);
    }
    assert forall|i: int, c: int| 0 <= i < a.len() && 0 <= c < a.len() implies #[trigger] r[i][c] == (if i
        == c {
        one
    } else {
        zero
    }) by {
        assert(g[i].len() == cols);
        assert(fix.ensures((g[i][c],), r[i][c]));
    }
}

/// Reducing the identity gives back the identity.
pub proof fn lemma_rref_identity<T, Z: Fn(T) -> bool, D: Fn(T, T) -> T, E: Fn(T, T, T) -> T, C: Fn(T) -> T>(
    nonzero: Z,
    div: D,
    elim: E,
    fix: C,
    zero: T,
    one: T,
    n: nat,
    r: Seq<Seq<T>>,
)
    requires
        field_like(nonzero, div, elim, zero, one),
        forall|t: T| #[trigger] fix.ensures((zero,), t) ==> t == zero,
        forall|t: T| #[trigger] fix.ensures((one,), t) ==> t == one,
        exists|g: Seq<Seq<T>>|
            #![trigger reduced(nonzero, div, elim, identity(n, zero, one), n, g)]
            reduced(nonzero, div, elim, identity(n, zero, one), n, g) && mapped(fix, g, r),
    ensures
        r == identity(n, zero, one),
{
    let id = identity(n, zero, one);
    assert(rectangular(id, n));
    lemma_rref_pivot_columns(nonzero, div, elim, fix, zero, one, id, n, r);
    assert forall|i: int| 0 <= i < n implies #[trigger] r[i] == id[i] by {
        assert(r[i].len() == n);
        assert(r[i] =~= id[i]);
    }
    assert(r =~= id);
}

} // verus!
