//! Real numbers.
use vstd::prelude::*;

verus! {

/// `x * x * x`
pub open spec fn cubed(x: real) -> real {
    x * x * x
}

/// `x` multiplied with itself five times.
pub open spec fn fifth_power(x: real) -> real {
    x * x * x * x * x
}

/// `x` multiplied with itself twelve times.
pub open spec fn twelfth_power(x: real) -> real {
    let four = x * x * x * x;
    four * four * four
}

/// What is the same multiple of a number is the same.
pub(crate) proof fn lemma_cancel(a: real, b: real, factor: real)
    requires
        factor > 0 as real,
        a * factor == b * factor,
    ensures
        a == b,
{
    assert(a == b) by (nonlinear_arith)
        requires
            factor > 0 as real,
            a * factor == b * factor,
    ;
}

/// A share of a number is at most as large a share of a larger number.
pub(crate) proof fn lemma_share(share: real, a: real, b: real)
    requires
        share >= 0 as real,
        a <= b,
    ensures
        share * a <= share * b,
        a * share <= b * share,
{
    assert(share * a <= share * b && a * share <= b * share) by (nonlinear_arith)
        requires
            share >= 0 as real,
            a <= b,
    ;
}

/// A positive multiple of a number is less than that of a larger number.
pub(crate) proof fn lemma_multiple(factor: real, a: real, b: real)
    requires
        factor > 0 as real,
        a < b,
    ensures
        a * factor < b * factor,
{
    assert(a * factor < b * factor) by (nonlinear_arith)
        requires
            factor > 0 as real,
            a < b,
    ;
}

/// Shares of one number add up.
pub(crate) proof fn lemma_shares(u: real, v: real, w: real, a: real)
    ensures
        u * a + v * a + w * a == (u + v + w) * a,
{
    assert(u * a + v * a + w * a == (u + v + w) * a) by (nonlinear_arith);
}

/// Products of larger numbers are larger.
pub(crate) proof fn lemma_products(a: real, b: real, c: real, d: real)
    requires
        0 as real <= a <= b,
        0 as real <= c <= d,
    ensures
        0 as real <= a * c <= b * d,
{
    lemma_share(a, c, d);
    lemma_share(d, a, b);
    lemma_share(a, 0 as real, c);
    assert(a * (0 as real) == 0 as real);
}

/// Products of strictly larger numbers are strictly larger.
pub(crate) proof fn lemma_strict_products(a: real, b: real, c: real, d: real)
    requires
        0 as real <= a < b,
        0 as real <= c < d,
    ensures
        0 as real <= a * c < b * d,
{
    lemma_share(a, c, d);
    lemma_multiple(d, a, b);
    lemma_share(a, 0 as real, c);
    assert(a * (0 as real) == 0 as real);
}

/// The number with the larger cube is larger.
pub(crate) proof fn lemma_cube_order(a: real, b: real)
    requires
        0 as real <= a,
        0 as real <= b,
        cubed(a) <= cubed(b),
    ensures
        a <= b,
{
    if b < a {
        lemma_strict_products(b, a, b, a);
        lemma_strict_products(b * b, a * a, b, a);
    }
}

/// What has a cube that is not negative is not negative.
pub(crate) proof fn lemma_cube_sign(a: real)
    requires
        0 as real <= cubed(a),
    ensures
        0 as real <= a,
{
    if a < 0 as real {
        let b = -a;
        lemma_strict_products(0 as real, b, 0 as real, b);
        assert(a * a == b * b) by (nonlinear_arith)
            requires
                b == -a,
        ;
        lemma_multiple(a * a, a, 0 as real);
        assert((0 as real) * (a * a) == 0 as real);
        assert(a * (a * a) == (a * a) * a) by (nonlinear_arith);
    }
}

/// The number with the larger fifth power is larger.
pub(crate) proof fn lemma_fifth_order(a: real, b: real)
    requires
        0 as real <= a,
        0 as real <= b,
        fifth_power(a) <= fifth_power(b),
    ensures
        a <= b,
{
    if b < a {
        lemma_strict_products(b, a, b, a);
        lemma_strict_products(b * b, a * a, b, a);
        lemma_strict_products(b * b * b, a * a * a, b, a);
        lemma_strict_products(b * b * b * b, a * a * a * a, b, a);
    }
}

/// The larger number has the larger twelfth power.
pub(crate) proof fn lemma_twelfth_order(a: real, b: real)
    requires
        0 as real <= a <= b,
    ensures
        0 as real <= twelfth_power(a) <= twelfth_power(b),
{
    lemma_products(a, b, a, b);
    lemma_products(a * a, b * b, a, b);
    lemma_products(a * a * a, b * b * b, a, b);
    let (p, q) = (a * a * a * a, b * b * b * b);
    lemma_products(p, q, p, q);
    lemma_products(p * p, q * q, p, q);
}

/// `f(0) + f(1) + ... + f(count - 1)`
pub open spec fn sum(count: nat, f: spec_fn(int) -> real) -> real
    decreases count,
{
    if count == 0 {
        0 as real
    } else {
        sum((count - 1) as nat, f) + f(count - 1)
    }
}

/// Sums depend only on their terms.
pub(crate) proof fn lemma_sum_equal(count: nat, f: spec_fn(int) -> real, g: spec_fn(int) -> real)
    requires
        forall|k: int| 0 <= k < count ==> #[trigger] f(k) == g(k),
    ensures
        sum(count, f) == sum(count, g),
    decreases count,
{
    if count > 0 {
        lemma_sum_equal((count - 1) as nat, f, g);
        assert(f(count - 1) == g(count - 1));
    }
}

/// Sums of larger terms are larger.
pub(crate) proof fn lemma_sum_order(count: nat, f: spec_fn(int) -> real, g: spec_fn(int) -> real)
    requires
        forall|k: int| 0 <= k < count ==> #[trigger] f(k) <= g(k),
    ensures
        sum(count, f) <= sum(count, g),
    decreases count,
{
    if count > 0 {
        lemma_sum_order((count - 1) as nat, f, g);
        assert(f(count - 1) <= g(count - 1));
    }
}

/// The sum of a combination of terms is that combination of the sums.
pub(crate) proof fn lemma_sum_combines(
    count: nat,
    f: spec_fn(int) -> real,
    g: spec_fn(int) -> real,
    h: spec_fn(int) -> real,
    factor: real,
)
    requires
        forall|k: int| 0 <= k < count ==> #[trigger] h(k) == f(k) + factor * g(k),
    ensures
        sum(count, h) == sum(count, f) + factor * sum(count, g),
    decreases count,
{
    if count > 0 {
        lemma_sum_combines((count - 1) as nat, f, g, h, factor);
        let (before, last) = (sum((count - 1) as nat, g), g(count - 1));
        assert(h(count - 1) == f(count - 1) + factor * last);
        assert(factor * (before + last) == factor * before + factor * last) by (nonlinear_arith);
    } else {
        assert(factor * (0 as real) == 0 as real);
    }
}

/// A sum whose terms differ in one place.
pub(crate) proof fn lemma_sum_update(
    count: nat,
    f: spec_fn(int) -> real,
    g: spec_fn(int) -> real,
    at: int,
)
    requires
        0 <= at < count,
        forall|k: int| 0 <= k < count && k != at ==> #[trigger] f(k) == g(k),
    ensures
        sum(count, g) == sum(count, f) - f(at) + g(at),
    decreases count,
{
    if at == count - 1 {
        lemma_sum_equal((count - 1) as nat, f, g);
    } else {
        lemma_sum_update((count - 1) as nat, f, g, at);
        assert(f(count - 1) == g(count - 1));
    }
}

/// Products distribute over sums.
pub(crate) proof fn lemma_distribute(x: real, y: real, w: real)
    ensures
        (x + y) * w == x * w + y * w,
        w * (x + y) == w * x + w * y,
{
    assert((x + y) * w == x * w + y * w) by (nonlinear_arith);
    assert(w * (x + y) == w * x + w * y) by (nonlinear_arith);
}

/// Factors can be grouped either way.
pub(crate) proof fn lemma_associate(x: real, y: real, z: real)
    ensures
        (x * y) * z == x * (y * z),
{
    assert((x * y) * z == x * (y * z)) by (nonlinear_arith);
}

/// Factors can be exchanged.
pub(crate) proof fn lemma_commute(x: real, y: real)
    ensures
        x * y == y * x,
{
    assert(x * y == y * x) by (nonlinear_arith);
}

/// A sum of multiples is that multiple of the sum.
pub(crate) proof fn lemma_sum_multiple(
    count: nat,
    f: spec_fn(int) -> real,
    g: spec_fn(int) -> real,
    factor: real,
)
    requires
        forall|k: int| 0 <= k < count ==> #[trigger] g(k) == factor * f(k),
    ensures
        sum(count, g) == factor * sum(count, f),
    decreases count,
{
    if count > 0 {
        lemma_sum_multiple((count - 1) as nat, f, g, factor);
        assert(g(count - 1) == factor * f(count - 1));
        lemma_distribute(sum((count - 1) as nat, f), f(count - 1), factor);
    } else {
        assert(factor * (0 as real) == 0 as real);
    }
}

/// A sum of sums is the sum of the sums.
pub(crate) proof fn lemma_sum_plus(
    count: nat,
    f: spec_fn(int) -> real,
    g: spec_fn(int) -> real,
    h: spec_fn(int) -> real,
)
    requires
        forall|k: int| 0 <= k < count ==> #[trigger] h(k) == f(k) + g(k),
    ensures
        sum(count, h) == sum(count, f) + sum(count, g),
    decreases count,
{
    if count > 0 {
        lemma_sum_plus((count - 1) as nat, f, g, h);
        assert(h(count - 1) == f(count - 1) + g(count - 1));
    }
}

/// The sum over a column of a table.
pub open spec fn column_sum(rows: nat, table: spec_fn(int, int) -> real, k: int) -> real {
    sum(rows, |j: int| table(j, k))
}

/// The sum over the beginning of a row of a table.
pub open spec fn row_sum(columns: nat, table: spec_fn(int, int) -> real, j: int) -> real {
    sum(columns, |k: int| table(j, k))
}

/// A table sums up to the same by columns and by rows.
pub(crate) proof fn lemma_table(rows: nat, columns: nat, table: spec_fn(int, int) -> real)
    ensures
        sum(columns, |k: int| column_sum(rows, table, k)) == sum(
            rows,
            |j: int| row_sum(columns, table, j),
        ),
    decreases columns,
{
    let all = |j: int| row_sum(columns, table, j);
    if columns == 0 {
        lemma_sum_zero(rows, all);
    } else {
        let fewer = (columns - 1) as nat;
        lemma_table(rows, fewer, table);
        let before = |j: int| row_sum(fewer, table, j);
        let last = |j: int| table(j, columns - 1);
        assert forall|j: int| 0 <= j < rows implies #[trigger] all(j) == before(j) + last(j) by {
            let row = |k: int| table(j, k);
            assert(sum(columns, row) == sum(fewer, row) + row(columns - 1));
        }
        lemma_sum_plus(rows, before, last, all);
        assert(column_sum(rows, table, columns - 1) == sum(rows, last));
    }
}

/// Nothing sums up to nothing.
pub(crate) proof fn lemma_sum_zero(count: nat, f: spec_fn(int) -> real)
    requires
        forall|k: int| 0 <= k < count ==> #[trigger] f(k) == 0 as real,
    ensures
        sum(count, f) == 0 as real,
    decreases count,
{
    if count > 0 {
        lemma_sum_zero((count - 1) as nat, f);
        assert(f(count - 1) == 0 as real);
    }
}

/// A sum in two parts.
pub(crate) proof fn lemma_sum_parts(
    first: nat,
    second: nat,
    f: spec_fn(int) -> real,
    g: spec_fn(int) -> real,
)
    requires
        forall|k: int| 0 <= k < second ==> #[trigger] g(k) == f(first + k),
    ensures
        sum(first + second, f) == sum(first, f) + sum(second, g),
    decreases second,
{
    if second > 0 {
        lemma_sum_parts(first, (second - 1) as nat, f, g);
        assert(g(second - 1) == f(first + second - 1));
    }
}

} // verus!
