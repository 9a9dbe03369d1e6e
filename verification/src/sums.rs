use vstd::prelude::*;

verus! {

/// The sum of the squares of those numbers from 1 up to `k` that `f` selects.
pub open spec fn sum_squares_where(f: spec_fn(nat) -> bool, k: nat) -> nat
    decreases k,
{
    if k == 0 {
        0
    } else {
        sum_squares_where(f, (k - 1) as nat) + if f(k) {
            k * k
        } else {
            0
        }
    }
}

/// Selections that agree from 1 up to `k` have the same sum.
pub proof fn lemma_sum_congruent(f: spec_fn(nat) -> bool, g: spec_fn(nat) -> bool, k: nat)
    requires
        forall|d: nat| 1 <= d <= k ==> #[trigger] f(d) == g(d),
    ensures
        sum_squares_where(f, k) == sum_squares_where(g, k),
    decreases k,
{
    if k > 0 {
        lemma_sum_congruent(f, g, (k - 1) as nat);
        assert(f(k) == g(k));
    }
}

/// A selection that is the union of two disjoint ones sums to their sums.
pub proof fn lemma_sum_split(
    f: spec_fn(nat) -> bool,
    g: spec_fn(nat) -> bool,
    h: spec_fn(nat) -> bool,
    k: nat,
)
    requires
        forall|d: nat| 1 <= d <= k ==> (#[trigger] f(d) <==> g(d) || h(d)),
        forall|d: nat| 1 <= d <= k ==> !(#[trigger] g(d) && h(d)),
    ensures
        sum_squares_where(f, k) == sum_squares_where(g, k) + sum_squares_where(h, k),
    decreases k,
{
    if k > 0 {
        lemma_sum_split(f, g, h, (k - 1) as nat);
        assert(f(k) <==> g(k) || h(k));
        assert(!(g(k) && h(k)));
    }
}

/// Numbers past `k` that are not selected add nothing.
pub proof fn lemma_sum_extend(f: spec_fn(nat) -> bool, k: nat, l: nat)
    requires
        k <= l,
        forall|d: nat| k < d <= l ==> !#[trigger] f(d),
    ensures
        sum_squares_where(f, l) == sum_squares_where(f, k),
    decreases l - k,
{
    if k < l {
        lemma_sum_extend(f, k, (l - 1) as nat);
        assert(!f(l));
    }
}

/// A selection that holds nothing up to `k` sums to 0.
pub proof fn lemma_sum_empty(f: spec_fn(nat) -> bool, k: nat)
    requires
        forall|d: nat| 1 <= d <= k ==> !#[trigger] f(d),
    ensures
        sum_squares_where(f, k) == 0,
{
    lemma_sum_extend(f, 0, k);
}

/// A selection that holds one number up to `k` sums to its square.
pub proof fn lemma_sum_single(f: spec_fn(nat) -> bool, k: nat, x: nat)
    requires
        1 <= x <= k,
        forall|d: nat| 1 <= d <= k ==> (#[trigger] f(d) <==> d == x),
    ensures
        sum_squares_where(f, k) == x * x,
{
    lemma_sum_empty(f, (x - 1) as nat);
    assert(f(x));
    lemma_sum_extend(f, x, k);
}

/// A sum grows with its range.
pub proof fn lemma_sum_monotonic(f: spec_fn(nat) -> bool, k: nat, l: nat)
    requires
        k <= l,
    ensures
        sum_squares_where(f, k) <= sum_squares_where(f, l),
    decreases l - k,
{
    if k < l {
        lemma_sum_monotonic(f, k, (l - 1) as nat);
    }
}

/// Where only multiples of `c` are selected, the sum up to `c·k` is `c²`
/// times the sum, up to `k`, over the multipliers.
pub proof fn lemma_sum_scaled(
    f: spec_fn(nat) -> bool,
    g: spec_fn(nat) -> bool,
    c: nat,
    k: nat,
)
    requires
        c >= 1,
        forall|d: nat| 1 <= d <= c * k && #[trigger] f(d) ==> d % c == 0,
        forall|d: nat| 1 <= d <= k ==> (#[trigger] g(d) <==> f(c * d)),
    ensures
        sum_squares_where(f, c * k) == c * c * sum_squares_where(g, k),
    decreases k,
{
    if k == 0 {
        assert(c * 0 == 0) by (nonlinear_arith);
        assert(c * c * 0 == 0) by (nonlinear_arith);
    } else {
        let j = (k - 1) as nat;
        let top = c * k;
        let below = c * j;
        assert(top == below + c) by (nonlinear_arith)
            requires
                top == c * k,
                below == c * (k - 1),
        ;
        assert forall|d: nat| 1 <= d <= below && #[trigger] f(d) implies d % c == 0 by {}
        lemma_sum_scaled(f, g, c, j);
        // Between c·(k−1) and c·k lies no multiple of c.
        assert forall|d: nat| below < d <= (top - 1) as nat implies !#[trigger] f(d) by {
            if f(d) {
                vstd::arithmetic::div_mod::lemma_fundamental_div_mod(d as int, c as int);
                let q = d as int / c as int;
                assert(c * j < c * q && c * q < c * k);
                assert(j < q) by (nonlinear_arith)
                    requires
                        c * j < c * q,
                        c >= 1,
                ;
                assert(q < k) by (nonlinear_arith)
                    requires
                        c * q < c * k,
                        c >= 1,
                ;
            }
        }
        lemma_sum_extend(f, below, (top - 1) as nat);
        assert(g(k) <==> f(top));
        let rest = sum_squares_where(g, j);
        assert(c * c * rest + top * top == c * c * (rest + k * k)) by (nonlinear_arith)
            requires
                top == c * k,
        ;
        assert(c * c * (rest + 0) == c * c * rest);
    }
}

} // verus!
