use vstd::prelude::*;

verus! {

/// `base` raised to `exp`.
pub open spec fn power(base: nat, exp: nat) -> nat
    decreases exp,
{
    if exp == 0 {
        1
    } else {
        base * power(base, (exp - 1) as nat)
    }
}

/// Powers of a positive base grow with the exponent.
pub proof fn lemma_power_monotonic(base: nat, e1: nat, e2: nat)
    requires
        base >= 1,
        e1 <= e2,
    ensures
        1 <= power(base, e1) <= power(base, e2),
    decreases e2,
{
    if e2 > e1 {
        lemma_power_monotonic(base, e1, (e2 - 1) as nat);
        let p = power(base, (e2 - 1) as nat);
        assert(p <= base * p) by (nonlinear_arith)
            requires
                base >= 1,
                p >= 1,
        ;
    } else if e1 > 0 {
        lemma_power_monotonic(base, (e1 - 1) as nat, (e1 - 1) as nat);
        let p = power(base, (e1 - 1) as nat);
        assert(1 <= base * p) by (nonlinear_arith)
            requires
                base >= 1,
                p >= 1,
        ;
    }
}

/// Walks up from unit `i` while the next unit still fits in `bytes`, never
/// past `max_index`.
pub open spec fn index_search(bytes: nat, base: nat, max_index: nat, i: nat) -> nat
    decreases max_index - i,
{
    if i < max_index && power(base, i + 1) <= bytes {
        index_search(bytes, base, max_index, i + 1)
    } else {
        i
    }
}

/// The unit in which `bytes` is shown: the largest `i <= max_index` with
/// `base^i <= bytes`, and 0 when there is none.
pub open spec fn unit_index(bytes: nat, base: nat, max_index: nat) -> nat {
    index_search(bytes, base, max_index, 0)
}

proof fn lemma_index_search_bounds(bytes: nat, base: nat, max_index: nat, i: nat)
    requires
        i <= max_index,
        i == 0 || power(base, i) <= bytes,
    ensures
        i <= index_search(bytes, base, max_index, i) <= max_index,
        ({
            let r = index_search(bytes, base, max_index, i);
            &&& (r == 0 || power(base, r) <= bytes)
            &&& (r == max_index || bytes < power(base, r + 1))
        }),
    decreases max_index - i,
{
    if i < max_index && power(base, i + 1) <= bytes {
        lemma_index_search_bounds(bytes, base, max_index, i + 1);
    }
}

/// The unit index is at most `max_index`; its unit fits in `bytes` (unless it
/// is the first), and the next unit does not (unless it is the last).
pub proof fn lemma_unit_index_bounds(bytes: nat, base: nat, max_index: nat)
    ensures
        unit_index(bytes, base, max_index) <= max_index,
        ({
            let r = unit_index(bytes, base, max_index);
            &&& (r == 0 || power(base, r) <= bytes)
            &&& (r == max_index || bytes < power(base, r + 1))
        }),
{
    lemma_index_search_bounds(bytes, base, max_index, 0);
}

/// Those bounds single out the unit index: any `k` that meets them is it.
pub proof fn lemma_unit_index_unique(bytes: nat, base: nat, max_index: nat, k: nat)
    requires
        base >= 1,
        k <= max_index,
        k == 0 || power(base, k) <= bytes,
        k == max_index || bytes < power(base, k + 1),
    ensures
        unit_index(bytes, base, max_index) == k,
{
    lemma_unit_index_bounds(bytes, base, max_index);
    let r = unit_index(bytes, base, max_index);
    if r < k {
        lemma_power_monotonic(base, r + 1, k);
    } else if r > k {
        lemma_power_monotonic(base, k + 1, r);
    }
}

/// Picks the unit in which `bytes` is shown: the largest index up to
/// `max_units_index` whose unit, `delimiter^index` bytes, is no more than
/// `bytes`.
pub fn get_unit_index(bytes: u64, delimiter: u64, max_units_index: usize) -> (index: usize)
    ensures
        index == unit_index(bytes as nat, delimiter as nat, max_units_index as nat),
{
    let mut index: usize = 0;
    let mut size: u128 = 1;
    let mut next: u128 = delimiter as u128;
    assert(power(delimiter as nat, 1) == delimiter) by {
        assert(power(delimiter as nat, 0) == 1);
        assert(power(delimiter as nat, 1) == delimiter * power(delimiter as nat, 0));
    }
    while index < max_units_index && next <= bytes as u128
        invariant
            index <= max_units_index,
            size == power(delimiter as nat, index as nat),
            next == power(delimiter as nat, (index + 1) as nat),
            size <= u64::MAX,
            index_search(bytes as nat, delimiter as nat, max_units_index as nat, index as nat)
                == unit_index(bytes as nat, delimiter as nat, max_units_index as nat),
        decreases max_units_index - index,
    {
        size = next;
        index = index + 1;
        assert(size * (delimiter as u128) <= u64::MAX * u64::MAX) by (nonlinear_arith)
            requires
                size <= u64::MAX,
                delimiter <= u64::MAX,
        ;
        next = size * (delimiter as u128);
        assert(next == delimiter * size) by (nonlinear_arith)
            requires
                next == size * delimiter,
        ;
    }
    index
}

} // verus!
