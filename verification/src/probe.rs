//! Walks over a table of slots with a fixed stride.
use vstd::prelude::*;

verus! {

/// The slot at step `k` of the walk with this stride over `size` slots that starts at `home`.
pub open spec fn probe(home: int, stride: int, size: int, k: int) -> int {
    (home + stride * k) % size
}

/// The next step of a walk.
pub proof fn lemma_probe_next(home: int, stride: int, size: int, k: int)
    requires
        size > 0,
    ensures
        probe(home, stride, size, k + 1) == (probe(home, stride, size, k) + stride) % size,
{
    assert(stride * (k + 1) == stride * k + stride) by (nonlinear_arith);
    vstd::arithmetic::div_mod::lemma_add_mod_noop(home + stride * k, stride, size);
    vstd::arithmetic::div_mod::lemma_add_mod_noop(
        (home + stride * k) % size,
        stride,
        size,
    );
    vstd::arithmetic::div_mod::lemma_mod_twice(home + stride * k, size);
}

/// Where the stride has an inverse, a walk of `size` steps comes to every slot.
pub proof fn lemma_probe_covers(
    home: int,
    stride: int,
    size: int,
    inverse: int,
    slot: int,
) -> (k: int)
    requires
        size > 1,
        0 <= slot < size,
        (stride * inverse) % size == 1,
    ensures
        0 <= k < size,
        probe(home, stride, size, k) == slot,
{
    let x = slot - home;
    let k = (x * inverse) % size;
    let q = (x * inverse) / size;
    let c = (stride * inverse) / size;
    vstd::arithmetic::div_mod::lemma_fundamental_div_mod(x * inverse, size);
    vstd::arithmetic::div_mod::lemma_mod_bound(x * inverse, size);
    vstd::arithmetic::div_mod::lemma_fundamental_div_mod(stride * inverse, size);
    assert(stride * (x * inverse) == x * (stride * inverse)) by (nonlinear_arith);
    assert(x * (size * c + 1) == size * (c * x) + x) by (nonlinear_arith);
    assert(stride * (size * q + k) == size * (stride * q) + stride * k) by (nonlinear_arith);
    let m = c * x - stride * q;
    assert(size * m == size * (c * x) - size * (stride * q)) by (nonlinear_arith)
        requires
            m == c * x - stride * q,
    ;
    assert(home + stride * k == size * m + slot);
    assert(size * m == m * size) by (nonlinear_arith);
    vstd::arithmetic::div_mod::lemma_fundamental_div_mod_converse_mod(
        home + stride * k,
        size,
        m,
        slot,
    );
    k
}

/// Where the stride has an inverse, a walk of `size` steps comes to no slot twice.
pub proof fn lemma_probe_distinct(
    home: int,
    stride: int,
    size: int,
    inverse: int,
    i: int,
    j: int,
)
    requires
        0 <= i < j < size,
        (stride * inverse) % size == 1,
    ensures
        probe(home, stride, size, i) != probe(home, stride, size, j),
{
    let a = home + stride * i;
    let b = home + stride * j;
    if a % size == b % size {
        let n = j - i;
        let q = b / size - a / size;
        let c = (stride * inverse) / size;
        vstd::arithmetic::div_mod::lemma_fundamental_div_mod(a, size);
        vstd::arithmetic::div_mod::lemma_fundamental_div_mod(b, size);
        vstd::arithmetic::div_mod::lemma_fundamental_div_mod(stride * inverse, size);
        assert(size * (b / size) - size * (a / size) == size * q) by (nonlinear_arith)
            requires
                q == b / size - a / size,
        ;
        assert(stride * n == stride * j - stride * i) by (nonlinear_arith)
            requires
                n == j - i,
        ;
        assert(stride * n == size * q);
        assert(n * (stride * inverse) == inverse * (stride * n)) by (nonlinear_arith);
        assert(n * (size * c + 1) == size * (c * n) + n) by (nonlinear_arith);
        assert(inverse * (size * q) == size * (inverse * q)) by (nonlinear_arith);
        let m = inverse * q - c * n;
        assert(size * m == size * (inverse * q) - size * (c * n)) by (nonlinear_arith)
            requires
                m == inverse * q - c * n,
        ;
        assert(n == size * m);
        assert(false) by (nonlinear_arith)
            requires
                n == size * m,
                0 < n < size,
        ;
    }
}

/// More holes than pigeons: distinct numbers below `n` are at most `n`.
pub proof fn lemma_pigeonhole(s: Seq<int>, n: int)
    requires
        n >= 0,
        s.no_duplicates(),
        forall|i: int| 0 <= i < s.len() ==> 0 <= #[trigger] s[i] < n,
    ensures
        s.len() <= n,
{
    s.unique_seq_to_set();
    vstd::set_lib::lemma_int_range(0, n);
    let range = vstd::set_lib::set_int_range(0, n);
    assert(s.to_set().subset_of(range));
    vstd::set_lib::lemma_len_subset(s.to_set(), range);
}

} // verus!
