//! Index sequences that select the alpha involutions spanning an orbit.

use vstd::prelude::*;

verus! {

/// The indices `0..n` without `i`, in increasing order.
pub open spec fn seq_without(i: int, n: int) -> Seq<usize> {
    Seq::new((n - 1) as nat, |k: int| (if k < i { k } else { k + 1 }) as usize)
}

/// The indices `0..n` without `i - 1`, `i` and `i + 1`, in increasing order.
pub open spec fn seq_sewing(i: int, n: int) -> Seq<usize> {
    let low: int = if i >= 2 { i - 1 } else { 0 };
    let high: int = if i + 2 < n { n - (i + 2) } else { 0 };
    Seq::new((low + high) as nat, |k: int| (if k < low { k } else { k - low + i + 2 }) as usize)
}

/// Indices of all alpha involutions except alpha(i), for a dimension `n`:
/// the orbit they span from a dart is the i-cell of that dart.
pub fn get_seq(i: usize, n: usize) -> (iseq: Vec<usize>)
    requires
        i < n,
    ensures
        iseq@ == seq_without(i as int, n as int),
{
    let mut iseq: Vec<usize> = Vec::new();
    let mut k: usize = 0;
    while k < i
        invariant
            k <= i < n,
            iseq@ == seq_without(i as int, n as int).take(k as int),
        decreases i - k,
    {
        iseq.push(k);
        k = k + 1;
        assert(iseq@ =~= seq_without(i as int, n as int).take(k as int));
    }
    let mut k: usize = i;
    while k < n - 1
        invariant
            i <= k <= n - 1,
            i < n,
            iseq@ == seq_without(i as int, n as int).take(k as int),
        decreases n - 1 - k,
    {
        iseq.push(k + 1);
        k = k + 1;
        assert(iseq@ =~= seq_without(i as int, n as int).take(k as int));
    }
    assert(iseq@ =~= seq_without(i as int, n as int));
    iseq
}

/// Indices of the alpha involutions that take part in sewing along alpha(i):
/// all indices below `n` except `i - 1`, `i` and `i + 1`.
pub fn get_seq_sewing(i: usize, n: usize) -> (iseq: Vec<usize>)
    requires
        i < n,
        i + 2 <= usize::MAX,
    ensures
        iseq@ == seq_sewing(i as int, n as int),
{
    let mut iseq: Vec<usize> = Vec::new();
    let ghost s = seq_sewing(i as int, n as int);
    let ghost low: int = if i >= 2 { i - 1 } else { 0 };
    if i >= 2 {
        let mut k: usize = 0;
        while k < i - 1
            invariant
                i >= 2,
                k <= i - 1,
                i < n,
                s == seq_sewing(i as int, n as int),
                low == i - 1,
                iseq@ == s.take(k as int),
            decreases i - 1 - k,
        {
            iseq.push(k);
            k = k + 1;
            assert(iseq@ =~= s.take(k as int));
        }
    }
    assert(iseq@ =~= s.take(low));
    let mut k: usize = i + 2;
    while k < n
        invariant
            i + 2 <= k,
            k <= n || k == i + 2,
            i < n,
            s == seq_sewing(i as int, n as int),
            low == (if i >= 2 { i - 1 } else { 0 }),
            iseq@ == s.take(low + (k - (i + 2))),
        decreases n - k,
    {
        iseq.push(k);
        k = k + 1;
        assert(iseq@ =~= s.take(low + (k - (i + 2))));
    }
    assert(iseq@ =~= s);
    iseq
}

} // verus!
