//! Summary statistics and a histogram of a table.
use crate::cert::{seq_min, table_min};
use vstd::prelude::*;

verus! {

/// The greatest entry of `s`; 0 for an empty sequence.
pub open spec fn seq_max(s: Seq<u32>) -> u32
    decreases s.len(),
{
    if s.len() == 0 {
        0
    } else {
        let m = seq_max(s.drop_last());
        if s.last() > m {
            s.last()
        } else {
            m
        }
    }
}

/// The sum of the entries of `s`.
pub open spec fn seq_sum(s: Seq<u32>) -> nat
    decreases s.len(),
{
    if s.len() == 0 {
        0
    } else {
        seq_sum(s.drop_last()) + s.last() as nat
    }
}

/// Minimum, maximum and sum of a table's entries.
#[derive(Clone, Copy, Debug, PartialEq, Eq, Structural)]
pub struct TableStats {
    pub count: u64,
    pub min: u32,
    pub max: u32,
    pub sum: u128,
}

/// The greatest entry of `t`; 0 when `t` is empty.
pub fn table_max(t: &Vec<u32>) -> (r: u32)
    ensures
        r == seq_max(t@),
{
    let mut m: u32 = 0;
    let mut i: usize = 0;
    while i < t.len()
        invariant
            i <= t@.len(),
            m == seq_max(t@.subrange(0, i as int)),
        decreases t@.len() - i,
    {
        assert(t@.subrange(0, i + 1).drop_last() =~= t@.subrange(0, i as int));
        if t[i] > m {
            m = t[i];
        }
        i = i + 1;
    }
    assert(t@.subrange(0, t@.len() as int) =~= t@);
    m
}

/// The sum of the entries of `t`.
pub fn table_sum(t: &Vec<u32>) -> (r: u128)
    ensures
        r == seq_sum(t@),
{
    let mut s: u128 = 0;
    let mut i: usize = 0;
    while i < t.len()
        invariant
            i <= t@.len(),
            s == seq_sum(t@.subrange(0, i as int)),
            s <= i * 0xffff_ffff,
        decreases t@.len() - i,
    {
        assert(t@.subrange(0, i + 1).drop_last() =~= t@.subrange(0, i as int));
        assert(s + t[i as int] <= (i + 1) * 0xffff_ffff);
        assert((i + 1) * 0xffff_ffff < 0x1_0000_0000_0000_0000_0000_0000_0000_0000) by (nonlinear_arith)
            requires
                i < 0x1_0000_0000_0000_0000,
        ;
        s = s + t[i] as u128;
        i = i + 1;
    }
    assert(t@.subrange(0, t@.len() as int) =~= t@);
    s
}

/// Count, minimum, maximum and sum of `t`.
pub fn table_stats(t: &Vec<u32>) -> (r: TableStats)
    ensures
        r == (TableStats { count: t@.len() as u64, min: seq_min(t@), max: seq_max(t@), sum: seq_sum(t@) as u128 }),
{
    TableStats { count: t.len() as u64, min: table_min(t), max: table_max(t), sum: table_sum(t) }
}

/// The bin of value `v` among `bins` equal bins spanning `[lo, lo + span]`:
/// `floor((v - lo) * bins / span)`, with the top edge put in the last bin.
pub open spec fn bin_of(v: u32, lo: u32, span: nat, bins: nat) -> nat {
    let b = ((v - lo) * bins) as nat / span;
    if b >= bins {
        (bins - 1) as nat
    } else {
        b
    }
}

/// How many entries of `s` fall in bin `j`.
pub open spec fn bin_count(s: Seq<u32>, lo: u32, span: nat, bins: nat, j: nat) -> nat
    decreases s.len(),
{
    if s.len() == 0 {
        0
    } else {
        bin_count(s.drop_last(), lo, span, bins, j) + if bin_of(s.last(), lo, span, bins) == j {
            1nat
        } else {
            0nat
        }
    }
}

/// The histogram of `s` over `[min, max]` in `bins` bins (at least one); a
/// table whose entries are all equal is binned as if its maximum were one
/// more.
pub open spec fn histogram_spec(s: Seq<u32>, bins: nat) -> Seq<u64> {
    let b = if bins == 0 { 1nat } else { bins };
    let lo = seq_min(s);
    let hi: int = if seq_max(s) > lo { seq_max(s) as int } else { lo + 1 };
    Seq::new(b, |j: int| bin_count(s, lo, (hi - lo) as nat, b, j as nat) as u64)
}

/// Counts the entries of a table per bin.
pub fn histogram(t: &Vec<u32>, bins: usize) -> (r: Vec<u64>)
    ensures
        r@ == histogram_spec(t@, bins as nat),
{
    let b: usize = if bins == 0 { 1 } else { bins };
    let lo = table_min(t);
    let mx = table_max(t);
    proof {
        crate::cert::lemma_seq_min_is_least(t@);
    }
    let hi: u64 = if mx > lo { mx as u64 } else { lo as u64 + 1 };
    let span: u64 = hi - lo as u64;
    let ghost sp = span as nat;
    let mut hist: Vec<u64> = Vec::new();
    let mut j: usize = 0;
    while j < b
        invariant
            j <= b,
            hist@ =~= Seq::new(j as nat, |x: int| 0u64),
        decreases b - j,
    {
        hist.push(0);
        j = j + 1;
    }
    let mut i: usize = 0;
    assert(t@.subrange(0, 0) =~= Seq::<u32>::empty());
    while i < t.len()
        invariant
            i <= t@.len(),
            b >= 1,
            lo == seq_min(t@),
            span >= 1,
            sp == span,
            forall|x: int| 0 <= x < t@.len() ==> lo <= #[trigger] t@[x],
            hist@.len() == b,
            forall|x: int|
                0 <= x < b ==> #[trigger] hist@[x] == bin_count(t@.subrange(0, i as int), lo, sp, b as nat, x as nat),
            forall|x: int| 0 <= x < b ==> #[trigger] hist@[x] <= i,
        decreases t@.len() - i,
    {
        let v = t[i];
        assert((v - lo) as u128 * b as u128 <= 0xffff_ffff_ffff_ffff_ffff_ffff_ffff_ffff) by (nonlinear_arith)
            requires
                v >= lo,
                v - lo <= 0xffff_ffff,
                b <= 0xffff_ffff_ffff_ffff,
        ;
        let q: u128 = (v - lo) as u128 * b as u128 / span as u128;
        let bin: usize = if q >= b as u128 { b - 1 } else { q as usize };
        proof {
            assert(q == ((v - lo) * b) as nat / sp);
            assert(bin == bin_of(v, lo, sp, b as nat));
            let s1 = t@.subrange(0, i + 1);
            assert(s1.drop_last() =~= t@.subrange(0, i as int));
        }
        let old = hist[bin];
        hist.set(bin, old + 1);
        i = i + 1;
    }
    assert(t@.subrange(0, t@.len() as int) =~= t@);
    assert(hist@ =~= histogram_spec(t@, bins as nat));
    hist
}

} // verus!
