//! Histogram analysis: a frequency histogram over the 256 byte values of
//! the input, and the exhaustive search for the single global adjustment
//! constant that minimises total emitted instruction length.

use vstd::prelude::*;
use crate::table::{frag_for, EncodingTable, lemma_frag_valid};

verus! {

/// How many positions of `s` hold the byte value `b`.
pub open spec fn count_byte(s: Seq<u8>, b: int) -> int
    decreases s.len(),
{
    if s.len() == 0 {
        0
    } else {
        count_byte(s.drop_last(), b) + if s.last() == b { 1int } else { 0int }
    }
}

/// The histogram of `s`: 256 counters, one per byte value.
pub open spec fn hist_of(s: Seq<u8>) -> Seq<u64> {
    Seq::new(256, |b: int| count_byte(s, b) as u64)
}

/// Sum of the first `k` counters.
pub open spec fn sum_pre(c: Seq<u64>, k: int) -> int
    decreases k,
{
    if k <= 0 {
        0
    } else {
        sum_pre(c, k - 1) + c[k - 1]
    }
}

proof fn lemma_count_byte_bounds(s: Seq<u8>, b: int)
    ensures
        0 <= count_byte(s, b) <= s.len(),
    decreases s.len(),
{
    if s.len() > 0 {
        lemma_count_byte_bounds(s.drop_last(), b);
    }
}

proof fn lemma_sum_prefix_agree(c1: Seq<u64>, c2: Seq<u64>, k: int)
    requires
        forall|i: int| 0 <= i < k ==> c1[i] == c2[i],
    ensures
        sum_pre(c1, k) == sum_pre(c2, k),
    decreases k,
{
    if k > 0 {
        lemma_sum_prefix_agree(c1, c2, k - 1);
    }
}

proof fn lemma_sum_update(c: Seq<u64>, k: int, j: int, v: u64)
    requires
        0 <= j < c.len(),
        k <= c.len(),
    ensures
        sum_pre(c.update(j, v), k) == if j < k {
            sum_pre(c, k) - c[j] + v
        } else {
            sum_pre(c, k)
        },
    decreases k,
{
    if k > 0 {
        lemma_sum_update(c, k - 1, j, v);
    }
}

proof fn lemma_sum_mono(c: Seq<u64>, k1: int, k2: int)
    requires
        0 <= k1 <= k2 <= c.len(),
    ensures
        sum_pre(c, k1) <= sum_pre(c, k2),
    decreases k2,
{
    if k1 < k2 {
        lemma_sum_mono(c, k1, k2 - 1);
    }
}

/// Counts occurrences of each byte value in the input. The sum of the
/// counters equals the input length.
pub fn occur_map(reader: &Vec<u8>) -> (r: Vec<u64>)
    ensures
        r@ == hist_of(reader@),
        r@.len() == 256,
        sum_pre(r@, 256) == reader@.len(),
{
    let mut counts: Vec<u64> = Vec::new();
    let mut z: usize = 0;
    while z < 256
        invariant
            z <= 256,
            counts@.len() == z,
            forall|b: int| 0 <= b < z ==> counts@[b] == 0,
            sum_pre(counts@, z as int) == 0,
        decreases 256 - z,
    {
        proof {
            lemma_sum_prefix_agree(counts@.push(0), counts@, z as int);
        }
        counts.push(0);
        z = z + 1;
    }
    let ghost s = reader@;
    let n = reader.len();
    let mut i: usize = 0;
    while i < n
        invariant
            i <= n,
            n == s.len(),
            reader@ == s,
            counts@.len() == 256,
            forall|b: int| 0 <= b < 256 ==> #[trigger] counts@[b] == count_byte(s.take(i as int), b),
            sum_pre(counts@, 256) == i,
        decreases n - i,
    {
        let b = reader[i];
        proof {
            lemma_count_byte_bounds(s.take(i as int), b as int);
            lemma_sum_update(counts@, 256, b as int, (counts@[b as int] + 1) as u64);
            assert(count_byte(s.take(i as int), b as int) <= i);
            lemma_sum_mono(counts@, b as int + 1, 256);
            assert(sum_pre(counts@, b as int + 1) >= counts@[b as int]) by {
                lemma_sum_mono(counts@, 0, b as int);
                assert(sum_pre(counts@, b as int + 1) == sum_pre(counts@, b as int) + counts@[b as int]);
                lemma_sum_nonneg(counts@, b as int);
            }
        }
        let cur = counts[b as usize];
        counts[b as usize] = cur + 1;
        i = i + 1;
        proof {
            assert(s.take(i as int).drop_last() =~= s.take(i as int - 1));
            assert(s.take(i as int).last() == s[i as int - 1]);
            assert forall|bb: int| 0 <= bb < 256 implies #[trigger] counts@[bb] == count_byte(
                s.take(i as int),
                bb,
            ) by {
            }
        }
    }
    proof {
        assert(s.take(n as int) =~= s);
        assert(counts@ =~= hist_of(reader@));
    }
    counts
}

proof fn lemma_sum_nonneg(c: Seq<u64>, k: int)
    requires
        k <= c.len(),
    ensures
        sum_pre(c, k) >= 0,
    decreases k,
{
    if k > 0 {
        lemma_sum_nonneg(c, k - 1);
    }
}

/// Total number of bytes recorded in a histogram.
pub fn filesize(counts: &Vec<u64>) -> (r: u64)
    requires
        counts@.len() == 256,
        sum_pre(counts@, 256) <= u64::MAX,
    ensures
        r as int == sum_pre(counts@, 256),
{
    let mut acc: u64 = 0;
    let mut i: usize = 0;
    while i < 256
        invariant
            i <= 256,
            counts@.len() == 256,
            sum_pre(counts@, 256) <= u64::MAX,
            acc as int == sum_pre(counts@, i as int),
        decreases 256 - i,
    {
        proof {
            lemma_sum_mono(counts@, i as int + 1, 256);
            lemma_sum_nonneg(counts@, i as int);
        }
        acc = acc + counts[i];
        i = i + 1;
    }
    acc
}

/// The total instruction length emitted for histogram `counts` under
/// adjustment constant `t`, over byte values below `k`.
pub open spec fn costk(counts: Seq<u64>, t: int, k: int) -> int
    decreases k,
{
    if k <= 0 {
        0
    } else {
        costk(counts, t, k - 1) + counts[k - 1] * frag_for(k - 1 - t).len()
    }
}

/// The total instruction length emitted for histogram `counts` under
/// adjustment constant `t`.
pub open spec fn delta_cost(counts: Seq<u64>, t: int) -> int {
    costk(counts, t, 256)
}

/// The earliest adjustment constant in `[0, k)` of minimum total cost.
pub open spec fn spec_best(counts: Seq<u64>, k: int) -> int
    decreases k,
{
    if k <= 1 {
        0
    } else {
        let prev = spec_best(counts, k - 1);
        if delta_cost(counts, k - 1) < delta_cost(counts, prev) {
            k - 1
        } else {
            prev
        }
    }
}

pub proof fn lemma_spec_best_range(counts: Seq<u64>, k: int)
    requires
        k >= 1,
    ensures
        0 <= spec_best(counts, k) < k,
    decreases k,
{
    if k > 1 {
        lemma_spec_best_range(counts, k - 1);
    }
}

/// The selected constant is never costlier than any candidate, in
/// particular never costlier than constant 0; ties keep the earliest
/// candidate, so every earlier constant is strictly costlier.
pub proof fn lemma_spec_best_minimal(counts: Seq<u64>, k: int, t: int)
    requires
        0 <= t < k,
    ensures
        delta_cost(counts, spec_best(counts, k)) <= delta_cost(counts, t),
        t < spec_best(counts, k) ==> delta_cost(counts, t) > delta_cost(counts, spec_best(counts, k)),
    decreases k,
{
    if k > 1 && t < k - 1 {
        lemma_spec_best_minimal(counts, k - 1, t);
    }
    if k > 1 {
        lemma_spec_best_range(counts, k - 1);
    }
}

/// The selected adjustment constant never costs more than no adjustment:
/// its total cost is at most the total cost at constant 0.
pub proof fn lemma_no_worse_than_zero(counts: Seq<u64>)
    ensures
        delta_cost(counts, spec_best(counts, 256)) <= delta_cost(counts, 0),
{
    lemma_spec_best_minimal(counts, 256, 0);
}

proof fn lemma_costk_bound(counts: Seq<u64>, t: int, k: int)
    requires
        0 <= k <= 256,
        counts.len() == 256,
        0 <= t < 256,
    ensures
        0 <= costk(counts, t, k) <= k * 259 * (u64::MAX as int),
    decreases k,
{
    if k > 0 {
        lemma_costk_bound(counts, t, k - 1);
        lemma_frag_valid(k - 1 - t);
        assert(counts[k - 1] * frag_for(k - 1 - t).len() <= (u64::MAX as int) * 259) by (nonlinear_arith)
            requires
                0 <= counts[k - 1] <= u64::MAX as int,
                0 <= frag_for(k - 1 - t).len() <= 259;
        assert(counts[k - 1] * frag_for(k - 1 - t).len() >= 0) by (nonlinear_arith)
            requires
                0 <= counts[k - 1],
                0 <= frag_for(k - 1 - t).len();
    }
}

/// The total cost of candidate constant `t` for this histogram.
fn total_cost(compiled: &EncodingTable, counts: &Vec<u64>, t: usize) -> (r: u128)
    requires
        compiled.wf(),
        counts@.len() == 256,
        t < 256,
    ensures
        r as int == delta_cost(counts@, t as int),
{
    let mut bytes: u128 = 0;
    let mut b: usize = 0;
    while b < 256
        invariant
            b <= 256,
            t < 256,
            compiled.wf(),
            counts@.len() == 256,
            bytes as int == costk(counts@, t as int, b as int),
        decreases 256 - b,
    {
        proof {
            lemma_costk_bound(counts@, t as int, b as int);
            lemma_costk_bound(counts@, t as int, b as int + 1);
        }
        let d: i16 = (b as i16) - (t as i16);
        let frag = compiled.get(d);
        proof {
            lemma_frag_valid(b as int - t as int);
            assert((frag@.len() as int) * (counts@[b as int] as int) <= 259 * (u64::MAX as int))
                by (nonlinear_arith)
                requires
                    0 <= frag@.len() <= 259,
                    0 <= counts@[b as int] <= u64::MAX as int;
            assert((frag@.len() as int) * (counts@[b as int] as int) >= 0) by (nonlinear_arith)
                requires
                    0 <= frag@.len(),
                    0 <= counts@[b as int];
        }
        bytes = bytes + (frag.len() as u128) * (counts[b] as u128);
        proof {
            assert((frag@.len() as int) * (counts@[b as int] as int) == (counts@[b as int] as int)
                * (frag@.len() as int)) by (nonlinear_arith);
        }
        b = b + 1;
    }
    bytes
}

/// Searches all 256 candidate adjustment constants and returns the earliest
/// one of minimum total cost.
pub fn best_offset(compiled: &EncodingTable, counts: &Vec<u64>) -> (r: u8)
    requires
        compiled.wf(),
        counts@.len() == 256,
    ensures
        r as int == spec_best(counts@, 256),
{
    let mut best_t: u8 = 0;
    let mut best_cost: u128 = total_cost(compiled, counts, 0);
    let mut t: usize = 1;
    while t < 256
        invariant
            1 <= t <= 256,
            compiled.wf(),
            counts@.len() == 256,
            best_t as int == spec_best(counts@, t as int),
            best_cost as int == delta_cost(counts@, spec_best(counts@, t as int)),
        decreases 256 - t,
    {
        let c = total_cost(compiled, counts, t);
        proof {
            lemma_spec_best_range(counts@, t as int);
        }
        if c < best_cost {
            best_t = t as u8;
            best_cost = c;
        }
        t = t + 1;
    }
    best_t
}

} // verus!
