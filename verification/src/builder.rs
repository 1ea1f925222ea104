//! Construction of the suffix array.
//!
//! The candidate suffix-start positions are split into `num_partitions`
//! contiguous partitions; each partition is sorted independently by the
//! comparison order, and the sorted partitions are then merged, pairwise in
//! partition order, into one globally sorted array.  A merge of two sorted
//! runs preserves the total order, so any partition boundary choice yields
//! the same array; the boundaries only bound the size of the runs that the
//! per-partition sort works on.  The comparison order breaks ties between
//! equal keys by text position, so the sorted array is unique and no
//! randomized pivot choice can change it.  The longest-common-prefix array
//! is derived from the sorted array by direct key comparison.

use vstd::prelude::*;
use crate::order::lemma_lcp_from_scan;
use crate::order::lemma_lex_cmp_basic;
use crate::order::lemma_suffix_order_total;
use crate::order::suffix_key;
use crate::order::suffix_le;
use crate::order::suffix_less;
use crate::order::suffix_lt;
use crate::order::suffix_order;
use crate::order::lcp_len;
use crate::order::ProfView;
use crate::order::SortProfile;
use vstd::relations::sorted_by;
use vstd::relations::total_ordering;

verus! {

broadcast use {
    vstd::seq_lib::group_to_multiset_ensures,
    vstd::seq_lib::to_multiset_insert,
    vstd::seq_lib::lemma_multiset_commutative,
};

/// The candidate suffix-start positions of a text of length `n`: every
/// position except the final sentinel, in text order.
pub open spec fn candidate_seq(n: nat) -> Seq<usize> {
    Seq::new((n - 1) as nat, |i: int| i as usize)
}

/// The suffix array of a text under a profile: the candidate positions,
/// sorted by the suffix order.
pub open spec fn spec_sorted_sa(text: Seq<u8>, pr: ProfView) -> Seq<usize> {
    candidate_seq(text.len()).sort_by(suffix_order(text, pr))
}

/// The longest-common-prefix array that accompanies a suffix array: entry 0
/// is 0, and entry `i` is the longest common prefix of the keys at ranks
/// `i - 1` and `i`.
pub open spec fn spec_lcp_of(text: Seq<u8>, pr: ProfView, sa: Seq<usize>) -> Seq<usize> {
    Seq::new(
        sa.len(),
        |i: int|
            if i == 0 {
                0usize
            } else {
                lcp_len(
                    suffix_key(text, pr, sa[i - 1] as int),
                    suffix_key(text, pr, sa[i] as int),
                ) as usize
            },
    )
}

/// If `p` does not sort strictly before `q`, then `q` sorts no later than
/// `p`; the order is decided one way or the other.
proof fn lemma_not_lt(text: Seq<u8>, pr: ProfView, p: int, q: int)
    ensures
        !suffix_lt(text, pr, p, q) ==> suffix_le(text, pr, q, p),
        suffix_lt(text, pr, p, q) ==> suffix_le(text, pr, p, q),
{
    lemma_lex_cmp_basic(suffix_key(text, pr, p), suffix_key(text, pr, q));
}

/// The candidate positions, as a vector.
pub fn candidate_positions(text_len: usize) -> (r: Vec<usize>)
    requires
        text_len >= 1,
    ensures
        r@ == candidate_seq(text_len as nat),
{
    let n = text_len - 1;
    let mut out: Vec<usize> = Vec::new();
    let mut i: usize = 0;
    while i < n
        invariant
            i <= n,
            out@.len() == i as int,
            forall|j: int| 0 <= j < i ==> out@[j] == j as usize,
        decreases n - i,
    {
        out.push(i);
        i = i + 1;
    }
    proof {
        assert(out@ =~= candidate_seq(text_len as nat));
    }
    out
}

/// Sorts one partition of candidate positions by the suffix order, by
/// insertion into an already sorted output.
fn sort_partition(text: &Vec<u8>, prof: &SortProfile, v: &Vec<usize>) -> (r: Vec<usize>)
    requires
        text@.len() >= 1,
        forall|i: int| 0 <= i < v@.len() ==> (v@[i] as int) < text@.len() - 1,
    ensures
        r@.to_multiset() == v@.to_multiset(),
        sorted_by(r@, suffix_order(text@, prof@)),
        r@.len() == v@.len(),
        forall|i: int| 0 <= i < r@.len() ==> (r@[i] as int) < text@.len() - 1,
{
    let ghost leq = suffix_order(text@, prof@);
    let mut out: Vec<usize> = Vec::new();
    let mut i: usize = 0;
    while i < v.len()
        invariant
            text@.len() >= 1,
            forall|t: int| 0 <= t < v@.len() ==> (v@[t] as int) < text@.len() - 1,
            i <= v@.len(),
            leq == suffix_order(text@, prof@),
            out@.len() == i as int,
            out@.to_multiset() == v@.subrange(0, i as int).to_multiset(),
            sorted_by(out@, leq),
            forall|t: int| 0 <= t < out@.len() ==> (out@[t] as int) < text@.len() - 1,
        decreases v@.len() - i,
    {
        let x = v[i];
        let mut k: usize = 0;
        while k < out.len() && !suffix_less(text, prof, x, out[k])
            invariant
                text@.len() >= 1,
                (x as int) < text@.len() - 1,
                forall|t: int| 0 <= t < out@.len() ==> (out@[t] as int) < text@.len() - 1,
                k <= out@.len(),
                forall|j: int| 0 <= j < k ==> suffix_le(text@, prof@, out@[j] as int, x as int),
            decreases out@.len() - k,
        {
            proof {
                lemma_not_lt(text@, prof@, x as int, out@[k as int] as int);
            }
            k = k + 1;
        }
        let ghost old_out = out@;
        out.insert(k, x);
        proof {
            assert(out@ == old_out.insert(k as int, x));
            lemma_suffix_order_total(text@, prof@);
            if (k as int) < old_out.len() {
                lemma_not_lt(text@, prof@, x as int, old_out[k as int] as int);
            }
            assert forall|a: int, b: int| 0 <= a < b < out@.len() implies leq(
                out@[a],
                out@[b],
            ) by {
                if b < k as int {
                } else if a == k as int {
                    assert(suffix_le(text@, prof@, x as int, old_out[k as int] as int));
                    assert(leq(x, old_out[k as int]));
                    if b > k as int + 0 && b - 1 > k as int {
                        assert(leq(old_out[k as int], old_out[b - 1]));
                    }
                } else if b == k as int {
                    assert(suffix_le(text@, prof@, old_out[a] as int, x as int));
                } else if a < k as int && b > k as int {
                    assert(suffix_le(text@, prof@, old_out[a] as int, x as int));
                    if b - 1 == k as int {
                        assert(leq(x, old_out[k as int]));
                    }
                } else {
                }
            }
            assert(v@.subrange(0, i as int + 1) =~= v@.subrange(0, i as int).push(v@[i as int]));
            assert(out@.to_multiset() == v@.subrange(0, i as int + 1).to_multiset());
        }
        i = i + 1;
    }
    proof {
        assert(v@.subrange(0, v@.len() as int) =~= v@);
    }
    out
}

/// Merges two runs that are sorted by the suffix order into one sorted run
/// holding the contents of both.
fn merge_runs(text: &Vec<u8>, prof: &SortProfile, a: &Vec<usize>, b: &Vec<usize>) -> (r: Vec<
    usize,
>)
    requires
        text@.len() >= 1,
        forall|i: int| 0 <= i < a@.len() ==> (a@[i] as int) < text@.len() - 1,
        forall|i: int| 0 <= i < b@.len() ==> (b@[i] as int) < text@.len() - 1,
        sorted_by(a@, suffix_order(text@, prof@)),
        sorted_by(b@, suffix_order(text@, prof@)),
    ensures
        r@.to_multiset() == a@.to_multiset().add(b@.to_multiset()),
        sorted_by(r@, suffix_order(text@, prof@)),
        r@.len() == a@.len() + b@.len(),
        forall|i: int| 0 <= i < r@.len() ==> (r@[i] as int) < text@.len() - 1,
{
    let ghost leq = suffix_order(text@, prof@);
    proof {
        lemma_suffix_order_total(text@, prof@);
    }
    let mut out: Vec<usize> = Vec::new();
    let mut i: usize = 0;
    let mut j: usize = 0;
    while i < a.len() || j < b.len()
        invariant
            text@.len() >= 1,
            forall|t: int| 0 <= t < a@.len() ==> (a@[t] as int) < text@.len() - 1,
            forall|t: int| 0 <= t < b@.len() ==> (b@[t] as int) < text@.len() - 1,
            sorted_by(a@, leq),
            sorted_by(b@, leq),
            total_ordering(leq),
            leq == suffix_order(text@, prof@),
            i <= a@.len(),
            j <= b@.len(),
            out@.len() == i + j,
            out@.to_multiset() == a@.subrange(0, i as int).to_multiset().add(
                b@.subrange(0, j as int).to_multiset(),
            ),
            sorted_by(out@, leq),
            forall|t: int| 0 <= t < out@.len() ==> (out@[t] as int) < text@.len() - 1,
            forall|t: int, m: int|
                0 <= t < out@.len() && i <= m < a@.len() ==> leq(out@[t], a@[m]),
            forall|t: int, m: int|
                0 <= t < out@.len() && j <= m < b@.len() ==> leq(out@[t], b@[m]),
        decreases a@.len() - i + b@.len() - j,
    {
        let take_a = if i < a.len() {
            if j < b.len() {
                !suffix_less(text, prof, b[j], a[i])
            } else {
                true
            }
        } else {
            false
        };
        if take_a {
            let x = a[i];
            proof {
                assert forall|m: int| i as int + 1 <= m < a@.len() implies leq(x, a@[m]) by {
                    assert(leq(a@[i as int], a@[m]));
                }
                if (j as int) < b@.len() {
                    lemma_not_lt(text@, prof@, b@[j as int] as int, x as int);
                    assert(leq(x, b@[j as int]));
                    assert forall|m: int| j as int <= m < b@.len() implies leq(x, b@[m]) by {
                        if m > j as int {
                            assert(leq(b@[j as int], b@[m]));
                        }
                    }
                }
                assert(a@.subrange(0, i as int + 1) =~= a@.subrange(0, i as int).push(
                    a@[i as int],
                ));
            }
            out.push(x);
            i = i + 1;
        } else {
            let x = b[j];
            proof {
                assert forall|m: int| j as int + 1 <= m < b@.len() implies leq(x, b@[m]) by {
                    assert(leq(b@[j as int], b@[m]));
                }
                if (i as int) < a@.len() {
                    lemma_not_lt(text@, prof@, b@[j as int] as int, a@[i as int] as int);
                    assert(leq(x, a@[i as int]));
                    assert forall|m: int| i as int <= m < a@.len() implies leq(x, a@[m]) by {
                        if m > i as int {
                            assert(leq(a@[i as int], a@[m]));
                        }
                    }
                }
                assert(b@.subrange(0, j as int + 1) =~= b@.subrange(0, j as int).push(
                    b@[j as int],
                ));
            }
            out.push(x);
            j = j + 1;
        }
    }
    proof {
        assert(a@.subrange(0, a@.len() as int) =~= a@);
        assert(b@.subrange(0, b@.len() as int) =~= b@);
    }
    out
}

/// Where partition `c` of `n` candidates starts when they are split into
/// `p` contiguous partitions of near-equal size.
pub open spec fn partition_start(c: int, base: int, rem: int) -> int {
    c * base + (if c <= rem {
        c
    } else {
        rem
    })
}

/// Sorts the candidate positions: contiguous partitions are sorted
/// independently and then merged in partition order.
pub fn sort_positions(text: &Vec<u8>, prof: &SortProfile, v: &Vec<usize>, num_partitions: usize)
    -> (r: Vec<usize>)
    requires
        text@.len() >= 1,
        num_partitions >= 1,
        forall|i: int| 0 <= i < v@.len() ==> (v@[i] as int) < text@.len() - 1,
    ensures
        r@.to_multiset() == v@.to_multiset(),
        sorted_by(r@, suffix_order(text@, prof@)),
        r@.len() == v@.len(),
        forall|i: int| 0 <= i < r@.len() ==> (r@[i] as int) < text@.len() - 1,
    {
    let ghost leq = suffix_order(text@, prof@);
    let n = v.len();
    let p = num_partitions;
    let base = n / p;
    let rem = n % p;
    proof {
        vstd::arithmetic::div_mod::lemma_fundamental_div_mod(n as int, p as int);
        assert(partition_start(p as int, base as int, rem as int) == n as int);
    }
    let mut acc: Vec<usize> = Vec::new();
    let mut c: usize = 0;
    let mut start: usize = 0;
    while c < p
        invariant
            text@.len() >= 1,
            forall|t: int| 0 <= t < v@.len() ==> (v@[t] as int) < text@.len() - 1,
            leq == suffix_order(text@, prof@),
            n == v@.len(),
            p >= 1,
            base == n / p,
            rem == n % p,
            rem < p,
            n == p * base + rem,
            c <= p,
            start as int == partition_start(c as int, base as int, rem as int),
            start <= n,
            acc@.len() == start as int,
            acc@.to_multiset() == v@.subrange(0, start as int).to_multiset(),
            sorted_by(acc@, leq),
            forall|t: int| 0 <= t < acc@.len() ==> (acc@[t] as int) < text@.len() - 1,
        decreases p - c,
    {
        let size = if c < rem {
            proof {
                assert(base + base <= n) by (nonlinear_arith)
                    requires
                        n as int == p as int * base as int + rem as int,
                        p as int >= 2,
                        base as int >= 0,
                        rem as int >= 0,
                ;
            }
            base + 1
        } else {
            base
        };
        proof {
            assert((c as int + 1) * base == c as int * base + base) by (nonlinear_arith);
            assert(partition_start(c as int + 1, base as int, rem as int) == start as int
                + size as int);
            assert((p as int - c as int - 1) * base >= 0) by (nonlinear_arith)
                requires
                    base >= 0,
                    p as int - c as int - 1 >= 0,
            ;
            assert(partition_start(p as int, base as int, rem as int) - partition_start(
                c as int + 1,
                base as int,
                rem as int,
            ) >= 0) by {
                assert(p as int * base - (c as int + 1) * base == (p as int - c as int - 1)
                    * base) by (nonlinear_arith);
            }
            assert(start as int + size as int <= n as int);
        }
        let end = start + size;
        let mut chunk: Vec<usize> = Vec::new();
        let mut t: usize = start;
        while t < end
            invariant
                start <= t <= end,
                end <= n,
                n == v@.len(),
                forall|u: int| 0 <= u < v@.len() ==> (v@[u] as int) < text@.len() - 1,
                chunk@ == v@.subrange(start as int, t as int),
            decreases end - t,
        {
            chunk.push(v[t]);
            t = t + 1;
            proof {
                assert(chunk@ =~= v@.subrange(start as int, t as int));
            }
        }
        let sorted_chunk = sort_partition(text, prof, &chunk);
        let merged = merge_runs(text, prof, &acc, &sorted_chunk);
        proof {
            assert(v@.subrange(0, end as int) =~= v@.subrange(0, start as int) + v@.subrange(
                start as int,
                end as int,
            ));
            assert((v@.subrange(0, start as int) + v@.subrange(start as int, end as int))
                .to_multiset() =~= v@.subrange(0, start as int).to_multiset().add(
                v@.subrange(start as int, end as int).to_multiset(),
            ));
            assert(merged@.to_multiset() == v@.subrange(0, end as int).to_multiset());
        }
        acc = merged;
        start = end;
        c = c + 1;
    }
    proof {
        assert(start == n);
        assert(v@.subrange(0, n as int) =~= v@);
    }
    acc
}

/// Derives the longest-common-prefix array of a sorted suffix array by
/// direct comparison of adjacent keys.
pub fn compute_lcp(text: &Vec<u8>, prof: &SortProfile, sa: &Vec<usize>) -> (r: Vec<usize>)
    requires
        text@.len() >= 1,
        forall|i: int| 0 <= i < sa@.len() ==> (sa@[i] as int) < text@.len() - 1,
    ensures
        r@ == spec_lcp_of(text@, prof@, sa@),
{
    let mut out: Vec<usize> = Vec::new();
    if sa.len() == 0 {
        proof {
            assert(out@ =~= spec_lcp_of(text@, prof@, sa@));
        }
        return out;
    }
    out.push(0);
    let mut i: usize = 1;
    while i < sa.len()
        invariant
            text@.len() >= 1,
            forall|t: int| 0 <= t < sa@.len() ==> (sa@[t] as int) < text@.len() - 1,
            1 <= i <= sa@.len(),
            out@.len() == i as int,
            forall|t: int| 0 <= t < i ==> out@[t] == spec_lcp_of(text@, prof@, sa@)[t],
        decreases sa@.len() - i,
    {
        let prev = sa[i - 1];
        let cur = sa[i];
        let ghost ka = suffix_key(text@, prof@, prev as int);
        let ghost kb = suffix_key(text@, prof@, cur as int);
        let la = crate::order::cap_for(prof, text.len() - 1 - prev);
        let lb = crate::order::cap_for(prof, text.len() - 1 - cur);
        let mut l: usize = 0;
        while l < la && l < lb && crate::order::key_sym_of(text, prof, prev, l)
            == crate::order::key_sym_of(text, prof, cur, l)
            invariant
                text@.len() >= 1,
                (prev as int) < text@.len() - 1,
                (cur as int) < text@.len() - 1,
                la as nat == ka.len(),
                lb as nat == kb.len(),
                la <= text@.len() - 1 - prev,
                lb <= text@.len() - 1 - cur,
                l <= la,
                l <= lb,
                ka == suffix_key(text@, prof@, prev as int),
                kb == suffix_key(text@, prof@, cur as int),
                forall|j: int| 0 <= j < l ==> ka[j] == kb[j],
            decreases la - l,
        {
            l = l + 1;
        }
        proof {
            lemma_lcp_from_scan(ka, kb, l as int);
            assert(out@.push(l).len() == i as int + 1);
        }
        out.push(l);
        i = i + 1;
    }
    proof {
        assert(out@ =~= spec_lcp_of(text@, prof@, sa@));
    }
    out
}

} // verus!
