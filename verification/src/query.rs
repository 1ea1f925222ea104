//! The query engine: count, locate, extract, list, and point lookup, all
//! running against a well-formed store.
//!
//! Every operation finds, per query, the contiguous rank window whose
//! suffixes have the query's key as a prefix, by binary search over the
//! sorted suffix array.  An absent query yields an empty window, never an
//! error.

use vstd::prelude::*;
use crate::order::lemma_lex_cmp_basic;
use crate::order::lemma_prefix_cmp_basic;
use crate::order::lemma_prefix_cmp_mono;
use crate::order::make_query_key;
use crate::order::prefix_cmp;
use crate::order::query_key;
use crate::order::suffix_key;
use crate::order::suffix_lt;
use crate::order::suffix_vs_query;
use crate::order::ProfView;
use crate::order::SortProfile;
use crate::store::SuffixArray;
use crate::types::clone_string;
use crate::types::CountOptions;
use crate::types::CountResult;
use crate::types::ExtractOptions;
use crate::types::ListOptions;
use crate::types::SufrError;
use crate::types::ExtractResult;
use crate::types::ExtractSequence;
use crate::types::LocateOptions;
use crate::types::LocatePosition;
use crate::types::LocateResult;
use vstd::utf8::encode_utf8;

verus! {

/// The profile a query is keyed under: the store's profile, with the
/// comparison bound further tightened by the per-call maximum query length.
pub open spec fn eff_profile(pr: ProfView, o: Option<nat>) -> ProfView {
    ProfView {
        max_query_len: match (pr.max_query_len, o) {
            (Option::Some(a), Option::Some(b)) => Option::Some(
                if a < b {
                    a
                } else {
                    b
                },
            ),
            (Option::Some(a), Option::None) => Option::Some(a),
            (Option::None, Option::Some(b)) => Option::Some(b),
            (Option::None, Option::None) => Option::None,
        },
        ..pr
    }
}

/// Specification-level form of a per-call maximum query length.
pub open spec fn opt_nat(o: Option<usize>) -> Option<nat> {
    match o {
        Option::Some(v) => Option::Some(v as nat),
        Option::None => Option::None,
    }
}

/// The key a query string is searched under.
pub open spec fn spec_query_key(st: &SuffixArray, o: Option<usize>, q: Seq<char>) -> Seq<u8> {
    query_key(eff_profile(st.prof@, opt_nat(o)), encode_utf8(q))
}

/// The key of the suffix at rank `i`.
pub open spec fn rank_key(st: &SuffixArray, i: int) -> Seq<u8> {
    suffix_key(st.text@, st.prof@, st.sa@[i] as int)
}

/// Whether the suffix at rank `i` has the query key as a prefix.
pub open spec fn rank_matches(st: &SuffixArray, qk: Seq<u8>, i: int) -> bool {
    prefix_cmp(rank_key(st, i), qk) == 0
}

/// Number of matching ranks among the first `i` ranks.
pub open spec fn match_count_upto(st: &SuffixArray, qk: Seq<u8>, i: int) -> nat
    decreases i,
{
    if i <= 0 {
        0
    } else {
        match_count_upto(st, qk, i - 1) + if rank_matches(st, qk, i - 1) {
            1nat
        } else {
            0nat
        }
    }
}

/// Number of occurrences of the query: the number of ranks whose suffix has
/// the query key as a prefix.
pub open spec fn match_count(st: &SuffixArray, qk: Seq<u8>) -> nat {
    match_count_upto(st, qk, st.sa@.len() as int)
}

/// The matching ranks form the window `[lo, hi)` and no rank outside it
/// matches.
pub open spec fn match_window(st: &SuffixArray, qk: Seq<u8>, lo: int, hi: int) -> bool {
    &&& 0 <= lo <= hi <= st.sa@.len()
    &&& forall|i: int| 0 <= i < st.sa@.len() ==> (rank_matches(st, qk, i) <==> lo <= i < hi)
}

/// Counting the matches of a window gives the window's width.
pub proof fn lemma_count_window(st: &SuffixArray, qk: Seq<u8>, lo: int, hi: int, i: int)
    requires
        0 <= lo <= hi,
        forall|j: int| 0 <= j < i ==> (rank_matches(st, qk, j) <==> lo <= j < hi),
        0 <= i,
    ensures
        match_count_upto(st, qk, i) == if i <= lo {
            0
        } else if i <= hi {
            i - lo
        } else {
            hi - lo
        },
    decreases i,
{
    if i > 0 {
        lemma_count_window(st, qk, lo, hi, i - 1);
    }
}

impl SuffixArray {
    /// First rank whose key is not below the query key.
    fn find_lower(&self, qk: &Vec<u8>) -> (lo: usize)
        requires
            self.wf(),
        ensures
            lo <= self.sa@.len(),
            forall|i: int| 0 <= i < lo ==> prefix_cmp(rank_key(self, i), qk@) < 0,
            forall|i: int| lo <= i < self.sa@.len() ==> prefix_cmp(rank_key(self, i), qk@) >= 0,
    {
        let mut lo: usize = 0;
        let mut hi: usize = self.sa.len();
        while lo < hi
            invariant
                self.wf(),
                lo <= hi <= self.sa@.len(),
                forall|i: int| 0 <= i < lo ==> prefix_cmp(rank_key(self, i), qk@) < 0,
                forall|i: int| hi <= i < self.sa@.len() ==> prefix_cmp(rank_key(self, i), qk@) >= 0,
            decreases hi - lo,
        {
            let mid = lo + (hi - lo) / 2;
            let c = suffix_vs_query(&self.text, &self.prof, self.sa[mid], qk);
            if c < 0 {
                proof {
                    assert forall|i: int| 0 <= i < mid + 1 implies prefix_cmp(
                        rank_key(self, i),
                        qk@,
                    ) < 0 by {
                        if i < mid as int {
                            assert(suffix_lt(
                                self.text@,
                                self.prof@,
                                self.sa@[i] as int,
                                self.sa@[mid as int] as int,
                            ));
                            lemma_lex_cmp_basic(rank_key(self, i), rank_key(self, mid as int));
                            lemma_prefix_cmp_mono(
                                rank_key(self, i),
                                rank_key(self, mid as int),
                                qk@,
                            );
                        }
                    }
                }
                lo = mid + 1;
            } else {
                proof {
                    assert forall|i: int| mid as int <= i < self.sa@.len() implies prefix_cmp(
                        rank_key(self, i),
                        qk@,
                    ) >= 0 by {
                        if i > mid as int {
                            assert(suffix_lt(
                                self.text@,
                                self.prof@,
                                self.sa@[mid as int] as int,
                                self.sa@[i] as int,
                            ));
                            lemma_lex_cmp_basic(rank_key(self, mid as int), rank_key(self, i));
                            lemma_prefix_cmp_mono(
                                rank_key(self, mid as int),
                                rank_key(self, i),
                                qk@,
                            );
                        }
                    }
                }
                hi = mid;
            }
        }
        lo
    }

    /// First rank whose key is above the block with the query key as prefix.
    fn find_upper(&self, qk: &Vec<u8>) -> (hi: usize)
        requires
            self.wf(),
        ensures
            hi <= self.sa@.len(),
            forall|i: int| 0 <= i < hi ==> prefix_cmp(rank_key(self, i), qk@) <= 0,
            forall|i: int| hi <= i < self.sa@.len() ==> prefix_cmp(rank_key(self, i), qk@) > 0,
    {
        let mut lo: usize = 0;
        let mut hi: usize = self.sa.len();
        while lo < hi
            invariant
                self.wf(),
                lo <= hi <= self.sa@.len(),
                forall|i: int| 0 <= i < lo ==> prefix_cmp(rank_key(self, i), qk@) <= 0,
                forall|i: int| hi <= i < self.sa@.len() ==> prefix_cmp(rank_key(self, i), qk@) > 0,
            decreases hi - lo,
        {
            let mid = lo + (hi - lo) / 2;
            let c = suffix_vs_query(&self.text, &self.prof, self.sa[mid], qk);
            if c <= 0 {
                proof {
                    assert forall|i: int| 0 <= i < mid + 1 implies prefix_cmp(
                        rank_key(self, i),
                        qk@,
                    ) <= 0 by {
                        if i < mid as int {
                            assert(suffix_lt(
                                self.text@,
                                self.prof@,
                                self.sa@[i] as int,
                                self.sa@[mid as int] as int,
                            ));
                            lemma_lex_cmp_basic(rank_key(self, i), rank_key(self, mid as int));
                            lemma_prefix_cmp_mono(
                                rank_key(self, i),
                                rank_key(self, mid as int),
                                qk@,
                            );
                        }
                    }
                }
                lo = mid + 1;
            } else {
                proof {
                    assert forall|i: int| mid as int <= i < self.sa@.len() implies prefix_cmp(
                        rank_key(self, i),
                        qk@,
                    ) > 0 by {
                        if i > mid as int {
                            assert(suffix_lt(
                                self.text@,
                                self.prof@,
                                self.sa@[mid as int] as int,
                                self.sa@[i] as int,
                            ));
                            lemma_lex_cmp_basic(rank_key(self, mid as int), rank_key(self, i));
                            lemma_prefix_cmp_mono(
                                rank_key(self, mid as int),
                                rank_key(self, i),
                                qk@,
                            );
                        }
                    }
                }
                hi = mid;
            }
        }
        lo
    }

    /// The comparison profile for one call, with the store's bound and the
    /// call's bound combined.
    fn eff_prof(&self, o: Option<usize>) -> (r: SortProfile)
        ensures
            r@ == eff_profile(self.prof@, opt_nat(o)),
    {
        let mask: Option<Vec<bool>> = match &self.prof.seed_mask {
            Option::Some(m) => {
                let mut bits: Vec<bool> = Vec::new();
                let mut i: usize = 0;
                while i < m.len()
                    invariant
                        i <= m@.len(),
                        bits@ == m@.subrange(0, i as int),
                    decreases m@.len() - i,
                {
                    bits.push(m[i]);
                    i = i + 1;
                    proof {
                        assert(bits@ =~= m@.subrange(0, i as int));
                    }
                }
                proof {
                    assert(bits@ =~= m@);
                }
                Option::Some(bits)
            },
            Option::None => Option::None,
        };
        let mql: Option<usize> = match (self.prof.max_query_len, o) {
            (Option::Some(a), Option::Some(b)) => Option::Some(
                if a < b {
                    a
                } else {
                    b
                },
            ),
            (Option::Some(a), Option::None) => Option::Some(a),
            (Option::None, Option::Some(b)) => Option::Some(b),
            (Option::None, Option::None) => Option::None,
        };
        SortProfile {
            is_dna: self.prof.is_dna,
            allow_ambiguity: self.prof.allow_ambiguity,
            ignore_softmask: self.prof.ignore_softmask,
            seed_mask: mask,
            max_query_len: mql,
        }
    }

    /// The match window of one materialized query key.
    fn find_window(&self, qk: &Vec<u8>) -> (w: (usize, usize))
        requires
            self.wf(),
        ensures
            match_window(self, qk@, w.0 as int, w.1 as int),
            w.1 as int - w.0 as int == match_count(self, qk@),
    {
        let lo = self.find_lower(qk);
        let hi = self.find_upper(qk);
        proof {
            if hi < lo {
                assert(prefix_cmp(rank_key(self, hi as int), qk@) < 0);
                assert(prefix_cmp(rank_key(self, hi as int), qk@) > 0);
            }
            assert forall|i: int| 0 <= i < self.sa@.len() implies (rank_matches(self, qk@, i)
                <==> lo as int <= i < hi as int) by {
                lemma_prefix_cmp_basic(rank_key(self, i), qk@);
            }
            lemma_count_window(self, qk@, lo as int, hi as int, self.sa@.len() as int);
        }
        (lo, hi)
    }

    /// Counts the occurrences of each query: how many suffixes have the
    /// query's key as a prefix.  An absent query counts zero.  Results come
    /// back in input order, one per query.
    pub fn count(&self, opts: CountOptions) -> (r: Vec<CountResult>)
        requires
            self.wf(),
        ensures
            r@.len() == opts.queries@.len(),
            forall|t: int|
                0 <= t < r@.len() ==> {
                    &&& (#[trigger] r@[t]).query_num == t
                    &&& r@[t].query@ == opts.queries@[t]@
                    &&& r@[t].count as nat == match_count(
                        self,
                        spec_query_key(self, opts.max_query_len, opts.queries@[t]@),
                    )
                },
    {
        let prof = self.eff_prof(opts.max_query_len);
        let mut out: Vec<CountResult> = Vec::new();
        let mut t: usize = 0;
        while t < opts.queries.len()
            invariant
                self.wf(),
                t <= opts.queries@.len(),
                prof@ == eff_profile(self.prof@, opt_nat(opts.max_query_len)),
                out@.len() == t as int,
                forall|u: int|
                    0 <= u < t ==> {
                        &&& (#[trigger] out@[u]).query_num == u
                        &&& out@[u].query@ == opts.queries@[u]@
                        &&& out@[u].count as nat == match_count(
                            self,
                            spec_query_key(self, opts.max_query_len, opts.queries@[u]@),
                        )
                    },
            decreases opts.queries@.len() - t,
        {
            let q = &opts.queries[t];
            let qb = q.as_str().as_bytes();
            let qk = make_query_key(&prof, qb);
            let (lo, hi) = self.find_window(&qk);
            out.push(CountResult { query_num: t, query: clone_string(q), count: hi - lo });
            t = t + 1;
        }
        out
    }

    /// The record that contains text position `pos`: the greatest boundary
    /// start that does not exceed it.
    fn owner_index(&self, pos: usize) -> (oi: usize)
        requires
            self.wf(),
            (pos as int) < self.text@.len(),
        ensures
            owner_ok(self.sequence_starts@, pos as int, oi as int),
    {
        let mut oi: usize = 0;
        let mut j: usize = 1;
        while j < self.sequence_starts.len()
            invariant
                self.wf(),
                self.sequence_starts@.len() >= 1,
                oi < j,
                j <= self.sequence_starts@.len(),
                self.sequence_starts@[oi as int] <= pos,
                forall|t: int| oi < t < j ==> pos < #[trigger] self.sequence_starts@[t],
            decreases self.sequence_starts@.len() - j,
        {
            if self.sequence_starts[j] <= pos {
                oi = j;
            }
            j = j + 1;
        }
        oi
    }

    /// Finds every occurrence of each query, in rank order, and maps each
    /// occurrence back to its record and record-relative offset.  An absent
    /// query yields an empty position list, never an error.
    #[verifier::rlimit(100)]
    #[verifier::spinoff_prover]
    pub fn locate(&self, opts: LocateOptions) -> (r: Vec<LocateResult>)
        requires
            self.wf(),
        ensures
            r@.len() == opts.queries@.len(),
            forall|t: int|
                0 <= t < r@.len() ==> {
                    &&& (#[trigger] r@[t]).query_num == t
                    &&& r@[t].query@ == opts.queries@[t]@
                    &&& r@[t].positions@.len() == match_count(
                        self,
                        spec_query_key(self, opts.max_query_len, opts.queries@[t]@),
                    )
                    &&& exists|lo: int, hi: int|
                        #![all_triggers]
                        match_window(
                            self,
                            spec_query_key(self, opts.max_query_len, opts.queries@[t]@),
                            lo,
                            hi,
                        ) && positions_ok(self, lo, hi, r@[t].positions@)
                },
    {
        let prof = self.eff_prof(opts.max_query_len);
        let mut out: Vec<LocateResult> = Vec::new();
        let mut t: usize = 0;
        while t < opts.queries.len()
            invariant
                self.wf(),
                t <= opts.queries@.len(),
                prof@ == eff_profile(self.prof@, opt_nat(opts.max_query_len)),
                out@.len() == t as int,
                forall|u: int|
                    0 <= u < t ==> {
                        &&& (#[trigger] out@[u]).query_num == u
                        &&& out@[u].query@ == opts.queries@[u]@
                        &&& out@[u].positions@.len() == match_count(
                            self,
                            spec_query_key(self, opts.max_query_len, opts.queries@[u]@),
                        )
                        &&& exists|lo: int, hi: int|
                            #![all_triggers]
                            match_window(
                                self,
                                spec_query_key(self, opts.max_query_len, opts.queries@[u]@),
                                lo,
                                hi,
                            ) && positions_ok(self, lo, hi, out@[u].positions@)
                    },
            decreases opts.queries@.len() - t,
        {
            let q = &opts.queries[t];
            let qb = q.as_str().as_bytes();
            let qk = make_query_key(&prof, qb);
            let (lo, hi) = self.find_window(&qk);
            let positions = self.window_positions(lo, hi);
            out.push(
                LocateResult { query_num: t, query: clone_string(q), positions },
            );
            proof {
                let qkv = spec_query_key(self, opts.max_query_len, opts.queries@[t as int]@);
                assert(qk@ == qkv);
                assert(match_window(self, qkv, lo as int, hi as int) && positions_ok(
                    self,
                    lo as int,
                    hi as int,
                    out@[t as int].positions@,
                ));
                assert(exists|lo2: int, hi2: int|
                    #![all_triggers]
                    match_window(self, qkv, lo2, hi2) && positions_ok(
                        self,
                        lo2,
                        hi2,
                        out@[t as int].positions@,
                    ));
            }
            t = t + 1;
        }
        out
    }

    /// The located occurrences of one match window, in rank order.
    fn window_positions(&self, lo: usize, hi: usize) -> (ps: Vec<LocatePosition>)
        requires
            self.wf(),
            lo <= hi <= self.sa@.len(),
        ensures
            positions_ok(self, lo as int, hi as int, ps@),
            ps@.len() == hi - lo,
    {
        let mut ps: Vec<LocatePosition> = Vec::new();
        let mut k: usize = 0;
        while k < hi - lo
            invariant
                self.wf(),
                lo <= hi <= self.sa@.len(),
                k <= hi - lo,
                ps@.len() == k as int,
                forall|u: int| 0 <= u < k ==> position_ok(self, lo as int, u, #[trigger] ps@[u]),
            decreases hi - lo - k,
        {
            let rank = lo + k;
            let p = self.sa[rank];
            let oi = self.owner_index(p);
            let lp = LocatePosition {
                suffix: p,
                rank,
                sequence_name: clone_string(&self.sequence_names[oi]),
                sequence_position: p - self.sequence_starts[oi],
            };
            proof {
                assert(owner_ok(self.sequence_starts@, p as int, oi as int));
            }
            ps.push(lp);
            k = k + 1;
        }
        ps
    }
}

impl SuffixArray {
    /// Like `locate`, but reports for every occurrence a window of record
    /// bytes around the hit: `prefix_len` bytes before it and `suffix_len`
    /// bytes from its start (to the record's end when absent), clamped so
    /// the window never crosses the record's boundaries.
    #[verifier::rlimit(100)]
    #[verifier::spinoff_prover]
    pub fn extract(&self, opts: ExtractOptions) -> (r: Vec<ExtractResult>)
        requires
            self.wf(),
        ensures
            r@.len() == opts.queries@.len(),
            forall|t: int|
                0 <= t < r@.len() ==> {
                    &&& (#[trigger] r@[t]).query_num == t
                    &&& r@[t].query@ == opts.queries@[t]@
                    &&& r@[t].sequences@.len() == match_count(
                        self,
                        spec_query_key(self, opts.max_query_len, opts.queries@[t]@),
                    )
                    &&& exists|lo: int, hi: int|
                        #![all_triggers]
                        match_window(
                            self,
                            spec_query_key(self, opts.max_query_len, opts.queries@[t]@),
                            lo,
                            hi,
                        ) && windows_ok(
                            self,
                            lo,
                            hi,
                            opts.prefix_len,
                            opts.suffix_len,
                            r@[t].sequences@,
                        )
                },
    {
        let prof = self.eff_prof(opts.max_query_len);
        let mut out: Vec<ExtractResult> = Vec::new();
        let mut t: usize = 0;
        while t < opts.queries.len()
            invariant
                self.wf(),
                t <= opts.queries@.len(),
                prof@ == eff_profile(self.prof@, opt_nat(opts.max_query_len)),
                out@.len() == t as int,
                forall|u: int|
                    0 <= u < t ==> {
                        &&& (#[trigger] out@[u]).query_num == u
                        &&& out@[u].query@ == opts.queries@[u]@
                        &&& out@[u].sequences@.len() == match_count(
                            self,
                            spec_query_key(self, opts.max_query_len, opts.queries@[u]@),
                        )
                        &&& exists|lo: int, hi: int|
                            #![all_triggers]
                            match_window(
                                self,
                                spec_query_key(self, opts.max_query_len, opts.queries@[u]@),
                                lo,
                                hi,
                            ) && windows_ok(
                                self,
                                lo,
                                hi,
                                opts.prefix_len,
                                opts.suffix_len,
                                out@[u].sequences@,
                            )
                    },
            decreases opts.queries@.len() - t,
        {
            let q = &opts.queries[t];
            let qb = q.as_str().as_bytes();
            let qk = make_query_key(&prof, qb);
            let (lo, hi) = self.find_window(&qk);
            let sequences = self.window_extracts(lo, hi, opts.prefix_len, opts.suffix_len);
            out.push(ExtractResult { query_num: t, query: clone_string(q), sequences });
            proof {
                let qkv = spec_query_key(self, opts.max_query_len, opts.queries@[t as int]@);
                assert(qk@ == qkv);
                assert(match_window(self, qkv, lo as int, hi as int) && windows_ok(
                    self,
                    lo as int,
                    hi as int,
                    opts.prefix_len,
                    opts.suffix_len,
                    out@[t as int].sequences@,
                ));
                assert(exists|lo2: int, hi2: int|
                    #![all_triggers]
                    match_window(self, qkv, lo2, hi2) && windows_ok(
                        self,
                        lo2,
                        hi2,
                        opts.prefix_len,
                        opts.suffix_len,
                        out@[t as int].sequences@,
                    ));
            }
            t = t + 1;
        }
        out
    }

    /// The windowed occurrences of one match window, in rank order.
    fn window_extracts(
        &self,
        lo: usize,
        hi: usize,
        prefix_len: Option<usize>,
        suffix_len: Option<usize>,
    ) -> (xs: Vec<ExtractSequence>)
        requires
            self.wf(),
            lo <= hi <= self.sa@.len(),
        ensures
            windows_ok(self, lo as int, hi as int, prefix_len, suffix_len, xs@),
            xs@.len() == hi - lo,
    {
        let mut xs: Vec<ExtractSequence> = Vec::new();
        let mut k: usize = 0;
        while k < hi - lo
            invariant
                self.wf(),
                lo <= hi <= self.sa@.len(),
                k <= hi - lo,
                xs@.len() == k as int,
                forall|u: int|
                    0 <= u < k ==> window_ok(
                        self,
                        lo as int,
                        u,
                        prefix_len,
                        suffix_len,
                        #[trigger] xs@[u],
                    ),
            decreases hi - lo - k,
        {
            let rank = lo + k;
            let p = self.sa[rank];
            let oi = self.owner_index(p);
            let s = self.sequence_starts[oi];
            let e = if oi < self.sequence_starts.len() - 1 {
                self.sequence_starts[oi + 1] - 1
            } else {
                self.text.len() - 1
            };
            proof {
                assert(owner_ok(self.sequence_starts@, p as int, oi as int));
                if oi as int + 1 < self.sequence_starts@.len() {
                    assert(self.sequence_starts@[oi as int] < self.sequence_starts@[oi as int
                        + 1]);
                }
            }
            let rel = p - s;
            let pfx = match prefix_len {
                Option::Some(v) => v,
                Option::None => 0,
            };
            let start_rel = if pfx <= rel {
                rel - pfx
            } else {
                0
            };
            let end_rel = match suffix_len {
                Option::Some(v) => if v <= (e - s) - rel {
                    rel + v
                } else {
                    e - s
                },
                Option::None => e - s,
            };
            let x = ExtractSequence {
                suffix: p,
                rank,
                sequence_name: clone_string(&self.sequence_names[oi]),
                sequence_start: s,
                sequence_range: (s + start_rel, s + end_rel),
                suffix_offset: rel - start_rel,
            };
            xs.push(x);
            k = k + 1;
        }
        xs
    }
}

impl SuffixArray {
    /// One formatted row per requested rank (every rank when the request is
    /// empty), capped at `number` rows: the optional rank, the suffix
    /// position, the optional LCP value, and the optional suffix text
    /// (truncated to `len` bytes), space-separated.  The suffix position
    /// anchors every row, so a row identifies its suffix even when the
    /// suffix text is not shown; the other columns toggle with their
    /// flags.  Fails when a requested rank is out of range.
    #[verifier::rlimit(100)]
    pub fn list(&self, opts: ListOptions) -> (r: Result<Vec<String>, SufrError>)
        requires
            self.wf(),
        ensures
            (exists|i: int|
                0 <= i < opts.ranks@.len() && (#[trigger] opts.ranks@[i] as int)
                    >= self.sa@.len()) <==> (r is Err && r->Err_0 == SufrError::Range),
            r is Err ==> r->Err_0 == SufrError::Range || r->Err_0 == SufrError::Format,
            list_ok(self, &opts) ==> r is Ok,
            r is Ok ==> {
                let rows = r->Ok_0;
                &&& rows@.len() == emit_count(self, opts.ranks@, opts.number)
                &&& forall|k: int|
                    0 <= k < rows@.len() ==> (#[trigger] rows@[k])@ == row_chars(
                        self,
                        req_rank(self, opts.ranks@, k),
                        &opts,
                    )
            },
    {
        let mut i: usize = 0;
        while i < opts.ranks.len()
            invariant
                self.wf(),
                i <= opts.ranks@.len(),
                forall|t: int|
                    0 <= t < i ==> (#[trigger] opts.ranks@[t] as int) < self.sa@.len(),
            decreases opts.ranks@.len() - i,
        {
            if opts.ranks[i] >= self.sa.len() {
                return Result::Err(SufrError::Range);
            }
            i = i + 1;
        }
        let req = if opts.ranks.len() > 0 {
            opts.ranks.len()
        } else {
            self.sa.len()
        };
        let total = match opts.number {
            Option::Some(n) => if n <= req {
                n
            } else {
                req
            },
            Option::None => req,
        };
        let mut rows: Vec<String> = Vec::new();
        let mut k: usize = 0;
        while k < total
            invariant
                self.wf(),
                total as int == emit_count(self, opts.ranks@, opts.number),
                total <= req,
                req as int == (if opts.ranks@.len() > 0 {
                    opts.ranks@.len() as int
                } else {
                    self.sa@.len() as int
                }),
                forall|t: int|
                    0 <= t < opts.ranks@.len() ==> (#[trigger] opts.ranks@[t] as int)
                        < self.sa@.len(),
                k <= total,
                rows@.len() == k as int,
                forall|t: int|
                    0 <= t < k ==> (#[trigger] rows@[t])@ == row_chars(
                        self,
                        req_rank(self, opts.ranks@, t),
                        &opts,
                    ),
            decreases total - k,
        {
            let rank = if opts.ranks.len() > 0 {
                opts.ranks[k]
            } else {
                k
            };
            let mut row = String::new();
            if opts.show_rank {
                let nr = crate::strio::usize_to_string(rank);
                row.append(nr.as_str());
                row.append(" ");
            }
            let p = self.sa[rank];
            let np = crate::strio::usize_to_string(p);
            row.append(np.as_str());
            if opts.show_lcp {
                let nl = crate::strio::usize_to_string(self.lcp[rank]);
                row.append(" ");
                row.append(nl.as_str());
            }
            if opts.show_suffix {
                let end = match opts.len {
                    Option::Some(l) => if l <= self.text.len() - p {
                        p + l
                    } else {
                        self.text.len()
                    },
                    Option::None => self.text.len(),
                };
                let mut bytes: Vec<u8> = Vec::new();
                let mut b: usize = p;
                while b < end
                    invariant
                        p <= b <= end,
                        end <= self.text@.len(),
                        bytes@ == self.text@.subrange(p as int, b as int),
                    decreases end - b,
                {
                    bytes.push(self.text[b]);
                    b = b + 1;
                    proof {
                        assert(bytes@ =~= self.text@.subrange(p as int, b as int));
                    }
                }
                proof {
                    assert(end as int == crate::store::string_at_end(self, p as int, opts.len));
                }
                let ghost shown = bytes@;
                let sfx = match crate::strio::bytes_to_string(bytes) {
                    Option::Some(s) => s,
                    Option::None => {
                        proof {
                            if list_ok(self, &opts) {
                                assert(shown_bytes(
                                    self,
                                    req_rank(self, opts.ranks@, k as int),
                                    opts.len,
                                ) == shown);
                                assert(vstd::utf8::valid_utf8(shown));
                            }
                        }
                        return Result::Err(SufrError::Format);
                    },
                };
                row.append(" ");
                proof {
                    vstd::utf8::encode_utf8_decode_utf8(sfx@);
                }
                row.append(sfx.as_str());
            }
            proof {
                assert(row@ =~= row_chars(self, req_rank(self, opts.ranks@, k as int), &opts));
            }
            rows.push(row);
            k = k + 1;
        }
        Result::Ok(rows)
    }
}

/// How many requested ranks exist: the request itself, or every rank when
/// the request is empty.
pub open spec fn req_count(st: &SuffixArray, ranks: Seq<usize>) -> int {
    if ranks.len() > 0 {
        ranks.len() as int
    } else {
        st.sa@.len() as int
    }
}

/// The `k`-th listed rank.
pub open spec fn req_rank(st: &SuffixArray, ranks: Seq<usize>, k: int) -> int {
    if ranks.len() > 0 {
        ranks[k] as int
    } else {
        k
    }
}

/// How many rows `list` emits: the requested ranks, capped at `number`.
pub open spec fn emit_count(st: &SuffixArray, ranks: Seq<usize>, number: Option<usize>) -> int {
    let req = req_count(st, ranks);
    match number {
        Option::Some(n) => if n as int <= req {
            n as int
        } else {
            req
        },
        Option::None => req,
    }
}

/// The bytes of the suffix text shown for a rank, truncated to `len`.
pub open spec fn shown_bytes(st: &SuffixArray, rank: int, len: Option<usize>) -> Seq<u8> {
    let p = st.sa@[rank] as int;
    st.text@.subrange(p, crate::store::string_at_end(st, p, len))
}

/// The conditions under which `list` succeeds: every requested rank is in
/// range and, when suffix text is shown, every shown byte window is valid
/// UTF-8.
pub open spec fn list_ok(st: &SuffixArray, opts: &ListOptions) -> bool {
    &&& forall|i: int|
        0 <= i < opts.ranks@.len() ==> (#[trigger] opts.ranks@[i] as int) < st.sa@.len()
    &&& (opts.show_suffix ==> forall|k: int|
        0 <= k < emit_count(st, opts.ranks@, opts.number) ==> vstd::utf8::valid_utf8(
            #[trigger] shown_bytes(st, req_rank(st, opts.ranks@, k), opts.len),
        ))
}

/// The characters of one listed row.
pub open spec fn row_chars(st: &SuffixArray, rank: int, opts: &ListOptions) -> Seq<char> {
    let p = st.sa@[rank] as int;
    (if opts.show_rank {
        crate::strio::dec_chars(rank as nat) + " "@
    } else {
        Seq::<char>::empty()
    }) + crate::strio::dec_chars(st.sa@[rank] as nat) + (if opts.show_lcp {
        " "@ + crate::strio::dec_chars(st.lcp@[rank] as nat)
    } else {
        Seq::<char>::empty()
    }) + (if opts.show_suffix {
        " "@ + vstd::utf8::decode_utf8(shown_bytes(st, rank, opts.len))
    } else {
        Seq::<char>::empty()
    })
}

/// The end (exclusive) of the record at boundary index `oi`: one byte short
/// of the next record's start, or of the text's end for the last record.
pub open spec fn rec_end(st: &SuffixArray, oi: int) -> int {
    if oi == st.sequence_starts@.len() - 1 {
        st.text@.len() - 1
    } else {
        st.sequence_starts@[oi + 1] - 1
    }
}

/// One windowed occurrence is correct for the rank `lo + u`: the window
/// spans `prefix_len` bytes before the hit and `suffix_len` bytes from its
/// start (the record's remainder when absent), clamped to the record.
pub open spec fn window_ok(
    st: &SuffixArray,
    lo: int,
    u: int,
    plen: Option<usize>,
    slen: Option<usize>,
    xs: ExtractSequence,
) -> bool {
    &&& 0 <= lo + u < st.sa@.len()
    &&& xs.suffix == st.sa@[lo + u]
    &&& xs.rank == lo + u
    &&& exists|oi: int|
        #![trigger st.sequence_starts@[oi]]
        {
            let s = st.sequence_starts@[oi] as int;
            let e = rec_end(st, oi);
            let rel = xs.suffix - s;
            let pfx = match plen {
                Option::Some(v) => v as int,
                Option::None => 0,
            };
            let start_rel = if pfx <= rel {
                rel - pfx
            } else {
                0
            };
            let end_rel = match slen {
                Option::Some(v) => if rel + v <= e - s {
                    rel + v
                } else {
                    e - s
                },
                Option::None => e - s,
            };
            &&& owner_ok(st.sequence_starts@, xs.suffix as int, oi)
            &&& xs.sequence_name@ == st.sequence_names@[oi]@
            &&& xs.sequence_start as int == s
            &&& xs.sequence_range.0 as int == s + start_rel
            &&& xs.sequence_range.1 as int == s + end_rel
            &&& xs.suffix_offset as int == rel - start_rel
        }
}

/// A window list reports exactly the ranks of the match window, in order.
pub open spec fn windows_ok(
    st: &SuffixArray,
    lo: int,
    hi: int,
    plen: Option<usize>,
    slen: Option<usize>,
    xs: Seq<ExtractSequence>,
) -> bool {
    &&& xs.len() == hi - lo
    &&& forall|u: int|
        0 <= u < xs.len() ==> window_ok(st, lo, u, plen, slen, #[trigger] xs[u])
}

/// `oi` is the index of the record that contains text position `pos`.
pub open spec fn owner_ok(starts: Seq<usize>, pos: int, oi: int) -> bool {
    &&& 0 <= oi < starts.len()
    &&& starts[oi] <= pos
    &&& (oi == starts.len() - 1 || pos < starts[oi + 1])
}

/// One located occurrence is correct for the rank `lo + u`.
pub open spec fn position_ok(st: &SuffixArray, lo: int, u: int, lp: LocatePosition) -> bool {
    &&& 0 <= lo + u < st.sa@.len()
    &&& lp.suffix == st.sa@[lo + u]
    &&& lp.rank == lo + u
    &&& exists|oi: int|
        #![all_triggers]
        owner_ok(st.sequence_starts@, lp.suffix as int, oi) && lp.sequence_name@
            == st.sequence_names@[oi]@ && lp.sequence_position as int == lp.suffix as int
            - st.sequence_starts@[oi]
}

/// A position list reports exactly the ranks of the window, in order.
pub open spec fn positions_ok(st: &SuffixArray, lo: int, hi: int, ps: Seq<LocatePosition>) -> bool {
    &&& ps.len() == hi - lo
    &&& forall|u: int| 0 <= u < ps.len() ==> position_ok(st, lo, u, #[trigger] ps[u])
}

} // verus!
