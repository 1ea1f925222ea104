//! The laws of the engine, each proved against the contracts of the
//! functions it speaks of.

use vstd::prelude::*;
use crate::builder::spec_lcp_of;
use crate::image::enc_bool;
use crate::image::enc_header;
use crate::image::enc_mask;
use crate::image::enc_mask_bits;
use crate::image::enc_mql;
use crate::image::enc_name;
use crate::image::enc_names;
use crate::image::enc_u64;
use crate::image::enc_usizes;
use crate::image::lemma_u64_codec;
use crate::image::spec_image;
use crate::image::image_tail;
use crate::image::bound_tail;
use crate::order::lcp_len;
use crate::order::lemma_lex_cmp_basic;
use crate::order::suffix_key;
use crate::order::suffix_lt;
use crate::query::match_count;
use crate::query::lemma_count_window;
use crate::query::owner_ok;
use crate::query::rank_matches;
use crate::query::rec_end;
use crate::query::window_ok;
use crate::store::SuffixArray;
use crate::types::ExtractSequence;
use vstd::utf8::encode_utf8;

verus! {

broadcast use vstd::seq_lib::group_to_multiset_ensures;

/// The suffix array holds some rank whose entry is position `p`.
pub open spec fn holds_position(st: &SuffixArray, p: int) -> bool {
    exists|i: int| 0 <= i < st.sa@.len() && #[trigger] st.sa@[i] as int == p
}

/// The suffix array of a well-formed store is a permutation of the valid
/// suffix-start positions: one entry per position below the sentinel, no
/// entry repeated, every such position present.  The LCP array pairs with
/// it: entry `i` is the length of the longest common prefix of the keys at
/// ranks `i - 1` and `i`.
pub proof fn lemma_suffix_array_permutation(st: &SuffixArray)
    requires
        st.wf(),
    ensures
        st.sa@.len() == st.text@.len() - 1,
        forall|i: int| 0 <= i < st.sa@.len() ==> (#[trigger] st.sa@[i] as int) < st.text@.len() - 1,
        forall|i: int, j: int| 0 <= i < j < st.sa@.len() ==> st.sa@[i] != st.sa@[j],
        forall|p: int| 0 <= p < st.text@.len() - 1 ==> #[trigger] holds_position(st, p),
        st.lcp@.len() == st.sa@.len(),
        st.lcp@[0] == 0,
        forall|i: int|
            1 <= i < st.sa@.len() ==> #[trigger] st.lcp@[i] == lcp_len(
                suffix_key(st.text@, st.prof@, st.sa@[i - 1] as int),
                suffix_key(st.text@, st.prof@, st.sa@[i] as int),
            ) as usize,
{
    let n = st.sa@.len() as int;
    assert forall|i: int, j: int| 0 <= i < j < st.sa@.len() implies st.sa@[i] != st.sa@[j] by {
        if st.sa@[i] == st.sa@[j] {
            assert(suffix_lt(st.text@, st.prof@, st.sa@[i] as int, st.sa@[j] as int));
            lemma_lex_cmp_basic(
                suffix_key(st.text@, st.prof@, st.sa@[i] as int),
                suffix_key(st.text@, st.prof@, st.sa@[j] as int),
            );
        }
    }
    let is = Seq::new(st.sa@.len(), |i: int| st.sa@[i] as int);
    assert(is.no_duplicates());
    is.unique_seq_to_set();
    let rng = vstd::set_lib::set_int_range(0, n);
    vstd::set_lib::lemma_int_range(0, n);
    assert(is.to_set().subset_of(rng)) by {
        assert forall|v: int| is.to_set().contains(v) implies rng.contains(v) by {
            let w = choose|i: int| 0 <= i < is.len() && is[i] == v;
        }
    }
    vstd::set_lib::lemma_subset_equality(is.to_set(), rng);
    assert forall|p: int| 0 <= p < st.text@.len() - 1 implies #[trigger] holds_position(st, p) by {
        assert(rng.contains(p));
        assert(is.to_set().contains(p));
        let w = choose|i: int| 0 <= i < is.len() && is[i] == p;
        assert(st.sa@[w] as int == p);
    }
    assert(st.lcp@ == spec_lcp_of(st.text@, st.prof@, st.sa@));
}

/// A query whose key is a prefix of no suffix of the text counts zero —
/// and with it, `locate` returns an empty position list, since both report
/// [`match_count`].
pub proof fn lemma_absent_query(st: &SuffixArray, qk: Seq<u8>)
    requires
        st.wf(),
        forall|p: int|
            0 <= p < st.text@.len() - 1 ==> crate::order::prefix_cmp(
                suffix_key(st.text@, st.prof@, p),
                qk,
            ) != 0,
    ensures
        match_count(st, qk) == 0,
{
    assert forall|i: int| 0 <= i < st.sa@.len() implies !rank_matches(st, qk, i) by {
        assert((st.sa@[i] as int) < st.text@.len() - 1);
    }
    lemma_count_window(st, qk, 0, 0, st.sa@.len() as int);
}

/// `count` and `locate` agree: for the result vectors of the two calls
/// over the same queries and the same comparison bound — exactly what the
/// postconditions of `count` and `locate` deliver — every query's count
/// equals the length of its located position list, both being the number
/// of matching ranks.
pub proof fn lemma_count_locate_agree(
    st: &SuffixArray,
    o: Option<usize>,
    qs: Seq<String>,
    cs: Seq<crate::types::CountResult>,
    ls: Seq<crate::types::LocateResult>,
)
    requires
        cs.len() == qs.len(),
        ls.len() == qs.len(),
        forall|t: int|
            0 <= t < qs.len() ==> (#[trigger] cs[t]).count as nat == match_count(
                st,
                crate::query::spec_query_key(st, o, qs[t]@),
            ),
        forall|t: int|
            0 <= t < qs.len() ==> (#[trigger] ls[t]).positions@.len() == match_count(
                st,
                crate::query::spec_query_key(st, o, qs[t]@),
            ),
    ensures
        forall|t: int|
            0 <= t < qs.len() ==> (#[trigger] cs[t]).count == ls[t].positions@.len(),
{
}

/// Two owners of one text position are the same record.
pub proof fn lemma_owner_unique(starts: Seq<usize>, pos: int, a: int, b: int)
    requires
        forall|i: int, j: int| 0 <= i < j < starts.len() ==> #[trigger] starts[i] < #[trigger] starts[j],
        owner_ok(starts, pos, a),
        owner_ok(starts, pos, b),
    ensures
        a == b,
{
    if a < b {
        assert(starts[a + 1] <= starts[b] || a + 1 == b);
        assert(starts[b] <= pos);
        assert(pos < starts[a + 1]);
    }
    if b < a {
        assert(starts[b + 1] <= starts[a] || b + 1 == a);
        assert(starts[a] <= pos);
        assert(pos < starts[b + 1]);
    }
}

/// An extract window never crosses its record's boundaries: for a hit in
/// the record `[s, e)`, the returned range lies within `[s, e)`.
pub proof fn lemma_extract_window_in_record(
    st: &SuffixArray,
    lo: int,
    u: int,
    plen: Option<usize>,
    slen: Option<usize>,
    xs: ExtractSequence,
    oi: int,
)
    requires
        st.wf(),
        window_ok(st, lo, u, plen, slen, xs),
        owner_ok(st.sequence_starts@, xs.suffix as int, oi),
    ensures
        st.sequence_starts@[oi] <= xs.sequence_range.0 as int,
        xs.sequence_range.0 as int <= xs.sequence_range.1 as int,
        xs.sequence_range.1 as int <= rec_end(st, oi),
{
    let w = choose|w: int|
        #![trigger st.sequence_starts@[w]]
        {
            let s = st.sequence_starts@[w] as int;
            let e = rec_end(st, w);
            let rel = xs.suffix - s;
            let pfx = match plen {
                Option::Some(v) => v as int,
                Option::None => 0,
            };
            let start_rel = if pfx <= rel {
                rel - pfx
            } else {
                0
            };
            let end_rel = match slen {
                Option::Some(v) => if rel + v <= e - s {
                    rel + v
                } else {
                    e - s
                },
                Option::None => e - s,
            };
            &&& owner_ok(st.sequence_starts@, xs.suffix as int, w)
            &&& xs.sequence_name@ == st.sequence_names@[w]@
            &&& xs.sequence_start as int == st.sequence_starts@[w] as int
            &&& xs.sequence_range.0 as int == s + start_rel
            &&& xs.sequence_range.1 as int == s + end_rel
            &&& xs.suffix_offset as int == rel - start_rel
        };
    lemma_owner_unique(st.sequence_starts@, xs.suffix as int, w, oi);
    let s = st.sequence_starts@[oi] as int;
    let e = rec_end(st, oi);
    assert(s <= xs.suffix as int);
    assert(xs.suffix as int <= e) by {
        if oi < st.sequence_starts@.len() - 1 {
            assert(st.sequence_starts@[oi] < st.sequence_starts@[oi + 1]);
        }
    }
}

/// The hit of an extract window lies inside the window: at or after its
/// start always, and strictly before its end whenever the window is given
/// at least one byte from the hit on (`suffix_len` absent or at least 1)
/// and the hit does not sit on the record's final byte.  On the two
/// excluded inputs — `suffix_len` of zero, or a hit on the record's last
/// byte with nothing after it — the window is empty or ends at the hit's
/// start, and the hit lies at its end instead.
pub proof fn lemma_hit_inside_window(
    st: &SuffixArray,
    lo: int,
    u: int,
    plen: Option<usize>,
    slen: Option<usize>,
    xs: ExtractSequence,
    oi: int,
)
    requires
        st.wf(),
        window_ok(st, lo, u, plen, slen, xs),
        owner_ok(st.sequence_starts@, xs.suffix as int, oi),
        (match slen {
            Option::Some(v) => v >= 1,
            Option::None => true,
        }),
        (xs.suffix as int) < rec_end(st, oi),
    ensures
        xs.sequence_range.0 <= xs.suffix,
        (xs.suffix as int) < xs.sequence_range.1 as int,
{
    let w = choose|w: int|
        #![trigger st.sequence_starts@[w]]
        {
            let s = st.sequence_starts@[w] as int;
            let e = rec_end(st, w);
            let rel = xs.suffix - s;
            let pfx = match plen {
                Option::Some(v) => v as int,
                Option::None => 0,
            };
            let start_rel = if pfx <= rel {
                rel - pfx
            } else {
                0
            };
            let end_rel = match slen {
                Option::Some(v) => if rel + v <= e - s {
                    rel + v
                } else {
                    e - s
                },
                Option::None => e - s,
            };
            &&& owner_ok(st.sequence_starts@, xs.suffix as int, w)
            &&& xs.sequence_name@ == st.sequence_names@[w]@
            &&& xs.sequence_start as int == st.sequence_starts@[w] as int
            &&& xs.sequence_range.0 as int == s + start_rel
            &&& xs.sequence_range.1 as int == s + end_rel
            &&& xs.suffix_offset as int == rel - start_rel
        };
    lemma_owner_unique(st.sequence_starts@, xs.suffix as int, w, oi);
}

/// The image is a function of the structure alone: two stores with equal
/// structural fields serialize to identical bytes.  Together with
/// `SuffixArray::new`, whose postcondition determines every structural
/// field from the configuration, building twice from one configuration
/// yields byte-identical images.
pub proof fn lemma_build_idempotent(st1: &SuffixArray, st2: &SuffixArray)
    requires
        st1.version == st2.version,
        st1.prof@ == st2.prof@,
        st1.text@ == st2.text@,
        st1.sa@ == st2.sa@,
        st1.lcp@ == st2.lcp@,
        st1.sequence_starts@ == st2.sequence_starts@,
        st1.sequence_names.deep_view() == st2.sequence_names.deep_view(),
    ensures
        spec_image(st1) == spec_image(st2),
{
    assert(st1.prof.is_dna == st2.prof.is_dna);
    assert(st1.prof.allow_ambiguity == st2.prof.allow_ambiguity);
    assert(st1.prof.ignore_softmask == st2.prof.ignore_softmask);
    match (st1.prof.max_query_len, st2.prof.max_query_len) {
        (Option::Some(a), Option::Some(b)) => {
            assert(a as nat == b as nat);
        },
        _ => {},
    }
    assert(enc_mql(st1.prof.max_query_len) == enc_mql(st2.prof.max_query_len));
    match (st1.prof.seed_mask, st2.prof.seed_mask) {
        (Option::Some(m1), Option::Some(m2)) => {
            assert(m1@ == m2@);
        },
        _ => {},
    }
    assert(enc_mask(
        match st1.prof.seed_mask {
            Option::Some(m) => Option::Some(m@),
            Option::None => Option::None,
        },
    ) == enc_mask(
        match st2.prof.seed_mask {
            Option::Some(m) => Option::Some(m@),
            Option::None => Option::None,
        },
    ));
    assert(enc_header(st1.version, st1.prof) == enc_header(st2.version, st2.prof));
}

/// Splitting a concatenation at equal lengths splits it into equal parts.
pub(crate) proof fn lemma_concat_split(x: Seq<u8>, y: Seq<u8>, r1: Seq<u8>, r2: Seq<u8>)
    requires
        x.len() == y.len(),
        x + r1 == y + r2,
    ensures
        x == y,
        r1 == r2,
{
    assert forall|i: int| 0 <= i < x.len() implies x[i] == y[i] by {
        assert((x + r1)[i] == x[i]);
        assert((y + r2)[i] == y[i]);
    }
    assert(x =~= y);
    assert((x + r1).len() == x.len() + r1.len());
    assert((y + r2).len() == y.len() + r2.len());
    assert(r1.len() == r2.len());
    assert forall|i: int| 0 <= i < r1.len() implies r1[i] == r2[i] by {
        assert((x + r1)[x.len() + i] == r1[i]);
        assert((y + r2)[y.len() + i] == r2[i]);
    }
    assert(r1 =~= r2);
}

/// An encoded integer at the head of equal byte streams is the same
/// integer, and the tails agree.
pub(crate) proof fn lemma_enc_u64_inj(a: u64, b: u64, r1: Seq<u8>, r2: Seq<u8>)
    requires
        enc_u64(a) + r1 == enc_u64(b) + r2,
    ensures
        a == b,
        r1 == r2,
{
    lemma_concat_split(enc_u64(a), enc_u64(b), r1, r2);
    lemma_u64_codec(a);
    lemma_u64_codec(b);
}

/// The same, for one flag byte.
pub(crate) proof fn lemma_enc_bool_inj(a: bool, b: bool, r1: Seq<u8>, r2: Seq<u8>)
    requires
        enc_bool(a) + r1 == enc_bool(b) + r2,
    ensures
        a == b,
        r1 == r2,
{
    lemma_concat_split(enc_bool(a), enc_bool(b), r1, r2);
    assert(enc_bool(a)[0] == enc_bool(b)[0]);
}

/// The same, for a run of encoded positions of equal count.
pub(crate) proof fn lemma_enc_usizes_inj(s1: Seq<usize>, s2: Seq<usize>, r1: Seq<u8>, r2: Seq<u8>)
    requires
        s1.len() == s2.len(),
        enc_usizes(s1) + r1 == enc_usizes(s2) + r2,
    ensures
        s1 == s2,
        r1 == r2,
    decreases s1.len(),
{
    if s1.len() == 0 {
        assert(enc_usizes(s1) + r1 =~= r1);
        assert(enc_usizes(s2) + r2 =~= r2);
        assert(s1 =~= s2);
    } else {
        let d1 = s1.drop_first();
        let d2 = s2.drop_first();
        assert((enc_u64(s1[0] as u64) + enc_usizes(d1)) + r1 =~= enc_u64(s1[0] as u64) + (
        enc_usizes(d1) + r1));
        assert((enc_u64(s2[0] as u64) + enc_usizes(d2)) + r2 =~= enc_u64(s2[0] as u64) + (
        enc_usizes(d2) + r2));
        lemma_enc_u64_inj(s1[0] as u64, s2[0] as u64, enc_usizes(d1) + r1, enc_usizes(d2) + r2);
        lemma_enc_usizes_inj(d1, d2, r1, r2);
        assert(s1[0] == s2[0]);
        assert forall|i: int| 0 <= i < s1.len() implies s1[i] == s2[i] by {
            if i > 0 {
                assert(s1[i] == d1[i - 1]);
                assert(s2[i] == d2[i - 1]);
            }
        }
        assert(s1 =~= s2);
    }
}

/// The same, for a run of length-prefixed names of equal count whose byte
/// lengths fit the length prefix.
pub(crate) proof fn lemma_enc_names_inj(n1: Seq<Seq<char>>, n2: Seq<Seq<char>>, r1: Seq<u8>, r2: Seq<u8>)
    requires
        n1.len() == n2.len(),
        forall|i: int| 0 <= i < n1.len() ==> #[trigger] encode_utf8(n1[i]).len() <= u64::MAX,
        forall|i: int| 0 <= i < n2.len() ==> #[trigger] encode_utf8(n2[i]).len() <= u64::MAX,
        enc_names(n1) + r1 == enc_names(n2) + r2,
    ensures
        n1 == n2,
        r1 == r2,
    decreases n1.len(),
{
    if n1.len() == 0 {
        assert(enc_names(n1) + r1 =~= r1);
        assert(enc_names(n2) + r2 =~= r2);
        assert(n1 =~= n2);
    } else {
        let d1 = n1.drop_first();
        let d2 = n2.drop_first();
        let b1 = encode_utf8(n1[0]);
        let b2 = encode_utf8(n2[0]);
        assert((enc_name(n1[0]) + enc_names(d1)) + r1 =~= enc_u64(b1.len() as u64) + (b1 + (
        enc_names(d1) + r1)));
        assert((enc_name(n2[0]) + enc_names(d2)) + r2 =~= enc_u64(b2.len() as u64) + (b2 + (
        enc_names(d2) + r2)));
        lemma_enc_u64_inj(
            b1.len() as u64,
            b2.len() as u64,
            b1 + (enc_names(d1) + r1),
            b2 + (enc_names(d2) + r2),
        );
        assert(encode_utf8(n1[0]).len() <= u64::MAX);
        assert(encode_utf8(n2[0]).len() <= u64::MAX);
        assert(b1.len() == b2.len());
        lemma_concat_split(b1, b2, enc_names(d1) + r1, enc_names(d2) + r2);
        vstd::utf8::encode_utf8_decode_utf8(n1[0]);
        vstd::utf8::encode_utf8_decode_utf8(n2[0]);
        assert(n1[0] == n2[0]);
        assert(forall|i: int| 0 <= i < d1.len() ==> #[trigger] encode_utf8(d1[i]).len() <= u64::MAX);
        assert(forall|i: int| 0 <= i < d2.len() ==> #[trigger] encode_utf8(d2[i]).len() <= u64::MAX);
        lemma_enc_names_inj(d1, d2, r1, r2);
        assert forall|i: int| 0 <= i < n1.len() implies n1[i] == n2[i] by {
            if i > 0 {
                assert(n1[i] == d1[i - 1]);
                assert(n2[i] == d2[i - 1]);
            }
        }
        assert(n1 =~= n2);
    }
}

/// Equal images carry equal version and alphabet flags, and agree from the
/// comparison bound onward.
#[verifier::rlimit(100)]
proof fn lemma_round_trip_flags(st1: &SuffixArray, st2: &SuffixArray)
    requires
        spec_image(st1) == spec_image(st2),
    ensures
        st1.version == st2.version,
        st1.prof.is_dna == st2.prof.is_dna,
        st1.prof.allow_ambiguity == st2.prof.allow_ambiguity,
        st1.prof.ignore_softmask == st2.prof.ignore_softmask,
        bound_tail(st1) == bound_tail(st2),
{
    let t1 = bound_tail(st1);
    let t2 = bound_tail(st2);
    lemma_enc_u64_inj(
        st1.version,
        st2.version,
        enc_bool(st1.prof.is_dna) + (enc_bool(st1.prof.allow_ambiguity) + (enc_bool(
            st1.prof.ignore_softmask,
        ) + t1)),
        enc_bool(st2.prof.is_dna) + (enc_bool(st2.prof.allow_ambiguity) + (enc_bool(
            st2.prof.ignore_softmask,
        ) + t2)),
    );
    lemma_enc_bool_inj(
        st1.prof.is_dna,
        st2.prof.is_dna,
        enc_bool(st1.prof.allow_ambiguity) + (enc_bool(st1.prof.ignore_softmask) + t1),
        enc_bool(st2.prof.allow_ambiguity) + (enc_bool(st2.prof.ignore_softmask) + t2),
    );
    lemma_enc_bool_inj(
        st1.prof.allow_ambiguity,
        st2.prof.allow_ambiguity,
        enc_bool(st1.prof.ignore_softmask) + t1,
        enc_bool(st2.prof.ignore_softmask) + t2,
    );
    lemma_enc_bool_inj(st1.prof.ignore_softmask, st2.prof.ignore_softmask, t1, t2);
}

/// Equal bound tails carry an equal comparison bound and seed mask, and
/// their structural tails agree.
#[verifier::rlimit(100)]
proof fn lemma_round_trip_bound(st1: &SuffixArray, st2: &SuffixArray)
    requires
        bound_tail(st1) == bound_tail(st2),
        (match st1.prof.seed_mask {
            Option::Some(m) => m@.len() <= u64::MAX,
            Option::None => true,
        }),
        (match st2.prof.seed_mask {
            Option::Some(m) => m@.len() <= u64::MAX,
            Option::None => true,
        }),
    ensures
        st1.prof.max_query_len == st2.prof.max_query_len,
        (match st1.prof.seed_mask {
            Option::Some(m) => Option::Some(m@),
            Option::None => Option::<Seq<bool>>::None,
        }) == (match st2.prof.seed_mask {
            Option::Some(m) => Option::Some(m@),
            Option::None => Option::<Seq<bool>>::None,
        }),
        image_tail(st1) == image_tail(st2),
{
    let m1 = match st1.prof.seed_mask {
        Option::Some(m) => Option::Some(m@),
        Option::None => Option::<Seq<bool>>::None,
    };
    let m2 = match st2.prof.seed_mask {
        Option::Some(m) => Option::Some(m@),
        Option::None => Option::<Seq<bool>>::None,
    };
    let tail1 = image_tail(st1);
    let tail2 = image_tail(st2);
    let mf1 = st1.prof.max_query_len is Some;
    let mf2 = st2.prof.max_query_len is Some;
    let mv1: u64 = match st1.prof.max_query_len {
        Option::Some(l) => l as u64,
        Option::None => 0,
    };
    let mv2: u64 = match st2.prof.max_query_len {
        Option::Some(l) => l as u64,
        Option::None => 0,
    };
    assert(bound_tail(st1) =~= enc_bool(mf1) + (enc_u64(mv1) + (enc_mask(m1) + tail1)));
    assert(bound_tail(st2) =~= enc_bool(mf2) + (enc_u64(mv2) + (enc_mask(m2) + tail2)));
    lemma_enc_bool_inj(
        mf1,
        mf2,
        enc_u64(mv1) + (enc_mask(m1) + tail1),
        enc_u64(mv2) + (enc_mask(m2) + tail2),
    );
    lemma_enc_u64_inj(mv1, mv2, enc_mask(m1) + tail1, enc_mask(m2) + tail2);
    assert(st1.prof.max_query_len == st2.prof.max_query_len);
    let kf1 = m1 is Some;
    let kf2 = m2 is Some;
    let kb1: Seq<bool> = match m1 {
        Option::Some(m) => m,
        Option::None => Seq::<bool>::empty(),
    };
    let kb2: Seq<bool> = match m2 {
        Option::Some(m) => m,
        Option::None => Seq::<bool>::empty(),
    };
    assert(enc_mask(m1) + tail1 =~= enc_bool(kf1) + (enc_u64(kb1.len() as u64) + (enc_mask_bits(
        kb1,
    ) + tail1)));
    assert(enc_mask(m2) + tail2 =~= enc_bool(kf2) + (enc_u64(kb2.len() as u64) + (enc_mask_bits(
        kb2,
    ) + tail2)));
    lemma_enc_bool_inj(
        kf1,
        kf2,
        enc_u64(kb1.len() as u64) + (enc_mask_bits(kb1) + tail1),
        enc_u64(kb2.len() as u64) + (enc_mask_bits(kb2) + tail2),
    );
    lemma_enc_u64_inj(
        kb1.len() as u64,
        kb2.len() as u64,
        enc_mask_bits(kb1) + tail1,
        enc_mask_bits(kb2) + tail2,
    );
    lemma_concat_split(enc_mask_bits(kb1), enc_mask_bits(kb2), tail1, tail2);
    assert forall|i: int| 0 <= i < kb1.len() implies kb1[i] == kb2[i] by {
        assert(enc_mask_bits(kb1)[i] == enc_mask_bits(kb2)[i]);
    }
    assert(kb1 =~= kb2);
    assert(m1 == m2);
}

/// Equal image tails carry equal text, arrays, boundaries and names.
proof fn lemma_round_trip_tail(st1: &SuffixArray, st2: &SuffixArray)
    requires
        st1.wf(),
        st2.wf(),
        image_tail(st1) == image_tail(st2),
        st1.text@.len() <= u64::MAX,
        st2.text@.len() <= u64::MAX,
        st1.sequence_starts@.len() <= u64::MAX,
        st2.sequence_starts@.len() <= u64::MAX,
        forall|i: int|
            0 <= i < st1.sequence_names.deep_view().len() ==> #[trigger] encode_utf8(
                st1.sequence_names.deep_view()[i],
            ).len() <= u64::MAX,
        forall|i: int|
            0 <= i < st2.sequence_names.deep_view().len() ==> #[trigger] encode_utf8(
                st2.sequence_names.deep_view()[i],
            ).len() <= u64::MAX,
    ensures
        st1.text@ == st2.text@,
        st1.sa@ == st2.sa@,
        st1.lcp@ == st2.lcp@,
        st1.sequence_starts@ == st2.sequence_starts@,
        st1.sequence_names.deep_view() == st2.sequence_names.deep_view(),
{
    let r1a = st1.text@ + (enc_u64(st1.sa@.len() as u64) + (enc_usizes(st1.sa@) + (enc_usizes(
        st1.lcp@,
    ) + (enc_u64(st1.sequence_starts@.len() as u64) + (enc_usizes(st1.sequence_starts@)
        + enc_names(st1.sequence_names.deep_view()))))));
    let r2a = st2.text@ + (enc_u64(st2.sa@.len() as u64) + (enc_usizes(st2.sa@) + (enc_usizes(
        st2.lcp@,
    ) + (enc_u64(st2.sequence_starts@.len() as u64) + (enc_usizes(st2.sequence_starts@)
        + enc_names(st2.sequence_names.deep_view()))))));
    lemma_enc_u64_inj(st1.text@.len() as u64, st2.text@.len() as u64, r1a, r2a);
    let r1b = enc_u64(st1.sa@.len() as u64) + (enc_usizes(st1.sa@) + (enc_usizes(st1.lcp@) + (
    enc_u64(st1.sequence_starts@.len() as u64) + (enc_usizes(st1.sequence_starts@) + enc_names(
        st1.sequence_names.deep_view(),
    )))));
    let r2b = enc_u64(st2.sa@.len() as u64) + (enc_usizes(st2.sa@) + (enc_usizes(st2.lcp@) + (
    enc_u64(st2.sequence_starts@.len() as u64) + (enc_usizes(st2.sequence_starts@) + enc_names(
        st2.sequence_names.deep_view(),
    )))));
    lemma_concat_split(st1.text@, st2.text@, r1b, r2b);
    let r1c = enc_usizes(st1.sa@) + (enc_usizes(st1.lcp@) + (enc_u64(
        st1.sequence_starts@.len() as u64,
    ) + (enc_usizes(st1.sequence_starts@) + enc_names(st1.sequence_names.deep_view()))));
    let r2c = enc_usizes(st2.sa@) + (enc_usizes(st2.lcp@) + (enc_u64(
        st2.sequence_starts@.len() as u64,
    ) + (enc_usizes(st2.sequence_starts@) + enc_names(st2.sequence_names.deep_view()))));
    lemma_enc_u64_inj(st1.sa@.len() as u64, st2.sa@.len() as u64, r1c, r2c);
    let r1d = enc_usizes(st1.lcp@) + (enc_u64(st1.sequence_starts@.len() as u64) + (enc_usizes(
        st1.sequence_starts@,
    ) + enc_names(st1.sequence_names.deep_view())));
    let r2d = enc_usizes(st2.lcp@) + (enc_u64(st2.sequence_starts@.len() as u64) + (enc_usizes(
        st2.sequence_starts@,
    ) + enc_names(st2.sequence_names.deep_view())));
    lemma_enc_usizes_inj(st1.sa@, st2.sa@, r1d, r2d);
    let r1e = enc_u64(st1.sequence_starts@.len() as u64) + (enc_usizes(st1.sequence_starts@)
        + enc_names(st1.sequence_names.deep_view()));
    let r2e = enc_u64(st2.sequence_starts@.len() as u64) + (enc_usizes(st2.sequence_starts@)
        + enc_names(st2.sequence_names.deep_view()));
    lemma_enc_usizes_inj(st1.lcp@, st2.lcp@, r1e, r2e);
    let r1f = enc_usizes(st1.sequence_starts@) + enc_names(st1.sequence_names.deep_view());
    let r2f = enc_usizes(st2.sequence_starts@) + enc_names(st2.sequence_names.deep_view());
    lemma_enc_u64_inj(
        st1.sequence_starts@.len() as u64,
        st2.sequence_starts@.len() as u64,
        r1f,
        r2f,
    );
    lemma_enc_usizes_inj(
        st1.sequence_starts@,
        st2.sequence_starts@,
        enc_names(st1.sequence_names.deep_view()),
        enc_names(st2.sequence_names.deep_view()),
    );
    assert(st1.sequence_names.deep_view().len() == st1.sequence_names@.len());
    assert(st2.sequence_names.deep_view().len() == st2.sequence_names@.len());
    assert(enc_names(st1.sequence_names.deep_view()) + Seq::<u8>::empty() =~= enc_names(
        st1.sequence_names.deep_view(),
    ));
    assert(enc_names(st2.sequence_names.deep_view()) + Seq::<u8>::empty() =~= enc_names(
        st2.sequence_names.deep_view(),
    ));
    lemma_enc_names_inj(
        st1.sequence_names.deep_view(),
        st2.sequence_names.deep_view(),
        Seq::<u8>::empty(),
        Seq::<u8>::empty(),
    );
}

/// Round trip: one byte image describes one structure, so opening the
/// image a build wrote reproduces every flag, length, boundary and name
/// the configuration set.  `SuffixArray::new` pins the built structure to
/// the configuration, `serialize` writes `spec_image` of it, and `open`
/// only returns well-formed stores whose `spec_image` is the bytes given.
/// The bound on name lengths is the machine limit the length prefix forces.
pub proof fn lemma_image_round_trip(st1: &SuffixArray, st2: &SuffixArray)
    requires
        st1.wf(),
        st2.wf(),
        spec_image(st1) == spec_image(st2),
        st1.text@.len() <= u64::MAX,
        st2.text@.len() <= u64::MAX,
        st1.sequence_starts@.len() <= u64::MAX,
        st2.sequence_starts@.len() <= u64::MAX,
        (match st1.prof.seed_mask {
            Option::Some(m) => m@.len() <= u64::MAX,
            Option::None => true,
        }),
        (match st2.prof.seed_mask {
            Option::Some(m) => m@.len() <= u64::MAX,
            Option::None => true,
        }),
        forall|i: int|
            0 <= i < st1.sequence_names.deep_view().len() ==> #[trigger] encode_utf8(
                st1.sequence_names.deep_view()[i],
            ).len() <= u64::MAX,
        forall|i: int|
            0 <= i < st2.sequence_names.deep_view().len() ==> #[trigger] encode_utf8(
                st2.sequence_names.deep_view()[i],
            ).len() <= u64::MAX,
    ensures
        st1.version == st2.version,
        st1.prof.is_dna == st2.prof.is_dna,
        st1.prof.allow_ambiguity == st2.prof.allow_ambiguity,
        st1.prof.ignore_softmask == st2.prof.ignore_softmask,
        st1.prof.max_query_len == st2.prof.max_query_len,
        st1.prof@ == st2.prof@,
        st1.text@ == st2.text@,
        st1.sa@ == st2.sa@,
        st1.lcp@ == st2.lcp@,
        st1.sequence_starts@ == st2.sequence_starts@,
        st1.sequence_names.deep_view() == st2.sequence_names.deep_view(),
{
    lemma_round_trip_flags(st1, st2);
    lemma_round_trip_bound(st1, st2);
    lemma_round_trip_tail(st1, st2);
    assert(st1.prof@ == st2.prof@) by {
        match (st1.prof.max_query_len, st2.prof.max_query_len) {
            (Option::Some(a), Option::Some(b)) => {
                assert(a as nat == b as nat);
            },
            _ => {},
        }
    }
}

} // verus!
