//! The persisted byte image of a suffix array.
//!
//! The image is a fixed, seek-addressable layout: a header (format version,
//! the three alphabet flags, the optional maximum query length, the optional
//! seed mask), then the text, the suffix array, the longest-common-prefix
//! array, the sequence boundary table, and the record names.  All integers
//! are 64-bit little-endian; names and the mask are length-prefixed.  The
//! layout holds no timestamp and no path, so the image is a function of the
//! structure alone and rebuilding the same configuration rewrites the same
//! bytes.

use vstd::prelude::*;
use crate::store::SuffixArray;
use crate::types::SufrError;
use vstd::utf8::encode_utf8;

verus! {

/// Little-endian encoding of one integer.
pub open spec fn enc_u64(v: u64) -> Seq<u8> {
    Seq::new(8, |i: int| ((v >> (8 * i)) & 0xff) as u8)
}

/// The integer eight little-endian bytes denote.
pub open spec fn dec_u64(s: Seq<u8>) -> u64 {
    (s[0] as u64) | ((s[1] as u64) << 8) | ((s[2] as u64) << 16) | ((s[3] as u64) << 24) | ((
    s[4] as u64) << 32) | ((s[5] as u64) << 40) | ((s[6] as u64) << 48) | ((s[7] as u64) << 56)
}

/// One-byte encoding of a flag.
pub open spec fn enc_bool(b: bool) -> Seq<u8> {
    seq![
        if b {
            1u8
        } else {
            0u8
        }
    ]
}

/// The positions, each as eight little-endian bytes, in order.
pub open spec fn enc_usizes(s: Seq<usize>) -> Seq<u8>
    decreases s.len(),
{
    if s.len() == 0 {
        Seq::<u8>::empty()
    } else {
        enc_u64(s[0] as u64) + enc_usizes(s.drop_first())
    }
}

/// The mask bits, one byte each.
pub open spec fn enc_mask_bits(m: Seq<bool>) -> Seq<u8> {
    Seq::new(
        m.len(),
        |i: int|
            if m[i] {
                1u8
            } else {
                0u8
            },
    )
}

/// One record name: its UTF-8 length, then its UTF-8 bytes.
pub open spec fn enc_name(c: Seq<char>) -> Seq<u8> {
    enc_u64(encode_utf8(c).len() as u64) + encode_utf8(c)
}

/// The record names, in order.
pub open spec fn enc_names(ns: Seq<Seq<char>>) -> Seq<u8>
    decreases ns.len(),
{
    if ns.len() == 0 {
        Seq::<u8>::empty()
    } else {
        enc_name(ns[0]) + enc_names(ns.drop_first())
    }
}

/// The maximum-query-length header field: a presence flag and the value.
pub open spec fn enc_mql(o: Option<usize>) -> Seq<u8> {
    match o {
        Option::Some(l) => enc_bool(true) + enc_u64(l as u64),
        Option::None => enc_bool(false) + enc_u64(0),
    }
}

/// The seed-mask header field: a presence flag, the bit count, the bits.
pub open spec fn enc_mask(o: Option<Seq<bool>>) -> Seq<u8> {
    match o {
        Option::Some(m) => enc_bool(true) + enc_u64(m.len() as u64) + enc_mask_bits(m),
        Option::None => enc_bool(false) + enc_u64(0),
    }
}

/// The header: version, the three alphabet flags, the comparison bound,
/// the seed mask.
pub open spec fn enc_header(version: u64, prof: crate::order::SortProfile) -> Seq<u8> {
    enc_u64(version) + enc_bool(prof.is_dna) + enc_bool(prof.allow_ambiguity) + enc_bool(
        prof.ignore_softmask,
    ) + enc_mql(prof.max_query_len) + enc_mask(
        match prof.seed_mask {
            Option::Some(m) => Option::Some(m@),
            Option::None => Option::None,
        },
    )
}

/// The image after its header: lengths, text, arrays, boundary table and
/// names.
pub open spec fn image_tail(st: &SuffixArray) -> Seq<u8> {
    enc_u64(st.text@.len() as u64) + (st.text@ + (enc_u64(st.sa@.len() as u64) + (enc_usizes(
        st.sa@,
    ) + (enc_usizes(st.lcp@) + (enc_u64(st.sequence_starts@.len() as u64) + (enc_usizes(
        st.sequence_starts@,
    ) + enc_names(st.sequence_names.deep_view())))))))
}

/// The image from the comparison bound onward.
pub open spec fn bound_tail(st: &SuffixArray) -> Seq<u8> {
    enc_mql(st.prof.max_query_len) + (enc_mask(
        match st.prof.seed_mask {
            Option::Some(m) => Option::Some(m@),
            Option::None => Option::None,
        },
    ) + image_tail(st))
}

/// The whole image of a store's structural content.
pub open spec fn spec_image(st: &SuffixArray) -> Seq<u8> {
    enc_u64(st.version) + (enc_bool(st.prof.is_dna) + (enc_bool(st.prof.allow_ambiguity) + (
    enc_bool(st.prof.ignore_softmask) + bound_tail(st))))
}

/// The image, flattened: header first, then each structural field in
/// order.
pub proof fn lemma_image_flat(st: &SuffixArray)
    ensures
        spec_image(st) == enc_header(st.version, st.prof) + enc_u64(st.text@.len() as u64)
            + st.text@ + enc_u64(st.sa@.len() as u64) + enc_usizes(st.sa@) + enc_usizes(st.lcp@)
            + enc_u64(st.sequence_starts@.len() as u64) + enc_usizes(st.sequence_starts@)
            + enc_names(st.sequence_names.deep_view()),
{
    let a = enc_u64(st.version);
    let b = enc_bool(st.prof.is_dna);
    let c = enc_bool(st.prof.allow_ambiguity);
    let d = enc_bool(st.prof.ignore_softmask);
    let e = enc_mql(st.prof.max_query_len);
    let f = enc_mask(
        match st.prof.seed_mask {
            Option::Some(m) => Option::Some(m@),
            Option::None => Option::None,
        },
    );
    let g = enc_u64(st.text@.len() as u64);
    let h = st.text@;
    let i = enc_u64(st.sa@.len() as u64);
    let j = enc_usizes(st.sa@);
    let k = enc_usizes(st.lcp@);
    let l = enc_u64(st.sequence_starts@.len() as u64);
    let m = enc_usizes(st.sequence_starts@);
    let n = enc_names(st.sequence_names.deep_view());
    let r13 = m + n;
    let r12 = l + r13;
    let r11 = k + r12;
    let r10 = j + r11;
    let r9 = i + r10;
    let r8 = h + r9;
    let r7 = g + r8;
    let r6 = f + r7;
    let r5 = e + r6;
    let r4 = d + r5;
    let r3 = c + r4;
    let r2 = b + r3;
    assert(spec_image(st) == a + r2);
    vstd::seq_lib::lemma_concat_associative(a, b, r3);
    vstd::seq_lib::lemma_concat_associative(a + b, c, r4);
    vstd::seq_lib::lemma_concat_associative(a + b + c, d, r5);
    vstd::seq_lib::lemma_concat_associative(a + b + c + d, e, r6);
    vstd::seq_lib::lemma_concat_associative(a + b + c + d + e, f, r7);
    vstd::seq_lib::lemma_concat_associative(a + b + c + d + e + f, g, r8);
    vstd::seq_lib::lemma_concat_associative(a + b + c + d + e + f + g, h, r9);
    vstd::seq_lib::lemma_concat_associative(a + b + c + d + e + f + g + h, i, r10);
    vstd::seq_lib::lemma_concat_associative(a + b + c + d + e + f + g + h + i, j, r11);
    vstd::seq_lib::lemma_concat_associative(a + b + c + d + e + f + g + h + i + j, k, r12);
    vstd::seq_lib::lemma_concat_associative(a + b + c + d + e + f + g + h + i + j + k, l, r13);
    vstd::seq_lib::lemma_concat_associative(a + b + c + d + e + f + g + h + i + j + k + l, m, n);
    assert(enc_header(st.version, st.prof) == a + b + c + d + e + f);
}


/// The seed mask as an optional bit sequence.
pub open spec fn prof_mask_view(p: &crate::order::SortProfile) -> Option<Seq<bool>> {
    match p.seed_mask {
        Option::Some(m) => Option::Some(m@),
        Option::None => Option::None,
    }
}

/// How many mask bytes the image of a store holds.
pub open spec fn mask_span(st: &SuffixArray) -> int {
    match st.prof.seed_mask {
        Option::Some(m) => m@.len() as int,
        Option::None => 0,
    }
}

/// Offsets of the image's regions, in terms of the store they encode:
/// the text bytes start after the fixed 29-byte header frame, the mask
/// bits, and the text-length field.
pub open spec fn q_text(st: &SuffixArray) -> int {
    37 + mask_span(st)
}

pub open spec fn q_salen(st: &SuffixArray) -> int {
    q_text(st) + st.text@.len()
}

pub open spec fn q_sa(st: &SuffixArray) -> int {
    q_salen(st) + 8
}

pub open spec fn q_lcp(st: &SuffixArray) -> int {
    q_sa(st) + 8 * (st.text@.len() - 1)
}

pub open spec fn q_nseq(st: &SuffixArray) -> int {
    q_lcp(st) + 8 * (st.text@.len() - 1)
}

pub open spec fn q_starts(st: &SuffixArray) -> int {
    q_nseq(st) + 8
}

pub open spec fn q_names(st: &SuffixArray) -> int {
    q_starts(st) + 8 * st.sequence_starts@.len()
}

/// The bounds the 64-bit length prefixes and the platform force on a
/// store's structural fields; every store an executable program can hold
/// meets them.
pub open spec fn bounded_store(st: &SuffixArray) -> bool {
    &&& st.text@.len() <= usize::MAX
    &&& st.sequence_starts@.len() <= usize::MAX
    &&& match st.prof.seed_mask {
        Option::Some(m) => m@.len() <= usize::MAX,
        Option::None => true,
    }
    &&& forall|i: int|
        0 <= i < st.sequence_names.deep_view().len() ==> #[trigger] encode_utf8(
            st.sequence_names.deep_view()[i],
        ).len() <= usize::MAX
}

/// Some well-formed, machine-representable store serializes to exactly
/// these bytes.
pub open spec fn valid_image(bs: Seq<u8>) -> bool {
    exists|st: SuffixArray| st.wf() && bounded_store(&st) && #[trigger] spec_image(&st) == bs
}

/// The store a valid image encodes.
pub open spec fn witness_store(bs: Seq<u8>) -> SuffixArray {
    choose|st: SuffixArray| st.wf() && bounded_store(&st) && spec_image(&st) == bs
}

/// A well-formed, machine-representable store's image is valid; together
/// with `serialize`, this owes `open` success on every image a build
/// writes.
pub proof fn lemma_serialize_valid(st: &SuffixArray)
    requires
        st.wf(),
        bounded_store(st),
    ensures
        valid_image(spec_image(st)),
{
    assert(st.wf() && bounded_store(st) && spec_image(st) == spec_image(st));
}

/// A run of encoded positions is eight bytes per position.
pub proof fn lemma_enc_usizes_len(s: Seq<usize>)
    ensures
        enc_usizes(s).len() == 8 * s.len(),
    decreases s.len(),
{
    if s.len() > 0 {
        lemma_enc_usizes_len(s.drop_first());
    }
}

/// Splitting a concatenation recovers its parts as subranges.
proof fn lemma_subrange_split(bs: Seq<u8>, a: int, b: int, x: Seq<u8>, y: Seq<u8>)
    requires
        0 <= a <= b <= bs.len(),
        bs.subrange(a, b) == x + y,
    ensures
        b - a == x.len() + y.len(),
        bs.subrange(a, a + x.len()) == x,
        bs.subrange(a + x.len(), b) == y,
{
    assert((x + y).len() == x.len() + y.len());
    assert forall|i: int| 0 <= i < x.len() implies bs.subrange(a, a + x.len() as int)[i]
        == x[i] by {
        assert(bs.subrange(a, b)[i] == (x + y)[i]);
        assert((x + y)[i] == x[i]);
    }
    assert(bs.subrange(a, a + x.len() as int) =~= x);
    assert forall|i: int| 0 <= i < y.len() implies bs.subrange(a + x.len() as int, b)[i]
        == y[i] by {
        assert(bs.subrange(a, b)[x.len() + i] == (x + y)[x.len() + i]);
        assert((x + y)[x.len() + i] == y[i]);
    }
    assert(bs.subrange(a + x.len() as int, b) =~= y);
}

/// One block of a run of encoded positions is that position's encoding.
proof fn lemma_enc_usizes_block(s: Seq<usize>, k: int)
    requires
        0 <= k < s.len(),
    ensures
        enc_usizes(s).subrange(8 * k, 8 * k + 8) == enc_u64(s[k] as u64),
    decreases k,
{
    lemma_enc_usizes_len(s);
    lemma_enc_usizes_len(s.drop_first());
    assert(enc_usizes(s).subrange(0, enc_usizes(s).len() as int) =~= enc_usizes(s));
    if k == 0 {
        lemma_subrange_split(
            enc_usizes(s),
            0,
            enc_usizes(s).len() as int,
            enc_u64(s[0] as u64),
            enc_usizes(s.drop_first()),
        );
    } else {
        lemma_enc_usizes_block(s.drop_first(), k - 1);
        lemma_subrange_split(
            enc_usizes(s),
            0,
            enc_usizes(s).len() as int,
            enc_u64(s[0] as u64),
            enc_usizes(s.drop_first()),
        );
        assert(enc_usizes(s).subrange(8 * k, 8 * k + 8) =~= enc_usizes(s.drop_first()).subrange(
            8 * (k - 1),
            8 * (k - 1) + 8,
        ));
    }
}

/// A run of encoded names splits at any point.
proof fn lemma_enc_names_split(ns: Seq<Seq<char>>, k: int)
    requires
        0 <= k <= ns.len(),
    ensures
        enc_names(ns) == enc_names(ns.take(k)) + enc_names(ns.skip(k)),
    decreases k,
{
    if k == 0 {
        assert(ns.take(0) =~= Seq::<Seq<char>>::empty());
        assert(ns.skip(0) =~= ns);
        assert(enc_names(ns.take(0)) + enc_names(ns.skip(0)) =~= enc_names(ns));
    } else {
        lemma_enc_names_take(ns, k - 1);
        lemma_enc_names_split(ns, k - 1);
        assert(ns.skip(k - 1).len() > 0);
        assert(ns.skip(k - 1)[0] == ns[k - 1]);
        assert(ns.skip(k - 1).drop_first() =~= ns.skip(k));
        assert(enc_names(ns.skip(k - 1)) == enc_name(ns[k - 1]) + enc_names(ns.skip(k)));
        assert(enc_names(ns.take(k)) + enc_names(ns.skip(k)) =~= (enc_names(ns.take(k - 1))
            + enc_name(ns[k - 1])) + enc_names(ns.skip(k)));
        assert((enc_names(ns.take(k - 1)) + enc_name(ns[k - 1])) + enc_names(ns.skip(k))
            =~= enc_names(ns.take(k - 1)) + (enc_name(ns[k - 1]) + enc_names(ns.skip(k))));
        assert(enc_names(ns.take(k - 1)) + (enc_name(ns[k - 1]) + enc_names(ns.skip(k)))
            =~= enc_names(ns.take(k - 1)) + enc_names(ns.skip(k - 1)));
    }
}

/// The regions of a store's image, each recovered at its own offset.
#[verifier::rlimit(100)]
pub proof fn lemma_image_explode(st: &SuffixArray, bs: Seq<u8>)
    requires
        st.wf(),
        spec_image(st) == bs,
    ensures
        bs.len() == q_names(st) + enc_names(st.sequence_names.deep_view()).len(),
        bs.subrange(0, 8) == enc_u64(st.version),
        bs.subrange(8, 9) == enc_bool(st.prof.is_dna),
        bs.subrange(9, 10) == enc_bool(st.prof.allow_ambiguity),
        bs.subrange(10, 11) == enc_bool(st.prof.ignore_softmask),
        bs.subrange(11, 12) == enc_bool(st.prof.max_query_len is Some),
        bs.subrange(12, 20) == enc_u64(
            match st.prof.max_query_len {
                Option::Some(l) => l as u64,
                Option::None => 0,
            },
        ),
        bs.subrange(20, 21) == enc_bool(st.prof.seed_mask is Some),
        bs.subrange(21, 29) == enc_u64(mask_span(st) as u64),
        bs.subrange(29, 29 + mask_span(st)) == (match st.prof.seed_mask {
            Option::Some(m) => enc_mask_bits(m@),
            Option::None => Seq::<u8>::empty(),
        }),
        bs.subrange(29 + mask_span(st), q_text(st)) == enc_u64(st.text@.len() as u64),
        bs.subrange(q_text(st), q_salen(st)) == st.text@,
        bs.subrange(q_salen(st), q_sa(st)) == enc_u64(st.sa@.len() as u64),
        bs.subrange(q_sa(st), q_lcp(st)) == enc_usizes(st.sa@),
        bs.subrange(q_lcp(st), q_nseq(st)) == enc_usizes(st.lcp@),
        bs.subrange(q_nseq(st), q_starts(st)) == enc_u64(st.sequence_starts@.len() as u64),
        bs.subrange(q_starts(st), q_names(st)) == enc_usizes(st.sequence_starts@),
        bs.subrange(q_names(st), bs.len() as int) == enc_names(st.sequence_names.deep_view()),
{
    let ml = mask_span(st);
    let mv = prof_mask_view(&st.prof);
    let mqlb = st.prof.max_query_len is Some;
    let mqlv: u64 = match st.prof.max_query_len {
        Option::Some(l) => l as u64,
        Option::None => 0,
    };
    let maskb = st.prof.seed_mask is Some;
    let bits: Seq<u8> = match st.prof.seed_mask {
        Option::Some(m) => enc_mask_bits(m@),
        Option::None => Seq::<u8>::empty(),
    };
    assert(enc_mql(st.prof.max_query_len) == enc_bool(mqlb) + enc_u64(mqlv));
    assert(enc_mask(mv) =~= (enc_bool(maskb) + enc_u64(ml as u64)) + bits);
    lemma_enc_usizes_len(st.sa@);
    lemma_enc_usizes_len(st.lcp@);
    lemma_enc_usizes_len(st.sequence_starts@);
    assert(st.lcp@.len() == st.sa@.len());
    // peel the right-nested image, field by field
    let t1 = enc_bool(st.prof.is_dna) + (enc_bool(st.prof.allow_ambiguity) + (enc_bool(
        st.prof.ignore_softmask,
    ) + bound_tail(st)));
    assert(bs == enc_u64(st.version) + t1);
    assert(bs.subrange(0, bs.len() as int) =~= bs);
    lemma_subrange_split(bs, 0, bs.len() as int, enc_u64(st.version), t1);
    let t2 = enc_bool(st.prof.allow_ambiguity) + (enc_bool(st.prof.ignore_softmask) + bound_tail(
        st,
    ));
    lemma_subrange_split(bs, 8, bs.len() as int, enc_bool(st.prof.is_dna), t2);
    let t3 = enc_bool(st.prof.ignore_softmask) + bound_tail(st);
    lemma_subrange_split(bs, 9, bs.len() as int, enc_bool(st.prof.allow_ambiguity), t3);
    lemma_subrange_split(bs, 10, bs.len() as int, enc_bool(st.prof.ignore_softmask), bound_tail(st));
    let t5 = enc_mask(mv) + image_tail(st);
    assert(bound_tail(st) =~= enc_bool(mqlb) + (enc_u64(mqlv) + t5));
    lemma_subrange_split(bs, 11, bs.len() as int, enc_bool(mqlb), enc_u64(mqlv) + t5);
    lemma_subrange_split(bs, 12, bs.len() as int, enc_u64(mqlv), t5);
    assert(t5 =~= enc_bool(maskb) + (enc_u64(ml as u64) + (bits + image_tail(st))));
    lemma_subrange_split(bs, 20, bs.len() as int, enc_bool(maskb), enc_u64(ml as u64) + (bits
        + image_tail(st)));
    lemma_subrange_split(bs, 21, bs.len() as int, enc_u64(ml as u64), bits + image_tail(st));
    lemma_subrange_split(bs, 29, bs.len() as int, bits, image_tail(st));
    let u1 = st.text@ + (enc_u64(st.sa@.len() as u64) + (enc_usizes(st.sa@) + (enc_usizes(st.lcp@)
        + (enc_u64(st.sequence_starts@.len() as u64) + (enc_usizes(st.sequence_starts@)
        + enc_names(st.sequence_names.deep_view()))))));
    assert(image_tail(st) == enc_u64(st.text@.len() as u64) + u1);
    lemma_subrange_split(bs, 29 + ml, bs.len() as int, enc_u64(st.text@.len() as u64), u1);
    let u2 = enc_u64(st.sa@.len() as u64) + (enc_usizes(st.sa@) + (enc_usizes(st.lcp@) + (enc_u64(
        st.sequence_starts@.len() as u64,
    ) + (enc_usizes(st.sequence_starts@) + enc_names(st.sequence_names.deep_view())))));
    lemma_subrange_split(bs, q_text(st), bs.len() as int, st.text@, u2);
    let u3 = enc_usizes(st.sa@) + (enc_usizes(st.lcp@) + (enc_u64(st.sequence_starts@.len() as u64)
        + (enc_usizes(st.sequence_starts@) + enc_names(st.sequence_names.deep_view()))));
    lemma_subrange_split(bs, q_salen(st), bs.len() as int, enc_u64(st.sa@.len() as u64), u3);
    let u4 = enc_usizes(st.lcp@) + (enc_u64(st.sequence_starts@.len() as u64) + (enc_usizes(
        st.sequence_starts@,
    ) + enc_names(st.sequence_names.deep_view())));
    lemma_subrange_split(bs, q_sa(st), bs.len() as int, enc_usizes(st.sa@), u4);
    let u5 = enc_u64(st.sequence_starts@.len() as u64) + (enc_usizes(st.sequence_starts@)
        + enc_names(st.sequence_names.deep_view()));
    lemma_subrange_split(bs, q_lcp(st), bs.len() as int, enc_usizes(st.lcp@), u5);
    let u6 = enc_usizes(st.sequence_starts@) + enc_names(st.sequence_names.deep_view());
    lemma_subrange_split(
        bs,
        q_nseq(st),
        bs.len() as int,
        enc_u64(st.sequence_starts@.len() as u64),
        u6,
    );
    lemma_subrange_split(
        bs,
        q_starts(st),
        bs.len() as int,
        enc_usizes(st.sequence_starts@),
        enc_names(st.sequence_names.deep_view()),
    );
    assert(bs.subrange(q_names(st), bs.len() as int) =~= enc_names(
        st.sequence_names.deep_view(),
    ));
}

/// Encoding then decoding one integer is the identity.
pub proof fn lemma_u64_codec(v: u64)
    ensures
        dec_u64(enc_u64(v)) == v,
{
    let s = enc_u64(v);
    assert(s[0] == ((v >> 0) & 0xff) as u8);
    assert(s[1] == ((v >> 8) & 0xff) as u8);
    assert(s[2] == ((v >> 16) & 0xff) as u8);
    assert(s[3] == ((v >> 24) & 0xff) as u8);
    assert(s[4] == ((v >> 32) & 0xff) as u8);
    assert(s[5] == ((v >> 40) & 0xff) as u8);
    assert(s[6] == ((v >> 48) & 0xff) as u8);
    assert(s[7] == ((v >> 56) & 0xff) as u8);
    assert((((v >> 0) & 0xff) as u8 as u64) | ((((v >> 8) & 0xff) as u8 as u64) << 8) | ((((v
        >> 16) & 0xff) as u8 as u64) << 16) | ((((v >> 24) & 0xff) as u8 as u64) << 24) | ((((v
        >> 32) & 0xff) as u8 as u64) << 32) | ((((v >> 40) & 0xff) as u8 as u64) << 40) | ((((v
        >> 48) & 0xff) as u8 as u64) << 48) | ((((v >> 56) & 0xff) as u8 as u64) << 56) == v)
        by (bit_vector);
}

/// Appending the encoding of one more position extends the encoding of a
/// prefix of positions.
pub proof fn lemma_enc_usizes_take(s: Seq<usize>, i: int)
    requires
        0 <= i < s.len(),
    ensures
        enc_usizes(s.take(i + 1)) == enc_usizes(s.take(i)) + enc_u64(s[i] as u64),
    decreases i,
{
    if i == 0 {
        assert(s.take(1) =~= seq![s[0]]);
        assert(s.take(1).drop_first() =~= Seq::<usize>::empty());
        assert(s.take(0) =~= Seq::<usize>::empty());
        assert(enc_usizes(s.take(1)) =~= enc_usizes(s.take(0)) + enc_u64(s[0] as u64));
    } else {
        let d = s.drop_first();
        lemma_enc_usizes_take(d, i - 1);
        assert(s.take(i + 1).drop_first() =~= d.take(i));
        assert(s.take(i).drop_first() =~= d.take(i - 1));
        assert(s.take(i + 1)[0] == s[0]);
        assert(s.take(i)[0] == s[0]);
        assert(enc_usizes(s.take(i + 1)) =~= enc_usizes(s.take(i)) + enc_u64(s[i] as u64));
    }
}

/// The same, for the encoding of a prefix of the names.
pub proof fn lemma_enc_names_take(ns: Seq<Seq<char>>, i: int)
    requires
        0 <= i < ns.len(),
    ensures
        enc_names(ns.take(i + 1)) == enc_names(ns.take(i)) + enc_name(ns[i]),
    decreases i,
{
    if i == 0 {
        assert(ns.take(1) =~= seq![ns[0]]);
        assert(ns.take(1).drop_first() =~= Seq::<Seq<char>>::empty());
        assert(ns.take(0) =~= Seq::<Seq<char>>::empty());
        assert(enc_names(ns.take(1)) =~= enc_names(ns.take(0)) + enc_name(ns[0]));
    } else {
        let d = ns.drop_first();
        lemma_enc_names_take(d, i - 1);
        assert(ns.take(i + 1).drop_first() =~= d.take(i));
        assert(ns.take(i).drop_first() =~= d.take(i - 1));
        assert(ns.take(i + 1)[0] == ns[0]);
        assert(ns.take(i)[0] == ns[0]);
        assert(enc_names(ns.take(i + 1)) =~= enc_names(ns.take(i)) + enc_name(ns[i]));
    }
}

/// Appends the little-endian encoding of one integer.
pub fn push_u64(out: &mut Vec<u8>, v: u64)
    ensures
        final(out)@ == old(out)@ + enc_u64(v),
{
    out.push((v & 0xff) as u8);
    out.push(((v >> 8) & 0xff) as u8);
    out.push(((v >> 16) & 0xff) as u8);
    out.push(((v >> 24) & 0xff) as u8);
    out.push(((v >> 32) & 0xff) as u8);
    out.push(((v >> 40) & 0xff) as u8);
    out.push(((v >> 48) & 0xff) as u8);
    out.push(((v >> 56) & 0xff) as u8);
    proof {
        assert((v & 0xff) as u8 == ((v >> 0) & 0xff) as u8) by (bit_vector);
        assert(out@ =~= old(out)@ + enc_u64(v));
    }
}

/// Appends one flag byte.
pub fn push_bool(out: &mut Vec<u8>, b: bool)
    ensures
        final(out)@ == old(out)@ + enc_bool(b),
{
    out.push(
        if b {
            1u8
        } else {
            0u8
        },
    );
    proof {
        assert(out@ =~= old(out)@ + enc_bool(b));
    }
}

/// Reads the integer encoded at `off`.
pub fn read_u64(bytes: &Vec<u8>, off: usize) -> (r: u64)
    requires
        off + 8 <= bytes@.len(),
    ensures
        r == dec_u64(bytes@.subrange(off as int, off as int + 8)),
        bytes@.subrange(off as int, off as int + 8) == enc_u64(r),
{
    let n = bytes.len();
    let b0 = bytes[off];
    let b1 = bytes[off + 1];
    let b2 = bytes[off + 2];
    let b3 = bytes[off + 3];
    let b4 = bytes[off + 4];
    let b5 = bytes[off + 5];
    let b6 = bytes[off + 6];
    let b7 = bytes[off + 7];
    let r = (b0 as u64) | ((b1 as u64) << 8) | ((b2 as u64) << 16) | ((b3 as u64) << 24) | ((
    b4 as u64) << 32) | ((b5 as u64) << 40) | ((b6 as u64) << 48) | ((b7 as u64) << 56);
    proof {
        let s = bytes@.subrange(off as int, off as int + 8);
        assert(s[0] == b0 && s[1] == b1 && s[2] == b2 && s[3] == b3 && s[4] == b4 && s[5] == b5
            && s[6] == b6 && s[7] == b7);
        assert(r == dec_u64(s));
        lemma_enc_of_bytes(b0, b1, b2, b3, b4, b5, b6, b7);
        assert(s =~= enc_u64(r));
    }
    r
}

/// The little-endian encoding of the integer eight bytes denote is those
/// eight bytes again.
proof fn lemma_enc_of_bytes(b0: u8, b1: u8, b2: u8, b3: u8, b4: u8, b5: u8, b6: u8, b7: u8)
    ensures
        ({
            let r = (b0 as u64) | ((b1 as u64) << 8) | ((b2 as u64) << 16) | ((b3 as u64) << 24) | (
            (b4 as u64) << 32) | ((b5 as u64) << 40) | ((b6 as u64) << 48) | ((b7 as u64) << 56);
            &&& ((r >> 0) & 0xff) as u8 == b0
            &&& ((r >> 8) & 0xff) as u8 == b1
            &&& ((r >> 16) & 0xff) as u8 == b2
            &&& ((r >> 24) & 0xff) as u8 == b3
            &&& ((r >> 32) & 0xff) as u8 == b4
            &&& ((r >> 40) & 0xff) as u8 == b5
            &&& ((r >> 48) & 0xff) as u8 == b6
            &&& ((r >> 56) & 0xff) as u8 == b7
        }),
{
    assert(({
        let r = (b0 as u64) | ((b1 as u64) << 8) | ((b2 as u64) << 16) | ((b3 as u64) << 24) | ((
        b4 as u64) << 32) | ((b5 as u64) << 40) | ((b6 as u64) << 48) | ((b7 as u64) << 56);
        &&& ((r >> 0) & 0xff) as u8 == b0
        &&& ((r >> 8) & 0xff) as u8 == b1
        &&& ((r >> 16) & 0xff) as u8 == b2
        &&& ((r >> 24) & 0xff) as u8 == b3
        &&& ((r >> 32) & 0xff) as u8 == b4
        &&& ((r >> 40) & 0xff) as u8 == b5
        &&& ((r >> 48) & 0xff) as u8 == b6
        &&& ((r >> 56) & 0xff) as u8 == b7
    })) by (bit_vector);
}

impl SuffixArray {
    /// Serializes the structure to its byte image.
    #[verifier::rlimit(100)]
    pub fn serialize(&self) -> (r: Vec<u8>)
        requires
            self.wf(),
        ensures
            r@ == spec_image(self),
    {
        let mut out: Vec<u8> = Vec::new();
        push_u64(&mut out, self.version);
        push_bool(&mut out, self.prof.is_dna);
        push_bool(&mut out, self.prof.allow_ambiguity);
        push_bool(&mut out, self.prof.ignore_softmask);
        match self.prof.max_query_len {
            Option::Some(l) => {
                push_bool(&mut out, true);
                push_u64(&mut out, l as u64);
            },
            Option::None => {
                push_bool(&mut out, false);
                push_u64(&mut out, 0);
            },
        }
        match &self.prof.seed_mask {
            Option::Some(m) => {
                push_bool(&mut out, true);
                push_u64(&mut out, m.len() as u64);
                let ghost head = out@;
                let mut i: usize = 0;
                while i < m.len()
                    invariant
                        i <= m@.len(),
                        out@ == head + enc_mask_bits(m@.take(i as int)),
                    decreases m@.len() - i,
                {
                    out.push(
                        if m[i] {
                            1u8
                        } else {
                            0u8
                        },
                    );
                    i = i + 1;
                    proof {
                        assert(out@ =~= head + enc_mask_bits(m@.take(i as int)));
                    }
                }
                proof {
                    assert(m@.take(m@.len() as int) =~= m@);
                }
            },
            Option::None => {
                push_bool(&mut out, false);
                push_u64(&mut out, 0);
            },
        }
        push_u64(&mut out, self.text.len() as u64);
        let ghost head_text = out@;
        let mut i: usize = 0;
        while i < self.text.len()
            invariant
                i <= self.text@.len(),
                out@ == head_text + self.text@.take(i as int),
            decreases self.text@.len() - i,
        {
            out.push(self.text[i]);
            i = i + 1;
            proof {
                assert(out@ =~= head_text + self.text@.take(i as int));
            }
        }
        proof {
            assert(self.text@.take(self.text@.len() as int) =~= self.text@);
        }
        push_u64(&mut out, self.sa.len() as u64);
        push_usizes(&mut out, &self.sa);
        push_usizes(&mut out, &self.lcp);
        push_u64(&mut out, self.sequence_starts.len() as u64);
        push_usizes(&mut out, &self.sequence_starts);
        let ghost head_names = out@;
        let mut t: usize = 0;
        while t < self.sequence_names.len()
            invariant
                t <= self.sequence_names@.len(),
                out@ == head_names + enc_names(self.sequence_names.deep_view().take(t as int)),
            decreases self.sequence_names@.len() - t,
        {
            let nb = self.sequence_names[t].as_str().as_bytes();
            let ghost before = out@;
            push_u64(&mut out, nb.len() as u64);
            let ghost head_one = out@;
            let mut b: usize = 0;
            while b < nb.len()
                invariant
                    b <= nb@.len(),
                    out@ == head_one + nb@.take(b as int),
                decreases nb@.len() - b,
            {
                out.push(nb[b]);
                b = b + 1;
                proof {
                    assert(out@ =~= head_one + nb@.take(b as int));
                }
            }
            proof {
                assert(nb@.take(nb@.len() as int) =~= nb@);
                assert(out@ =~= before + enc_name(self.sequence_names@[t as int]@));
                lemma_enc_names_take(self.sequence_names.deep_view(), t as int);
                assert(self.sequence_names.deep_view()[t as int]
                    == self.sequence_names@[t as int]@);
                assert(out@ =~= head_names + enc_names(
                    self.sequence_names.deep_view().take(t as int + 1),
                ));
            }
            t = t + 1;
        }
        proof {
            assert(self.sequence_names.deep_view().take(self.sequence_names@.len() as int)
                =~= self.sequence_names.deep_view());
            lemma_image_flat(self);
            assert(out@ =~= enc_header(self.version, self.prof) + enc_u64(
                self.text@.len() as u64,
            ) + self.text@ + enc_u64(self.sa@.len() as u64) + enc_usizes(self.sa@) + enc_usizes(
                self.lcp@,
            ) + enc_u64(self.sequence_starts@.len() as u64) + enc_usizes(self.sequence_starts@)
                + enc_names(self.sequence_names.deep_view()));
        }
        out
    }
}

/// Reads the integer at `off` together with the next offset.
fn take_u64(bytes: &Vec<u8>, off: usize) -> (r: Result<(u64, usize), SufrError>)
    ensures
        r is Ok ==> ({
            let (v, no) = r->Ok_0;
            &&& off + 8 <= bytes@.len()
            &&& no == off + 8
            &&& bytes@.subrange(off as int, no as int) == enc_u64(v)
        }),
        r is Err ==> r->Err_0 == SufrError::Format,
        r is Err ==> off + 8 > bytes@.len(),
{
    let n = bytes.len();
    if off > n || n - off < 8 {
        return Result::Err(SufrError::Format);
    }
    let v = read_u64(bytes, off);
    Result::Ok((v, off + 8))
}

/// Reads the integer at `off` as a position, refusing one the platform
/// cannot index.
fn take_usize(bytes: &Vec<u8>, off: usize) -> (r: Result<(usize, usize), SufrError>)
    ensures
        r is Ok ==> ({
            let (v, no) = r->Ok_0;
            &&& off + 8 <= bytes@.len()
            &&& no == off + 8
            &&& bytes@.subrange(off as int, no as int) == enc_u64(v as u64)
        }),
        r is Err ==> r->Err_0 == SufrError::Format,
        r is Err ==> off + 8 > bytes@.len() || dec_u64(
            bytes@.subrange(off as int, off as int + 8),
        ) > usize::MAX as u64,
{
    let (v, no) = match take_u64(bytes, off) {
        Result::Ok(p) => p,
        Result::Err(e) => {
            return Result::Err(e);
        },
    };
    if v > usize::MAX as u64 {
        proof {
            lemma_u64_codec(v);
        }
        return Result::Err(SufrError::Format);
    }
    Result::Ok((v as usize, no))
}

/// Reads the flag byte at `off`, refusing anything but 0 and 1.
fn take_bool(bytes: &Vec<u8>, off: usize) -> (r: Result<(bool, usize), SufrError>)
    ensures
        r is Ok ==> ({
            let (b, no) = r->Ok_0;
            &&& off + 1 <= bytes@.len()
            &&& no == off + 1
            &&& bytes@.subrange(off as int, no as int) == enc_bool(b)
        }),
        r is Err ==> r->Err_0 == SufrError::Format,
        r is Err ==> off >= bytes@.len() || bytes@[off as int] > 1,
{
    let n = bytes.len();
    if off >= n {
        return Result::Err(SufrError::Format);
    }
    let b = bytes[off];
    if b > 1 {
        return Result::Err(SufrError::Format);
    }
    proof {
        assert(bytes@.subrange(off as int, off as int + 1) =~= enc_bool(b == 1));
    }
    Result::Ok((b == 1, off + 1))
}

/// Adjacent strict order extends to every pair of ranks.
proof fn lemma_sa_pairwise(text: Seq<u8>, pr: crate::order::ProfView, sa: Seq<usize>, i: int, j: int)
    requires
        forall|t: int|
            0 <= t < sa.len() - 1 ==> crate::order::suffix_lt(
                text,
                pr,
                #[trigger] sa[t] as int,
                sa[t + 1] as int,
            ),
        0 <= i < j < sa.len(),
    ensures
        crate::order::suffix_lt(text, pr, sa[i] as int, sa[j] as int),
    decreases j - i,
{
    if j == i + 1 {
    } else {
        lemma_sa_pairwise(text, pr, sa, i, j - 1);
        crate::order::lemma_suffix_lt_trans(text, pr, sa[i] as int, sa[j - 1] as int, sa[j] as int);
    }
}

/// Parses and checks the header of an image: the format version, the three
/// alphabet flags, the optional comparison bound, and the optional seed
/// mask, which must be nonempty and include at least one offset.  On a
/// valid image it succeeds and agrees with the store the image encodes.
#[verifier::rlimit(100)]
fn parse_header(bytes: &Vec<u8>) -> (r: Result<(crate::order::SortProfile, usize), SufrError>)
    ensures
        r is Ok ==> ({
            let (prof, off) = r->Ok_0;
            &&& off <= bytes@.len()
            &&& bytes@.subrange(0, off as int) == enc_header(crate::store::FORMAT_VERSION, prof)
            &&& match prof.seed_mask {
                Option::Some(m) => m@.len() >= 1 && (exists|i: int| 0 <= i < m@.len() && m@[i]),
                Option::None => true,
            }
        }),
        r is Err ==> r->Err_0 == SufrError::Format,
        valid_image(bytes@) ==> r is Ok,
        (valid_image(bytes@) && r is Ok) ==> ({
            let w = witness_store(bytes@);
            let (prof, off) = r->Ok_0;
            &&& prof.is_dna == w.prof.is_dna
            &&& prof.allow_ambiguity == w.prof.allow_ambiguity
            &&& prof.ignore_softmask == w.prof.ignore_softmask
            &&& prof.max_query_len == w.prof.max_query_len
            &&& prof_mask_view(&prof) == prof_mask_view(&w.prof)
            &&& off as int == 29 + mask_span(&w)
        }),
{
    proof {
        if valid_image(bytes@) {
            let w = witness_store(bytes@);
            lemma_image_explode(&w, bytes@);
            lemma_u64_codec(w.version);
            lemma_u64_codec(
                match w.prof.max_query_len {
                    Option::Some(l) => l as u64,
                    Option::None => 0,
                },
            );
            lemma_u64_codec(mask_span(&w) as u64);
            assert(bytes@.len() >= 37);
            assert(bytes@[8] == bytes@.subrange(8, 9)[0]);
            assert(bytes@[9] == bytes@.subrange(9, 10)[0]);
            assert(bytes@[10] == bytes@.subrange(10, 11)[0]);
            assert(bytes@[11] == bytes@.subrange(11, 12)[0]);
            assert(bytes@[20] == bytes@.subrange(20, 21)[0]);
        }
    }
    let (version, o1) = match take_u64(bytes, 0) {
        Result::Ok(p) => p,
        Result::Err(e) => {
            return Result::Err(e);
        },
    };
    proof {
        if valid_image(bytes@) {
            lemma_u64_codec(version);
            assert(version == witness_store(bytes@).version);
        }
    }
    if version != crate::store::FORMAT_VERSION {
        return Result::Err(SufrError::Format);
    }
    let (is_dna, o2) = match take_bool(bytes, o1) {
        Result::Ok(p) => p,
        Result::Err(e) => {
            return Result::Err(e);
        },
    };
    let (allow_ambiguity, o3) = match take_bool(bytes, o2) {
        Result::Ok(p) => p,
        Result::Err(e) => {
            return Result::Err(e);
        },
    };
    let (ignore_softmask, o4) = match take_bool(bytes, o3) {
        Result::Ok(p) => p,
        Result::Err(e) => {
            return Result::Err(e);
        },
    };
    let (has_mql, o5) = match take_bool(bytes, o4) {
        Result::Ok(p) => p,
        Result::Err(e) => {
            return Result::Err(e);
        },
    };
    let (mql_raw, o6) = match take_usize(bytes, o5) {
        Result::Ok(p) => p,
        Result::Err(e) => {
            return Result::Err(e);
        },
    };
    proof {
        if valid_image(bytes@) {
            let w = witness_store(bytes@);
            assert(enc_bool(has_mql)[0] == enc_bool(w.prof.max_query_len is Some)[0]);
            assert(has_mql == w.prof.max_query_len is Some);
            lemma_u64_codec(mql_raw as u64);
        }
    }
    if !has_mql && mql_raw != 0 {
        return Result::Err(SufrError::Format);
    }
    let max_query_len: Option<usize> = if has_mql {
        Option::Some(mql_raw)
    } else {
        Option::None
    };
    let (has_mask, o7) = match take_bool(bytes, o6) {
        Result::Ok(p) => p,
        Result::Err(e) => {
            return Result::Err(e);
        },
    };
    let (mask_len, o8) = match take_usize(bytes, o7) {
        Result::Ok(p) => p,
        Result::Err(e) => {
            return Result::Err(e);
        },
    };
    proof {
        if valid_image(bytes@) {
            let w = witness_store(bytes@);
            assert(enc_bool(has_mask)[0] == enc_bool(w.prof.seed_mask is Some)[0]);
            assert(has_mask == w.prof.seed_mask is Some);
            lemma_u64_codec(mask_len as u64);
            assert(mask_len as int == mask_span(&w));
        }
    }
    if !has_mask && mask_len != 0 {
        return Result::Err(SufrError::Format);
    }
    let mut bits: Vec<bool> = Vec::new();
    let mut o9 = o8;
    if has_mask {
        let n = bytes.len();
        if o8 > n || n - o8 < mask_len {
            return Result::Err(SufrError::Format);
        }
        let mut k: usize = 0;
        let mut any: bool = false;
        while k < mask_len
            invariant
                bytes@.len() <= usize::MAX as int,
                o8 == 29,
                o8 + mask_len <= bytes@.len(),
                k <= mask_len,
                bits@.len() == k as int,
                bytes@.subrange(o8 as int, o8 as int + k as int) == enc_mask_bits(bits@),
                any == (exists|t: int| 0 <= t < k && bits@[t]),
                valid_image(bytes@) ==> ({
                    let w = witness_store(bytes@);
                    &&& w.prof.seed_mask is Some
                    &&& mask_len as int == mask_span(&w)
                    &&& bits@ == w.prof.seed_mask->Some_0@.take(k as int)
                }),
            decreases mask_len - k,
        {
            proof {
                if valid_image(bytes@) {
                    let w = witness_store(bytes@);
                    lemma_image_explode(&w, bytes@);
                    assert(bytes@[29 + k as int] == bytes@.subrange(29, 29 + mask_span(&w))[
                        k as int]);
                    assert(bytes@[29 + k as int] == enc_mask_bits(w.prof.seed_mask->Some_0@)[
                        k as int]);
                }
            }
            let b = bytes[o8 + k];
            if b > 1 {
                return Result::Err(SufrError::Format);
            }
            if b == 1 {
                any = true;
            }
            let ghost old_bits = bits@;
            bits.push(b == 1);
            k = k + 1;
            proof {
                assert(bytes@.subrange(o8 as int, o8 as int + k as int) =~= enc_mask_bits(bits@));
                assert(bits@[k as int - 1] == (b == 1));
                assert(any == (exists|t: int| 0 <= t < k && bits@[t])) by {
                    if any {
                        if b != 1 {
                            let w = choose|t: int| 0 <= t < old_bits.len() && old_bits[t];
                            assert(bits@[w]);
                            assert(0 <= w < k && bits@[w]);
                        } else {
                            assert(bits@[k as int - 1]);
                        }
                    }
                }
                if valid_image(bytes@) {
                    let w = witness_store(bytes@);
                    assert(bits@ =~= w.prof.seed_mask->Some_0@.take(k as int));
                }
            }
        }
        if bits.len() == 0 || !any {
            proof {
                if valid_image(bytes@) {
                    let w = witness_store(bytes@);
                    let m = w.prof.seed_mask->Some_0@;
                    assert(m.len() >= 1 && (exists|i: int| 0 <= i < m.len() && m[i]));
                    let t = choose|i: int| 0 <= i < m.len() && m[i];
                    assert(bits@ =~= m);
                    assert(bits@[t]);
                }
            }
            return Result::Err(SufrError::Format);
        }
        o9 = o8 + mask_len;
    }
    let seed_mask: Option<Vec<bool>> = if has_mask {
        Option::Some(bits)
    } else {
        Option::None
    };
    let prof = crate::order::SortProfile {
        is_dna,
        allow_ambiguity,
        ignore_softmask,
        seed_mask,
        max_query_len,
    };
    proof {
        let bs = bytes@;
        assert(bs.subrange(o4 as int, o6 as int) =~= bs.subrange(o4 as int, o5 as int)
            + bs.subrange(o5 as int, o6 as int));
        assert(bs.subrange(o4 as int, o6 as int) == enc_mql(prof.max_query_len));
        assert(bs.subrange(o6 as int, o9 as int) =~= bs.subrange(o6 as int, o7 as int)
            + bs.subrange(o7 as int, o8 as int) + bs.subrange(o8 as int, o9 as int));
        if has_mask {
            assert(bs.subrange(o8 as int, o9 as int) =~= enc_mask_bits(prof.seed_mask->Some_0@));
        } else {
            assert(bs.subrange(o8 as int, o9 as int) =~= Seq::<u8>::empty());
        }
        assert(bs.subrange(o6 as int, o9 as int) == enc_mask(
            match prof.seed_mask {
                Option::Some(m) => Option::Some(m@),
                Option::None => Option::None,
            },
        ));
        assert(bs.subrange(0, o2 as int) =~= bs.subrange(0, o1 as int) + bs.subrange(
            o1 as int,
            o2 as int,
        ));
        assert(bs.subrange(0, o3 as int) =~= bs.subrange(0, o2 as int) + bs.subrange(
            o2 as int,
            o3 as int,
        ));
        assert(bs.subrange(0, o4 as int) =~= bs.subrange(0, o3 as int) + bs.subrange(
            o3 as int,
            o4 as int,
        ));
        assert(bs.subrange(0, o6 as int) =~= bs.subrange(0, o4 as int) + bs.subrange(
            o4 as int,
            o6 as int,
        ));
        assert(bs.subrange(0, o9 as int) =~= bs.subrange(0, o6 as int) + bs.subrange(
            o6 as int,
            o9 as int,
        ));
        assert(bs.subrange(0, o9 as int) == enc_header(crate::store::FORMAT_VERSION, prof));
        if valid_image(bytes@) {
            let w = witness_store(bytes@);
            assert(enc_bool(is_dna)[0] == enc_bool(w.prof.is_dna)[0]);
            assert(enc_bool(allow_ambiguity)[0] == enc_bool(w.prof.allow_ambiguity)[0]);
            assert(enc_bool(ignore_softmask)[0] == enc_bool(w.prof.ignore_softmask)[0]);
            assert(prof.max_query_len == w.prof.max_query_len);
            if has_mask {
                assert(prof.seed_mask->Some_0@ =~= w.prof.seed_mask->Some_0@);
            }
            assert(prof_mask_view(&prof) == prof_mask_view(&w.prof));
            assert(o9 as int == 29 + mask_span(&w));
        }
    }
    Result::Ok((prof, o9))
}

/// On a valid image, a fully parsed name run of the right count reaches the
/// image's end and spells the witness's names.
proof fn lemma_names_run_match(
    bs: Seq<u8>,
    w: &SuffixArray,
    o16: int,
    o17: int,
    parsed: Seq<Seq<char>>,
)
    requires
        w.wf(),
        bounded_store(w),
        spec_image(w) == bs,
        o16 == q_names(w),
        parsed.len() == w.sequence_starts@.len(),
        forall|i: int|
            0 <= i < parsed.len() ==> #[trigger] encode_utf8(parsed[i]).len() <= usize::MAX,
        o16 <= o17 <= bs.len(),
        bs.subrange(o16, o17) == enc_names(parsed),
    ensures
        o17 == bs.len(),
        parsed == w.sequence_names.deep_view(),
{
    lemma_image_explode(w, bs);
    let wd = w.sequence_names.deep_view();
    assert(wd.len() == w.sequence_names@.len());
    assert(bs.subrange(o16, bs.len() as int) == enc_names(wd));
    assert(enc_names(parsed) + enc_names(wd).skip(o17 - o16) =~= enc_names(wd)) by {
        assert(forall|i: int|
            0 <= i < o17 - o16 ==> #[trigger] enc_names(parsed)[i] == bs.subrange(
                o16,
                bs.len() as int,
            )[i]);
        assert(forall|i: int|
            0 <= i < bs.len() - o17 ==> #[trigger] enc_names(wd).skip(o17 - o16)[i] == bs.subrange(
                o16,
                bs.len() as int,
            )[o17 - o16 + i]);
    }
    assert(enc_names(wd) + Seq::<u8>::empty() =~= enc_names(wd));
    crate::laws::lemma_enc_names_inj(
        parsed,
        wd,
        enc_names(wd).skip(o17 - o16),
        Seq::<u8>::empty(),
    );
    assert(enc_names(wd).skip(o17 - o16) == Seq::<u8>::empty());
    assert(enc_names(wd).len() == o17 - o16);
}

/// Arrays equal to a well-formed store's arrays pass the structural check.
proof fn lemma_witness_struct_ok(
    w: &SuffixArray,
    text: &Vec<u8>,
    prof: &crate::order::SortProfile,
    sa: &Vec<usize>,
    lcp: &Vec<usize>,
    starts: &Vec<usize>,
)
    requires
        w.wf(),
        text@ == w.text@,
        prof@ == w.prof@,
        sa@ == w.sa@,
        lcp@ == w.lcp@,
        starts@ == w.sequence_starts@,
    ensures
        struct_ok(text, prof, sa, lcp, starts),
{
    assert(w.lcp@ == crate::builder::spec_lcp_of(w.text@, w.prof@, w.sa@));
}

impl SuffixArray {
    /// Opens a persisted image.  On success the store is well formed, its
    /// re-serialization is exactly the given bytes, and the caller-supplied
    /// surroundings (memory strategy, file name, modification time, size)
    /// are carried verbatim.  A truncated image, an unsupported version, or
    /// a structure that breaks the invariant is refused.
    #[verifier::rlimit(100)]
    pub fn open(bytes: &Vec<u8>, low_memory: bool, filename: String, modified: String) -> (r:
        Result<SuffixArray, SufrError>)
        ensures
            r is Ok ==> ({
                let st = r->Ok_0;
                &&& st.wf()
                &&& spec_image(&st) == bytes@
                &&& st.low_memory == low_memory
                &&& st.filename@ == filename@
                &&& st.modified@ == modified@
                &&& st.file_size == bytes@.len()
            }),
            r is Err ==> r->Err_0 == SufrError::Format,
            valid_image(bytes@) ==> r is Ok,
    {
        let (prof, o9) = match parse_header(bytes) {
            Result::Ok(p) => p,
            Result::Err(e) => {
                return Result::Err(e);
            },
        };
        proof {
            if valid_image(bytes@) {
                let w = witness_store(bytes@);
                lemma_image_explode(&w, bytes@);
                lemma_u64_codec(w.text@.len() as u64);
                lemma_u64_codec(w.sa@.len() as u64);
                lemma_u64_codec(w.sequence_starts@.len() as u64);
                assert(o9 as int == 29 + mask_span(&w));
                assert(w.text@.len() >= 2);
                assert(w.sequence_starts@.len() >= 1);
                assert(bytes@.len() >= q_salen(&w));
                assert(prof@ == w.prof@) by {
                    assert(prof.is_dna == w.prof.is_dna);
                    assert(prof.max_query_len == w.prof.max_query_len);
                    assert(prof_mask_view(&prof) == prof_mask_view(&w.prof));
                }
            }
        }
        let (text_len, o10) = match take_usize(bytes, o9) {
            Result::Ok(p) => p,
            Result::Err(e) => {
                return Result::Err(e);
            },
        };
        proof {
            if valid_image(bytes@) {
                let w = witness_store(bytes@);
                lemma_u64_codec(text_len as u64);
                assert(text_len as int == w.text@.len());
            }
        }
        if text_len < 2 {
            return Result::Err(SufrError::Format);
        }
        let n = bytes.len();
        if o10 > n || n - o10 < text_len {
            return Result::Err(SufrError::Format);
        }
        let mut text: Vec<u8> = Vec::new();
        let mut k: usize = 0;
        while k < text_len
            invariant
                bytes@.len() <= usize::MAX as int,
                o10 + text_len <= bytes@.len(),
                k <= text_len,
                text@ == bytes@.subrange(o10 as int, o10 as int + k as int),
            decreases text_len - k,
        {
            text.push(bytes[o10 + k]);
            k = k + 1;
            proof {
                assert(text@ =~= bytes@.subrange(o10 as int, o10 as int + k as int));
            }
        }
        let o11 = o10 + text_len;
        let (sa_len, o12) = match take_usize(bytes, o11) {
            Result::Ok(p) => p,
            Result::Err(e) => {
                return Result::Err(e);
            },
        };
        proof {
            if valid_image(bytes@) {
                let w = witness_store(bytes@);
                assert(text@ == w.text@);
                lemma_u64_codec(sa_len as u64);
                assert(sa_len as int == w.sa@.len());
            }
        }
        if sa_len != text_len - 1 {
            return Result::Err(SufrError::Format);
        }
        let (sa, o13) = match take_positions(bytes, o12, sa_len) {
            Result::Ok(p) => p,
            Result::Err(e) => {
                proof {
                    if valid_image(bytes@) {
                        let w = witness_store(bytes@);
                        lemma_enc_usizes_len(w.sa@);
                        assert(pos_region(bytes@, o12 as int, sa_len as int, w.sa@));
                    }
                }
                return Result::Err(e);
            },
        };
        proof {
            if valid_image(bytes@) {
                let w = witness_store(bytes@);
                lemma_enc_usizes_len(w.sa@);
                lemma_enc_usizes_len(sa@);
                assert(enc_usizes(sa@) + Seq::<u8>::empty() =~= enc_usizes(sa@));
                assert(enc_usizes(w.sa@) + Seq::<u8>::empty() =~= enc_usizes(w.sa@));
                assert(enc_usizes(sa@) == enc_usizes(w.sa@));
                crate::laws::lemma_enc_usizes_inj(
                    sa@,
                    w.sa@,
                    Seq::<u8>::empty(),
                    Seq::<u8>::empty(),
                );
                assert(sa@ == w.sa@);
            }
        }
        let (lcp, o14) = match take_positions(bytes, o13, sa_len) {
            Result::Ok(p) => p,
            Result::Err(e) => {
                proof {
                    if valid_image(bytes@) {
                        let w = witness_store(bytes@);
                        lemma_enc_usizes_len(w.lcp@);
                        assert(pos_region(bytes@, o13 as int, sa_len as int, w.lcp@));
                    }
                }
                return Result::Err(e);
            },
        };
        proof {
            if valid_image(bytes@) {
                let w = witness_store(bytes@);
                lemma_enc_usizes_len(w.lcp@);
                lemma_enc_usizes_len(lcp@);
                assert(enc_usizes(lcp@) + Seq::<u8>::empty() =~= enc_usizes(lcp@));
                assert(enc_usizes(w.lcp@) + Seq::<u8>::empty() =~= enc_usizes(w.lcp@));
                assert(enc_usizes(lcp@) == enc_usizes(w.lcp@));
                crate::laws::lemma_enc_usizes_inj(
                    lcp@,
                    w.lcp@,
                    Seq::<u8>::empty(),
                    Seq::<u8>::empty(),
                );
                assert(lcp@ == w.lcp@);
            }
        }
        let (num_seqs, o15) = match take_usize(bytes, o14) {
            Result::Ok(p) => p,
            Result::Err(e) => {
                return Result::Err(e);
            },
        };
        proof {
            if valid_image(bytes@) {
                let w = witness_store(bytes@);
                lemma_u64_codec(num_seqs as u64);
                assert(num_seqs as int == w.sequence_starts@.len());
            }
        }
        if num_seqs < 1 {
            return Result::Err(SufrError::Format);
        }
        let (sequence_starts, o16) = match take_positions(bytes, o15, num_seqs) {
            Result::Ok(p) => p,
            Result::Err(e) => {
                proof {
                    if valid_image(bytes@) {
                        let w = witness_store(bytes@);
                        lemma_enc_usizes_len(w.sequence_starts@);
                        assert(pos_region(
                            bytes@,
                            o15 as int,
                            num_seqs as int,
                            w.sequence_starts@,
                        ));
                    }
                }
                return Result::Err(e);
            },
        };
        proof {
            if valid_image(bytes@) {
                let w = witness_store(bytes@);
                lemma_enc_usizes_len(w.sequence_starts@);
                lemma_enc_usizes_len(sequence_starts@);
                assert(enc_usizes(sequence_starts@) + Seq::<u8>::empty() =~= enc_usizes(
                    sequence_starts@,
                ));
                assert(enc_usizes(w.sequence_starts@) + Seq::<u8>::empty() =~= enc_usizes(
                    w.sequence_starts@,
                ));
                assert(enc_usizes(sequence_starts@) == enc_usizes(w.sequence_starts@));
                crate::laws::lemma_enc_usizes_inj(
                    sequence_starts@,
                    w.sequence_starts@,
                    Seq::<u8>::empty(),
                    Seq::<u8>::empty(),
                );
                assert(sequence_starts@ == w.sequence_starts@);
            }
        }
        let (sequence_names, o17) = match take_names(bytes, o16, num_seqs) {
            Result::Ok(p) => p,
            Result::Err(e) => {
                proof {
                    if valid_image(bytes@) {
                        let w = witness_store(bytes@);
                        let wd = w.sequence_names.deep_view();
                        assert(wd.len() == w.sequence_names@.len());
                        assert(names_region(bytes@, o16 as int, num_seqs as int, wd)) by {
                            assert(o16 as int == q_names(&w));
                            assert(bytes@.subrange(
                                q_names(&w),
                                q_names(&w) + enc_names(wd).len() as int,
                            ) =~= bytes@.subrange(q_names(&w), bytes@.len() as int));
                        }
                    }
                }
                return Result::Err(e);
            },
        };
        proof {
            if valid_image(bytes@) {
                let w = witness_store(bytes@);
                let wd = w.sequence_names.deep_view();
                assert(wd.len() == w.sequence_names@.len());
                assert(o16 as int == q_names(&w));
                assert(bytes@.subrange(o16 as int, o17 as int) == enc_names(
                    sequence_names.deep_view(),
                ));
                assert(o17 as int - o16 as int == enc_names(sequence_names.deep_view()).len());
                assert((o17 as int) <= bytes@.len());
            }
        }
        proof {
            if valid_image(bytes@) {
                let w = witness_store(bytes@);
                lemma_names_run_match(
                    bytes@,
                    &w,
                    o16 as int,
                    o17 as int,
                    sequence_names.deep_view(),
                );
            }
        }
        if o17 != bytes.len() {
            return Result::Err(SufrError::Format);
        }
        proof {
            if valid_image(bytes@) {
                let w = witness_store(bytes@);
                lemma_witness_struct_ok(&w, &text, &prof, &sa, &lcp, &sequence_starts);
            }
        }
        match check_structure(&text, &prof, &sa, &lcp, &sequence_starts) {
            Result::Ok(u) => u,
            Result::Err(e) => {
                return Result::Err(e);
            },
        };
        let file_size = bytes.len();
        let st = SuffixArray {
            version: crate::store::FORMAT_VERSION,
            prof,
            text,
            sa,
            lcp,
            sequence_starts,
            sequence_names,
            low_memory,
            filename,
            modified,
            file_size,
        };
        proof {
            assert(st.wf());
            lemma_image_stitch(
                &st,
                bytes@,
                o9 as int,
                o10 as int,
                o11 as int,
                o12 as int,
                o13 as int,
                o14 as int,
                o15 as int,
                o16 as int,
                o17 as int,
            );
        }
        Result::Ok(st)
    }
}

/// Stitches the per-field subrange equalities of a parsed image into the
/// whole: the bytes are exactly the store's re-serialization.
proof fn lemma_image_stitch(
    st: &SuffixArray,
    bs: Seq<u8>,
    o9: int,
    o10: int,
    o11: int,
    o12: int,
    o13: int,
    o14: int,
    o15: int,
    o16: int,
    o17: int,
)
    requires
        0 <= o9 <= o10 <= o11 <= o12 <= o13 <= o14 <= o15 <= o16 <= o17,
        o17 == bs.len(),
        bs.subrange(0, o9) == enc_header(st.version, st.prof),
        bs.subrange(o9, o10) == enc_u64(st.text@.len() as u64),
        bs.subrange(o10, o11) == st.text@,
        bs.subrange(o11, o12) == enc_u64(st.sa@.len() as u64),
        bs.subrange(o12, o13) == enc_usizes(st.sa@),
        bs.subrange(o13, o14) == enc_usizes(st.lcp@),
        bs.subrange(o14, o15) == enc_u64(st.sequence_starts@.len() as u64),
        bs.subrange(o15, o16) == enc_usizes(st.sequence_starts@),
        bs.subrange(o16, o17) == enc_names(st.sequence_names.deep_view()),
    ensures
        spec_image(st) == bs,
{
    assert(bs.subrange(0, o10) =~= bs.subrange(0, o9) + bs.subrange(o9, o10));
    assert(bs.subrange(0, o11) =~= bs.subrange(0, o10) + bs.subrange(o10, o11));
    assert(bs.subrange(0, o12) =~= bs.subrange(0, o11) + bs.subrange(o11, o12));
    assert(bs.subrange(0, o13) =~= bs.subrange(0, o12) + bs.subrange(o12, o13));
    assert(bs.subrange(0, o14) =~= bs.subrange(0, o13) + bs.subrange(o13, o14));
    assert(bs.subrange(0, o15) =~= bs.subrange(0, o14) + bs.subrange(o14, o15));
    assert(bs.subrange(0, o16) =~= bs.subrange(0, o15) + bs.subrange(o15, o16));
    assert(bs.subrange(0, o17) =~= bs.subrange(0, o16) + bs.subrange(o16, o17));
    assert(bs.subrange(0, o17) =~= bs);
    lemma_image_flat(st);
    assert(enc_header(st.version, st.prof) + enc_u64(st.text@.len() as u64) + st.text@ + enc_u64(
        st.sa@.len() as u64,
    ) + enc_usizes(st.sa@) + enc_usizes(st.lcp@) + enc_u64(st.sequence_starts@.len() as u64)
        + enc_usizes(st.sequence_starts@) + enc_names(st.sequence_names.deep_view()) =~= bs);
}

/// The structural conditions that [`check_structure`] accepts: exactly the
/// array-shaped half of [`SuffixArray::wf`].
pub open spec fn struct_ok(
    text: &Vec<u8>,
    prof: &crate::order::SortProfile,
    sa: &Vec<usize>,
    lcp: &Vec<usize>,
    starts: &Vec<usize>,
) -> bool {
    &&& forall|i: int| 0 <= i < sa@.len() ==> (#[trigger] sa@[i] as int) < text@.len() - 1
    &&& forall|a: int, b: int|
        0 <= a < b < sa@.len() ==> crate::order::suffix_lt(
            text@,
            prof@,
            sa@[a] as int,
            sa@[b] as int,
        )
    &&& lcp@ == crate::builder::spec_lcp_of(text@, prof@, sa@)
    &&& starts@.len() >= 1
    &&& starts@[0] == 0
    &&& forall|a: int, b: int|
        0 <= a < b < starts@.len() ==> #[trigger] starts@[a] < #[trigger] starts@[b]
    &&& forall|i: int| 0 <= i < starts@.len() ==> (#[trigger] starts@[i] as int) < text@.len()
}

/// Checks that parsed arrays form a well-formed structure: valid suffix
/// starts, strictly sorted ranks, a matching LCP array, and a coherent
/// boundary table.  It accepts exactly the structures that satisfy
/// [`struct_ok`].
fn check_structure(
    text: &Vec<u8>,
    prof: &crate::order::SortProfile,
    sa: &Vec<usize>,
    lcp: &Vec<usize>,
    starts: &Vec<usize>,
) -> (r: Result<(), SufrError>)
    requires
        text@.len() >= 2,
    ensures
        r is Ok ==> struct_ok(text, prof, sa, lcp, starts),
        struct_ok(text, prof, sa, lcp, starts) ==> r is Ok,
        r is Err ==> r->Err_0 == SufrError::Format,
{
    let text_len = text.len();
    let mut i: usize = 0;
    while i < sa.len()
        invariant
            text@.len() == text_len,
            text_len >= 2,
            i <= sa@.len(),
            forall|t: int| 0 <= t < i ==> (#[trigger] sa@[t] as int) < text@.len() - 1,
        decreases sa@.len() - i,
    {
        if sa[i] >= text_len - 1 {
            return Result::Err(SufrError::Format);
        }
        i = i + 1;
    }
    let mut i: usize = 1;
    while i < sa.len()
        invariant
            text@.len() == text_len,
            text_len >= 2,
            forall|t: int| 0 <= t < sa@.len() ==> (#[trigger] sa@[t] as int) < text@.len() - 1,
            1 <= i,
            i <= sa@.len() || sa@.len() == 0,
            forall|t: int|
                0 <= t < i - 1 ==> crate::order::suffix_lt(
                    text@,
                    prof@,
                    #[trigger] sa@[t] as int,
                    sa@[t + 1] as int,
                ),
        decreases sa@.len() - i,
    {
        if !crate::order::suffix_less(text, prof, sa[i - 1], sa[i]) {
            return Result::Err(SufrError::Format);
        }
        i = i + 1;
    }
    if lcp.len() != sa.len() {
        return Result::Err(SufrError::Format);
    }
    let expected_lcp = crate::builder::compute_lcp(text, prof, sa);
    let mut i: usize = 0;
    while i < lcp.len()
        invariant
            lcp@.len() == expected_lcp@.len(),
            expected_lcp@ == crate::builder::spec_lcp_of(text@, prof@, sa@),
            i <= lcp@.len(),
            forall|t: int| 0 <= t < i ==> lcp@[t] == expected_lcp@[t],
        decreases lcp@.len() - i,
    {
        if lcp[i] != expected_lcp[i] {
            return Result::Err(SufrError::Format);
        }
        i = i + 1;
    }
    if starts.len() < 1 {
        return Result::Err(SufrError::Format);
    }
    if starts[0] != 0 {
        return Result::Err(SufrError::Format);
    }
    let mut i: usize = 1;
    while i < starts.len()
        invariant
            starts@.len() >= 1,
            1 <= i,
            i <= starts@.len(),
            forall|t: int| 0 <= t < i - 1 ==> #[trigger] starts@[t] < starts@[t + 1],
        decreases starts@.len() - i,
    {
        if starts[i - 1] >= starts[i] {
            return Result::Err(SufrError::Format);
        }
        i = i + 1;
    }
    let mut i: usize = 0;
    while i < starts.len()
        invariant
            text@.len() == text_len,
            i <= starts@.len(),
            forall|t: int| 0 <= t < i ==> (#[trigger] starts@[t] as int) < text@.len(),
        decreases starts@.len() - i,
    {
        if starts[i] >= text_len {
            return Result::Err(SufrError::Format);
        }
        i = i + 1;
    }
    proof {
        assert forall|a: int, b: int| 0 <= a < b < sa@.len() implies crate::order::suffix_lt(
            text@,
            prof@,
            sa@[a] as int,
            sa@[b] as int,
        ) by {
            lemma_sa_pairwise(text@, prof@, sa@, a, b);
        }
        assert forall|a: int, b: int| 0 <= a < b < starts@.len() implies #[trigger] starts@[a]
            < #[trigger] starts@[b] by {
            crate::store::lemma_adjacent_increasing(starts@, a, b);
        }
        assert(lcp@ =~= crate::builder::spec_lcp_of(text@, prof@, sa@));
    }
    Result::Ok(())
}

/// A run of `count` positions is encoded at `off`.
pub open spec fn pos_region(bs: Seq<u8>, off: int, count: int, s0: Seq<usize>) -> bool {
    &&& s0.len() == count
    &&& off + 8 * count <= bs.len()
    &&& bs.subrange(off, off + 8 * count) == enc_usizes(s0)
}

/// Reads `count` positions starting at `off`, with the next offset; it
/// succeeds whenever such a run is encoded there.
fn take_positions(bytes: &Vec<u8>, off: usize, count: usize) -> (r: Result<
    (Vec<usize>, usize),
    SufrError,
>)
    ensures
        r is Ok ==> ({
            let (v, no) = r->Ok_0;
            &&& off <= no <= bytes@.len()
            &&& no == off + 8 * (count as int)
            &&& v@.len() == count
            &&& bytes@.subrange(off as int, no as int) == enc_usizes(v@)
        }),
        r is Err ==> r->Err_0 == SufrError::Format,
        r is Err ==> forall|s0: Seq<usize>| !pos_region(bytes@, off as int, count as int, s0),
{
    if off > bytes.len() {
        proof {
            assert forall|s0: Seq<usize>| !pos_region(bytes@, off as int, count as int, s0) by {
                if pos_region(bytes@, off as int, count as int, s0) {
                    lemma_enc_usizes_len(s0);
                }
            }
        }
        return Result::Err(SufrError::Format);
    }
    let ghost off0 = off as int;
    let mut v: Vec<usize> = Vec::new();
    let mut cur = off;
    let mut k: usize = 0;
    proof {
        assert(bytes@.subrange(off0, off0) =~= enc_usizes(v@));
    }
    while k < count
        invariant
            k <= count,
            v@.len() == k as int,
            off0 <= cur as int <= bytes@.len(),
            off0 == off as int,
            cur as int == off0 + 8 * (k as int),
            bytes@.subrange(off0, cur as int) == enc_usizes(v@),
        decreases count - k,
    {
        let ghost old_v = v@;
        let ghost old_cur = cur as int;
        let (p, no) = match take_usize(bytes, cur) {
            Result::Ok(p) => p,
            Result::Err(e) => {
                proof {
                    assert forall|s0: Seq<usize>| !pos_region(
                        bytes@,
                        off as int,
                        count as int,
                        s0,
                    ) by {
                        if pos_region(bytes@, off as int, count as int, s0) {
                            lemma_enc_usizes_len(s0);
                            lemma_enc_usizes_block(s0, k as int);
                            assert(bytes@.subrange(cur as int, cur as int + 8) =~= enc_usizes(
                                s0,
                            ).subrange(8 * (k as int), 8 * (k as int) + 8));
                            lemma_u64_codec(s0[k as int] as u64);
                        }
                    }
                }
                return Result::Err(e);
            },
        };
        v.push(p);
        cur = no;
        k = k + 1;
        proof {
            assert(v@.take(k as int - 1) =~= old_v);
            assert(v@.take(k as int) =~= v@);
            lemma_enc_usizes_take(v@, k as int - 1);
            assert(bytes@.subrange(off0, cur as int) =~= bytes@.subrange(off0, old_cur)
                + bytes@.subrange(old_cur, cur as int));
        }
    }
    Result::Ok((v, cur))
}

/// Reads `count` length-prefixed names starting at `off`.
/// A run of `count` length-prefixed names is encoded at `off`, each name
/// short enough for its prefix.
pub open spec fn names_region(bs: Seq<u8>, off: int, count: int, ns0: Seq<Seq<char>>) -> bool {
    &&& ns0.len() == count
    &&& forall|i: int| 0 <= i < ns0.len() ==> #[trigger] encode_utf8(ns0[i]).len() <= usize::MAX
    &&& off + enc_names(ns0).len() <= bs.len()
    &&& bs.subrange(off, off + enc_names(ns0).len() as int) == enc_names(ns0)
}

/// Locates the pieces of one name within an encoded run of names.
proof fn lemma_names_region_step(
    bs: Seq<u8>,
    off0: int,
    count: int,
    ns0: Seq<Seq<char>>,
    k: int,
    cur: int,
)
    requires
        names_region(bs, off0, count, ns0),
        0 <= off0,
        0 <= k < count,
        cur == off0 + enc_names(ns0.take(k)).len(),
    ensures
        cur + 8 + encode_utf8(ns0[k]).len() <= off0 + enc_names(ns0).len(),
        off0 + enc_names(ns0).len() <= bs.len(),
        off0 <= cur,
        bs.subrange(cur, cur + 8) == enc_u64(encode_utf8(ns0[k]).len() as u64),
        bs.subrange(cur + 8, cur + 8 + encode_utf8(ns0[k]).len() as int) == encode_utf8(ns0[k]),
        enc_names(ns0.take(k + 1)).len() == enc_names(ns0.take(k)).len() + 8 + encode_utf8(
            ns0[k],
        ).len(),
{
    lemma_enc_names_split(ns0, k);
    lemma_subrange_split(
        bs,
        off0,
        off0 + enc_names(ns0).len() as int,
        enc_names(ns0.take(k)),
        enc_names(ns0.skip(k)),
    );
    assert(ns0.skip(k)[0] == ns0[k]);
    assert(ns0.skip(k).drop_first() =~= ns0.skip(k + 1));
    assert(enc_names(ns0.skip(k)) == enc_name(ns0[k]) + enc_names(ns0.skip(k + 1)));
    lemma_subrange_split(
        bs,
        cur,
        off0 + enc_names(ns0).len() as int,
        enc_name(ns0[k]),
        enc_names(ns0.skip(k + 1)),
    );
    lemma_subrange_split(
        bs,
        cur,
        cur + enc_name(ns0[k]).len() as int,
        enc_u64(encode_utf8(ns0[k]).len() as u64),
        encode_utf8(ns0[k]),
    );
    lemma_enc_names_take(ns0, k);
}

/// Reads `count` length-prefixed names starting at `off`; it succeeds
/// whenever such a run is encoded there.
fn take_names(bytes: &Vec<u8>, off: usize, count: usize) -> (r: Result<
    (Vec<String>, usize),
    SufrError,
>)
    ensures
        r is Ok ==> ({
            let (v, no) = r->Ok_0;
            &&& off <= no <= bytes@.len()
            &&& v@.len() == count
            &&& bytes@.subrange(off as int, no as int) == enc_names(v.deep_view())
            &&& forall|i: int|
                0 <= i < v.deep_view().len() ==> #[trigger] encode_utf8(
                    v.deep_view()[i],
                ).len() <= usize::MAX
        }),
        r is Err ==> r->Err_0 == SufrError::Format,
        r is Err ==> forall|ns0: Seq<Seq<char>>|
            #![trigger enc_names(ns0)]
            !names_region(bytes@, off as int, count as int, ns0),
{
    if off > bytes.len() {
        proof {
            assert forall|ns0: Seq<Seq<char>>| #![trigger enc_names(ns0)] !names_region(
                bytes@,
                off as int,
                count as int,
                ns0,
            ) by {}
        }
        return Result::Err(SufrError::Format);
    }
    let ghost off0 = off as int;
    let mut v: Vec<String> = Vec::new();
    let mut cur = off;
    let mut k: usize = 0;
    proof {
        assert(bytes@.subrange(off0, off0) =~= enc_names(v.deep_view()));
        assert forall|ns0: Seq<Seq<char>>| #![trigger enc_names(ns0)] names_region(
            bytes@,
            off0,
            count as int,
            ns0,
        ) implies v.deep_view() == ns0.take(k as int) && cur as int == off0 + enc_names(
            ns0.take(k as int),
        ).len() by {
            assert(ns0.take(0) =~= Seq::<Seq<char>>::empty());
            assert(v.deep_view() =~= ns0.take(0));
        }
    }
    while k < count
        invariant
            k <= count,
            v@.len() == k as int,
            off0 <= cur as int <= bytes@.len(),
            off0 == off as int,
            bytes@.subrange(off0, cur as int) == enc_names(v.deep_view()),
            forall|i: int|
                0 <= i < v.deep_view().len() ==> #[trigger] encode_utf8(
                    v.deep_view()[i],
                ).len() <= usize::MAX,
            forall|ns0: Seq<Seq<char>>|
                #![trigger enc_names(ns0)]
                names_region(bytes@, off0, count as int, ns0) ==> (v.deep_view() == ns0.take(
                    k as int,
                ) && cur as int == off0 + enc_names(ns0.take(k as int)).len()),
        decreases count - k,
    {
        let ghost old_v = v.deep_view();
        let ghost old_cur = cur as int;
        let (len, no) = match take_usize(bytes, cur) {
            Result::Ok(p) => p,
            Result::Err(e) => {
                proof {
                    assert forall|ns0: Seq<Seq<char>>| #![trigger enc_names(ns0)] !names_region(
                        bytes@,
                        off0,
                        count as int,
                        ns0,
                    ) by {
                        if names_region(bytes@, off0, count as int, ns0) {
                            lemma_names_region_step(
                                bytes@,
                                off0,
                                count as int,
                                ns0,
                                k as int,
                                cur as int,
                            );
                            lemma_u64_codec(encode_utf8(ns0[k as int]).len() as u64);
                        }
                    }
                }
                return Result::Err(e);
            },
        };
        let n = bytes.len();
        if no > n || n - no < len {
            proof {
                assert forall|ns0: Seq<Seq<char>>| #![trigger enc_names(ns0)] !names_region(
                    bytes@,
                    off0,
                    count as int,
                    ns0,
                ) by {
                    if names_region(bytes@, off0, count as int, ns0) {
                        lemma_names_region_step(
                            bytes@,
                            off0,
                            count as int,
                            ns0,
                            k as int,
                            old_cur,
                        );
                        lemma_u64_codec(encode_utf8(ns0[k as int]).len() as u64);
                        lemma_u64_codec(len as u64);
                        assert(enc_u64(len as u64) == enc_u64(
                            encode_utf8(ns0[k as int]).len() as u64,
                        ));
                        assert(len as int == encode_utf8(ns0[k as int]).len());
                    }
                }
            }
            return Result::Err(SufrError::Format);
        }
        let mut nb: Vec<u8> = Vec::new();
        let mut b: usize = 0;
        while b < len
            invariant
                bytes@.len() <= usize::MAX as int,
                no + len <= bytes@.len(),
                b <= len,
                nb@ == bytes@.subrange(no as int, no as int + b as int),
            decreases len - b,
        {
            nb.push(bytes[no + b]);
            b = b + 1;
            proof {
                assert(nb@ =~= bytes@.subrange(no as int, no as int + b as int));
            }
        }
        let ghost nbv = nb@;
        let name = match crate::strio::bytes_to_string(nb) {
            Option::Some(s) => s,
            Option::None => {
                proof {
                    assert forall|ns0: Seq<Seq<char>>| #![trigger enc_names(ns0)] !names_region(
                        bytes@,
                        off0,
                        count as int,
                        ns0,
                    ) by {
                        if names_region(bytes@, off0, count as int, ns0) {
                            lemma_names_region_step(
                                bytes@,
                                off0,
                                count as int,
                                ns0,
                                k as int,
                                old_cur,
                            );
                            lemma_u64_codec(encode_utf8(ns0[k as int]).len() as u64);
                            lemma_u64_codec(len as u64);
                            assert(enc_u64(len as u64) == enc_u64(
                                encode_utf8(ns0[k as int]).len() as u64,
                            ));
                            assert(len as int == encode_utf8(ns0[k as int]).len());
                            assert(nbv =~= encode_utf8(ns0[k as int]));
                            vstd::utf8::encode_utf8_valid_utf8(ns0[k as int]);
                        }
                    }
                }
                return Result::Err(SufrError::Format);
            },
        };
        v.push(name);
        cur = no + len;
        k = k + 1;
        proof {
            assert(v.deep_view().take(k as int - 1) =~= old_v);
            assert(v.deep_view().take(k as int) =~= v.deep_view());
            lemma_enc_names_take(v.deep_view(), k as int - 1);
            assert(v.deep_view()[k as int - 1] == v@[k as int - 1]@);
            assert(bytes@.subrange(old_cur, cur as int) =~= bytes@.subrange(old_cur, no as int)
                + bytes@.subrange(no as int, cur as int));
            assert(bytes@.subrange(no as int, cur as int) == nbv);
            assert(bytes@.subrange(old_cur, cur as int) =~= enc_name(v@[k as int - 1]@));
            assert(bytes@.subrange(off0, cur as int) =~= bytes@.subrange(off0, old_cur)
                + bytes@.subrange(old_cur, cur as int));
            assert(encode_utf8(v.deep_view()[k as int - 1]) == nbv);
            assert forall|ns0: Seq<Seq<char>>| #![trigger enc_names(ns0)] names_region(
                bytes@,
                off0,
                count as int,
                ns0,
            ) implies v.deep_view() == ns0.take(k as int) && cur as int == off0 + enc_names(
                ns0.take(k as int),
            ).len() by {
                assert(old_v == ns0.take(k as int - 1));
                lemma_names_region_step(bytes@, off0, count as int, ns0, k as int - 1, old_cur);
                lemma_u64_codec(encode_utf8(ns0[k as int - 1]).len() as u64);
                lemma_u64_codec(len as u64);
                assert(enc_u64(len as u64) == enc_u64(
                    encode_utf8(ns0[k as int - 1]).len() as u64,
                ));
                assert(len as int == encode_utf8(ns0[k as int - 1]).len());
                assert(nbv =~= encode_utf8(ns0[k as int - 1]));
                assert(encode_utf8(name@) == encode_utf8(ns0[k as int - 1]));
                vstd::utf8::encode_utf8_decode_utf8(name@);
                vstd::utf8::encode_utf8_decode_utf8(ns0[k as int - 1]);
                assert(name@ == ns0[k as int - 1]);
                assert(v.deep_view() =~= ns0.take(k as int));
            }
        }
    }
    Result::Ok((v, cur))
}

/// Appends the encodings of all positions in a vector.
pub fn push_usizes(out: &mut Vec<u8>, s: &Vec<usize>)
    ensures
        final(out)@ == old(out)@ + enc_usizes(s@),
{
    let ghost head = out@;
    let mut i: usize = 0;
    while i < s.len()
        invariant
            i <= s@.len(),
            out@ == head + enc_usizes(s@.take(i as int)),
        decreases s@.len() - i,
    {
        push_u64(out, s[i] as u64);
        proof {
            lemma_enc_usizes_take(s@, i as int);
            assert(out@ =~= head + enc_usizes(s@.take(i as int + 1)));
        }
        i = i + 1;
    }
    proof {
        assert(s@.take(s@.len() as int) =~= s@);
    }
}

} // verus!
