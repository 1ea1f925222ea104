//! The suffix-array store: the built structure, its well-formedness
//! invariant, construction from a builder configuration, and structural
//! read access.

use vstd::prelude::*;
use crate::builder::candidate_positions;
use crate::builder::candidate_seq;
use crate::builder::compute_lcp;
use crate::builder::sort_positions;
use crate::builder::spec_lcp_of;
use crate::builder::spec_sorted_sa;
use crate::order::suffix_lt;
use crate::order::suffix_order;
use crate::order::ProfView;
use crate::order::SortProfile;
use crate::types::SufrBuilderArgs;
use crate::types::SufrError;

verus! {

broadcast use vstd::seq_lib::group_to_multiset_ensures;

/// The one image-format version this crate writes and accepts.
pub const FORMAT_VERSION: u64 = 1;

/// An opened (or freshly built) suffix array: the text, the sorted suffix
/// positions, the longest-common-prefix array, the comparison profile the
/// array was sorted under, and the sequence boundary table.  The remaining
/// fields describe the surrounding file, not the structure: they are not
/// part of the persisted image.
pub struct SuffixArray {
    pub version: u64,
    pub prof: SortProfile,
    pub text: Vec<u8>,
    pub sa: Vec<usize>,
    pub lcp: Vec<usize>,
    pub sequence_starts: Vec<usize>,
    pub sequence_names: Vec<String>,
    pub low_memory: bool,
    pub filename: String,
    pub modified: String,
    pub file_size: usize,
}

impl SuffixArray {
    /// Everything construction establishes and every query relies on: the
    /// suffix array is a strictly sorted sequence of valid suffix starts,
    /// one per candidate; the LCP array is derived from it; the boundary
    /// table is strictly increasing and starts at 0.
    pub open spec fn wf(&self) -> bool {
        &&& self.version == FORMAT_VERSION
        &&& self.text@.len() >= 2
        &&& self.sa@.len() == self.text@.len() - 1
        &&& forall|i: int|
            0 <= i < self.sa@.len() ==> (#[trigger] self.sa@[i] as int) < self.text@.len() - 1
        &&& forall|i: int, j: int|
            0 <= i < j < self.sa@.len() ==> suffix_lt(
                self.text@,
                self.prof@,
                self.sa@[i] as int,
                self.sa@[j] as int,
            )
        &&& self.lcp@ == spec_lcp_of(self.text@, self.prof@, self.sa@)
        &&& self.sequence_starts@.len() == self.sequence_names@.len()
        &&& self.sequence_starts@.len() >= 1
        &&& self.sequence_starts@[0] == 0
        &&& forall|i: int, j: int|
            0 <= i < j < self.sequence_starts@.len() ==> #[trigger] self.sequence_starts@[i]
                < #[trigger] self.sequence_starts@[j]
        &&& forall|i: int|
            0 <= i < self.sequence_starts@.len() ==> (#[trigger] self.sequence_starts@[i] as int)
                < self.text@.len()
        &&& match self.prof.seed_mask {
            Option::Some(m) => m@.len() >= 1 && (exists|i: int| 0 <= i < m@.len() && m@[i]),
            Option::None => true,
        }
    }
}

/// The end (exclusive) of what `string_at` returns: `len` bytes past `pos`,
/// clamped to the text's end, or the text's end when `len` is absent.
pub open spec fn string_at_end(st: &SuffixArray, pos: int, len: Option<usize>) -> int {
    match len {
        Option::Some(l) => if pos + l <= st.text@.len() {
            pos + l
        } else {
            st.text@.len() as int
        },
        Option::None => st.text@.len() as int,
    }
}

/// What a well-formed seed-mask string looks like: nonempty, every character
/// `0` or `1`, and at least one `1`.
pub open spec fn mask_str_ok(s: Seq<char>) -> bool {
    &&& s.len() >= 1
    &&& forall|i: int| 0 <= i < s.len() ==> s[i] == '0' || s[i] == '1'
    &&& exists|i: int| 0 <= i < s.len() && s[i] == '1'
}

/// The mask bits a mask string denotes: `1` marks a compared offset.
pub open spec fn mask_bits_of(s: Seq<char>) -> Seq<bool> {
    Seq::new(s.len(), |i: int| s[i] == '1')
}

/// The comparison profile a builder configuration denotes.
pub open spec fn spec_profile_of(a: &SufrBuilderArgs) -> ProfView {
    ProfView {
        is_dna: a.is_dna,
        allow_ambiguity: a.allow_ambiguity,
        ignore_softmask: a.ignore_softmask,
        seed_mask: match a.seed_mask {
            Option::Some(s) => Option::Some(mask_bits_of(s@)),
            Option::None => Option::None,
        },
        max_query_len: match a.max_query_len {
            Option::Some(l) => Option::Some(l as nat),
            Option::None => Option::None,
        },
    }
}

/// The conditions under which construction succeeds: a nonempty text, a
/// partition count between 1 and the number of valid suffixes, a coherent
/// boundary table, and a well-formed seed mask if one is given.
pub open spec fn args_ok(a: &SufrBuilderArgs) -> bool {
    &&& a.text@.len() >= 1
    &&& 1 <= a.num_partitions
    &&& a.num_partitions as int <= a.text@.len() - 1
    &&& a.sequence_starts@.len() == a.sequence_names@.len()
    &&& a.sequence_starts@.len() >= 1
    &&& a.sequence_starts@[0] == 0
    &&& forall|i: int|
        0 <= i < a.sequence_starts@.len() - 1 ==> #[trigger] a.sequence_starts@[i]
            < a.sequence_starts@[i + 1]
    &&& forall|i: int|
        0 <= i < a.sequence_starts@.len() ==> (#[trigger] a.sequence_starts@[i] as int)
            < a.text@.len()
    &&& match a.seed_mask {
        Option::Some(s) => mask_str_ok(s@),
        Option::None => true,
    }
}

/// In a sequence that increases from element to element, every earlier
/// element is below every later one.
pub proof fn lemma_adjacent_increasing(s: Seq<usize>, i: int, j: int)
    requires
        forall|t: int| 0 <= t < s.len() - 1 ==> #[trigger] s[t] < s[t + 1],
        0 <= i < j < s.len(),
    ensures
        s[i] < s[j],
    decreases j - i,
{
    if j == i + 1 {
    } else {
        lemma_adjacent_increasing(s, i, j - 1);
        assert(s[j - 1] < s[j]);
    }
}

/// Parses and checks a seed-mask string.
fn parse_mask(s: &String) -> (r: Result<Vec<bool>, SufrError>)
    ensures
        r is Ok <==> mask_str_ok(s@),
        r is Ok ==> r->Ok_0@ == mask_bits_of(s@),
        r is Err ==> r->Err_0 == SufrError::Config,
{
    let n = s.as_str().unicode_len();
    if n == 0 {
        return Result::Err(SufrError::Config);
    }
    let mut bits: Vec<bool> = Vec::new();
    let mut any_one: bool = false;
    let mut i: usize = 0;
    while i < n
        invariant
            n as nat == s@.len(),
            i <= n,
            bits@.len() == i as int,
            forall|j: int| 0 <= j < i ==> s@[j] == '0' || s@[j] == '1',
            forall|j: int| 0 <= j < i ==> bits@[j] == (s@[j] == '1'),
            any_one == (exists|j: int| 0 <= j < i && s@[j] == '1'),
        decreases n - i,
    {
        let c = s.as_str().get_char(i);
        if c == '1' {
            bits.push(true);
            any_one = true;
        } else if c == '0' {
            bits.push(false);
        } else {
            return Result::Err(SufrError::Config);
        }
        i = i + 1;
    }
    if !any_one {
        return Result::Err(SufrError::Config);
    }
    proof {
        assert(bits@ =~= mask_bits_of(s@));
    }
    Result::Ok(bits)
}

/// Checks a builder configuration and derives the comparison profile from
/// it.  Construction is refused exactly when [`args_ok`] fails.
pub fn validate_args(a: &SufrBuilderArgs) -> (r: Result<SortProfile, SufrError>)
    ensures
        r is Ok <==> args_ok(a),
        r is Ok ==> r->Ok_0@ == spec_profile_of(a),
        r is Err ==> r->Err_0 == SufrError::Config,
{
    if a.text.len() < 1 {
        return Result::Err(SufrError::Config);
    }
    if a.num_partitions < 1 || a.num_partitions > a.text.len() - 1 {
        return Result::Err(SufrError::Config);
    }
    if a.sequence_starts.len() != a.sequence_names.len() {
        return Result::Err(SufrError::Config);
    }
    if a.sequence_starts.len() < 1 {
        return Result::Err(SufrError::Config);
    }
    if a.sequence_starts[0] != 0 {
        return Result::Err(SufrError::Config);
    }
    let mut i: usize = 0;
    while i < a.sequence_starts.len() - 1
        invariant
            a.sequence_starts@.len() >= 1,
            i < a.sequence_starts@.len(),
            forall|t: int| 0 <= t < i ==> #[trigger] a.sequence_starts@[t] < a.sequence_starts@[t
                + 1],
        decreases a.sequence_starts@.len() - i,
    {
        if a.sequence_starts[i] >= a.sequence_starts[i + 1] {
            return Result::Err(SufrError::Config);
        }
        i = i + 1;
    }
    let mut t: usize = 0;
    while t < a.sequence_starts.len()
        invariant
            t <= a.sequence_starts@.len(),
            forall|u: int|
                0 <= u < t ==> (#[trigger] a.sequence_starts@[u] as int) < a.text@.len(),
        decreases a.sequence_starts@.len() - t,
    {
        if a.sequence_starts[t] >= a.text.len() {
            return Result::Err(SufrError::Config);
        }
        t = t + 1;
    }
    let mask = match &a.seed_mask {
        Option::Some(s) => {
            match parse_mask(s) {
                Result::Ok(bits) => Option::Some(bits),
                Result::Err(e) => {
                    return Result::Err(e);
                },
            }
        },
        Option::None => Option::None,
    };
    Result::Ok(
        SortProfile {
            is_dna: a.is_dna,
            allow_ambiguity: a.allow_ambiguity,
            ignore_softmask: a.ignore_softmask,
            seed_mask: mask,
            max_query_len: a.max_query_len,
        },
    )
}

impl SuffixArray {
    /// Builds the suffix array described by a configuration.  The result is
    /// well formed, and every structural field is a function of the
    /// configuration alone: the suffix array is the unique sorting of the
    /// candidate positions under the configured comparison order.
    pub fn new(args: SufrBuilderArgs) -> (r: Result<SuffixArray, SufrError>)
        ensures
            r is Ok <==> args_ok(&args),
            r is Err ==> r->Err_0 == SufrError::Config,
            r is Ok ==> {
                let st = r->Ok_0;
                &&& st.wf()
                &&& st.prof@ == spec_profile_of(&args)
                &&& st.text@ == args.text@
                &&& st.sa@ == spec_sorted_sa(args.text@, spec_profile_of(&args))
                &&& st.lcp@ == spec_lcp_of(args.text@, spec_profile_of(&args), st.sa@)
                &&& st.sequence_starts == args.sequence_starts
                &&& st.sequence_names == args.sequence_names
                &&& st.version == FORMAT_VERSION
                &&& st.low_memory == args.low_memory
                &&& st.filename@ == (match args.path {
                    Option::Some(p) => p@,
                    Option::None => Seq::<char>::empty(),
                })
            },
    {
        let prof = match validate_args(&args) {
            Result::Ok(p) => p,
            Result::Err(e) => {
                return Result::Err(e);
            },
        };
        let text = args.text;
        let cands = candidate_positions(text.len());
        let sa = sort_positions(&text, &prof, &cands, args.num_partitions);
        proof {
            let leq = suffix_order(text@, prof@);
            crate::order::lemma_suffix_order_total(text@, prof@);
            candidate_seq(text@.len()).lemma_sort_by_ensures(leq);
            vstd::seq_lib::lemma_sorted_unique(sa@, spec_sorted_sa(text@, prof@), leq);
            assert(sa@ == spec_sorted_sa(text@, prof@));
            // strict sortedness: the candidates are distinct, so the sorted
            // array repeats no position and non-strict order tightens.
            assert(candidate_seq(text@.len()).no_duplicates());
            candidate_seq(text@.len()).lemma_multiset_has_no_duplicates();
            sa@.lemma_multiset_has_no_duplicates_conv();
            assert forall|i: int, j: int| 0 <= i < j < sa@.len() implies suffix_lt(
                text@,
                prof@,
                sa@[i] as int,
                sa@[j] as int,
            ) by {
                assert(leq(sa@[i], sa@[j]));
                assert(sa@[i] != sa@[j]);
            }
        }
        let lcp = compute_lcp(&text, &prof, &sa);
        let filename = match &args.path {
            Option::Some(p) => crate::types::clone_string(p),
            Option::None => String::new(),
        };
        let st = SuffixArray {
            version: FORMAT_VERSION,
            prof,
            text,
            sa,
            lcp,
            sequence_starts: args.sequence_starts,
            sequence_names: args.sequence_names,
            low_memory: args.low_memory,
            filename,
            modified: String::new(),
            file_size: 0,
        };
        proof {
            assert forall|i: int, j: int| 0 <= i < j < st.sequence_starts@.len() implies
                #[trigger] st.sequence_starts@[i] < #[trigger] st.sequence_starts@[j] by {
                lemma_adjacent_increasing(st.sequence_starts@, i, j);
            }
            assert(match st.prof.seed_mask {
                Option::Some(m) => m@.len() >= 1 && (exists|i: int| 0 <= i < m@.len() && m@[i]),
                Option::None => true,
            }) by {
                if st.prof.seed_mask is Some {
                    let s = args.seed_mask->Some_0;
                    let w = choose|i: int| 0 <= i < s@.len() && s@[i] == '1';
                    assert(st.prof.seed_mask->Some_0@[w]);
                }
            }
            assert(st.wf());
        }
        Result::Ok(st)
    }

    /// Number of suffixes in the array.
    pub fn len_suffixes(&self) -> (r: usize)
        ensures
            r == self.sa@.len(),
    {
        self.sa.len()
    }

    /// Length of the text, sentinel included.
    pub fn text_len(&self) -> (r: usize)
        ensures
            r == self.text@.len(),
    {
        self.text.len()
    }

    /// The suffix position stored at a rank.
    pub fn rank_to_suffix(&self, rank: usize) -> (r: Result<usize, SufrError>)
        ensures
            (rank as int) < self.sa@.len() <==> r is Ok,
            r is Ok ==> r->Ok_0 == self.sa@[rank as int],
            r is Err ==> r->Err_0 == SufrError::Range,
    {
        if rank < self.sa.len() {
            Result::Ok(self.sa[rank])
        } else {
            Result::Err(SufrError::Range)
        }
    }

    /// The header fields, verbatim, with a descriptive sort-type tag:
    /// `mask` for a seed-masked order, `max_query_len` for a plain
    /// (possibly length-bounded) lexicographic order.
    pub fn metadata(&self) -> (r: crate::types::SufrMetadata)
        requires
            self.wf(),
        ensures
            r.filename@ == self.filename@,
            r.modified@ == self.modified@,
            r.file_size == self.file_size,
            r.file_version as int == self.version as int,
            r.is_dna == self.prof.is_dna,
            r.allow_ambiguity == self.prof.allow_ambiguity,
            r.ignore_softmask == self.prof.ignore_softmask,
            r.text_len == self.text@.len(),
            r.len_suffixes == self.sa@.len(),
            r.num_sequences == self.sequence_starts@.len(),
            r.sequence_starts@ == self.sequence_starts@,
            r.sequence_names@.len() == self.sequence_names@.len(),
            forall|i: int|
                0 <= i < r.sequence_names@.len() ==> (#[trigger] r.sequence_names@[i])@
                    == self.sequence_names@[i]@,
            r.sort_type@ == (if self.prof.seed_mask is Some {
                "mask"@
            } else {
                "max_query_len"@
            }),
    {
        let sort_type = if self.prof.seed_mask.is_some() {
            String::from_str("mask")
        } else {
            String::from_str("max_query_len")
        };
        crate::types::SufrMetadata {
            filename: crate::types::clone_string(&self.filename),
            modified: crate::types::clone_string(&self.modified),
            file_size: self.file_size,
            file_version: self.version as usize,
            is_dna: self.prof.is_dna,
            allow_ambiguity: self.prof.allow_ambiguity,
            ignore_softmask: self.prof.ignore_softmask,
            text_len: self.text.len(),
            len_suffixes: self.sa.len(),
            num_sequences: self.sequence_starts.len(),
            sequence_starts: crate::types::clone_usizes(&self.sequence_starts),
            sequence_names: crate::types::clone_strings(&self.sequence_names),
            sort_type,
        }
    }

    /// Up to `len` text bytes from position `pos` (all remaining text when
    /// `len` is absent), as a string.  The text is raw bytes and a `String`
    /// cannot carry invalid UTF-8 verbatim, so a window that is not valid
    /// UTF-8 is reported as a typed format error, never a panic.
    pub fn string_at(&self, pos: usize, len: Option<usize>) -> (r: Result<String, SufrError>)
        requires
            self.wf(),
        ensures
            (pos as int) >= self.text@.len() ==> r is Err && r->Err_0 == SufrError::Range,
            (pos as int) < self.text@.len() && vstd::utf8::valid_utf8(
                self.text@.subrange(pos as int, string_at_end(self, pos as int, len)),
            ) ==> r is Ok && vstd::utf8::encode_utf8(r->Ok_0@) == self.text@.subrange(
                pos as int,
                string_at_end(self, pos as int, len),
            ),
            (pos as int) < self.text@.len() && !vstd::utf8::valid_utf8(
                self.text@.subrange(pos as int, string_at_end(self, pos as int, len)),
            ) ==> r is Err && r->Err_0 == SufrError::Format,
    {
        if pos >= self.text.len() {
            return Result::Err(SufrError::Range);
        }
        let end = match len {
            Option::Some(l) => if l <= self.text.len() - pos {
                pos + l
            } else {
                self.text.len()
            },
            Option::None => self.text.len(),
        };
        let mut bytes: Vec<u8> = Vec::new();
        let mut i: usize = pos;
        while i < end
            invariant
                pos <= i <= end,
                end <= self.text@.len(),
                bytes@ == self.text@.subrange(pos as int, i as int),
            decreases end - i,
        {
            bytes.push(self.text[i]);
            i = i + 1;
            proof {
                assert(bytes@ =~= self.text@.subrange(pos as int, i as int));
            }
        }
        proof {
            assert(end as int == string_at_end(self, pos as int, len));
        }
        match crate::strio::bytes_to_string(bytes) {
            Option::Some(s) => Result::Ok(s),
            Option::None => Result::Err(SufrError::Format),
        }
    }

    /// The longest-common-prefix value stored at a rank.
    pub fn lcp_at(&self, rank: usize) -> (r: Result<usize, SufrError>)
        ensures
            (rank as int) < self.lcp@.len() <==> r is Ok,
            r is Ok ==> r->Ok_0 == self.lcp@[rank as int],
            r is Err ==> r->Err_0 == SufrError::Range,
    {
        if rank < self.lcp.len() {
            Result::Ok(self.lcp[rank])
        } else {
            Result::Err(SufrError::Range)
        }
    }
}

} // verus!
