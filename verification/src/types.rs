//! Value objects: builder configuration, per-operation options, per-operation
//! results, metadata, and the error taxonomy.

use vstd::prelude::*;

verus! {

/// Error taxonomy of the engine.  Absent queries are not errors: they yield
/// zero counts and empty position lists.
#[derive(Clone, Copy, Debug, PartialEq, Eq, Structural)]
pub enum SufrError {
    /// Invalid construction parameters.
    Config,
    /// Corrupt or version-mismatched persisted image.
    Format,
    /// Out-of-bounds rank or text position.
    Range,
}

/// All parameters of one suffix-array construction.
pub struct SufrBuilderArgs {
    /// The text: all records concatenated, delimited, and terminated by a
    /// sentinel byte.
    pub text: Vec<u8>,
    /// Destination path for the persisted image, if the caller chose one.
    pub path: Option<String>,
    /// Whether readers of the result should page from disk on demand.
    pub low_memory: bool,
    /// Bound on the number of compared symbols, if any.
    pub max_query_len: Option<usize>,
    /// DNA alphabet mode.
    pub is_dna: bool,
    /// In DNA mode: whether ambiguous symbols compare distinctly.
    pub allow_ambiguity: bool,
    /// In DNA mode: whether soft-masked (lower-case) bases fold to upper case.
    pub ignore_softmask: bool,
    /// Start offset of each record within `text`, strictly increasing from 0.
    pub sequence_starts: Vec<usize>,
    /// Name of each record, parallel to `sequence_starts`.
    pub sequence_names: Vec<String>,
    /// Number of independently sorted partitions.
    pub num_partitions: usize,
    /// Seed mask: a string of `1` (compared offset) and `0` (skipped offset).
    pub seed_mask: Option<String>,
    /// Seed for any randomized pivoting inside partition sorts.
    pub random_seed: u64,
}

impl SufrBuilderArgs {
    pub fn new(
        text: Vec<u8>,
        path: Option<String>,
        sequence_starts: Vec<usize>,
        sequence_names: Vec<String>,
        low_memory: bool,
        max_query_len: Option<usize>,
        is_dna: bool,
        allow_ambiguity: bool,
        ignore_softmask: bool,
        num_partitions: usize,
        seed_mask: Option<String>,
        random_seed: u64,
    ) -> (r: SufrBuilderArgs)
        ensures
            r.text == text,
            r.path == path,
            r.low_memory == low_memory,
            r.max_query_len == max_query_len,
            r.is_dna == is_dna,
            r.allow_ambiguity == allow_ambiguity,
            r.ignore_softmask == ignore_softmask,
            r.sequence_starts == sequence_starts,
            r.sequence_names == sequence_names,
            r.num_partitions == num_partitions,
            r.seed_mask == seed_mask,
            r.random_seed == random_seed,
    {
        SufrBuilderArgs {
            text,
            path,
            low_memory,
            max_query_len,
            is_dna,
            allow_ambiguity,
            ignore_softmask,
            sequence_starts,
            sequence_names,
            num_partitions,
            seed_mask,
            random_seed,
        }
    }
}

/// Options of one `count` call.  `low_memory` is the caller's memory
/// strategy: a fully resident store answers identically either way.
pub struct CountOptions {
    pub queries: Vec<String>,
    pub max_query_len: Option<usize>,
    pub low_memory: bool,
}

impl CountOptions {
    pub fn new(queries: Vec<String>, max_query_len: Option<usize>, low_memory: bool) -> (r:
        CountOptions)
        ensures
            r.queries == queries,
            r.max_query_len == max_query_len,
            r.low_memory == low_memory,
    {
        CountOptions { queries, max_query_len, low_memory }
    }
}

/// One `count` result: the 0-based ordinal of the query in the caller's
/// list, the query itself, and the number of occurrences.
pub struct CountResult {
    pub query_num: usize,
    pub query: String,
    pub count: usize,
}

/// Options of one `locate` call.  `low_memory` is the caller's memory
/// strategy: a fully resident store answers identically either way.
pub struct LocateOptions {
    pub queries: Vec<String>,
    pub max_query_len: Option<usize>,
    pub low_memory: bool,
}

impl LocateOptions {
    pub fn new(queries: Vec<String>, max_query_len: Option<usize>, low_memory: bool) -> (r:
        LocateOptions)
        ensures
            r.queries == queries,
            r.max_query_len == max_query_len,
            r.low_memory == low_memory,
    {
        LocateOptions { queries, max_query_len, low_memory }
    }
}

/// One occurrence reported by `locate`.
pub struct LocatePosition {
    /// Start position of the occurrence in the text.
    pub suffix: usize,
    /// Rank of the occurrence in the suffix array.
    pub rank: usize,
    /// Name of the record that contains the occurrence.
    pub sequence_name: String,
    /// Offset of the occurrence within that record.
    pub sequence_position: usize,
}

/// One `locate` result: all occurrences of one query, in rank order.
pub struct LocateResult {
    pub query_num: usize,
    pub query: String,
    pub positions: Vec<LocatePosition>,
}

/// Options of one `extract` call.
pub struct ExtractOptions {
    pub queries: Vec<String>,
    pub max_query_len: Option<usize>,
    pub low_memory: bool,
    /// Window bytes before each hit.
    pub prefix_len: Option<usize>,
    /// Window bytes after the start of each hit.
    pub suffix_len: Option<usize>,
}

impl ExtractOptions {
    pub fn new(
        queries: Vec<String>,
        max_query_len: Option<usize>,
        low_memory: bool,
        prefix_len: Option<usize>,
        suffix_len: Option<usize>,
    ) -> (r: ExtractOptions)
        ensures
            r.queries == queries,
            r.max_query_len == max_query_len,
            r.low_memory == low_memory,
            r.prefix_len == prefix_len,
            r.suffix_len == suffix_len,
    {
        ExtractOptions { queries, max_query_len, low_memory, prefix_len, suffix_len }
    }
}

/// One windowed occurrence reported by `extract`.
pub struct ExtractSequence {
    /// Start position of the hit in the text.
    pub suffix: usize,
    /// Rank of the hit in the suffix array.
    pub rank: usize,
    /// Name of the record that contains the hit.
    pub sequence_name: String,
    /// Start offset of that record in the text.
    pub sequence_start: usize,
    /// The window around the hit, as text positions `(start, end)`, clamped
    /// to the record's boundaries.
    pub sequence_range: (usize, usize),
    /// Offset of the hit from the start of the window.
    pub suffix_offset: usize,
}

/// One `extract` result: all windowed occurrences of one query.
pub struct ExtractResult {
    pub query_num: usize,
    pub query: String,
    pub sequences: Vec<ExtractSequence>,
}

/// Options of one `list` call.
pub struct ListOptions {
    /// The ranks to list; empty means every rank.
    pub ranks: Vec<usize>,
    pub show_rank: bool,
    pub show_suffix: bool,
    pub show_lcp: bool,
    /// Truncate each shown suffix to this many bytes.
    pub len: Option<usize>,
    /// Cap on the number of rows.
    pub number: Option<usize>,
    /// Destination name for the rows, if not the default sink.
    pub output: Option<String>,
}

impl ListOptions {
    pub fn new(
        ranks: Vec<usize>,
        show_rank: bool,
        show_suffix: bool,
        show_lcp: bool,
        len: Option<usize>,
        number: Option<usize>,
        output: Option<String>,
    ) -> (r: ListOptions)
        ensures
            r.ranks == ranks,
            r.show_rank == show_rank,
            r.show_suffix == show_suffix,
            r.show_lcp == show_lcp,
            r.len == len,
            r.number == number,
            r.output == output,
    {
        ListOptions { ranks, show_rank, show_suffix, show_lcp, len, number, output }
    }
}

/// The header fields of an opened suffix array, returned verbatim.
pub struct SufrMetadata {
    pub filename: String,
    pub modified: String,
    pub file_size: usize,
    pub file_version: usize,
    pub is_dna: bool,
    pub allow_ambiguity: bool,
    pub ignore_softmask: bool,
    pub text_len: usize,
    pub len_suffixes: usize,
    pub num_sequences: usize,
    pub sequence_starts: Vec<usize>,
    pub sequence_names: Vec<String>,
    pub sort_type: String,
}

/// What the sequence-file reader hands over: the concatenated record bytes,
/// the start offset of each record, and the record names.
pub struct SequenceFileData {
    pub seq: Vec<u8>,
    pub start_positions: Vec<usize>,
    pub sequence_names: Vec<String>,
}

impl SequenceFileData {
    pub fn seq(&self) -> (r: Vec<u8>)
        ensures
            r@ == self.seq@,
    {
        clone_bytes(&self.seq)
    }

    pub fn start_positions(&self) -> (r: Vec<usize>)
        ensures
            r@ == self.start_positions@,
    {
        clone_usizes(&self.start_positions)
    }

    pub fn sequence_names(&self) -> (r: Vec<String>)
        ensures
            r.deep_view() == self.sequence_names.deep_view(),
    {
        clone_strings(&self.sequence_names)
    }
}

/// Copy of a byte vector, with its contents pinned down.
pub fn clone_bytes(v: &Vec<u8>) -> (r: Vec<u8>)
    ensures
        r@ == v@,
{
    let mut out: Vec<u8> = Vec::new();
    let mut i: usize = 0;
    while i < v.len()
        invariant
            i <= v@.len(),
            out@ == v@.subrange(0, i as int),
        decreases v@.len() - i,
    {
        out.push(v[i]);
        i = i + 1;
        proof {
            assert(out@ =~= v@.subrange(0, i as int));
        }
    }
    proof {
        assert(out@ =~= v@);
    }
    out
}

/// Copy of a position vector, with its contents pinned down.
pub fn clone_usizes(v: &Vec<usize>) -> (r: Vec<usize>)
    ensures
        r@ == v@,
{
    let mut out: Vec<usize> = Vec::new();
    let mut i: usize = 0;
    while i < v.len()
        invariant
            i <= v@.len(),
            out@ == v@.subrange(0, i as int),
        decreases v@.len() - i,
    {
        out.push(v[i]);
        i = i + 1;
        proof {
            assert(out@ =~= v@.subrange(0, i as int));
        }
    }
    proof {
        assert(out@ =~= v@);
    }
    out
}

/// Copy of one string, with its characters pinned down.
pub fn clone_string(s: &String) -> (r: String)
    ensures
        r@ == s@,
{
    s.as_str().to_owned()
}

/// Copy of a name vector, with the characters of every name pinned down.
pub fn clone_strings(v: &Vec<String>) -> (r: Vec<String>)
    ensures
        r.deep_view() == v.deep_view(),
        r@.len() == v@.len(),
        forall|i: int| 0 <= i < v@.len() ==> r@[i]@ == v@[i]@,
{
    let mut out: Vec<String> = Vec::new();
    let mut i: usize = 0;
    while i < v.len()
        invariant
            i <= v@.len(),
            out@.len() == i as int,
            forall|j: int| 0 <= j < i ==> out@[j]@ == v@[j]@,
        decreases v@.len() - i,
    {
        out.push(clone_string(&v[i]));
        i = i + 1;
    }
    proof {
        assert(out.deep_view() =~= v.deep_view());
    }
    out
}

} // verus!
