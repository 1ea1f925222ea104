//! The comparison order on suffixes.
//!
//! A suffix of the text is compared through its *key*: the sequence of
//! normalized symbols at the compared offsets of the suffix.  Normalization
//! folds soft-masked (lower-case) bases and collapses ambiguous symbols to a
//! wildcard in DNA mode.  A seed mask restricts comparison to a sparse subset
//! of offsets: an offset excluded by the mask contributes a fixed neutral
//! symbol to every key, so it never separates two suffixes that both reach
//! it, while a suffix that ends inside the mask span still sorts before one
//! that continues.  A maximum query length truncates every key.  Ties between
//! distinct suffixes with equal keys are broken by text position, ascending,
//! which makes the order total.

use vstd::prelude::*;

verus! {

/// Specification-level form of a [`SortProfile`].
pub struct ProfView {
    pub is_dna: bool,
    pub allow_ambiguity: bool,
    pub ignore_softmask: bool,
    pub seed_mask: Option<Seq<bool>>,
    pub max_query_len: Option<nat>,
}

/// The parameters that determine the comparison order: alphabet mode,
/// ambiguity and soft-mask handling, an optional seed mask (`true` marks an
/// offset that participates in comparison), and an optional bound on the
/// number of compared symbols.
pub struct SortProfile {
    pub is_dna: bool,
    pub allow_ambiguity: bool,
    pub ignore_softmask: bool,
    pub seed_mask: Option<Vec<bool>>,
    pub max_query_len: Option<usize>,
}

impl View for SortProfile {
    type V = ProfView;

    open spec fn view(&self) -> ProfView {
        ProfView {
            is_dna: self.is_dna,
            allow_ambiguity: self.allow_ambiguity,
            ignore_softmask: self.ignore_softmask,
            seed_mask: match self.seed_mask {
                Option::Some(m) => Option::Some(m@),
                Option::None => Option::None,
            },
            max_query_len: match self.max_query_len {
                Option::Some(l) => Option::Some(l as nat),
                Option::None => Option::None,
            },
        }
    }
}

/// Upper-case image of an ASCII letter; other bytes are unchanged.
pub open spec fn fold_case(b: u8) -> u8 {
    if 97 <= b && b <= 122 {
        (b - 32) as u8
    } else {
        b
    }
}

/// The four unambiguous DNA bases, upper case.
pub open spec fn is_dna_base(b: u8) -> bool {
    b == 65 || b == 67 || b == 71 || b == 84
}

/// The symbol a byte contributes to comparison.  Outside DNA mode every byte
/// stands for itself.  In DNA mode, soft-masked bases are optionally folded
/// to upper case, and when ambiguity is not allowed every symbol other than
/// A, C, G, T collapses to the wildcard 0.
pub open spec fn norm_sym(pr: ProfView, b: u8) -> u8 {
    if pr.is_dna {
        let c = if pr.ignore_softmask {
            fold_case(b)
        } else {
            b
        };
        if pr.allow_ambiguity || is_dna_base(c) {
            c
        } else {
            0
        }
    } else {
        b
    }
}

/// Whether relative offset `k` of a suffix or query participates in
/// comparison.
pub open spec fn sym_included(pr: ProfView, k: int) -> bool {
    match pr.seed_mask {
        Option::Some(m) => 0 <= k < m.len() && m[k],
        Option::None => true,
    }
}

/// How many symbols of a suffix or query of natural length `whole` are
/// compared: `whole`, further capped by the seed-mask span and by the
/// maximum query length.
pub open spec fn cmp_cap(pr: ProfView, whole: nat) -> nat {
    let base = match pr.seed_mask {
        Option::Some(m) => if m.len() < whole {
            m.len()
        } else {
            whole
        },
        Option::None => whole,
    };
    match pr.max_query_len {
        Option::Some(l) => if l < base {
            l
        } else {
            base
        },
        Option::None => base,
    }
}

/// Number of text bytes in the suffix at position `p`, the trailing sentinel
/// excluded.
pub open spec fn suffix_len(text: Seq<u8>, p: int) -> nat {
    (text.len() - 1 - p) as nat
}

/// The key under which the suffix at position `p` is ordered.
pub open spec fn suffix_key(text: Seq<u8>, pr: ProfView, p: int) -> Seq<u8> {
    Seq::new(
        cmp_cap(pr, suffix_len(text, p)),
        |k: int|
            if sym_included(pr, k) {
                norm_sym(pr, text[p + k])
            } else {
                0
            },
    )
}

/// The key of a query, built the same way as a suffix key.
pub open spec fn query_key(pr: ProfView, q: Seq<u8>) -> Seq<u8> {
    Seq::new(
        cmp_cap(pr, q.len()),
        |k: int|
            if sym_included(pr, k) {
                norm_sym(pr, q[k])
            } else {
                0
            },
    )
}

/// Three-way lexicographic comparison of two keys; a proper prefix sorts
/// before its extensions.
pub open spec fn lex_cmp(a: Seq<u8>, b: Seq<u8>) -> int
    decreases a.len() + b.len(),
{
    if a.len() == 0 && b.len() == 0 {
        0
    } else if a.len() == 0 {
        -1
    } else if b.len() == 0 {
        1
    } else if a[0] < b[0] {
        -1
    } else if b[0] < a[0] {
        1
    } else {
        lex_cmp(a.drop_first(), b.drop_first())
    }
}

/// Three-way comparison of a key `a` against a query key `q`, read as: does
/// `a` sort before, inside, or after the block of keys that have `q` as a
/// prefix.  Zero exactly when `q` is a prefix of `a`.
pub open spec fn prefix_cmp(a: Seq<u8>, q: Seq<u8>) -> int
    decreases a.len() + q.len(),
{
    if q.len() == 0 {
        0
    } else if a.len() == 0 {
        -1
    } else if a[0] < q[0] {
        -1
    } else if q[0] < a[0] {
        1
    } else {
        prefix_cmp(a.drop_first(), q.drop_first())
    }
}

/// Length of the longest common prefix of two keys.
pub open spec fn lcp_len(a: Seq<u8>, b: Seq<u8>) -> nat
    decreases a.len() + b.len(),
{
    if a.len() == 0 || b.len() == 0 || a[0] != b[0] {
        0
    } else {
        1 + lcp_len(a.drop_first(), b.drop_first())
    }
}

/// The suffix at `p` sorts strictly before the suffix at `q`: smaller key,
/// or equal keys and smaller text position.
pub open spec fn suffix_lt(text: Seq<u8>, pr: ProfView, p: int, q: int) -> bool {
    let c = lex_cmp(suffix_key(text, pr, p), suffix_key(text, pr, q));
    c < 0 || (c == 0 && p < q)
}

/// Non-strict form of [`suffix_lt`].
pub open spec fn suffix_le(text: Seq<u8>, pr: ProfView, p: int, q: int) -> bool {
    p == q || suffix_lt(text, pr, p, q)
}

/// The suffix order as a relation on positions, for use with `sorted_by`.
pub open spec fn suffix_order(text: Seq<u8>, pr: ProfView) -> spec_fn(usize, usize) -> bool {
    |a: usize, b: usize| suffix_le(text, pr, a as int, b as int)
}

pub proof fn lemma_lex_cmp_basic(a: Seq<u8>, b: Seq<u8>)
    ensures
        -1 <= lex_cmp(a, b) <= 1,
        (lex_cmp(a, b) == 0) <==> (a =~= b),
        lex_cmp(a, b) == -lex_cmp(b, a),
    decreases a.len() + b.len(),
{
    if a.len() == 0 || b.len() == 0 {
    } else if a[0] == b[0] {
        lemma_lex_cmp_basic(a.drop_first(), b.drop_first());
        if lex_cmp(a, b) == 0 {
            assert(a.drop_first() =~= b.drop_first());
            assert(a =~= b) by {
                assert(forall|i: int|
                    1 <= i < a.len() ==> a[i] == a.drop_first()[i - 1] && b[i]
                        == b.drop_first()[i - 1]);
            }
        }
        if a =~= b {
            assert(a.drop_first() =~= b.drop_first());
        }
    }
}

pub proof fn lemma_lex_cmp_trans(a: Seq<u8>, b: Seq<u8>, c: Seq<u8>)
    requires
        lex_cmp(a, b) <= 0,
        lex_cmp(b, c) <= 0,
    ensures
        lex_cmp(a, c) <= 0,
        (lex_cmp(a, b) < 0 || lex_cmp(b, c) < 0) ==> lex_cmp(a, c) < 0,
    decreases a.len() + b.len() + c.len(),
{
    lemma_lex_cmp_basic(a, b);
    lemma_lex_cmp_basic(b, c);
    lemma_lex_cmp_basic(a, c);
    if lex_cmp(a, b) == 0 {
        assert(a =~= b);
    } else if lex_cmp(b, c) == 0 {
        assert(b =~= c);
    } else if a.len() == 0 {
    } else {
        // a, b, c all nonempty: an empty b or c would force the strict
        // comparisons above to be nonnegative.
        if a[0] == b[0] && b[0] == c[0] {
            lemma_lex_cmp_trans(a.drop_first(), b.drop_first(), c.drop_first());
        }
    }
}

pub proof fn lemma_prefix_cmp_basic(a: Seq<u8>, q: Seq<u8>)
    ensures
        -1 <= prefix_cmp(a, q) <= 1,
        (prefix_cmp(a, q) == 0) <==> (q.len() <= a.len() && a.subrange(0, q.len() as int) =~= q),
    decreases a.len() + q.len(),
{
    if q.len() == 0 {
        assert(a.subrange(0, 0) =~= q);
    } else if a.len() == 0 {
    } else if a[0] == q[0] {
        lemma_prefix_cmp_basic(a.drop_first(), q.drop_first());
        if prefix_cmp(a, q) == 0 {
            assert(a.drop_first().subrange(0, q.len() - 1) =~= q.drop_first());
            assert(a.subrange(0, q.len() as int) =~= q) by {
                assert(forall|i: int|
                    1 <= i < q.len() ==> a.subrange(0, q.len() as int)[i] == a.drop_first().subrange(
                        0,
                        q.len() - 1,
                    )[i - 1]);
            }
        }
        if q.len() <= a.len() && a.subrange(0, q.len() as int) =~= q {
            assert(a.drop_first().subrange(0, q.len() - 1) =~= q.drop_first()) by {
                assert(forall|i: int|
                    0 <= i < q.len() - 1 ==> #[trigger] a.drop_first().subrange(0, q.len() - 1)[i]
                        == a.subrange(0, q.len() as int)[i + 1]);
            }
        }
    }
}

/// `prefix_cmp` against a fixed query is monotone along the lexicographic
/// order of keys; this is what makes the block of matching ranks contiguous
/// in a sorted suffix array.
pub proof fn lemma_prefix_cmp_mono(a: Seq<u8>, b: Seq<u8>, q: Seq<u8>)
    requires
        lex_cmp(a, b) <= 0,
    ensures
        prefix_cmp(a, q) <= prefix_cmp(b, q),
    decreases a.len() + b.len() + q.len(),
{
    lemma_lex_cmp_basic(a, b);
    lemma_prefix_cmp_basic(a, q);
    lemma_prefix_cmp_basic(b, q);
    if q.len() == 0 {
    } else if lex_cmp(a, b) == 0 {
        assert(a =~= b);
    } else if a.len() == 0 {
    } else {
        // both a and b nonempty, q nonempty
        if a[0] == b[0] && a[0] == q[0] {
            lemma_prefix_cmp_mono(a.drop_first(), b.drop_first(), q.drop_first());
        }
    }
}

/// Comparisons are decided left to right: once the first `k` symbols agree,
/// the comparison of the remainders decides the whole.
pub proof fn lemma_lex_cmp_skip(a: Seq<u8>, b: Seq<u8>, k: int)
    requires
        0 <= k <= a.len(),
        k <= b.len(),
        forall|j: int| 0 <= j < k ==> a[j] == b[j],
    ensures
        lex_cmp(a, b) == lex_cmp(a.skip(k), b.skip(k)),
    decreases k,
{
    if k == 0 {
        assert(a.skip(0) =~= a);
        assert(b.skip(0) =~= b);
    } else {
        assert(a.drop_first() =~= a.skip(1));
        assert(b.drop_first() =~= b.skip(1));
        lemma_lex_cmp_skip(a.skip(1), b.skip(1), k - 1);
        assert(a.skip(1).skip(k - 1) =~= a.skip(k));
        assert(b.skip(1).skip(k - 1) =~= b.skip(k));
    }
}

/// The same left-to-right principle for comparison against a query key.
pub proof fn lemma_prefix_cmp_skip(a: Seq<u8>, q: Seq<u8>, k: int)
    requires
        0 <= k <= a.len(),
        k <= q.len(),
        forall|j: int| 0 <= j < k ==> a[j] == q[j],
    ensures
        prefix_cmp(a, q) == prefix_cmp(a.skip(k), q.skip(k)),
    decreases k,
{
    if k == 0 {
        assert(a.skip(0) =~= a);
        assert(q.skip(0) =~= q);
    } else {
        assert(a.drop_first() =~= a.skip(1));
        assert(q.drop_first() =~= q.skip(1));
        lemma_prefix_cmp_skip(a.skip(1), q.skip(1), k - 1);
        assert(a.skip(1).skip(k - 1) =~= a.skip(k));
        assert(q.skip(1).skip(k - 1) =~= q.skip(k));
    }
}

/// A scan that stops at the first disagreement (or at the end of a key) has
/// found the longest common prefix.
pub proof fn lemma_lcp_from_scan(a: Seq<u8>, b: Seq<u8>, l: int)
    requires
        0 <= l <= a.len(),
        l <= b.len(),
        forall|j: int| 0 <= j < l ==> a[j] == b[j],
        l == a.len() || l == b.len() || a[l] != b[l],
    ensures
        lcp_len(a, b) == l,
    decreases l,
{
    if l == 0 {
    } else {
        lemma_lcp_from_scan(a.drop_first(), b.drop_first(), l - 1);
    }
}

/// The suffix order is a total ordering on positions: the key comparison is
/// reflexive, transitive and antisymmetric up to key equality, and equal
/// keys are ordered by position.
pub proof fn lemma_suffix_order_total(text: Seq<u8>, pr: ProfView)
    ensures
        vstd::relations::total_ordering(suffix_order(text, pr)),
{
    let leq = suffix_order(text, pr);
    assert forall|x: usize, y: usize| #[trigger] leq(x, y) && #[trigger] leq(y, x) implies x
        == y by {
        if x != y {
            lemma_lex_cmp_basic(suffix_key(text, pr, x as int), suffix_key(text, pr, y as int));
        }
    }
    assert forall|x: usize, y: usize, z: usize| #[trigger] leq(x, y) && #[trigger] leq(
        y,
        z,
    ) implies leq(x, z) by {
        if x != y && y != z && x != z {
            let kx = suffix_key(text, pr, x as int);
            let ky = suffix_key(text, pr, y as int);
            let kz = suffix_key(text, pr, z as int);
            lemma_lex_cmp_basic(kx, ky);
            lemma_lex_cmp_basic(ky, kz);
            lemma_lex_cmp_trans(kx, ky, kz);
        }
    }
    assert forall|x: usize, y: usize| true implies #[trigger] leq(x, y) || #[trigger] leq(
        y,
        x,
    ) by {
        if x != y {
            lemma_lex_cmp_basic(suffix_key(text, pr, x as int), suffix_key(text, pr, y as int));
        }
    }
}

/// The strict suffix order is transitive.
pub proof fn lemma_suffix_lt_trans(text: Seq<u8>, pr: ProfView, a: int, b: int, c: int)
    requires
        suffix_lt(text, pr, a, b),
        suffix_lt(text, pr, b, c),
    ensures
        suffix_lt(text, pr, a, c),
{
    let ka = suffix_key(text, pr, a);
    let kb = suffix_key(text, pr, b);
    let kc = suffix_key(text, pr, c);
    lemma_lex_cmp_basic(ka, kb);
    lemma_lex_cmp_basic(kb, kc);
    lemma_lex_cmp_basic(ka, kc);
    lemma_lex_cmp_trans(ka, kb, kc);
}

/// The normalized comparison symbol of a byte; executable form of
/// [`norm_sym`].
pub fn norm_byte(prof: &SortProfile, b: u8) -> (r: u8)
    ensures
        r == norm_sym(prof@, b),
{
    if prof.is_dna {
        let c = if prof.ignore_softmask && 97 <= b && b <= 122 {
            b - 32
        } else {
            b
        };
        if prof.allow_ambiguity || c == 65 || c == 67 || c == 71 || c == 84 {
            c
        } else {
            0
        }
    } else {
        b
    }
}

/// Executable form of [`cmp_cap`].
pub fn cap_for(prof: &SortProfile, whole: usize) -> (r: usize)
    ensures
        r as nat == cmp_cap(prof@, whole as nat),
        r <= whole,
{
    let base = match &prof.seed_mask {
        Option::Some(m) => if m.len() < whole {
            m.len()
        } else {
            whole
        },
        Option::None => whole,
    };
    match prof.max_query_len {
        Option::Some(l) => if l < base {
            l
        } else {
            base
        },
        Option::None => base,
    }
}

/// The symbol at relative offset `k` of the key of the suffix at `p`.
pub fn key_sym_of(text: &Vec<u8>, prof: &SortProfile, p: usize, k: usize) -> (r: u8)
    requires
        text@.len() >= 1,
        p + k < text@.len() - 1,
    ensures
        (k as nat) < cmp_cap(prof@, suffix_len(text@, p as int)) ==> r == suffix_key(
            text@,
            prof@,
            p as int,
        )[k as int],
{
    // the vector's length pins the index below the platform limit
    let _n = text.len();
    let idx = p + k;
    let sym = match &prof.seed_mask {
        Option::Some(m) => {
            if k < m.len() && m[k] {
                norm_byte(prof, text[idx])
            } else {
                0
            }
        },
        Option::None => norm_byte(prof, text[idx]),
    };
    sym
}

/// Three-way comparison of the keys of the suffixes at `p` and `q`;
/// the result is the sign of [`lex_cmp`] on the two keys.
pub fn suffix_cmp(text: &Vec<u8>, prof: &SortProfile, p: usize, q: usize) -> (r: i8)
    requires
        text@.len() >= 1,
        p < text@.len() - 1,
        q < text@.len() - 1,
    ensures
        r as int == lex_cmp(
            suffix_key(text@, prof@, p as int),
            suffix_key(text@, prof@, q as int),
        ),
{
    let ghost ka = suffix_key(text@, prof@, p as int);
    let ghost kb = suffix_key(text@, prof@, q as int);
    let la = cap_for(prof, text.len() - 1 - p);
    let lb = cap_for(prof, text.len() - 1 - q);
    let mut c: usize = 0;
    loop
        invariant
            text@.len() >= 1,
            p < text@.len() - 1,
            q < text@.len() - 1,
            la as nat == ka.len(),
            lb as nat == kb.len(),
            la <= text@.len() - 1 - p,
            lb <= text@.len() - 1 - q,
            c <= la,
            c <= lb,
            ka == suffix_key(text@, prof@, p as int),
            kb == suffix_key(text@, prof@, q as int),
            forall|j: int| 0 <= j < c ==> ka[j] == kb[j],
        decreases la - c,
    {
        proof {
            lemma_lex_cmp_skip(ka, kb, c as int);
        }
        if c == la && c == lb {
            return 0;
        } else if c == la {
            return -1;
        } else if c == lb {
            return 1;
        }
        let sa = key_sym_of(text, prof, p, c);
        let sb = key_sym_of(text, prof, q, c);
        proof {
            assert(sa == ka[c as int]);
            assert(sb == kb[c as int]);
            assert(ka.skip(c as int)[0] == ka[c as int]);
            assert(kb.skip(c as int)[0] == kb[c as int]);
        }
        if sa < sb {
            return -1;
        } else if sb < sa {
            return 1;
        }
        c = c + 1;
    }
}

/// Whether the suffix at `p` sorts strictly before the suffix at `q`.
pub fn suffix_less(text: &Vec<u8>, prof: &SortProfile, p: usize, q: usize) -> (r: bool)
    requires
        text@.len() >= 1,
        p < text@.len() - 1,
        q < text@.len() - 1,
    ensures
        r == suffix_lt(text@, prof@, p as int, q as int),
{
    let c = suffix_cmp(text, prof, p, q);
    c < 0 || (c == 0 && p < q)
}

/// Materializes the key of a query, ready for repeated comparisons.
pub fn make_query_key(prof: &SortProfile, q: &[u8]) -> (r: Vec<u8>)
    ensures
        r@ == query_key(prof@, q@),
{
    let ghost qk = query_key(prof@, q@);
    let cap = cap_for(prof, q.len());
    let mut out: Vec<u8> = Vec::new();
    let mut k: usize = 0;
    while k < cap
        invariant
            cap as nat == qk.len(),
            cap <= q@.len(),
            k <= cap,
            qk == query_key(prof@, q@),
            out@.len() == k as int,
            forall|j: int| 0 <= j < k ==> out@[j] == qk[j],
        decreases cap - k,
    {
        let sym = match &prof.seed_mask {
            Option::Some(m) => {
                if k < m.len() && m[k] {
                    norm_byte(prof, q[k])
                } else {
                    0
                }
            },
            Option::None => norm_byte(prof, q[k]),
        };
        proof {
            assert(sym == qk[k as int]);
        }
        out.push(sym);
        k = k + 1;
    }
    proof {
        assert(out@ =~= qk);
    }
    out
}

/// Three-way comparison of the key of the suffix at `p` against a
/// materialized query key; the result is the sign of [`prefix_cmp`].
pub fn suffix_vs_query(text: &Vec<u8>, prof: &SortProfile, p: usize, qk: &Vec<u8>) -> (r: i8)
    requires
        text@.len() >= 1,
        p < text@.len() - 1,
    ensures
        r as int == prefix_cmp(suffix_key(text@, prof@, p as int), qk@),
{
    let ghost ka = suffix_key(text@, prof@, p as int);
    let la = cap_for(prof, text.len() - 1 - p);
    let mut c: usize = 0;
    loop
        invariant
            text@.len() >= 1,
            p < text@.len() - 1,
            la as nat == ka.len(),
            la <= text@.len() - 1 - p,
            c <= la,
            c <= qk@.len(),
            ka == suffix_key(text@, prof@, p as int),
            forall|j: int| 0 <= j < c ==> ka[j] == qk@[j],
        decreases la - c,
    {
        proof {
            lemma_prefix_cmp_skip(ka, qk@, c as int);
        }
        if c == qk.len() {
            return 0;
        } else if c == la {
            return -1;
        }
        let sa = key_sym_of(text, prof, p, c);
        let sq = qk[c];
        proof {
            assert(sa == ka[c as int]);
            assert(ka.skip(c as int)[0] == ka[c as int]);
            assert(qk@.skip(c as int)[0] == qk@[c as int]);
        }
        if sa < sq {
            return -1;
        } else if sq < sa {
            return 1;
        }
        c = c + 1;
    }
}

} // verus!
