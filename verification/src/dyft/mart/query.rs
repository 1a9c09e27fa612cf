//! Queries against a dataset: the candidates of the search, kept where
//! their sketch lies within the Hamming radius of the query, and where
//! need be checked by a predicate on the trajectories themselves.

use crate::dyft::bit_tools::vcode_array::VCodeArray;
use crate::dyft::bit_tools::vcode_tools::{hamdist_spec, words, VCodeTools};
use crate::dyft::mart::structure::MartIndex;
use vstd::prelude::*;

verus! {

/// How a candidate fares in the verification.
#[derive(Debug, Clone, Copy, PartialEq, Eq, Structural)]
pub enum Verification {
    /// Its sketch lies within the lower radius: it is kept unseen.
    Partial,
    /// Its sketch lies within the radius but not within the lower radius:
    /// the predicate decides.
    Full,
    /// Its sketch lies beyond the radius: it is dropped.
    Filtered,
}

/// Whether `root` is the integer part of the square root of `radius`: its
/// square is at most `radius`, and the square of the next number is more.
pub open spec fn lower_radius(radius: nat, root: nat) -> bool {
    root * root <= radius < (root + 1) * (root + 1)
}

/// The integer part of the square root of `n`.
pub open spec fn spec_isqrt(n: nat) -> nat {
    choose|r: nat| lower_radius(n, r)
}

/// There is one such number only.
pub proof fn lemma_isqrt(n: nat, r: nat)
    requires
        lower_radius(n, r),
    ensures
        spec_isqrt(n) == r,
        r <= n,
{
    let c = spec_isqrt(n);
    assert(lower_radius(n, c));
    if c < r {
        assert((c + 1) * (c + 1) <= r * r) by (nonlinear_arith)
            requires
                0 <= c + 1 <= r,
        ;
    }
    if r < c {
        assert((r + 1) * (r + 1) <= c * c) by (nonlinear_arith)
            requires
                0 <= r + 1 <= c,
        ;
    }
    assert(r <= n) by (nonlinear_arith)
        requires
            r * r <= n,
            r >= 0,
    ;
}

/// The radius within which a candidate is kept unseen: the radius less
/// the integer part of its square root.
pub open spec fn lower_of(radius: nat) -> nat {
    (radius - spec_isqrt(radius)) as nat
}

/// The integer part of the square root of `n`.
pub fn isqrt(n: u32) -> (r: u32)
    ensures
        lower_radius(n as nat, r as nat),
        r == spec_isqrt(n as nat),
        r <= 65535,
        r <= n,
{
    let r = isqrt_search(n);
    proof {
        lemma_isqrt(n as nat, r as nat);
    }
    r
}

fn isqrt_search(n: u32) -> (r: u32)
    ensures
        lower_radius(n as nat, r as nat),
        r <= 65535,
{
    let mut lo: u32 = 0;
    let mut hi: u32 = 65536;
    // lo * lo <= n < hi * hi
    while hi - lo > 1
        invariant
            lo < hi <= 65536,
            lo * lo <= n,
            n < hi * hi,
        decreases hi - lo,
    {
        let mid = lo + (hi - lo) / 2;
        assert(mid * mid <= 65536 * 65536) by (nonlinear_arith)
            requires
                mid <= 65536,
        ;
        let sq: u64 = (mid as u64) * (mid as u64);
        if sq <= n as u64 {
            lo = mid;
        } else {
            hi = mid;
        }
    }
    lo
}

/// How the candidate with Hamming distance `d` to the query fares for the
/// radius `upper` and the lower radius `lower`.
pub open spec fn verification_of(d: nat, lower: nat, upper: nat) -> Verification {
    if d <= lower {
        Verification::Partial
    } else if d <= upper {
        Verification::Full
    } else {
        Verification::Filtered
    }
}

/// The pairs of the first `n` queries with the ids of their hits, query
/// by query.
pub open spec fn paired(hits: Seq<Seq<u32>>, n: int) -> Seq<(usize, usize)>
    decreases n,
{
    if n <= 0 {
        Seq::empty()
    } else {
        paired(hits, n - 1) + Seq::new(
            hits[n - 1].len(),
            |w: int| ((n - 1) as usize, hits[n - 1][w] as usize),
        )
    }
}

/// The pairs of the first queries do not depend on the hits of the
/// others.
pub proof fn lemma_paired_prefix(a: Seq<Seq<u32>>, b: Seq<Seq<u32>>, n: int)
    requires
        0 <= n <= a.len(),
        n <= b.len(),
        forall|i: int| 0 <= i < n ==> a[i] == b[i],
    ensures
        paired(a, n) == paired(b, n),
    decreases n,
{
    if n > 0 {
        lemma_paired_prefix(a, b, n - 1);
    }
}

/// Of the first `n` candidates, those whose sketch lies within `radius`
/// of the sketch of their query, in their order.
pub open spec fn close_pairs<T: VCodeTools>(
    candidates: Seq<(usize, usize)>,
    vcodes: &VCodeArray<T>,
    qvcodes: &VCodeArray<T>,
    radius: nat,
    n: int,
) -> Seq<(usize, usize)>
    decreases n,
{
    if n <= 0 {
        Seq::empty()
    } else {
        let rest = close_pairs(candidates, vcodes, qvcodes, radius, n - 1);
        if vcodes.within(
            candidates[n - 1].1 as int,
            qvcodes.sketch(candidates[n - 1].0 as int),
            radius,
        ) {
            rest.push(candidates[n - 1])
        } else {
            rest
        }
    }
}

/// Number of candidates among the first `n` that fare as `kind`.
pub open spec fn count_kind(kinds: Seq<Verification>, kind: Verification, n: int) -> nat
    decreases n,
{
    if n <= 0 {
        0
    } else {
        count_kind(kinds, kind, n - 1) + if kinds[n - 1] == kind {
            1nat
        } else {
            0nat
        }
    }
}

/// The candidates among the first `n` that are kept: those that fare as
/// partial, and those that fare as full and that the predicate accepted.
pub open spec fn kept(
    candidates: Seq<(usize, usize)>,
    kinds: Seq<Verification>,
    accepted: Seq<bool>,
    n: int,
) -> Seq<(usize, usize)>
    decreases n,
{
    if n <= 0 {
        Seq::empty()
    } else {
        let rest = kept(candidates, kinds, accepted, n - 1);
        if kinds[n - 1] == Verification::Partial || (kinds[n - 1] == Verification::Full
            && accepted[n - 1]) {
            rest.push(candidates[n - 1])
        } else {
            rest
        }
    }
}

pub proof fn lemma_count_kind_bound(kinds: Seq<Verification>, kind: Verification, n: int)
    requires
        n <= kinds.len(),
    ensures
        count_kind(kinds, kind, n) <= if n < 0 {
            0
        } else {
            n
        },
    decreases n,
{
    if n > 0 {
        lemma_count_kind_bound(kinds, kind, n - 1);
    }
}

/// The outcome of a query with verification: the pairs that were kept and
/// how the candidates fared.
pub struct DyFTPartialVerificationResult {
    pub m_full_verification_count: usize,
    pub m_partial_verification_count: usize,
    pub m_filtered_verification_count: usize,
    pub m_candidates: Vec<(usize, usize)>,
}

impl DyFTPartialVerificationResult {
    /// How the candidate `candidate` fares for the query `query`: by the
    /// Hamming distance of its sketch to that of the query.
    pub fn filter<T: VCodeTools>(
        vcodes: &VCodeArray<T>,
        qvcodes: &VCodeArray<T>,
        hamming_distance: u32,
        upper_hamming_distance: u32,
        query: usize,
        candidate: usize,
    ) -> (r: Verification)
        requires
            vcodes.wf(),
            qvcodes.wf(),
            vcodes.spec_bits() <= qvcodes.spec_bits(),
            query < qvcodes.spec_size(),
            candidate < vcodes.spec_size(),
        ensures
            r == verification_of(
                hamdist_spec(
                    words(vcodes.sketch(candidate as int)),
                    words(qvcodes.sketch(query as int)),
                    vcodes.spec_bits(),
                ),
                hamming_distance as nat,
                upper_hamming_distance as nat,
            ),
    {
        let q = qvcodes.access(query);
        let ham = vcodes.hamdist_radius(candidate, q, hamming_distance);
        if ham <= hamming_distance {
            Verification::Partial
        } else if vcodes.verify_candidate_predicate(candidate, q, upper_hamming_distance) {
            Verification::Full
        } else {
            Verification::Filtered
        }
    }

    /// The outcome for candidates that fared as `kinds` say, where the
    /// predicate accepted those that `accepted` says.
    pub fn from_outcomes(
        candidates: &Vec<(usize, usize)>,
        kinds: &Vec<Verification>,
        accepted: &Vec<bool>,
    ) -> (r: Self)
        requires
            kinds@.len() == candidates@.len(),
            accepted@.len() == candidates@.len(),
        ensures
            r.m_candidates@ == kept(candidates@, kinds@, accepted@, candidates@.len() as int),
            r.m_partial_verification_count == count_kind(
                kinds@,
                Verification::Partial,
                kinds@.len() as int,
            ),
            r.m_full_verification_count == count_kind(
                kinds@,
                Verification::Full,
                kinds@.len() as int,
            ),
            r.m_filtered_verification_count == count_kind(
                kinds@,
                Verification::Filtered,
                kinds@.len() as int,
            ),
    {
        let mut out: Vec<(usize, usize)> = Vec::new();
        let mut partial: usize = 0;
        let mut full: usize = 0;
        let mut filtered: usize = 0;
        let mut i: usize = 0;
        while i < candidates.len()
            invariant
                i <= candidates@.len(),
                kinds@.len() == candidates@.len(),
                accepted@.len() == candidates@.len(),
                out@ == kept(candidates@, kinds@, accepted@, i as int),
                partial == count_kind(kinds@, Verification::Partial, i as int),
                full == count_kind(kinds@, Verification::Full, i as int),
                filtered == count_kind(kinds@, Verification::Filtered, i as int),
            decreases candidates@.len() - i,
        {
            proof {
                lemma_count_kind_bound(kinds@, Verification::Partial, i as int);
                lemma_count_kind_bound(kinds@, Verification::Full, i as int);
                lemma_count_kind_bound(kinds@, Verification::Filtered, i as int);
            }
            match kinds[i] {
                Verification::Partial => {
                    partial = partial + 1;
                    out.push(candidates[i]);
                },
                Verification::Full => {
                    full = full + 1;
                    if accepted[i] {
                        out.push(candidates[i]);
                    }
                },
                Verification::Filtered => {
                    filtered = filtered + 1;
                },
            }
            i = i + 1;
        }
        DyFTPartialVerificationResult {
            m_full_verification_count: full,
            m_partial_verification_count: partial,
            m_filtered_verification_count: filtered,
            m_candidates: out,
        }
    }

    /// The outcome for the candidates `candidates`, pairs of a query and a
    /// sketch of the dataset: each is kept unseen, checked by `decider`, or
    /// dropped, as the Hamming distance of its sketch to that of the query
    /// says. `decider` is asked only about those that are to be checked.
    pub fn from_candidates<T: VCodeTools, F: Fn(usize, usize) -> bool>(
        candidates: &Vec<(usize, usize)>,
        vcodes: &VCodeArray<T>,
        qvcodes: &VCodeArray<T>,
        hamming_distance: u32,
        upper_hamming_distance: u32,
        decider: F,
    ) -> (r: (Self, Ghost<Seq<Verification>>, Ghost<Seq<bool>>))
        requires
            vcodes.wf(),
            qvcodes.wf(),
            vcodes.spec_bits() <= qvcodes.spec_bits(),
            forall|i: int|
                0 <= i < candidates@.len() ==> (#[trigger] candidates@[i]).0
                    < qvcodes.spec_size() && candidates@[i].1 < vcodes.spec_size(),
            forall|q: usize, c: usize| decider.requires((q, c)),
        ensures
            r.1@.len() == candidates@.len(),
            r.2@.len() == candidates@.len(),
            forall|i: int|
                0 <= i < candidates@.len() ==> #[trigger] r.1@[i] == verification_of(
                    hamdist_spec(
                        words(vcodes.sketch(candidates@[i].1 as int)),
                        words(qvcodes.sketch(candidates@[i].0 as int)),
                        vcodes.spec_bits(),
                    ),
                    hamming_distance as nat,
                    upper_hamming_distance as nat,
                ),
            forall|i: int|
                0 <= i < candidates@.len() && r.1@[i] == Verification::Full ==> decider.ensures(
                    (candidates@[i].0, candidates@[i].1),
                    #[trigger] r.2@[i],
                ),
            r.0.m_candidates@ == kept(candidates@, r.1@, r.2@, candidates@.len() as int),
            r.0.m_partial_verification_count == count_kind(
                r.1@,
                Verification::Partial,
                candidates@.len() as int,
            ),
            r.0.m_full_verification_count == count_kind(
                r.1@,
                Verification::Full,
                candidates@.len() as int,
            ),
            r.0.m_filtered_verification_count == count_kind(
                r.1@,
                Verification::Filtered,
                candidates@.len() as int,
            ),
    {
        let mut kinds: Vec<Verification> = Vec::new();
        let mut accepted: Vec<bool> = Vec::new();
        let mut i: usize = 0;
        while i < candidates.len()
            invariant
                i <= candidates@.len(),
                vcodes.wf(),
                qvcodes.wf(),
                vcodes.spec_bits() <= qvcodes.spec_bits(),
                    forall|w: int|
                    0 <= w < candidates@.len() ==> (#[trigger] candidates@[w]).0
                        < qvcodes.spec_size() && candidates@[w].1 < vcodes.spec_size(),
                forall|q: usize, c: usize| decider.requires((q, c)),
                kinds@.len() == i,
                accepted@.len() == i,
                forall|w: int|
                    0 <= w < i ==> #[trigger] kinds@[w] == verification_of(
                        hamdist_spec(
                            words(vcodes.sketch(candidates@[w].1 as int)),
                            words(qvcodes.sketch(candidates@[w].0 as int)),
                            vcodes.spec_bits(),
                        ),
                        hamming_distance as nat,
                        upper_hamming_distance as nat,
                    ),
                forall|w: int|
                    0 <= w < i && kinds@[w] == Verification::Full ==> decider.ensures(
                        (candidates@[w].0, candidates@[w].1),
                        #[trigger] accepted@[w],
                    ),
            decreases candidates@.len() - i,
        {
            let (query, candidate) = candidates[i];
            let kind = Self::filter(
                vcodes,
                qvcodes,
                hamming_distance,
                upper_hamming_distance,
                query,
                candidate,
            );
            let ok = match kind {
                Verification::Full => decider(query, candidate),
                _ => false,
            };
            kinds.push(kind);
            accepted.push(ok);
            i = i + 1;
        }
        let r = Self::from_outcomes(candidates, &kinds, &accepted);
        (r, Ghost(kinds@), Ghost(accepted@))
    }

    pub fn full_verification_count(&self) -> (r: usize)
        ensures
            r == self.m_full_verification_count,
    {
        self.m_full_verification_count
    }

    pub fn partial_verification_count(&self) -> (r: usize)
        ensures
            r == self.m_partial_verification_count,
    {
        self.m_partial_verification_count
    }

    pub fn filtered_verification_count(&self) -> (r: usize)
        ensures
            r == self.m_filtered_verification_count,
    {
        self.m_filtered_verification_count
    }

    /// The pairs that were kept.
    pub fn results(self) -> (r: Vec<(usize, usize)>)
        ensures
            r == self.m_candidates,
    {
        self.m_candidates
    }
}

impl MartIndex {
    /// Whether the search for query `query` of `qvcodes` finds the sketch
    /// `candidate`.
    pub open spec fn finds<T: VCodeTools>(
        &self,
        qvcodes: &VCodeArray<T>,
        query: int,
        candidate: int,
    ) -> bool {
        &&& 0 <= query < qvcodes.spec_size()
        &&& 0 <= candidate < self.m_ids
        &&& self.model().emits(
            self.labels_of(words(qvcodes.sketch(query))),
            self.m_errors as nat,
            candidate as u32,
        )
    }

    /// The pairs hold exactly the candidates of the queries below `n`.
    pub open spec fn candidates_upto<T: VCodeTools>(
        &self,
        qvcodes: &VCodeArray<T>,
        pairs: Seq<(usize, usize)>,
        n: int,
    ) -> bool {
        forall|q: usize, c: usize|
            #[trigger] pairs.contains((q, c)) <==> q < n && self.finds(qvcodes, q as int, c as int)
    }

    /// The pairs after the candidates of query `i` were added.
    proof fn lemma_candidates_step<T: VCodeTools>(
        &self,
        qvcodes: &VCodeArray<T>,
        i: usize,
        base: Seq<(usize, usize)>,
        found: Seq<u32>,
        out: Seq<(usize, usize)>,
    )
        requires
            self.wf(),
            i < qvcodes.spec_size(),
            self.candidates_upto(qvcodes, base, i as int),
            forall|id: u32|
                #[trigger] found.contains(id) <==> self.model().emits(
                    self.labels_of(words(qvcodes.sketch(i as int))),
                    self.m_errors as nat,
                    id,
                ),
            out == base + Seq::new(found.len(), |w: int| (i, found[w] as usize)),
        ensures
            self.candidates_upto(qvcodes, out, i + 1),
    {
        let m = self.model();
        let labels = self.labels_of(words(qvcodes.sketch(i as int)));
        assert forall|q: usize, c: usize| #[trigger]
            out.contains((q, c)) <==> q < i + 1 && self.finds(qvcodes, q as int, c as int) by {
            if out.contains((q, c)) {
                let w = choose|w: int| 0 <= w < out.len() && out[w] == (q, c);
                if w < base.len() {
                    assert(base[w] == (q, c));
                    assert(base.contains((q, c)));
                } else {
                    let id = found[w - base.len()];
                    assert(found.contains(id));
                    assert(m.emits(labels, self.m_errors as nat, id));
                    self.lemma_emitted_id(labels, id);
                }
            }
            if q < i + 1 && self.finds(qvcodes, q as int, c as int) {
                if q < i {
                    assert(base.contains((q, c)));
                    let w = choose|w: int| 0 <= w < base.len() && base[w] == (q, c);
                    assert(out[w] == (q, c));
                } else {
                    assert(found.contains(c as u32));
                    let w = choose|w: int| 0 <= w < found.len() && found[w] == c as u32;
                    assert(out[base.len() + w] == (q, c));
                }
            }
        }
    }

    /// Adds each of the ids `found`, paired with `i`, to `out`.
    fn pair_up(i: usize, found: &Vec<u32>, out: &mut Vec<(usize, usize)>)
        ensures
            final(out)@ == old(out)@ + Seq::new(found@.len(), |w: int| (i, found@[w] as usize)),
    {
        let ghost base = out@;
        let mut j: usize = 0;
        assert(out@ =~= base + Seq::new(0, |w: int| (i, found@[w] as usize)));
        while j < found.len()
            invariant
                j <= found@.len(),
                out@ == base + Seq::new(j as nat, |w: int| (i, found@[w] as usize)),
            decreases found@.len() - j,
        {
            out.push((i, found[j] as usize));
            assert(out@ =~= base + Seq::new((j + 1) as nat, |w: int| (i, found@[w] as usize)));
            j = j + 1;
        }
    }

    /// The pairs of each query of `qvcodes`, in their order, with each id
    /// that the search for that query gives.
    pub fn trie_candidates<T: VCodeTools>(&self, qvcodes: &VCodeArray<T>) -> (r: Vec<
        (usize, usize),
    >)
        requires
            self.wf(),
            qvcodes.wf(),
            self.m_bits <= qvcodes.spec_bits(),
        ensures
            forall|q: usize, c: usize|
                #[trigger] r@.contains((q, c)) <==> self.finds(qvcodes, q as int, c as int),
            self.candidates_of(qvcodes, r@),
    {
        let n = qvcodes.size();
        let mut out: Vec<(usize, usize)> = Vec::new();
        let mut i: usize = 0;
        let ghost hits: Seq<Seq<u32>> = Seq::empty();
        while i < n
            invariant
                i <= n,
                n == qvcodes.spec_size(),
                self.wf(),
                qvcodes.wf(),
                self.m_bits <= qvcodes.spec_bits(),
                self.candidates_upto(qvcodes, out@, i as int),
                hits.len() == i,
                forall|q: int| 0 <= q < i ==> self.searched(qvcodes, q, #[trigger] hits[q]),
                out@ == paired(hits, i as int),
            decreases n - i,
        {
            let found = self.trie_search(qvcodes.access(i));
            let ghost base = out@;
            Self::pair_up(i, &found, &mut out);
            proof {
                self.lemma_candidates_step(qvcodes, i, base, found@, out@);
                let grown = hits.push(found@);
                lemma_paired_prefix(hits, grown, i as int);
                assert(self.searched(qvcodes, i as int, found@));
                assert forall|q: int| 0 <= q < i + 1 implies self.searched(
                    qvcodes,
                    q,
                    #[trigger] grown[q],
                ) by {
                    if q < i {
                        assert(grown[q] == hits[q]);
                    }
                }
                hits = grown;
            }
            i = i + 1;
        }
        proof {
            assert(self.hits_of(qvcodes, hits, out@));
        }
        out
    }

    /// `hit` is what the search for query `q` of `qvcodes` gives: the
    /// posting lists of the leaves within the distance, each leaf once.
    pub open spec fn searched<T: VCodeTools>(&self, qvcodes: &VCodeArray<T>, q: int, hit: Seq<u32>) -> bool {
        exists|leaves: Seq<u32>| #[trigger]
            self.model().found(
                self.labels_of(words(qvcodes.sketch(q))),
                self.m_errors as nat,
                leaves,
                hit,
            )
    }

    /// `candidates` are the pairs of each query of `qvcodes`, in their
    /// order, with each id of `hits`, which is what the search for that
    /// query gives.
    pub open spec fn hits_of<T: VCodeTools>(
        &self,
        qvcodes: &VCodeArray<T>,
        hits: Seq<Seq<u32>>,
        candidates: Seq<(usize, usize)>,
    ) -> bool {
        &&& hits.len() == qvcodes.spec_size()
        &&& forall|q: int| 0 <= q < hits.len() ==> self.searched(qvcodes, q, #[trigger] hits[q])
        &&& candidates == paired(hits, hits.len() as int)
    }

    /// `candidates` are the pairs of each query of `qvcodes`, in their
    /// order, with each id that the search for that query gives.
    pub open spec fn candidates_of<T: VCodeTools>(
        &self,
        qvcodes: &VCodeArray<T>,
        candidates: Seq<(usize, usize)>,
    ) -> bool {
        exists|hits: Seq<Seq<u32>>| #[trigger] self.hits_of(qvcodes, hits, candidates)
    }

    /// An id that the search finds is the id of a sketch that was taken in.
    pub proof fn lemma_emitted_id(&self, q: Seq<u8>, id: u32)
        requires
            self.wf(),
            self.model().emits(q, self.m_errors as nat, id),
        ensures
            id < self.m_ids,
    {
        let m = self.model();
        let k = choose|k: u32| #[trigger] m.target(q, self.m_errors as nat, k) && m.holds(k, id);
        assert(m.posting_ok(k));
        let list = m.postings[k as int]->0;
        let w = choose|w: int| 0 <= w < list.len() && list[w] == id;
        assert(m.id_fits(k, list[w]));
    }

    /// The pairs of a query of `qvcodes` and a sketch of `vcodes` that the
    /// search finds and whose sketches lie within the Hamming radius of
    /// each other, query by query in the order of the search.
    pub fn trie_query<T: VCodeTools>(&self, vcodes: &VCodeArray<T>, qvcodes: &VCodeArray<T>) -> (r:
        Vec<(usize, usize)>)
        requires
            self.wf(),
            self.consistent(vcodes),
            qvcodes.wf(),
            self.m_bits <= qvcodes.spec_bits(),
        ensures
            forall|q: usize, c: usize|
                #[trigger] r@.contains((q, c)) <==> self.finds(qvcodes, q as int, c as int)
                    && vcodes.within(c as int, qvcodes.sketch(q as int), self.m_radius as nat),
            exists|candidates: Seq<(usize, usize)>| #[trigger]
                self.candidates_of(qvcodes, candidates) && r@ == close_pairs(
                    candidates,
                    vcodes,
                    qvcodes,
                    self.m_radius as nat,
                    candidates.len() as int,
                ),
    {
        let candidates = self.trie_candidates(qvcodes);
        let mut out: Vec<(usize, usize)> = Vec::new();
        let mut i: usize = 0;
        while i < candidates.len()
            invariant
                i <= candidates@.len(),
                self.wf(),
                out@ == close_pairs(candidates@, vcodes, qvcodes, self.m_radius as nat, i as int),
                self.consistent(vcodes),
                qvcodes.wf(),
                self.m_bits <= qvcodes.spec_bits(),
                forall|q: usize, c: usize|
                    #[trigger] candidates@.contains((q, c)) <==> self.finds(
                        qvcodes,
                        q as int,
                        c as int,
                    ),
                forall|q: usize, c: usize|
                    #[trigger] out@.contains((q, c)) <==> candidates@.subrange(
                        0,
                        i as int,
                    ).contains((q, c)) && vcodes.within(
                        c as int,
                        qvcodes.sketch(q as int),
                        self.m_radius as nat,
                    ),
            decreases candidates@.len() - i,
        {
            let (query, candidate) = candidates[i];
            let ghost prev = out@;
            proof {
                assert(candidates@.contains((query, candidate)));
                assert(self.finds(qvcodes, query as int, candidate as int));
            }
            let keep = vcodes.verify_candidate_predicate(
                candidate,
                qvcodes.access(query),
                self.m_radius,
            );
            if keep {
                out.push((query, candidate));
            }
            proof {
                let before = candidates@.subrange(0, i as int);
                let now = candidates@.subrange(0, i + 1);
                assert(now =~= before.push((query, candidate)));
                assert forall|q: usize, c: usize| #[trigger]
                    out@.contains((q, c)) <==> now.contains((q, c)) && vcodes.within(
                        c as int,
                        qvcodes.sketch(q as int),
                        self.m_radius as nat,
                    ) by {
                    if out@.contains((q, c)) {
                        let w = choose|w: int| 0 <= w < out@.len() && out@[w] == (q, c);
                        if w < prev.len() {
                            assert(prev[w] == (q, c));
                            assert(prev.contains((q, c)));
                            let w2 = choose|w2: int| 0 <= w2 < before.len() && before[w2] == (q, c);
                            assert(now[w2] == (q, c));
                        } else {
                            assert(now[i as int] == (q, c));
                        }
                    }
                    if now.contains((q, c)) && vcodes.within(
                        c as int,
                        qvcodes.sketch(q as int),
                        self.m_radius as nat,
                    ) {
                        let w = choose|w: int| 0 <= w < now.len() && now[w] == (q, c);
                        if w < i {
                            assert(before[w] == (q, c));
                            assert(before.contains((q, c)));
                            assert(prev.contains((q, c)));
                            let w2 = choose|w2: int| 0 <= w2 < prev.len() && prev[w2] == (q, c);
                            assert(out@[w2] == (q, c));
                        } else {
                            assert(out@[prev.len() as int] == (q, c));
                        }
                    }
                }
            }
            i = i + 1;
        }
        proof {
            assert(candidates@.subrange(0, candidates@.len() as int) =~= candidates@);
        }
        out
    }

    /// The outcome of the queries `qvcodes` with verification: of the
    /// candidates of the search, those within the lower radius are kept
    /// unseen, those beyond it but within the radius are kept if `decider`
    /// accepts them, and the others are dropped.
    pub fn trie_query_partial_verification<T: VCodeTools, F: Fn(usize, usize) -> bool>(
        &self,
        vcodes: &VCodeArray<T>,
        qvcodes: &VCodeArray<T>,
        decider: F,
    ) -> (r: DyFTPartialVerificationResult)
        requires
            self.wf(),
            self.consistent(vcodes),
            qvcodes.wf(),
            self.m_bits <= qvcodes.spec_bits(),
            forall|q: usize, c: usize| decider.requires((q, c)),
        ensures
            exists|candidates: Seq<(usize, usize)>, accepted: Seq<bool>| #[trigger]
                self.verified(vcodes, qvcodes, decider, candidates, accepted, r),
            forall|i: int|
                0 <= i < r.m_candidates@.len() ==> self.finds(
                    qvcodes,
                    (#[trigger] r.m_candidates@[i]).0 as int,
                    r.m_candidates@[i].1 as int,
                ) && vcodes.within(
                    r.m_candidates@[i].1 as int,
                    qvcodes.sketch(r.m_candidates@[i].0 as int),
                    self.m_radius as nat,
                ),
    {
        let candidates = self.trie_candidates(qvcodes);
        let root = isqrt(self.m_radius);
        let lower = self.m_radius - root;
        proof {
            assert forall|i: int| 0 <= i < candidates@.len() implies (#[trigger] candidates@[i]).0
                < qvcodes.spec_size() && candidates@[i].1 < vcodes.spec_size() by {
                assert(candidates@.contains(candidates@[i]));
                assert(self.finds(qvcodes, candidates@[i].0 as int, candidates@[i].1 as int));
            }
        }
        let (r, Ghost(kinds), Ghost(accepted)) = DyFTPartialVerificationResult::from_candidates(
            &candidates,
            vcodes,
            qvcodes,
            lower,
            self.m_radius,
            decider,
        );
        proof {
            lemma_kept_sound(candidates@, kinds, accepted, candidates@.len() as int);
            assert forall|i: int| 0 <= i < r.m_candidates@.len() implies self.finds(
                qvcodes,
                (#[trigger] r.m_candidates@[i]).0 as int,
                r.m_candidates@[i].1 as int,
            ) && vcodes.within(
                r.m_candidates@[i].1 as int,
                qvcodes.sketch(r.m_candidates@[i].0 as int),
                self.m_radius as nat,
            ) by {
                let w = choose|w: int|
                    0 <= w < candidates@.len() && candidates@[w] == r.m_candidates@[i] && kinds[w]
                        != Verification::Filtered;
                assert(candidates@.contains(candidates@[w]));
                assert(self.finds(qvcodes, candidates@[w].0 as int, candidates@[w].1 as int));
            }
            assert(kinds =~= self.kinds_of(vcodes, qvcodes, candidates@));
            assert(self.verified(vcodes, qvcodes, decider, candidates@, accepted, r));
        }
        r
    }

    /// How each of the candidates fares: by the Hamming distance of its
    /// sketch to that of its query, for the radius of the trie and the
    /// lower radius that belongs to it.
    pub open spec fn kinds_of<T: VCodeTools>(
        &self,
        vcodes: &VCodeArray<T>,
        qvcodes: &VCodeArray<T>,
        candidates: Seq<(usize, usize)>,
    ) -> Seq<Verification> {
        Seq::new(
            candidates.len(),
            |i: int|
                verification_of(
                    hamdist_spec(
                        words(vcodes.sketch(candidates[i].1 as int)),
                        words(qvcodes.sketch(candidates[i].0 as int)),
                        vcodes.spec_bits(),
                    ),
                    lower_of(self.m_radius as nat),
                    self.m_radius as nat,
                ),
        )
    }

    /// `r` is the outcome of the verification of the candidates
    /// `candidates`, which are the pairs that the search finds, where
    /// `accepted` holds what `decider` said of each candidate that it was
    /// asked about: the pairs that are kept, in the order of the
    /// candidates, and how many candidates fared in each way.
    pub open spec fn verified<T: VCodeTools, F: Fn(usize, usize) -> bool>(
        &self,
        vcodes: &VCodeArray<T>,
        qvcodes: &VCodeArray<T>,
        decider: F,
        candidates: Seq<(usize, usize)>,
        accepted: Seq<bool>,
        r: DyFTPartialVerificationResult,
    ) -> bool {
        let kinds = self.kinds_of(vcodes, qvcodes, candidates);
        let n = candidates.len() as int;
        &&& self.candidates_of(qvcodes, candidates)
        &&& forall|q: usize, c: usize| #[trigger]
            candidates.contains((q, c)) <==> self.finds(qvcodes, q as int, c as int)
        &&& accepted.len() == n
        &&& forall|i: int|
            0 <= i < n && kinds[i] == Verification::Full ==> decider.ensures(
                (candidates[i].0, candidates[i].1),
                #[trigger] accepted[i],
            )
        &&& r.m_candidates@ == kept(candidates, kinds, accepted, n)
        &&& r.m_partial_verification_count == count_kind(kinds, Verification::Partial, n)
        &&& r.m_full_verification_count == count_kind(kinds, Verification::Full, n)
        &&& r.m_filtered_verification_count == count_kind(kinds, Verification::Filtered, n)
    }
}

/// Every pair that is kept is a candidate that was not dropped.
pub proof fn lemma_kept_sound(
    candidates: Seq<(usize, usize)>,
    kinds: Seq<Verification>,
    accepted: Seq<bool>,
    n: int,
)
    requires
        0 <= n <= candidates.len(),
    ensures
        forall|i: int|
            0 <= i < kept(candidates, kinds, accepted, n).len() ==> exists|w: int|
                0 <= w < n && candidates[w] == #[trigger] kept(candidates, kinds, accepted, n)[i]
                    && kinds[w] != Verification::Filtered,
    decreases n,
{
    if n > 0 {
        lemma_kept_sound(candidates, kinds, accepted, n - 1);
        let rest = kept(candidates, kinds, accepted, n - 1);
        let now = kept(candidates, kinds, accepted, n);
        assert forall|i: int| 0 <= i < now.len() implies exists|w: int|
            0 <= w < n && candidates[w] == #[trigger] now[i] && kinds[w]
                != Verification::Filtered by {
            if i < rest.len() {
                let w = choose|w: int|
                    0 <= w < n - 1 && candidates[w] == rest[i] && kinds[w]
                        != Verification::Filtered;
                assert(0 <= w < n && candidates[w] == now[i] && kinds[w] != Verification::Filtered);
            } else {
                assert(candidates[n - 1] == now[i] && kinds[n - 1] != Verification::Filtered);
            }
        }
    }
}

} // verus!
