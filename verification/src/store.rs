//! The retrieval store: chunks with their embeddings, answering top-k
//! similarity queries by a full linear scan.

use vstd::prelude::*;
use vstd::relations::{sorted_by, total_ordering};
use vstd::seq_lib::lemma_sorted_unique;
use vstd::string::*;
use vstd::multiset::Multiset;
use crate::chunk::Chunk;
use crate::sim::{cos_sim, spec_cos_sim, valid_components};

verus! {

/// Why a store could not be assembled from its parts.
#[derive(Debug, PartialEq, Eq, Structural)]
pub enum StoreError {
    /// The chunk list and the embedding list differ in length.
    LengthMismatch,
    /// Two embeddings differ in dimensionality.
    DimensionMismatch,
    /// Some embedding component exceeds the fixed-point bound.
    ComponentOutOfRange,
}

/// The ranking order on (score, insertion index) pairs: a higher score comes
/// first, and of two equal scores the earlier-inserted chunk comes first.
pub open spec fn rank_leq(a: (i128, usize), b: (i128, usize)) -> bool {
    a.0 > b.0 || (a.0 == b.0 && a.1 <= b.1)
}

/// The ranking order as a function value, for sorting.
pub open spec fn rank_order() -> spec_fn((i128, usize), (i128, usize)) -> bool {
    |a: (i128, usize), b: (i128, usize)| rank_leq(a, b)
}

/// The ranking order is total, so the ranked sequence is unique.
pub proof fn lemma_rank_order_total()
    ensures
        total_ordering(rank_order()),
{
}

/// The decorated snippet built for one retrieved chunk.
pub open spec fn snippet_text(source: Seq<char>, text: Seq<char>) -> Seq<char> {
    "---\nSource: "@ + source + "\n```\n"@ + text + "\n```\n"@
}

/// Every embedding has the dimensionality of the first one.
pub open spec fn dims_ok(embeddings: Seq<Vec<i64>>) -> bool {
    forall|i: int|
        0 <= i < embeddings.len() ==> (#[trigger] embeddings[i])@.len() == embeddings[0]@.len()
}

/// Every component of every embedding is within the fixed-point bound.
pub open spec fn components_ok(embeddings: Seq<Vec<i64>>) -> bool {
    forall|i: int| 0 <= i < embeddings.len() ==> valid_components((#[trigger] embeddings[i])@)
}

/// A store of chunks and their embeddings, parallel index by index;
/// append-only during build and read-only afterwards.
pub struct RagStore {
    pub chunks: Vec<Chunk>,
    pub embeddings: Vec<Vec<i64>>,
}

impl RagStore {
    /// The lists are parallel, every embedding has the store's single
    /// dimensionality, and every component is within the fixed-point bound.
    pub open spec fn wf(self) -> bool {
        &&& self.chunks@.len() == self.embeddings@.len()
        &&& forall|i: int|
            0 <= i < self.embeddings@.len() ==> (#[trigger] self.embeddings@[i])@.len()
                == self.dim()
        &&& forall|i: int|
            0 <= i < self.embeddings@.len() ==> valid_components((#[trigger] self.embeddings@[i])@)
    }

    /// The dimensionality shared by every embedding of the store.
    pub open spec fn dim(self) -> nat {
        if self.embeddings@.len() == 0 {
            0
        } else {
            self.embeddings@[0]@.len()
        }
    }

    /// Each stored chunk scored against the query, tagged with its index.
    pub open spec fn spec_scores(self, q: Seq<i64>) -> Seq<(i128, usize)> {
        Seq::new(
            self.embeddings@.len(),
            |i: int| (spec_cos_sim(self.embeddings@[i]@, q) as i128, i as usize),
        )
    }

    /// The scored chunks, best first.
    pub open spec fn spec_ranked(self, q: Seq<i64>) -> Seq<(i128, usize)> {
        self.spec_scores(q).sort_by(rank_order())
    }

    /// What a search returns: the first `k` ranked chunks (all of them when
    /// `k` exceeds the store size), rendered as provenance-tagged snippets.
    pub open spec fn spec_search(self, q: Seq<i64>, k: int) -> Seq<Seq<char>> {
        let ranked = self.spec_ranked(q);
        let taken = if k < ranked.len() {
            ranked.take(k)
        } else {
            ranked
        };
        taken.map_values(
            |p: (i128, usize)|
                snippet_text(self.chunks@[p.1 as int].source@, self.chunks@[p.1 as int].text@),
        )
    }

    /// Assembles a store from parallel chunk and embedding lists, verifying
    /// the store invariant; rejected exactly when the lists differ in
    /// length, the embeddings differ in dimension, or a component is out of
    /// the fixed-point range.
    pub fn new(chunks: Vec<Chunk>, embeddings: Vec<Vec<i64>>) -> (r: Result<RagStore, StoreError>)
        ensures
            match r {
                Ok(s) => {
                    &&& s.chunks@ == chunks@
                    &&& s.embeddings@ == embeddings@
                    &&& s.wf()
                },
                Err(e) => {
                    &&& !(RagStore { chunks, embeddings }).wf()
                    &&& (e == StoreError::LengthMismatch <==> chunks@.len() != embeddings@.len())
                    &&& (e == StoreError::DimensionMismatch <==> chunks@.len()
                        == embeddings@.len() && !dims_ok(embeddings@))
                    &&& (e == StoreError::ComponentOutOfRange <==> chunks@.len()
                        == embeddings@.len() && dims_ok(embeddings@) && !components_ok(
                        embeddings@,
                    ))
                },
            },
    {
        if chunks.len() != embeddings.len() {
            return Err(StoreError::LengthMismatch);
        }
        let n: usize = embeddings.len();
        let dim: usize = if n == 0 {
            0
        } else {
            embeddings[0].len()
        };
        let mut i: usize = 0;
        while i < n
            invariant
                n == embeddings@.len(),
                chunks@.len() == n,
                i <= n,
                n > 0 ==> dim == embeddings@[0]@.len(),
                forall|j: int| 0 <= j < i ==> (#[trigger] embeddings@[j])@.len() == dim,
            decreases n - i,
        {
            if embeddings[i].len() != dim {
                proof {
                    assert(!dims_ok(embeddings@));
                    assert(!(RagStore { chunks, embeddings }).wf());
                }
                return Err(StoreError::DimensionMismatch);
            }
            i = i + 1;
        }
        proof {
            assert(dims_ok(embeddings@));
        }
        let mut i: usize = 0;
        while i < n
            invariant
                n == embeddings@.len(),
                chunks@.len() == n,
                i <= n,
                dims_ok(embeddings@),
                n > 0 ==> dim == embeddings@[0]@.len(),
                forall|j: int| 0 <= j < i ==> valid_components((#[trigger] embeddings@[j])@),
            decreases n - i,
        {
            let row: &Vec<i64> = &embeddings[i];
            let m: usize = row.len();
            let mut j: usize = 0;
            while j < m
                invariant
                    m == row@.len(),
                    j <= m,
                    row@ == embeddings@[i as int]@,
                    i < n == embeddings@.len(),
                    chunks@.len() == n,
                    dims_ok(embeddings@),
                    forall|t: int|
                        0 <= t < j ==> -crate::sim::COMPONENT_BOUND <= #[trigger] row@[t]
                            <= crate::sim::COMPONENT_BOUND,
                decreases m - j,
            {
                let v: i64 = row[j];
                if v < -crate::sim::COMPONENT_BOUND || v > crate::sim::COMPONENT_BOUND {
                    proof {
                        assert(!valid_components(embeddings@[i as int]@));
                        assert(!components_ok(embeddings@));
                        assert(!(RagStore { chunks, embeddings }).wf());
                    }
                    return Err(StoreError::ComponentOutOfRange);
                }
                j = j + 1;
            }
            proof {
                assert(valid_components(embeddings@[i as int]@));
            }
            i = i + 1;
        }
        Ok(RagStore { chunks, embeddings })
    }

    /// Ranks every stored chunk against the query embedding and returns the
    /// best `top_k` as snippets; all of them when `top_k` exceeds the store
    /// size, and none for an empty store, never an error.
    pub fn search(&self, query: &Vec<i64>, top_k: usize) -> (r: Vec<String>)
        requires
            self.wf(),
            valid_components(query@),
            self.embeddings@.len() > 0 ==> query@.len() == self.dim(),
        ensures
            r@.map_values(|s: String| s@) == self.spec_search(query@, top_k as int),
            r@.len() == vstd::math::min(top_k as int, self.chunks@.len() as int),
    {
        let n: usize = self.chunks.len();
        let mut pairs: Vec<(i128, usize)> = Vec::new();
        let mut i: usize = 0;
        while i < n
            invariant
                self.wf(),
                valid_components(query@),
                n == self.chunks@.len(),
                self.embeddings@.len() > 0 ==> query@.len() == self.dim(),
                i <= n,
                pairs@ =~= self.spec_scores(query@).take(i as int),
            decreases n - i,
        {
            let score: i128 = cos_sim(&self.embeddings[i], query);
            pairs.push((score, i));
            proof {
                assert(pairs@ =~= self.spec_scores(query@).take(i as int + 1));
            }
            i = i + 1;
        }
        proof {
            assert(pairs@ =~= self.spec_scores(query@));
        }
        let ghost scores = pairs@;
        let ranked: Vec<(i128, usize)> = rank_pairs(pairs);
        proof {
            broadcast use vstd::seq_lib::group_to_multiset_ensures;

            lemma_rank_order_total();
            scores.lemma_sort_by_ensures(rank_order());
            assert(ranked@ == self.spec_ranked(query@));
            assert(ranked@.to_multiset() == scores.to_multiset());
            assert(ranked@.to_multiset().len() == ranked@.len());
            assert(scores.to_multiset().len() == scores.len());
            assert(ranked@.len() == scores.len());
            assert forall|t: int| 0 <= t < ranked@.len() implies (#[trigger] ranked@[t]).1 < n by {
                assert(ranked@.to_multiset().contains(ranked@[t]));
                assert(scores.to_multiset().contains(ranked@[t]));
                assert(scores.contains(ranked@[t]));
                let w = choose|w: int| 0 <= w < scores.len() && scores[w] == ranked@[t];
                assert(scores[w].1 == w as usize);
            }
        }
        let count: usize = if top_k < n {
            top_k
        } else {
            n
        };
        let mut out: Vec<String> = Vec::new();
        let mut j: usize = 0;
        while j < count
            invariant
                self.wf(),
                n == self.chunks@.len(),
                count <= n,
                j <= count,
                ranked@ == self.spec_ranked(query@),
                ranked@.len() == n,
                forall|t: int|
                    0 <= t < ranked@.len() ==> (#[trigger] ranked@[t]).1 < n,
                crate::string_views(out@) =~= self.spec_search(query@, count as int).take(j as int),
            decreases count - j,
        {
            let idx: usize = ranked[j].1;
            let snip: String = render_snippet(&self.chunks[idx]);
            let ghost prev = out@;
            out.push(snip);
            proof {
                let ss = self.spec_search(query@, count as int);
                let rk = self.spec_ranked(query@);
                let taken = if (count as int) < rk.len() {
                    rk.take(count as int)
                } else {
                    rk
                };
                assert(rk.len() == n as int);
                assert(taken.len() == count as int);
                assert(ss.len() == count as int);
                assert(crate::string_views(prev).len() == prev.len());
                assert(prev.len() == j as int);
                assert(out@.len() == j as int + 1);
                assert(taken[j as int] == rk[j as int]);
                assert(ss[j as int] == snippet_text(
                    self.chunks@[idx as int].source@,
                    self.chunks@[idx as int].text@,
                ));
                assert(out@[j as int]@ == ss[j as int]);
                assert forall|k: int| 0 <= k < out@.len() implies crate::string_views(out@)[k] == ss.take(
                    j as int + 1,
                )[k] by {
                    if k < j as int {
                        assert(out@[k] == prev[k]);
                        assert(crate::string_views(prev)[k] == ss.take(j as int)[k]);
                    }
                }
                assert(crate::string_views(out@) =~= ss.take(j as int + 1));
            }
            j = j + 1;
        }
        proof {
            assert(self.spec_search(query@, count as int) == self.spec_search(
                query@,
                top_k as int,
            ));
            assert(crate::string_views(out@) =~= self.spec_search(query@, count as int)) by {
                assert(self.spec_search(query@, count as int).take(count as int)
                    =~= self.spec_search(query@, count as int));
            }
            assert(out@.map_values(|s: String| s@) == crate::string_views(out@));
        }
        out
    }
}

/// Sorts score pairs by the ranking order: the result is exactly the
/// ranking of the input.
fn rank_pairs(pairs: Vec<(i128, usize)>) -> (r: Vec<(i128, usize)>)
    ensures
        r@ == pairs@.sort_by(rank_order()),
        r@.to_multiset() == pairs@.to_multiset(),
        sorted_by(r@, rank_order()),
{
    broadcast use vstd::seq_lib::group_to_multiset_ensures;

    let n: usize = pairs.len();
    let mut out: Vec<(i128, usize)> = Vec::new();
    let mut i: usize = 0;
    proof {
        assert(pairs@.take(0) =~= Seq::<(i128, usize)>::empty());
        assert(Seq::<(i128, usize)>::empty().to_multiset() =~= Multiset::<(i128, usize)>::empty());
    }
    while i < n
        invariant
            n == pairs@.len(),
            i <= n,
            forall|a: int, b: int|
                0 <= a < b < out@.len() ==> #[trigger] rank_leq(out@[a], out@[b]),
            out@.to_multiset() == pairs@.take(i as int).to_multiset(),
        decreases n - i,
    {
        let p: (i128, usize) = pairs[i];
        let m: usize = out.len();
        let mut pos: usize = 0;
        while pos < m
            invariant
                m == out@.len(),
                pos <= m,
                forall|t: int| 0 <= t < pos ==> rank_leq(#[trigger] out@[t], p),
            ensures
                pos <= m,
                forall|t: int| 0 <= t < pos ==> rank_leq(#[trigger] out@[t], p),
                pos < m ==> !rank_leq(out@[pos as int], p),
            decreases m - pos,
        {
            let q: (i128, usize) = out[pos];
            if !(q.0 > p.0 || (q.0 == p.0 && q.1 <= p.1)) {
                break;
            }
            pos = pos + 1;
        }
        let ghost old_out = out@;
        out.insert(pos, p);
        proof {
            vstd::seq_lib::to_multiset_insert(old_out, pos as int, p);
            broadcast use vstd::seq_lib::group_to_multiset_ensures;

            old_out.insert_ensures(pos as int, p);
            assert forall|a: int, b: int| 0 <= a < b < out@.len() implies #[trigger] rank_leq(
                out@[a],
                out@[b],
            ) by {
                if b < pos as int {
                    assert(rank_leq(old_out[a], old_out[b]));
                } else if a < pos as int && b == pos as int {
                    assert(rank_leq(old_out[a], p));
                } else if a == pos as int {
                    assert(pos < m && !rank_leq(old_out[pos as int], p));
                    assert(rank_leq(p, old_out[pos as int]));
                    if b - 1 > pos as int {
                        assert(rank_leq(old_out[pos as int], old_out[b - 1]));
                    }
                    assert(rank_leq(p, old_out[b - 1]));
                } else if a > pos as int {
                    assert(rank_leq(old_out[a - 1], old_out[b - 1]));
                } else {
                    assert(a < pos as int && b > pos as int);
                    assert(a < b - 1);
                    assert(rank_leq(old_out[a], old_out[b - 1]));
                }
            }
            assert(pairs@.take(i as int + 1) =~= pairs@.take(i as int).push(p));
            assert(out@.to_multiset() == pairs@.take(i as int + 1).to_multiset());
        }
        i = i + 1;
    }
    proof {
        assert(pairs@.take(n as int) =~= pairs@);
        lemma_rank_order_total();
        pairs@.lemma_sort_by_ensures(rank_order());
        assert(sorted_by(out@, rank_order())) by {
            assert forall|a: int, b: int| 0 <= a < b < out@.len() implies #[trigger] (rank_order())(
                out@[a],
                out@[b],
            ) by {
                assert(rank_leq(out@[a], out@[b]));
            }
        }
        lemma_sorted_unique(out@, pairs@.sort_by(rank_order()), rank_order());
    }
    out
}

/// Renders one retrieved chunk as a snippet tagged with its source path.
pub fn render_snippet(c: &Chunk) -> (r: String)
    ensures
        r@ == snippet_text(c.source@, c.text@),
{
    let mut s: String = String::from_str("---\nSource: ");
    s.append(c.source.as_str());
    s.append("\n```\n");
    s.append(c.text.as_str());
    s.append("\n```\n");
    s
}

/// The ranked sequence never increases in score: of any two returned
/// positions the earlier one has at least the score of the later one, and
/// the ranking is a permutation of the scored chunks.
pub proof fn lemma_ranked_nonincreasing(store: RagStore, q: Seq<i64>)
    ensures
        ({
            let ranked = store.spec_ranked(q);
            &&& ranked.len() == store.spec_scores(q).len()
            &&& ranked.to_multiset() == store.spec_scores(q).to_multiset()
            &&& forall|a: int, b: int|
                0 <= a < b < ranked.len() ==> (#[trigger] ranked[b]).0 <= (#[trigger] ranked[a]).0
        }),
{
    broadcast use vstd::seq_lib::group_to_multiset_ensures;

    lemma_rank_order_total();
    store.spec_scores(q).lemma_sort_by_ensures(rank_order());
    let ranked = store.spec_ranked(q);
    assert(ranked.to_multiset().len() == ranked.len());
    assert(store.spec_scores(q).to_multiset().len() == store.spec_scores(q).len());
    assert forall|a: int, b: int| 0 <= a < b < ranked.len() implies (#[trigger] ranked[b]).0 <= (
    #[trigger] ranked[a]).0 by {
        assert((rank_order())(ranked[a], ranked[b]));
        assert(rank_leq(ranked[a], ranked[b]));
    }
}

} // verus!
