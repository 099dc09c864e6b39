//! The pipeline: stores chunks per tenant, keeps one inverted index per tenant, and
//! answers queries with the scoring terms of the tenant's matching chunks.

use vstd::prelude::*;
use vstd::hash_map::{HashMapWithView, StringHashMap};
use crate::index::{
    Chunk, Posting, TenantIndex, tenant_chunk_count, postings_for, lemma_count_zero,
    lemma_represents_fresh, lemma_represents_other,
};
use crate::laws::tenant_docs;
use crate::operators::{CoreHybridRetriever, CoreSemanticChunker};
use crate::text::{
    paragraph_chunks, tokenize, tokenize_str, views, lemma_paragraph_chunks_len,
};

verus! {

/// The most results a query returns.
pub const MAX_RESULTS: usize = 3;

/// The error of an ingestion attempted before both operators were attached.
pub open spec fn not_ready_message() -> Seq<char> {
    "Pipeline requires both a chunker and retriever before ingestion."@
}

/// One summand of a chunk's relevance score: the chunk holds a query term `term_count`
/// times among its `chunk_len` terms, `doc_freq` of the tenant's `tenant_chunks` chunks hold
/// that term. The summand is `(term_count / chunk_len) * (ln(tenant_chunks / doc_freq) + 1)`.
#[derive(Clone, Copy, Debug, PartialEq, Eq, Structural)]
pub struct ScoreTerm {
    pub chunk_idx: usize,
    pub term_count: usize,
    pub chunk_len: usize,
    pub doc_freq: usize,
    pub tenant_chunks: usize,
}

/// A chunk picked by the ranking, with its score already written out.
#[derive(Clone, Debug)]
pub struct RankedChunk {
    pub score_text: String,
    pub chunk_idx: usize,
}

/// The summand that posting `p` of a list of `doc_freq` postings contributes.
pub open spec fn score_term_of(p: Posting, doc_freq: nat, tenant_chunks: nat) -> ScoreTerm {
    ScoreTerm {
        chunk_idx: p.chunk_idx,
        term_count: p.term_count,
        chunk_len: p.chunk_len,
        doc_freq: doc_freq as usize,
        tenant_chunks: tenant_chunks as usize,
    }
}

/// The summands of query terms `qs` for tenant `t`: for each query term in order, one per
/// posting of that term, in posting order.
pub open spec fn score_terms(cs: Seq<Chunk>, t: Seq<char>, qs: Seq<Seq<char>>) -> Seq<ScoreTerm>
    decreases qs.len(),
{
    if qs.len() == 0 {
        seq![]
    } else {
        let ps = postings_for(cs, t, qs.last());
        score_terms(cs, t, qs.drop_last()) + ps.map_values(
            |p: Posting| score_term_of(p, ps.len(), tenant_chunk_count(cs, t)),
        )
    }
}

/// What a query for `q` by tenant `t` scores: nothing if `q` has no search terms or the
/// tenant has no chunks, else the summands of its terms.
pub open spec fn query_plan_spec(cs: Seq<Chunk>, t: Seq<char>, q: Seq<char>) -> Seq<ScoreTerm> {
    let qs = tokenize(q);
    if qs.len() == 0 || tenant_chunk_count(cs, t) == 0 {
        seq![]
    } else {
        score_terms(cs, t, qs)
    }
}

/// The text of one result: its score, its source and its content.
pub open spec fn result_line(score_text: Seq<char>, c: Chunk) -> Seq<char> {
    "[Score: "@ + score_text + "] (Source: "@ + c.source@ + ") "@ + c.content@
}

/// The result lines of the ranked chunks that exist, in ranked order.
pub open spec fn rendered(cs: Seq<Chunk>, ranked: Seq<RankedChunk>) -> Seq<Seq<char>>
    decreases ranked.len(),
{
    if ranked.len() == 0 {
        seq![]
    } else {
        let prev = rendered(cs, ranked.drop_last());
        let r = ranked.last();
        if r.chunk_idx < cs.len() {
            prev.push(result_line(r.score_text@, cs[r.chunk_idx as int]))
        } else {
            prev
        }
    }
}

/// Chunk `c` is the chunk of tenant `t` from `source` with text `content`.
pub open spec fn chunk_is(c: Chunk, t: Seq<char>, source: Seq<char>, content: Seq<char>) -> bool {
    c.tenant_id@ == t && c.source@ == source && c.content@ == content
}

/// The summands of one chunk, in the order the plan lists them.
#[derive(Clone, Debug)]
pub struct ChunkTerms {
    pub chunk_idx: usize,
    pub terms: Vec<ScoreTerm>,
}

/// The chunks that the summands `plan` score, each once, in order of first appearance.
pub open spec fn first_seen(plan: Seq<ScoreTerm>) -> Seq<usize>
    decreases plan.len(),
{
    if plan.len() == 0 {
        seq![]
    } else {
        let prev = first_seen(plan.drop_last());
        if prev.contains(plan.last().chunk_idx) {
            prev
        } else {
            prev.push(plan.last().chunk_idx)
        }
    }
}

/// The summands of `plan` that score chunk `idx`, in order.
pub open spec fn terms_for(plan: Seq<ScoreTerm>, idx: usize) -> Seq<ScoreTerm>
    decreases plan.len(),
{
    if plan.len() == 0 {
        seq![]
    } else {
        let prev = terms_for(plan.drop_last(), idx);
        if plan.last().chunk_idx == idx {
            prev.push(plan.last())
        } else {
            prev
        }
    }
}

/// A chunk that `plan` never scores has no summands in it.
proof fn lemma_terms_for_unseen(plan: Seq<ScoreTerm>, idx: usize)
    requires
        !first_seen(plan).contains(idx),
    ensures
        terms_for(plan, idx) == Seq::<ScoreTerm>::empty(),
    decreases plan.len(),
{
    if plan.len() > 0 {
        let prev = first_seen(plan.drop_last());
        if prev.contains(plan.last().chunk_idx) {
            assert(plan.last().chunk_idx != idx);
        } else {
            assert(first_seen(plan) == prev.push(plan.last().chunk_idx));
            assert(first_seen(plan)[prev.len() as int] == plan.last().chunk_idx);
            assert(!prev.contains(idx)) by {
                if prev.contains(idx) {
                    let j = choose|j: int| 0 <= j < prev.len() && prev[j] == idx;
                    assert(first_seen(plan)[j] == idx);
                }
            }
        }
        lemma_terms_for_unseen(plan.drop_last(), idx);
    }
}

/// Every chunk that `plan` scores is the chunk of one of its summands.
proof fn lemma_first_seen_from(plan: Seq<ScoreTerm>)
    ensures
        forall|g: int|
            0 <= g < first_seen(plan).len() ==> exists|j: int|
                0 <= j < plan.len() && (#[trigger] plan[j]).chunk_idx == #[trigger] first_seen(
                    plan,
                )[g],
    decreases plan.len(),
{
    if plan.len() > 0 {
        let p = plan.drop_last();
        lemma_first_seen_from(p);
        assert forall|g: int| 0 <= g < first_seen(plan).len() implies exists|j: int|
            0 <= j < plan.len() && (#[trigger] plan[j]).chunk_idx == #[trigger] first_seen(
                plan,
            )[g] by {
            if g < first_seen(p).len() {
                assert(first_seen(plan)[g] == first_seen(p)[g]);
                let j = choose|j: int|
                    0 <= j < p.len() && (#[trigger] p[j]).chunk_idx == #[trigger] first_seen(p)[g];
                assert(plan[j] == p[j]);
            } else {
                assert(plan[plan.len() - 1].chunk_idx == first_seen(plan)[g]);
            }
        }
    }
}

/// The summands of `plan` grouped by the chunk they score: one group per chunk, in order of
/// first appearance, each holding that chunk's summands in plan order.
pub fn group_by_chunk(plan: &Vec<ScoreTerm>) -> (r: Vec<ChunkTerms>)
    ensures
        r@.len() == first_seen(plan@).len(),
        forall|g: int|
            0 <= g < r@.len() ==> (#[trigger] r@[g]).chunk_idx == first_seen(plan@)[g]
                && r@[g].terms@ == terms_for(plan@, r@[g].chunk_idx),
        forall|j: int|
            #![trigger plan@[j]]
            0 <= j < plan@.len() ==> exists|g: int|
                #![trigger r@[g]]
                0 <= g < r@.len() && r@[g].chunk_idx == plan@[j].chunk_idx,
        forall|g: int, h: int|
            0 <= g < h < r@.len() ==> (#[trigger] r@[g]).chunk_idx != (#[trigger] r@[h]).chunk_idx,
        forall|g: int|
            0 <= g < r@.len() ==> (#[trigger] r@[g]).terms@ == plan@.filter(
                |st: ScoreTerm| st.chunk_idx == r@[g].chunk_idx,
            ),
{
    proof {
        broadcast use vstd::std_specs::hash::axiom_usize_obeys_hash_table_key_model;
    }
    let mut groups: Vec<ChunkTerms> = Vec::new();
    let mut pos: HashMapWithView<usize, usize> = HashMapWithView::new();
    let n = plan.len();
    assert(plan@.take(0) =~= seq![]);
    for k in 0..n
        invariant
            n == plan@.len(),
            groups@.len() == first_seen(plan@.take(k as int)).len(),
            forall|x: usize| #[trigger]
                pos@.contains_key(x) <==> first_seen(plan@.take(k as int)).contains(x),
            forall|x: usize| #[trigger]
                pos@.contains_key(x) ==> pos@[x] < groups@.len() && groups@[pos@[x] as int].chunk_idx
                    == x,
            forall|g: int|
                0 <= g < groups@.len() ==> (#[trigger] groups@[g]).chunk_idx == first_seen(
                    plan@.take(k as int),
                )[g] && groups@[g].terms@ == terms_for(plan@.take(k as int), groups@[g].chunk_idx)
                    && pos@.contains_key(groups@[g].chunk_idx) && pos@[groups@[g].chunk_idx] == g,
    {
        let st = plan[k];
        let idx = st.chunk_idx;
        let ghost before = plan@.take(k as int);
        let ghost after = plan@.take(k + 1);
        assert(after.drop_last() =~= before);
        assert(after.last() == st);
        let ghost old_groups = groups@;
        match pos.get(&idx) {
            Some(g_ref) => {
                let g = *g_ref;
                groups[g].terms.push(st);
                assert(first_seen(before).contains(idx));
                assert(first_seen(after) == first_seen(before));
                assert forall|h: int|
                    0 <= h < groups@.len() implies (#[trigger] groups@[h]).chunk_idx == first_seen(
                    after,
                )[h] && groups@[h].terms@ == terms_for(after, groups@[h].chunk_idx)
                    && pos@.contains_key(groups@[h].chunk_idx) && pos@[groups@[h].chunk_idx]
                    == h by {
                    assert(old_groups[h].chunk_idx == first_seen(before)[h]);
                    assert(pos@[old_groups[h].chunk_idx] == h);
                }
            },
            None => {
                proof {
                    lemma_terms_for_unseen(before, idx);
                }
                let g = groups.len();
                let mut terms: Vec<ScoreTerm> = Vec::new();
                terms.push(st);
                groups.push(ChunkTerms { chunk_idx: idx, terms });
                pos.insert(idx, g);
                assert(first_seen(after) == first_seen(before).push(idx));
                assert forall|x: usize| #[trigger]
                    pos@.contains_key(x) <==> first_seen(after).contains(x) by {
                    if x == idx {
                        assert(first_seen(after)[g as int] == idx);
                    } else if first_seen(after).contains(x) {
                        let j = choose|j: int| 0 <= j < first_seen(after).len() && first_seen(after)[j] == x;
                        assert(first_seen(before)[j] == x);
                    } else if first_seen(before).contains(x) {
                        let j = choose|j: int| 0 <= j < first_seen(before).len() && first_seen(before)[j] == x;
                        assert(first_seen(after)[j] == x);
                    }
                }
                assert forall|h: int|
                    0 <= h < groups@.len() implies (#[trigger] groups@[h]).chunk_idx == first_seen(
                    after,
                )[h] && groups@[h].terms@ == terms_for(after, groups@[h].chunk_idx)
                    && pos@.contains_key(groups@[h].chunk_idx) && pos@[groups@[h].chunk_idx]
                    == h by {
                    if h < g {
                        assert(old_groups[h].chunk_idx == first_seen(before)[h]);
                        assert(pos@[old_groups[h].chunk_idx] == h);
                    } else {
                        assert(terms@ =~= seq![st]);
                    }
                }
            },
        }
    }
    assert(plan@.take(n as int) =~= plan@);
    proof {
        let fs = first_seen(plan@);
        crate::laws::law_first_seen(plan@);
        assert forall|j: int|
            #![trigger plan@[j]]
            0 <= j < plan@.len() implies exists|g: int|
            #![trigger groups@[g]]
            0 <= g < groups@.len() && groups@[g].chunk_idx == plan@[j].chunk_idx by {
            assert(fs.contains(plan@[j].chunk_idx));
            let g = choose|g: int| 0 <= g < fs.len() && fs[g] == plan@[j].chunk_idx;
            assert(groups@[g].chunk_idx == fs[g]);
        }
        assert forall|g: int, h: int| 0 <= g < h < groups@.len() implies (
        #[trigger] groups@[g]).chunk_idx != (#[trigger] groups@[h]).chunk_idx by {
            assert(fs[g] != fs[h]);
        }
        assert forall|g: int| 0 <= g < groups@.len() implies (#[trigger] groups@[g]).terms@
            == plan@.filter(|st: ScoreTerm| st.chunk_idx == groups@[g].chunk_idx) by {
            crate::laws::law_terms_for(plan@, groups@[g].chunk_idx);
        }
    }
    groups
}

/// The chunks of all tenants and one index per tenant (`tenant_indexes[slot]` for
/// `tenant_names[slot]`).
pub struct ChunkStore {
    chunks: Vec<Chunk>,
    tenant_slots: StringHashMap<usize>,
    tenant_names: Vec<String>,
    tenant_indexes: Vec<TenantIndex>,
}

impl ChunkStore {
    /// Each tenant has one slot, each slot's index represents the stored chunks for its
    /// tenant, and every stored chunk's tenant has a slot.
    pub closed spec fn wf(&self) -> bool {
        &&& self.tenant_indexes@.len() == self.tenant_names@.len()
        &&& forall|t: Seq<char>| #[trigger]
            self.tenant_slots@.contains_key(t) ==> self.tenant_slots@[t] < self.tenant_names@.len()
                && self.tenant_names@[self.tenant_slots@[t] as int]@ == t
        &&& forall|s: int|
            0 <= s < self.tenant_names@.len() ==> self.tenant_slots@.contains_key(
                #[trigger] self.tenant_names@[s]@,
            ) && self.tenant_slots@[self.tenant_names@[s]@] == s
        &&& forall|s: int|
            0 <= s < self.tenant_indexes@.len() ==> (#[trigger] self.tenant_indexes@[s]).represents(
                self.chunks@,
                self.tenant_names@[s]@,
            )
        &&& forall|i: int|
            0 <= i < self.chunks@.len() ==> self.tenant_slots@.contains_key(
                (#[trigger] self.chunks@[i]).tenant_id@,
            ) && tokenize(self.chunks@[i].content@).len() <= usize::MAX
    }

    /// Every stored chunk's tenant has an index, and the store and each chunk's term
    /// sequence fit in memory.
    pub proof fn lemma_wf_facts(&self)
        requires
            self.wf(),
        ensures
            self.chunks_view().len() <= usize::MAX,
            forall|i: int|
                0 <= i < self.chunks_view().len() ==> self.tenants_view().contains(
                    (#[trigger] self.chunks_view()[i]).tenant_id@,
                ),
            forall|i: int|
                0 <= i < self.chunks_view().len() ==> tokenize(
                    (#[trigger] self.chunks_view()[i]).content@,
                ).len() <= usize::MAX,
    {
        assert(self.chunks.len() == self.chunks@.len());
    }

    /// The stored chunks of all tenants, in ingestion order.
    pub closed spec fn chunks_view(&self) -> Seq<Chunk> {
        self.chunks@
    }

    /// The tenants that have ingested at least once.
    pub closed spec fn tenants_view(&self) -> Set<Seq<char>> {
        self.tenant_slots@.dom()
    }

    /// A store with no tenants and no chunks.
    pub fn new() -> (r: Self)
        ensures
            r.wf(),
            r.chunks_view() == Seq::<Chunk>::empty(),
            r.tenants_view() == Set::<Seq<char>>::empty(),
    {
        ChunkStore {
            chunks: Vec::new(),
            tenant_slots: StringHashMap::new(),
            tenant_names: Vec::new(),
            tenant_indexes: Vec::new(),
        }
    }

    /// The stored chunks of all tenants, in ingestion order.
    pub fn chunks(&self) -> (r: &Vec<Chunk>)
        ensures
            r@ == self.chunks_view(),
    {
        &self.chunks
    }

    /// The index of `tenant_id`, if it has ingested.
    pub fn tenant_index(&self, tenant_id: &str) -> (r: Option<&TenantIndex>)
        requires
            self.wf(),
        ensures
            r is Some <==> self.tenants_view().contains(tenant_id@),
            r is None ==> forall|i: int|
                0 <= i < self.chunks_view().len() ==> (#[trigger] self.chunks_view()[i]).tenant_id@
                    != tenant_id@,
            r matches Some(idx) ==> idx.represents(self.chunks_view(), tenant_id@),
    {
        match self.tenant_slots.get(tenant_id) {
            Some(slot) => Some(&self.tenant_indexes[*slot]),
            None => {
                proof {
                    self.lemma_unknown_tenant(tenant_id@);
                }
                None
            },
        }
    }

    /// The slot of `tenant_id`, made (with an empty index) if the tenant has none.
    fn slot_for(&mut self, tenant_id: &str) -> (slot: usize)
        requires
            old(self).wf(),
        ensures
            final(self).wf(),
            final(self).chunks@ == old(self).chunks@,
            final(self).tenants_view() == old(self).tenants_view().insert(tenant_id@),
            slot < final(self).tenant_names@.len(),
            final(self).tenant_names@[slot as int]@ == tenant_id@,
            final(self).tenant_slots@.contains_key(tenant_id@),
            final(self).tenant_slots@[tenant_id@] == slot,
    {
        let found = match self.tenant_slots.get(tenant_id) {
            Some(s) => Some(*s),
            None => None,
        };
        match found {
            Some(s) => {
                assert(self.tenants_view() =~= old(self).tenants_view().insert(tenant_id@));
                s
            },
            None => {
                let ghost before = *self;
                proof {
                    self.lemma_unknown_tenant(tenant_id@);
                }
                let s = self.tenant_names.len();
                let idx = TenantIndex::default();
                proof {
                    lemma_represents_fresh(idx, self.chunks@, tenant_id@);
                }
                self.tenant_names.push(tenant_id.to_owned());
                self.tenant_indexes.push(idx);
                self.tenant_slots.insert(tenant_id.to_owned(), s);
                proof {
                    assert forall|k: int|
                        0 <= k < self.tenant_names@.len() implies self.tenant_slots@.contains_key(
                        #[trigger] self.tenant_names@[k]@,
                    ) && self.tenant_slots@[self.tenant_names@[k]@] == k by {
                        if k < s {
                            assert(before.tenant_slots@.contains_key(before.tenant_names@[k]@));
                        }
                    }
                    assert forall|k: int|
                        0 <= k < self.tenant_indexes@.len() implies (
                        #[trigger] self.tenant_indexes@[k]).represents(
                        self.chunks@,
                        self.tenant_names@[k]@,
                    ) by {
                        if k < s {
                            assert(before.tenant_indexes@[k].represents(
                                before.chunks@,
                                before.tenant_names@[k]@,
                            ));
                        }
                    }
                    assert(self.tenants_view() =~= old(self).tenants_view().insert(tenant_id@));
                }
                s
            },
        }
    }

    /// Stores `texts` as the chunks of tenant `tenant_id` from `source`, in order, and
    /// indexes each of them.
    pub fn add_chunks(&mut self, source: &str, texts: &Vec<String>, tenant_id: &str)
        requires
            old(self).wf(),
            old(self).chunks_view().len() + texts@.len() < usize::MAX,
        ensures
            final(self).wf(),
            final(self).chunks_view().len() == old(self).chunks_view().len() + texts@.len(),
            final(self).chunks_view().take(old(self).chunks_view().len() as int)
                == old(self).chunks_view(),
            forall|k: int|
                0 <= k < texts@.len() ==> chunk_is(
                    #[trigger] final(self).chunks_view()[old(self).chunks_view().len() + k],
                    tenant_id@,
                    source@,
                    texts@[k]@,
                ),
            final(self).tenants_view() == old(self).tenants_view().insert(tenant_id@),
            tenant_docs(final(self).chunks_view(), tenant_id@) == tenant_docs(
                old(self).chunks_view(),
                tenant_id@,
            ) + texts@.map_values(|x: String| (source@, x@)),
            forall|u: Seq<char>|
                u != tenant_id@ ==> #[trigger] tenant_docs(final(self).chunks_view(), u)
                    == tenant_docs(old(self).chunks_view(), u),
    {
        let ghost t = tenant_id@;
        let ghost old_chunks = self.chunks@;
        let ghost base = old_chunks.len();
        let slot = self.slot_for(tenant_id);
        let ghost tenants = self.tenants_view();
        let n = texts.len();
        assert(texts@.take(0).map_values(|x: String| (source@, x@)) =~= seq![]);
        assert(tenant_docs(self.chunks@, t) + seq![] =~= tenant_docs(self.chunks@, t));
        for k in 0..n
            invariant
                n == texts@.len(),
                t == tenant_id@,
                base == old_chunks.len(),
                base + n < usize::MAX,
                self.wf(),
                slot < self.tenant_names@.len(),
                self.tenant_names@[slot as int]@ == t,
                self.tenant_slots@.contains_key(t),
                self.tenant_slots@[t] == slot,
                self.tenants_view() == tenants,
                tenants == old(self).tenants_view().insert(t),
                self.chunks@.len() == base + k,
                self.chunks@.take(base as int) == old_chunks,
                forall|j: int|
                    0 <= j < k ==> chunk_is(#[trigger] self.chunks@[base + j], t, source@, texts@[j]@),
                tenant_docs(self.chunks@, t) == tenant_docs(old_chunks, t) + texts@.take(
                    k as int,
                ).map_values(|x: String| (source@, x@)),
                forall|u: Seq<char>|
                    u != t ==> #[trigger] tenant_docs(self.chunks@, u) == tenant_docs(old_chunks, u),
        {
            let global_idx = self.chunks.len();
            let text = &texts[k];
            let words = tokenize_str(text.as_str());
            assert(views(words@).len() == words@.len());
            assert(words.len() == words@.len());
            let chunk = Chunk {
                tenant_id: tenant_id.to_owned(),
                source: source.to_owned(),
                content: text.clone(),
            };
            let ghost cs = self.chunks@;
            let ghost before = *self;
            assert(self.tenant_indexes@[slot as int].represents(cs, t));
            self.tenant_indexes[slot].add_chunk(global_idx, &words, Ghost(cs), Ghost(chunk));
            self.chunks.push(chunk);
            proof {
                assert forall|s: int|
                    0 <= s < self.tenant_indexes@.len() implies (
                    #[trigger] self.tenant_indexes@[s]).represents(
                    self.chunks@,
                    self.tenant_names@[s]@,
                ) by {
                    if s != slot {
                        assert(before.tenant_indexes@[s].represents(cs, before.tenant_names@[s]@));
                        assert(before.tenant_slots@[before.tenant_names@[s]@] == s);
                        lemma_represents_other(
                            self.tenant_indexes@[s],
                            cs,
                            chunk,
                            self.tenant_names@[s]@,
                        );
                    }
                }
                assert forall|i: int|
                    0 <= i < self.chunks@.len() implies self.tenant_slots@.contains_key(
                    (#[trigger] self.chunks@[i]).tenant_id@,
                ) && tokenize(self.chunks@[i].content@).len() <= usize::MAX by {
                    if i < cs.len() {
                        assert(self.chunks@[i] == cs[i]);
                    }
                }
                assert(self.chunks@.take(base as int) =~= old_chunks);
                assert(self.chunks@.drop_last() =~= cs);
                assert(texts@.take(k + 1).map_values(|x: String| (source@, x@)) =~= texts@.take(
                    k as int,
                ).map_values(|x: String| (source@, x@)).push((source@, texts@[k as int]@)));
                assert(tenant_docs(self.chunks@, t) =~= tenant_docs(old_chunks, t) + texts@.take(
                    k + 1,
                ).map_values(|x: String| (source@, x@)));
                assert forall|u: Seq<char>| u != t implies #[trigger] tenant_docs(self.chunks@, u)
                    == tenant_docs(old_chunks, u) by {
                    assert(tenant_docs(self.chunks@, u) == tenant_docs(cs, u));
                }
                assert forall|j: int|
                    0 <= j < k + 1 implies chunk_is(
                    #[trigger] self.chunks@[base + j],
                    t,
                    source@,
                    texts@[j]@,
                ) by {
                    if j < k {
                        assert(self.chunks@[base + j] == cs[base + j]);
                    }
                }
            }
        }
        assert(texts@.take(n as int) =~= texts@);
    }

    /// The scoring summands of a query for `query_str` by `tenant_id`:
    /// `query_plan_spec(self.chunks_view(), tenant_id@, query_str@)`.
    pub fn query_plan(&self, query_str: &str, tenant_id: &str) -> (r: Vec<ScoreTerm>)
        requires
            self.wf(),
        ensures
            r@ == query_plan_spec(self.chunks_view(), tenant_id@, query_str@),
            forall|i: int|
                0 <= i < r@.len() ==> (#[trigger] r@[i]).chunk_idx < self.chunks_view().len()
                    && self.chunks_view()[r@[i].chunk_idx as int].tenant_id@ == tenant_id@,
    {
        let ghost cs = self.chunks@;
        let ghost t = tenant_id@;
        let terms = tokenize_str(query_str);
        let ghost qs = views(terms@);
        let mut out: Vec<ScoreTerm> = Vec::new();
        if terms.len() == 0 {
            return out;
        }
        let slot = match self.tenant_slots.get(tenant_id) {
            Some(s) => *s,
            None => {
                proof {
                    self.lemma_unknown_tenant(t);
                }
                return out;
            },
        };
        let index = &self.tenant_indexes[slot];
        assert(index.represents(cs, t));
        let n = index.chunk_count();
        if n == 0 {
            return out;
        }
        assert(qs.take(0) =~= seq![]);
        let nterms = terms.len();
        for k in 0..nterms
            invariant
                nterms == terms@.len(),
                qs == views(terms@),
                index.represents(cs, t),
                n == tenant_chunk_count(cs, t),
                out@ == score_terms(cs, t, qs.take(k as int)),
        {
            let ghost w = qs[k as int];
            let ghost prefix = out@;
            let ghost ps_spec = postings_for(cs, t, w);
            assert(qs.take(k + 1).drop_last() =~= qs.take(k as int));
            assert(terms@[k as int]@ == w);
            match index.lookup(terms[k].as_str()) {
                Some(ps) => {
                    let df = ps.len();
                    for m in 0..df
                        invariant
                            df == ps@.len(),
                            ps@ == ps_spec,
                            n == tenant_chunk_count(cs, t),
                            out@ == prefix + ps_spec.take(m as int).map_values(
                                |p: Posting| score_term_of(p, ps_spec.len(), tenant_chunk_count(cs, t)),
                            ),
                    {
                        let p = ps[m];
                        out.push(
                            ScoreTerm {
                                chunk_idx: p.chunk_idx,
                                term_count: p.term_count,
                                chunk_len: p.chunk_len,
                                doc_freq: df,
                                tenant_chunks: n,
                            },
                        );
                        assert(ps_spec.take(m + 1).map_values(
                            |p: Posting| score_term_of(p, ps_spec.len(), tenant_chunk_count(cs, t)),
                        ) =~= ps_spec.take(m as int).map_values(
                            |p: Posting| score_term_of(p, ps_spec.len(), tenant_chunk_count(cs, t)),
                        ).push(score_term_of(p, ps_spec.len(), tenant_chunk_count(cs, t))));
                    }
                    assert(ps_spec.take(df as int) =~= ps_spec);
                },
                None => {
                    assert(ps_spec.map_values(
                        |p: Posting| score_term_of(p, ps_spec.len(), tenant_chunk_count(cs, t)),
                    ) =~= seq![]);
                },
            }
            assert(out@ =~= score_terms(cs, t, qs.take(k + 1)));
        }
        assert(qs.take(nterms as int) =~= qs);
        proof {
            self.lemma_wf_facts();
            crate::laws::law_query_isolated(cs, t, query_str@);
            assert(out@ == query_plan_spec(cs, t, query_str@));
            assert forall|i: int| 0 <= i < out@.len() implies (#[trigger] out@[i]).chunk_idx
                < cs.len() && cs[out@[i].chunk_idx as int].tenant_id@ == t by {
                assert(out@[i] == query_plan_spec(cs, t, query_str@)[i]);
            }
        }
        out
    }

    /// The result lines of the first `MAX_RESULTS` entries of `ranked`, skipping any that
    /// name no stored chunk.
    pub fn render_top(&self, ranked: &Vec<RankedChunk>) -> (r: Vec<String>)
        ensures
            r@.len() <= MAX_RESULTS,
            views(r@) == rendered(
                self.chunks_view(),
                ranked@.take(
                    if ranked@.len() < MAX_RESULTS {
                        ranked@.len() as int
                    } else {
                        MAX_RESULTS as int
                    },
                ),
            ),
            views(r@) == ranked@.take(
                if ranked@.len() < 3 {
                    ranked@.len() as int
                } else {
                    3
                },
            ).filter(|e: RankedChunk| e.chunk_idx < self.chunks_view().len()).map_values(
                |e: RankedChunk|
                    "[Score: "@ + e.score_text@ + "] (Source: "@
                        + self.chunks_view()[e.chunk_idx as int].source@ + ") "@
                        + self.chunks_view()[e.chunk_idx as int].content@,
            ),
    {
        let limit = if ranked.len() < MAX_RESULTS {
            ranked.len()
        } else {
            MAX_RESULTS
        };
        let mut out: Vec<String> = Vec::new();
        assert(ranked@.take(0) =~= seq![]);
        for k in 0..limit
            invariant
                limit <= ranked@.len(),
                views(out@) == rendered(self.chunks@, ranked@.take(k as int)),
        {
            let ghost before = out@;
            assert(ranked@.take(k + 1).drop_last() =~= ranked@.take(k as int));
            let entry = &ranked[k];
            if entry.chunk_idx < self.chunks.len() {
                let chunk = &self.chunks[entry.chunk_idx];
                let mut line = String::new();
                line.append("[Score: ");
                line.append(entry.score_text.as_str());
                line.append("] (Source: ");
                line.append(chunk.source.as_str());
                line.append(") ");
                line.append(chunk.content.as_str());
                assert(line@ =~= result_line(entry.score_text@, *chunk));
                out.push(line);
                assert(views(out@) =~= views(before).push(line@));
            }
        }
        proof {
            crate::laws::law_rendered_len(self.chunks@, ranked@.take(limit as int));
            crate::laws::law_rendered_lines(self.chunks@, ranked@.take(limit as int));
        }
        out
    }

    /// A tenant without a slot owns no chunk.
    proof fn lemma_unknown_tenant(&self, t: Seq<char>)
        requires
            self.wf(),
            !self.tenant_slots@.contains_key(t),
        ensures
            tenant_chunk_count(self.chunks@, t) == 0,
            forall|i: int| 0 <= i < self.chunks@.len() ==> (#[trigger] self.chunks@[i]).tenant_id@ != t,
    {
        assert forall|i: int| 0 <= i < self.chunks@.len() implies (
        #[trigger] self.chunks@[i]).tenant_id@ != t by {
            assert(self.tenant_slots@.contains_key(self.chunks@[i].tenant_id@));
        }
        lemma_count_zero(self.chunks@, t);
    }
}

/// The pipeline: its configuration, which operators are attached, and the store.
pub struct CorePipeline {
    pub storage_type: String,
    pub observability_enabled: bool,
    pub has_chunker: bool,
    pub has_retriever: bool,
    pub store: ChunkStore,
}

impl CorePipeline {
    /// A pipeline with the given storage label and telemetry switch, no operators, no chunks.
    pub fn new(storage: String, observability: bool) -> (r: Self)
        ensures
            r.store.wf(),
            r.storage_type == storage,
            r.observability_enabled == observability,
            !r.has_chunker,
            !r.has_retriever,
            r.store.chunks_view() == Seq::<Chunk>::empty(),
            r.store.tenants_view() == Set::<Seq<char>>::empty(),
    {
        CorePipeline {
            storage_type: storage,
            observability_enabled: observability,
            has_chunker: false,
            has_retriever: false,
            store: ChunkStore::new(),
        }
    }

    /// Attaches the chunker.
    pub fn use_chunker(&mut self, _chunker: &CoreSemanticChunker)
        ensures
            *final(self) == (CorePipeline { has_chunker: true, ..*old(self) }),
    {
        self.has_chunker = true;
    }

    /// Attaches the retriever.
    pub fn use_retriever(&mut self, _retriever: &CoreHybridRetriever)
        ensures
            *final(self) == (CorePipeline { has_retriever: true, ..*old(self) }),
    {
        self.has_retriever = true;
    }

    /// Splits `content` into paragraph chunks and stores and indexes them for `tenant_id`,
    /// with `source` as their origin; the number of chunks is returned. Without both
    /// operators attached nothing changes and the ingestion is refused.
    pub fn ingest_text(&mut self, source: &str, content: &str, tenant_id: &str) -> (r: Result<
        usize,
        String,
    >)
        requires
            old(self).store.wf(),
            old(self).store.chunks_view().len() + content@.len() < usize::MAX,
        ensures
            final(self).store.wf(),
            final(self).storage_type == old(self).storage_type,
            final(self).observability_enabled == old(self).observability_enabled,
            final(self).has_chunker == old(self).has_chunker,
            final(self).has_retriever == old(self).has_retriever,
            !(old(self).has_chunker && old(self).has_retriever) ==> {
                &&& r matches Err(e) && e@ == not_ready_message()
                &&& final(self).store == old(self).store
            },
            (old(self).has_chunker && old(self).has_retriever) ==> {
                let pcs = paragraph_chunks(content@);
                let base = old(self).store.chunks_view().len();
                &&& r matches Ok(count) && count == pcs.len()
                &&& final(self).store.chunks_view().len() == base + pcs.len()
                &&& final(self).store.chunks_view().take(base as int)
                    == old(self).store.chunks_view()
                &&& forall|k: int|
                    0 <= k < pcs.len() ==> chunk_is(
                        #[trigger] final(self).store.chunks_view()[base + k],
                        tenant_id@,
                        source@,
                        pcs[k],
                    )
                &&& final(self).store.tenants_view() == old(self).store.tenants_view().insert(
                    tenant_id@,
                )
                &&& tenant_docs(final(self).store.chunks_view(), tenant_id@) == tenant_docs(
                    old(self).store.chunks_view(),
                    tenant_id@,
                ) + pcs.map_values(|c: Seq<char>| (source@, c))
            },
            forall|u: Seq<char>|
                u != tenant_id@ ==> #[trigger] tenant_docs(final(self).store.chunks_view(), u)
                    == tenant_docs(old(self).store.chunks_view(), u),
    {
        match self.ensure_operators() {
            Err(e) => {
                return Err(e);
            },
            Ok(()) => {},
        }
        let chunker = CoreSemanticChunker::new();
        let split_chunks = chunker.chunk(content);
        let count = split_chunks.len();
        proof {
            lemma_paragraph_chunks_len(content@);
        }
        self.store.add_chunks(source, &split_chunks, tenant_id);
        assert(split_chunks@.map_values(|x: String| (source@, x@)) =~= paragraph_chunks(
            content@,
        ).map_values(|c: Seq<char>| (source@, c))) by {
            assert forall|k: int| 0 <= k < split_chunks@.len() implies #[trigger] split_chunks@[k]@
                == paragraph_chunks(content@)[k] by {
                assert(views(split_chunks@)[k] == split_chunks@[k]@);
            }
        }
        Ok(count)
    }

    /// The scoring summands of a query (see `ChunkStore::query_plan`).
    pub fn query_plan(&self, query_str: &str, tenant_id: &str) -> (r: Vec<ScoreTerm>)
        requires
            self.store.wf(),
        ensures
            r@ == query_plan_spec(self.store.chunks_view(), tenant_id@, query_str@),
            forall|i: int|
                0 <= i < r@.len() ==> (#[trigger] r@[i]).chunk_idx < self.store.chunks_view().len()
                    && self.store.chunks_view()[r@[i].chunk_idx as int].tenant_id@ == tenant_id@,
    {
        self.store.query_plan(query_str, tenant_id)
    }

    /// The summands of a query grouped by the chunk they score (see `group_by_chunk`); every
    /// group's chunk is a stored chunk of `tenant_id`.
    pub fn query_groups(&self, query_str: &str, tenant_id: &str) -> (r: Vec<ChunkTerms>)
        requires
            self.store.wf(),
        ensures
            ({
                let plan = query_plan_spec(self.store.chunks_view(), tenant_id@, query_str@);
                &&& r@.len() == first_seen(plan).len()
                &&& forall|g: int|
                    0 <= g < r@.len() ==> {
                        &&& (#[trigger] r@[g]).chunk_idx == first_seen(plan)[g]
                        &&& r@[g].terms@ == terms_for(plan, r@[g].chunk_idx)
                        &&& r@[g].chunk_idx < self.store.chunks_view().len()
                        &&& self.store.chunks_view()[r@[g].chunk_idx as int].tenant_id@ == tenant_id@
                        &&& r@[g].terms@ == plan.filter(
                            |st: ScoreTerm| st.chunk_idx == r@[g].chunk_idx,
                        )
                    }
                &&& forall|j: int|
                    #![trigger plan[j]]
                    0 <= j < plan.len() ==> exists|g: int|
                        #![trigger r@[g]]
                        0 <= g < r@.len() && r@[g].chunk_idx == plan[j].chunk_idx
                &&& forall|g: int, h: int|
                    0 <= g < h < r@.len() ==> (#[trigger] r@[g]).chunk_idx != (
                    #[trigger] r@[h]).chunk_idx
            }),
    {
        let plan = self.store.query_plan(query_str, tenant_id);
        let groups = group_by_chunk(&plan);
        proof {
            lemma_first_seen_from(plan@);
            assert forall|g: int| 0 <= g < groups@.len() implies (#[trigger] groups@[g]).chunk_idx
                < self.store.chunks_view().len() && self.store.chunks_view()[groups@[g].chunk_idx as int].tenant_id@
                == tenant_id@ by {
                let j = choose|j: int|
                    0 <= j < plan@.len() && (#[trigger] plan@[j]).chunk_idx == #[trigger] first_seen(
                        plan@,
                    )[g];
                assert(plan@[j].chunk_idx == groups@[g].chunk_idx);
            }
        }
        groups
    }

    /// Succeeds exactly when both operators are attached.
    pub fn ensure_operators(&self) -> (r: Result<(), String>)
        ensures
            r is Ok <==> (self.has_chunker && self.has_retriever),
            r matches Err(e) ==> e@ == not_ready_message(),
    {
        if !self.has_chunker || !self.has_retriever {
            return Err("Pipeline requires both a chunker and retriever before ingestion.".to_owned());
        }
        Ok(())
    }
}

} // verus!
