//! The per-tenant inverted index: which chunks hold which search term, and how often.
//!
//! The index is a cache of the chunk sequence. Its meaning is stated by spec functions
//! over the sequence of chunks (`postings_for`, `tenant_chunk_count`, `tenant_lengths`),
//! and `TenantIndex::represents` says that an index holds exactly what they compute.

use vstd::prelude::*;
use vstd::hash_map::StringHashMap;
use crate::text::{tokenize, views};

verus! {

/// One stored chunk of a document: the tenant that owns it, where it came from, and its text.
#[derive(Clone, Debug)]
pub struct Chunk {
    pub tenant_id: String,
    pub source: String,
    pub content: String,
}

impl PartialEq for Chunk {
    fn eq(&self, other: &Self) -> (r: bool) {
        self.tenant_id == other.tenant_id && self.source == other.source && self.content
            == other.content
    }
}

impl vstd::std_specs::cmp::PartialEqSpecImpl for Chunk {
    open spec fn obeys_eq_spec() -> bool {
        true
    }

    open spec fn eq_spec(&self, other: &Self) -> bool {
        self.tenant_id@ == other.tenant_id@ && self.source@ == other.source@ && self.content@
            == other.content@
    }
}

/// An entry of a term's posting list: the chunk (by its global position), how many of the
/// chunk's terms are this term, and how many terms the chunk has. The term frequency of
/// the ranking is `term_count / chunk_len`.
#[derive(Clone, Copy, Debug, PartialEq, Eq, Structural)]
pub struct Posting {
    pub chunk_idx: usize,
    pub term_count: usize,
    pub chunk_len: usize,
}

// ---------------------------------------------------------------------------
// What the index means
// ---------------------------------------------------------------------------

/// How many times `w` occurs in `ws`.
pub open spec fn count_in(ws: Seq<Seq<char>>, w: Seq<char>) -> nat
    decreases ws.len(),
{
    if ws.len() == 0 {
        0
    } else {
        count_in(ws.drop_last(), w) + if ws.last() == w {
            1nat
        } else {
            0nat
        }
    }
}

/// How many chunks of `cs` belong to tenant `t`.
pub open spec fn tenant_chunk_count(cs: Seq<Chunk>, t: Seq<char>) -> nat
    decreases cs.len(),
{
    if cs.len() == 0 {
        0
    } else {
        tenant_chunk_count(cs.drop_last(), t) + if cs.last().tenant_id@ == t {
            1nat
        } else {
            0nat
        }
    }
}

/// The number of search terms of each chunk of tenant `t`, in the order of `cs`.
pub open spec fn tenant_lengths(cs: Seq<Chunk>, t: Seq<char>) -> Seq<usize>
    decreases cs.len(),
{
    if cs.len() == 0 {
        seq![]
    } else {
        let prev = tenant_lengths(cs.drop_last(), t);
        if cs.last().tenant_id@ == t {
            prev.push(tokenize(cs.last().content@).len() as usize)
        } else {
            prev
        }
    }
}

/// The posting that chunk `c`, stored at position `i`, has for term `w`.
pub open spec fn chunk_posting(c: Chunk, i: int, w: Seq<char>) -> Posting {
    let toks = tokenize(c.content@);
    Posting {
        chunk_idx: i as usize,
        term_count: count_in(toks, w) as usize,
        chunk_len: toks.len() as usize,
    }
}

/// The posting list of term `w` for tenant `t`: one posting per chunk of `t` whose terms
/// include `w`, in the order of `cs`.
pub open spec fn postings_for(cs: Seq<Chunk>, t: Seq<char>, w: Seq<char>) -> Seq<Posting>
    decreases cs.len(),
{
    if cs.len() == 0 {
        seq![]
    } else {
        let prev = postings_for(cs.drop_last(), t, w);
        let c = cs.last();
        if c.tenant_id@ == t && count_in(tokenize(c.content@), w) > 0 {
            prev.push(chunk_posting(c, cs.len() - 1, w))
        } else {
            prev
        }
    }
}

// ---------------------------------------------------------------------------
// Lemmas
// ---------------------------------------------------------------------------

/// Counting over one more element.
pub proof fn lemma_count_in_step(ws: Seq<Seq<char>>, k: int, w: Seq<char>)
    requires
        0 <= k < ws.len(),
    ensures
        count_in(ws.take(k + 1), w) == count_in(ws.take(k), w) + if ws[k] == w {
            1nat
        } else {
            0nat
        },
{
    assert(ws.take(k + 1).drop_last() =~= ws.take(k));
}

/// An element occurs at most as often as the sequence is long.
pub proof fn lemma_count_in_le_len(ws: Seq<Seq<char>>, w: Seq<char>)
    ensures
        count_in(ws, w) <= ws.len(),
    decreases ws.len(),
{
    if ws.len() > 0 {
        lemma_count_in_le_len(ws.drop_last(), w);
    }
}

/// A tenant without chunks has no postings and no chunk lengths.
pub proof fn lemma_absent_tenant(cs: Seq<Chunk>, t: Seq<char>, w: Seq<char>)
    requires
        tenant_chunk_count(cs, t) == 0,
    ensures
        postings_for(cs, t, w) == Seq::<Posting>::empty(),
        tenant_lengths(cs, t) == Seq::<usize>::empty(),
    decreases cs.len(),
{
    if cs.len() > 0 {
        lemma_absent_tenant(cs.drop_last(), t, w);
    }
}

/// Appending a chunk of tenant `u` leaves everything of another tenant `t` unchanged.
pub proof fn lemma_push_other_tenant(cs: Seq<Chunk>, c: Chunk, t: Seq<char>, w: Seq<char>)
    requires
        c.tenant_id@ != t,
    ensures
        postings_for(cs.push(c), t, w) == postings_for(cs, t, w),
        tenant_chunk_count(cs.push(c), t) == tenant_chunk_count(cs, t),
        tenant_lengths(cs.push(c), t) == tenant_lengths(cs, t),
{
    assert(cs.push(c).drop_last() =~= cs);
}

/// Appending a chunk of tenant `t` extends the posting lists of exactly its terms.
pub proof fn lemma_push_same_tenant(cs: Seq<Chunk>, c: Chunk, t: Seq<char>, w: Seq<char>)
    requires
        c.tenant_id@ == t,
    ensures
        postings_for(cs.push(c), t, w) == if count_in(tokenize(c.content@), w) > 0 {
            postings_for(cs, t, w).push(chunk_posting(c, cs.len() as int, w))
        } else {
            postings_for(cs, t, w)
        },
        tenant_chunk_count(cs.push(c), t) == tenant_chunk_count(cs, t) + 1,
        tenant_lengths(cs.push(c), t) == tenant_lengths(cs, t).push(
            tokenize(c.content@).len() as usize,
        ),
{
    assert(cs.push(c).drop_last() =~= cs);
}

/// The postings of a list come in strictly increasing chunk order, each for a chunk of
/// tenant `t` that holds `w`, as `chunk_posting` describes it.
pub proof fn lemma_postings_shape(cs: Seq<Chunk>, t: Seq<char>, w: Seq<char>)
    requires
        cs.len() <= usize::MAX,
    ensures
        forall|a: int, b: int|
            0 <= a < b < postings_for(cs, t, w).len() ==> postings_for(cs, t, w)[a].chunk_idx
                < postings_for(cs, t, w)[b].chunk_idx,
        forall|a: int|
            #![trigger postings_for(cs, t, w)[a]]
            0 <= a < postings_for(cs, t, w).len() ==> {
                let p = postings_for(cs, t, w)[a];
                &&& p.chunk_idx < cs.len()
                &&& cs[p.chunk_idx as int].tenant_id@ == t
                &&& count_in(tokenize(cs[p.chunk_idx as int].content@), w) > 0
                &&& p == chunk_posting(cs[p.chunk_idx as int], p.chunk_idx as int, w)
            },
        postings_for(cs, t, w).len() <= tenant_chunk_count(cs, t),
    decreases cs.len(),
{
    if cs.len() > 0 {
        let prev = cs.drop_last();
        lemma_postings_shape(prev, t, w);
        assert(forall|i: int| 0 <= i < prev.len() ==> prev[i] == cs[i]);
    }
}

// ---------------------------------------------------------------------------
// The index
// ---------------------------------------------------------------------------

/// The index of one tenant. Each known term has a slot; `postings[slot]` is its posting
/// list and `terms[slot]` the term itself.
pub struct TenantIndex {
    chunk_count: usize,
    inverted_index: StringHashMap<usize>,
    terms: Vec<String>,
    postings: Vec<Vec<Posting>>,
    chunk_lengths: Vec<usize>,
}

impl TenantIndex {
    /// The slots and the terms correspond one to one.
    pub closed spec fn wf(&self) -> bool {
        &&& self.postings@.len() == self.terms@.len()
        &&& forall|w: Seq<char>| #[trigger]
            self.inverted_index@.contains_key(w) ==> self.inverted_index@[w] < self.terms@.len()
                && self.terms@[self.inverted_index@[w] as int]@ == w
        &&& forall|s: int|
            0 <= s < self.terms@.len() ==> self.inverted_index@.contains_key(
                #[trigger] self.terms@[s]@,
            ) && self.inverted_index@[self.terms@[s]@] == s
    }

    /// The number of chunks indexed.
    pub closed spec fn count_view(&self) -> usize {
        self.chunk_count
    }

    /// The number of search terms of each indexed chunk, in order.
    pub closed spec fn lengths_view(&self) -> Seq<usize> {
        self.chunk_lengths@
    }

    /// Whether the index knows term `w`.
    pub closed spec fn has_term(&self, w: Seq<char>) -> bool {
        self.inverted_index@.contains_key(w)
    }

    /// The posting list of term `w` (empty for an unknown term).
    pub closed spec fn postings_of(&self, w: Seq<char>) -> Seq<Posting> {
        if self.inverted_index@.contains_key(w) {
            self.postings@[self.inverted_index@[w] as int]@
        } else {
            seq![]
        }
    }

    /// This index holds exactly what the chunks `cs` say of tenant `t`.
    pub open spec fn represents(&self, cs: Seq<Chunk>, t: Seq<char>) -> bool {
        &&& self.wf()
        &&& self.count_view() == tenant_chunk_count(cs, t)
        &&& self.lengths_view() == tenant_lengths(cs, t)
        &&& forall|w: Seq<char>| #[trigger]
            self.has_term(w) == (postings_for(cs, t, w).len() > 0)
        &&& forall|w: Seq<char>| #[trigger] self.postings_of(w) == postings_for(cs, t, w)
    }

    /// The number of chunks indexed.
    pub fn chunk_count(&self) -> (r: usize)
        ensures
            r == self.count_view(),
    {
        self.chunk_count
    }

    /// The number of search terms of each indexed chunk, in order.
    pub fn chunk_lengths(&self) -> (r: &Vec<usize>)
        ensures
            r@ == self.lengths_view(),
    {
        &self.chunk_lengths
    }

    /// The posting list of `term`, if the index knows it.
    pub fn lookup(&self, term: &str) -> (r: Option<&Vec<Posting>>)
        requires
            self.wf(),
        ensures
            r is Some <==> self.has_term(term@),
            r matches Some(p) ==> p@ == self.postings_of(term@),
    {
        match self.inverted_index.get(term) {
            Some(slot) => Some(&self.postings[*slot]),
            None => None,
        }
    }

    /// Adds the chunk `c`, stored at position `global_idx == cs.len()`, whose search terms
    /// are `tokens`.
    pub(crate) fn add_chunk(
        &mut self,
        global_idx: usize,
        tokens: &Vec<String>,
        Ghost(cs): Ghost<Seq<Chunk>>,
        Ghost(c): Ghost<Chunk>,
    )
        requires
            old(self).represents(cs, c.tenant_id@),
            global_idx == cs.len(),
            global_idx < usize::MAX,
            views(tokens@) == tokenize(c.content@),
        ensures
            final(self).represents(cs.push(c), c.tenant_id@),
    {
        let ghost t = c.tenant_id@;
        let ghost toks = tokenize(c.content@);
        proof {
            // the new counts and lengths; the count stays below cs.len() + 1 <= usize::MAX
            lemma_push_same_tenant(cs, c, t, seq![]);
            lemma_tenant_count_le(cs, t);
        }
        self.chunk_count = self.chunk_count + 1;
        self.chunk_lengths.push(tokens.len());

        let (distinct, counts, pos) = count_terms(tokens);
        let total = tokens.len();
        let ghost old_index = *self;
        let n = distinct.len();
        let mut j: usize = 0;
        while j < n
            invariant
                n == distinct@.len(),
                n == counts@.len(),
                j <= n,
                total == toks.len(),
                global_idx == cs.len(),
                self.wf(),
                old_index.wf(),
                self.chunk_count == old_index.chunk_count,
                self.chunk_lengths@ == old_index.chunk_lengths@,
                forall|w: Seq<char>| #[trigger]
                    pos@.contains_key(w) <==> count_in(toks, w) > 0,
                forall|w: Seq<char>| #[trigger]
                    pos@.contains_key(w) ==> pos@[w] < n && distinct@[pos@[w] as int]@ == w,
                forall|k: int|
                    0 <= k < n ==> pos@.contains_key(#[trigger] distinct@[k]@) && pos@[distinct@[k]@]
                        == k && counts@[k] == count_in(toks, distinct@[k]@),
                forall|w: Seq<char>| #[trigger]
                    self.has_term(w) == (old_index.has_term(w) || (pos@.contains_key(w) && pos@[w]
                        < j)),
                forall|w: Seq<char>| #[trigger]
                    self.postings_of(w) == if pos@.contains_key(w) && pos@[w] < j {
                        old_index.postings_of(w).push(
                            Posting {
                                chunk_idx: global_idx,
                                term_count: count_in(toks, w) as usize,
                                chunk_len: total,
                            },
                        )
                    } else {
                        old_index.postings_of(w)
                    },
            decreases n - j,
        {
            let term = &distinct[j];
            let p = Posting { chunk_idx: global_idx, term_count: counts[j], chunk_len: total };
            let ghost w = term@;
            let ghost before = *self;
            assert(pos@.contains_key(w) && pos@[w] == j);
            match self.inverted_index.get(term.as_str()) {
                Some(slot_ref) => {
                    let slot = *slot_ref;
                    self.postings[slot].push(p);
                    proof {
                        assert forall|x: Seq<char>| #[trigger] self.has_term(x) == (before.has_term(x) || x == w) by {}
                        assert forall|x: Seq<char>| #[trigger] self.postings_of(x) == if x == w {
                            before.postings_of(x).push(p)
                        } else {
                            before.postings_of(x)
                        } by {
                            if x != w && before.inverted_index@.contains_key(x) {
                                assert(before.terms@[before.inverted_index@[x] as int]@ == x);
                            }
                        }
                    }
                },
                None => {
                    let slot = self.terms.len();
                    self.terms.push(term.clone());
                    let mut list: Vec<Posting> = Vec::new();
                    list.push(p);
                    self.postings.push(list);
                    self.inverted_index.insert(term.clone(), slot);
                    proof {
                        assert forall|x: Seq<char>| #[trigger] self.has_term(x) == (before.has_term(x) || x == w) by {}
                        assert forall|x: Seq<char>| #[trigger] self.postings_of(x) == if x == w {
                            before.postings_of(x).push(p)
                        } else {
                            before.postings_of(x)
                        } by {
                            if x == w {
                                assert(list@ =~= seq![p]);
                                assert(before.postings_of(x) =~= seq![]);
                            }
                        }
                        assert forall|s: int|
                            0 <= s < self.terms@.len() implies self.inverted_index@.contains_key(
                            #[trigger] self.terms@[s]@,
                        ) && self.inverted_index@[self.terms@[s]@] == s by {
                            if s < slot {
                                assert(before.inverted_index@.contains_key(before.terms@[s]@));
                            }
                        }
                    }
                },
            }
            proof {
                assert forall|x: Seq<char>| #[trigger]
                    self.has_term(x) == (old_index.has_term(x) || (pos@.contains_key(x) && pos@[x]
                        < j + 1)) by {
                    if pos@.contains_key(x) {
                        assert(distinct@[pos@[x] as int]@ == x);
                    }
                }
                assert forall|x: Seq<char>| #[trigger]
                    self.postings_of(x) == if pos@.contains_key(x) && pos@[x] < j + 1 {
                        old_index.postings_of(x).push(
                            Posting {
                                chunk_idx: global_idx,
                                term_count: count_in(toks, x) as usize,
                                chunk_len: total,
                            },
                        )
                    } else {
                        old_index.postings_of(x)
                    } by {
                    if pos@.contains_key(x) {
                        assert(distinct@[pos@[x] as int]@ == x);
                    }
                }
            }
            j += 1;
        }
        proof {
            assert forall|w: Seq<char>| #[trigger]
                self.has_term(w) == (postings_for(cs.push(c), t, w).len() > 0) by {
                lemma_push_same_tenant(cs, c, t, w);
                assert(old_index.has_term(w) == old(self).has_term(w));
                assert(old(self).has_term(w) == (postings_for(cs, t, w).len() > 0));
                if pos@.contains_key(w) {
                    assert(pos@[w] < n);
                }
            }
            assert forall|w: Seq<char>| #[trigger]
                self.postings_of(w) == postings_for(cs.push(c), t, w) by {
                lemma_push_same_tenant(cs, c, t, w);
                assert(old_index.postings_of(w) == old(self).postings_of(w));
                assert(old(self).postings_of(w) == postings_for(cs, t, w));
                if pos@.contains_key(w) {
                    assert(pos@[w] < n);
                }
                let pw = Posting {
                    chunk_idx: global_idx,
                    term_count: count_in(toks, w) as usize,
                    chunk_len: total,
                };
                assert(pw == chunk_posting(c, cs.len() as int, w));
            }
        }
    }
}

/// An index of tenant `t` still represents the chunks after a chunk of another tenant is added.
pub proof fn lemma_represents_other(idx: TenantIndex, cs: Seq<Chunk>, c: Chunk, t: Seq<char>)
    requires
        idx.represents(cs, t),
        c.tenant_id@ != t,
    ensures
        idx.represents(cs.push(c), t),
{
    lemma_push_other_tenant(cs, c, t, seq![]);
    assert forall|w: Seq<char>| #[trigger] idx.postings_of(w) == postings_for(cs.push(c), t, w) by {
        lemma_push_other_tenant(cs, c, t, w);
    }
    assert forall|w: Seq<char>| #[trigger]
        idx.has_term(w) == (postings_for(cs.push(c), t, w).len() > 0) by {
        lemma_push_other_tenant(cs, c, t, w);
    }
}

/// A tenant none of whose chunks are in `cs` is represented by an empty index.
pub proof fn lemma_represents_fresh(idx: TenantIndex, cs: Seq<Chunk>, t: Seq<char>)
    requires
        idx.wf(),
        idx.count_view() == 0,
        idx.lengths_view() == Seq::<usize>::empty(),
        forall|w: Seq<char>| !(#[trigger] idx.has_term(w)),
        forall|w: Seq<char>| #[trigger] idx.postings_of(w) == Seq::<Posting>::empty(),
        forall|i: int| 0 <= i < cs.len() ==> (#[trigger] cs[i]).tenant_id@ != t,
    ensures
        idx.represents(cs, t),
{
    lemma_count_zero(cs, t);
    lemma_absent_tenant(cs, t, seq![]);
    assert forall|w: Seq<char>| #[trigger] idx.postings_of(w) == postings_for(cs, t, w) by {
        lemma_absent_tenant(cs, t, w);
    }
    assert forall|w: Seq<char>| #[trigger]
        idx.has_term(w) == (postings_for(cs, t, w).len() > 0) by {
        lemma_absent_tenant(cs, t, w);
    }
}

/// A tenant that owns none of the chunks has a chunk count of zero.
pub proof fn lemma_count_zero(cs: Seq<Chunk>, t: Seq<char>)
    requires
        forall|i: int| 0 <= i < cs.len() ==> (#[trigger] cs[i]).tenant_id@ != t,
    ensures
        tenant_chunk_count(cs, t) == 0,
    decreases cs.len(),
{
    if cs.len() > 0 {
        let prev = cs.drop_last();
        assert forall|i: int| 0 <= i < prev.len() implies (#[trigger] prev[i]).tenant_id@ != t by {
            assert(prev[i] == cs[i]);
        }
        lemma_count_zero(prev, t);
        assert(cs.last() == cs[cs.len() - 1]);
    }
}

impl Default for TenantIndex {
    /// An index with no chunks.
    fn default() -> (r: Self)
        ensures
            r.wf(),
            r.count_view() == 0,
            r.lengths_view() == Seq::<usize>::empty(),
            forall|w: Seq<char>| !(#[trigger] r.has_term(w)),
            forall|w: Seq<char>| #[trigger] r.postings_of(w) == Seq::<Posting>::empty(),
    {
        TenantIndex {
            chunk_count: 0,
            inverted_index: StringHashMap::new(),
            terms: Vec::new(),
            postings: Vec::new(),
            chunk_lengths: Vec::new(),
        }
    }
}

/// `tenant_chunk_count` never exceeds the number of chunks.
pub proof fn lemma_tenant_count_le(cs: Seq<Chunk>, t: Seq<char>)
    ensures
        tenant_chunk_count(cs, t) <= cs.len(),
    decreases cs.len(),
{
    if cs.len() > 0 {
        lemma_tenant_count_le(cs.drop_last(), t);
    }
}

/// The distinct terms of `tokens` in order of first occurrence, how often each occurs,
/// and each one's position among them.
fn count_terms(tokens: &Vec<String>) -> (r: (Vec<String>, Vec<usize>, StringHashMap<usize>))
    ensures
        r.0@.len() == r.1@.len(),
        forall|w: Seq<char>| #[trigger]
            r.2@.contains_key(w) <==> count_in(views(tokens@), w) > 0,
        forall|w: Seq<char>| #[trigger]
            r.2@.contains_key(w) ==> r.2@[w] < r.0@.len() && r.0@[r.2@[w] as int]@ == w,
        forall|k: int|
            0 <= k < r.0@.len() ==> r.2@.contains_key(#[trigger] r.0@[k]@) && r.2@[r.0@[k]@] == k
                && r.1@[k] == count_in(views(tokens@), r.0@[k]@),
{
    let ghost toks = views(tokens@);
    let mut distinct: Vec<String> = Vec::new();
    let mut counts: Vec<usize> = Vec::new();
    let mut pos: StringHashMap<usize> = StringHashMap::new();
    let n = tokens.len();
    let mut i: usize = 0;
    assert(toks.take(0) =~= seq![]);
    while i < n
        invariant
            n == tokens@.len(),
            toks == views(tokens@),
            i <= n,
            distinct@.len() == counts@.len(),
            forall|w: Seq<char>| #[trigger]
                pos@.contains_key(w) <==> count_in(toks.take(i as int), w) > 0,
            forall|w: Seq<char>| #[trigger]
                pos@.contains_key(w) ==> pos@[w] < distinct@.len() && distinct@[pos@[w] as int]@
                    == w,
            forall|k: int|
                0 <= k < distinct@.len() ==> pos@.contains_key(#[trigger] distinct@[k]@)
                    && pos@[distinct@[k]@] == k && counts@[k] == count_in(
                    toks.take(i as int),
                    distinct@[k]@,
                ),
        decreases n - i,
    {
        let ghost w = tokens@[i as int]@;
        proof {
            assert(toks[i as int] == w);
            assert forall|x: Seq<char>|
                #![trigger count_in(toks.take(i + 1), x)]
                count_in(toks.take(i + 1), x) == count_in(toks.take(i as int), x) + if x == w {
                    1nat
                } else {
                    0nat
                } by {
                lemma_count_in_step(toks, i as int, x);
            }
            lemma_count_in_le_len(toks.take(i as int), w);
        }
        let token = &tokens[i];
        match pos.get(token.as_str()) {
            Some(k_ref) => {
                let k = *k_ref;
                let old_count = counts[k];
                counts[k] = old_count + 1;
            },
            None => {
                let k = distinct.len();
                distinct.push(token.clone());
                counts.push(1);
                pos.insert(token.clone(), k);
                proof {
                    assert(count_in(toks.take(i as int), w) == 0);
                }
            },
        }
        i += 1;
    }
    assert(toks.take(n as int) =~= toks);
    (distinct, counts, pos)
}

} // verus!
