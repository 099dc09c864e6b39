//! Properties of the library as a whole, stated over the spec functions that the
//! operations' contracts use, and proved.

use vstd::prelude::*;
use crate::index::{
    Chunk, Posting, TenantIndex, chunk_posting, count_in, postings_for, tenant_chunk_count, lemma_count_in_le_len,
    lemma_postings_shape, lemma_push_other_tenant, lemma_tenant_count_le,
};
use crate::pipeline::{
    first_seen, terms_for, RankedChunk, ScoreTerm, query_plan_spec, rendered, score_term_of, score_terms,
};
use crate::text::{
    char_is_whitespace, paragraph_chunks, paragraph_scan, tokenize, trim, trim_end, trim_start,
    trimmed_nonempty, nonempty_terms, split_paragraphs, split_whitespace, alnum_only,
    char_is_alphanumeric, normalize, str_lowercase, word_scan,
};

verus! {

// ---------------------------------------------------------------------------
// Queries
// ---------------------------------------------------------------------------

/// Facts about every summand of the query terms `qs` for tenant `t`.
proof fn lemma_score_terms_shape(cs: Seq<Chunk>, t: Seq<char>, qs: Seq<Seq<char>>)
    requires
        cs.len() <= usize::MAX,
        forall|i: int| 0 <= i < cs.len() ==> tokenize((#[trigger] cs[i]).content@).len() <= usize::MAX,
    ensures
        forall|i: int|
            #![trigger score_terms(cs, t, qs)[i]]
            0 <= i < score_terms(cs, t, qs).len() ==> {
                let st = score_terms(cs, t, qs)[i];
                &&& st.chunk_idx < cs.len()
                &&& cs[st.chunk_idx as int].tenant_id@ == t
                &&& 1 <= st.term_count <= st.chunk_len
                &&& st.chunk_len == tokenize(cs[st.chunk_idx as int].content@).len()
                &&& 1 <= st.doc_freq <= st.tenant_chunks
                &&& st.tenant_chunks == tenant_chunk_count(cs, t)
            },
    decreases qs.len(),
{
    if qs.len() > 0 {
        let w = qs.last();
        let ps = postings_for(cs, t, w);
        let prev = score_terms(cs, t, qs.drop_last());
        let n = tenant_chunk_count(cs, t);
        lemma_score_terms_shape(cs, t, qs.drop_last());
        lemma_postings_shape(cs, t, w);
        lemma_tenant_count_le(cs, t);
        let tail = ps.map_values(|p: Posting| score_term_of(p, ps.len(), n));
        assert(score_terms(cs, t, qs) == prev + tail);
        assert forall|i: int|
            #![trigger score_terms(cs, t, qs)[i]]
            0 <= i < score_terms(cs, t, qs).len() implies {
            let st = score_terms(cs, t, qs)[i];
            &&& st.chunk_idx < cs.len()
            &&& cs[st.chunk_idx as int].tenant_id@ == t
            &&& 1 <= st.term_count <= st.chunk_len
            &&& st.chunk_len == tokenize(cs[st.chunk_idx as int].content@).len()
            &&& 1 <= st.doc_freq <= st.tenant_chunks
            &&& st.tenant_chunks == tenant_chunk_count(cs, t)
        } by {
            if i < prev.len() {
                assert(score_terms(cs, t, qs)[i] == prev[i]);
            } else {
                let j = i - prev.len();
                assert(score_terms(cs, t, qs)[i] == tail[j]);
                let p = ps[j];
                let c = cs[p.chunk_idx as int];
                lemma_count_in_le_len(tokenize(c.content@), w);
                assert(tokenize(c.content@).len() <= usize::MAX);
            }
        }
    }
}

/// Tenant isolation: every summand of a query by tenant `t` scores a stored chunk that
/// belongs to `t`; its term frequency `term_count / chunk_len` lies in (0, 1], and its
/// document frequency lies between 1 and the tenant's chunk count, so the inverse
/// document frequency is at least 1. Its chunk length is the chunk's number of search
/// terms and its chunk count the tenant's number of chunks.
pub proof fn law_query_isolated(cs: Seq<Chunk>, t: Seq<char>, q: Seq<char>)
    requires
        cs.len() <= usize::MAX,
        forall|i: int| 0 <= i < cs.len() ==> tokenize((#[trigger] cs[i]).content@).len() <= usize::MAX,
    ensures
        forall|i: int|
            #![trigger query_plan_spec(cs, t, q)[i]]
            0 <= i < query_plan_spec(cs, t, q).len() ==> {
                let st = query_plan_spec(cs, t, q)[i];
                &&& st.chunk_idx < cs.len()
                &&& cs[st.chunk_idx as int].tenant_id@ == t
                &&& 1 <= st.term_count <= st.chunk_len
                &&& 1 <= st.doc_freq <= st.tenant_chunks
                &&& st.chunk_len == tokenize(cs[st.chunk_idx as int].content@).len()
                &&& st.tenant_chunks == tenant_chunk_count(cs, t)
            },
{
    lemma_score_terms_shape(cs, t, tokenize(q));
}

/// A chunk of tenant `t` that holds term `w` has a posting in `w`'s list.
proof fn lemma_posting_exists(cs: Seq<Chunk>, t: Seq<char>, w: Seq<char>, i: int)
    requires
        cs.len() <= usize::MAX,
        0 <= i < cs.len(),
        cs[i].tenant_id@ == t,
        count_in(tokenize(cs[i].content@), w) > 0,
    ensures
        exists|a: int|
            0 <= a < postings_for(cs, t, w).len() && (#[trigger] postings_for(cs, t, w)[a]).chunk_idx
                == i,
    decreases cs.len(),
{
    let prev = cs.drop_last();
    if i == cs.len() - 1 {
        let a = postings_for(cs, t, w).len() - 1;
        assert(postings_for(cs, t, w)[a].chunk_idx == i);
    } else {
        assert(prev[i] == cs[i]);
        lemma_posting_exists(prev, t, w, i);
        let a = choose|a: int|
            0 <= a < postings_for(prev, t, w).len() && (#[trigger] postings_for(prev, t, w)[a]).chunk_idx
                == i;
        assert(postings_for(cs, t, w)[a] == postings_for(prev, t, w)[a]);
    }
}

/// A tenant that owns chunk `i` has a positive chunk count.
proof fn lemma_tenant_count_pos(cs: Seq<Chunk>, t: Seq<char>, i: int)
    requires
        0 <= i < cs.len(),
        cs[i].tenant_id@ == t,
    ensures
        tenant_chunk_count(cs, t) > 0,
    decreases cs.len(),
{
    if i < cs.len() - 1 {
        assert(cs.drop_last()[i] == cs[i]);
        lemma_tenant_count_pos(cs.drop_last(), t, i);
    }
}

/// The summands of `qs` include one for every posting of every term of `qs`.
proof fn lemma_score_terms_cover(cs: Seq<Chunk>, t: Seq<char>, qs: Seq<Seq<char>>, k: int, a: int)
    requires
        0 <= k < qs.len(),
        0 <= a < postings_for(cs, t, qs[k]).len(),
    ensures
        exists|j: int|
            0 <= j < score_terms(cs, t, qs).len() && (#[trigger] score_terms(cs, t, qs)[j]).chunk_idx
                == postings_for(cs, t, qs[k])[a].chunk_idx,
    decreases qs.len(),
{
    let prev = score_terms(cs, t, qs.drop_last());
    let ps = postings_for(cs, t, qs.last());
    let n = tenant_chunk_count(cs, t);
    let tail = ps.map_values(|p: Posting| score_term_of(p, ps.len(), n));
    assert(score_terms(cs, t, qs) == prev + tail);
    if k == qs.len() - 1 {
        let j = prev.len() + a;
        assert(score_terms(cs, t, qs)[j] == tail[a]);
    } else {
        assert(qs.drop_last()[k] == qs[k]);
        lemma_score_terms_cover(cs, t, qs.drop_last(), k, a);
        let j = choose|j: int|
            0 <= j < prev.len() && (#[trigger] prev[j]).chunk_idx == postings_for(
                cs,
                t,
                qs[k],
            )[a].chunk_idx;
        assert(score_terms(cs, t, qs)[j] == prev[j]);
    }
}

/// Retrieval is complete: every chunk of tenant `t` that holds one of the query's search
/// terms is scored by the query.
pub proof fn law_query_complete(cs: Seq<Chunk>, t: Seq<char>, q: Seq<char>, i: int, k: int)
    requires
        cs.len() <= usize::MAX,
        0 <= i < cs.len(),
        cs[i].tenant_id@ == t,
        0 <= k < tokenize(q).len(),
        count_in(tokenize(cs[i].content@), tokenize(q)[k]) > 0,
    ensures
        exists|j: int|
            0 <= j < query_plan_spec(cs, t, q).len() && (#[trigger] query_plan_spec(cs, t, q)[j]).chunk_idx
                == i,
{
    let qs = tokenize(q);
    lemma_tenant_count_pos(cs, t, i);
    lemma_posting_exists(cs, t, qs[k], i);
    let a = choose|a: int|
        0 <= a < postings_for(cs, t, qs[k]).len() && (#[trigger] postings_for(cs, t, qs[k])[a]).chunk_idx
            == i;
    lemma_score_terms_cover(cs, t, qs, k, a);
    assert(query_plan_spec(cs, t, q) == score_terms(cs, t, qs));
    let j = choose|j: int|
        0 <= j < score_terms(cs, t, qs).len() && (#[trigger] score_terms(cs, t, qs)[j]).chunk_idx
            == postings_for(cs, t, qs[k])[a].chunk_idx;
    assert(query_plan_spec(cs, t, q)[j].chunk_idx == i);
}

/// A query without search terms scores nothing.
pub proof fn law_empty_query(cs: Seq<Chunk>, t: Seq<char>, q: Seq<char>)
    requires
        tokenize(q).len() == 0,
    ensures
        query_plan_spec(cs, t, q) == Seq::<ScoreTerm>::empty(),
{
}

/// A query none of whose words holds an alphanumeric character (an empty query, or one of
/// only whitespace and punctuation) scores nothing.
pub proof fn law_query_without_alphanumerics(cs: Seq<Chunk>, t: Seq<char>, q: Seq<char>)
    requires
        forall|k: int|
            0 <= k < split_whitespace(q).len() ==> alnum_only(#[trigger] split_whitespace(q)[k]).len()
                == 0,
    ensures
        query_plan_spec(cs, t, q) == Seq::<ScoreTerm>::empty(),
{
    lemma_no_terms(split_whitespace(q));
}

/// Words without alphanumeric characters give no search terms.
proof fn lemma_no_terms(words: Seq<Seq<char>>)
    requires
        forall|k: int| 0 <= k < words.len() ==> alnum_only(#[trigger] words[k]).len() == 0,
    ensures
        nonempty_terms(words).len() == 0,
    decreases words.len(),
{
    if words.len() > 0 {
        let prev = words.drop_last();
        assert forall|k: int| 0 <= k < prev.len() implies alnum_only(#[trigger] prev[k]).len()
            == 0 by {
            assert(prev[k] == words[k]);
        }
        lemma_no_terms(prev);
        assert(alnum_only(words[words.len() - 1]).len() == 0);
    }
}

/// A tenant that owns no chunk (unknown, or one whose documents were all empty) finds nothing.
pub proof fn law_tenant_without_chunks(cs: Seq<Chunk>, t: Seq<char>, q: Seq<char>)
    requires
        forall|i: int| 0 <= i < cs.len() ==> (#[trigger] cs[i]).tenant_id@ != t,
    ensures
        query_plan_spec(cs, t, q) == Seq::<ScoreTerm>::empty(),
{
    crate::index::lemma_count_zero(cs, t);
}

/// Adding a chunk of another tenant changes nothing that tenant `t`'s query terms score.
proof fn lemma_score_terms_other(cs: Seq<Chunk>, c: Chunk, t: Seq<char>, qs: Seq<Seq<char>>)
    requires
        c.tenant_id@ != t,
    ensures
        score_terms(cs.push(c), t, qs) == score_terms(cs, t, qs),
    decreases qs.len(),
{
    if qs.len() > 0 {
        lemma_score_terms_other(cs, c, t, qs.drop_last());
        lemma_push_other_tenant(cs, c, t, qs.last());
    }
}

/// Ingestion by other tenants is invisible to tenant `t`: if `after` extends `before` with
/// chunks none of which belongs to `t`, every query by `t` scores the same summands.
pub proof fn law_other_tenants_invisible(
    before: Seq<Chunk>,
    after: Seq<Chunk>,
    t: Seq<char>,
    q: Seq<char>,
)
    requires
        before.len() <= after.len(),
        after.take(before.len() as int) == before,
        forall|i: int| before.len() <= i < after.len() ==> (#[trigger] after[i]).tenant_id@ != t,
    ensures
        query_plan_spec(after, t, q) == query_plan_spec(before, t, q),
    decreases after.len() - before.len(),
{
    if after.len() > before.len() {
        let prev = after.drop_last();
        assert(prev.take(before.len() as int) =~= before);
        assert forall|i: int| before.len() <= i < prev.len() implies (
        #[trigger] prev[i]).tenant_id@ != t by {
            assert(prev[i] == after[i]);
        }
        law_other_tenants_invisible(before, prev, t, q);
        assert(prev.push(after.last()) =~= after);
        lemma_score_terms_other(prev, after.last(), t, tokenize(q));
        lemma_push_other_tenant(prev, after.last(), t, seq![]);
    } else {
        assert(after =~= before);
    }
}

/// Only the ranked entries that are rendered produce lines: never more lines than entries.
pub proof fn law_rendered_len(cs: Seq<Chunk>, ranked: Seq<RankedChunk>)
    ensures
        rendered(cs, ranked).len() <= ranked.len(),
    decreases ranked.len(),
{
    if ranked.len() > 0 {
        law_rendered_len(cs, ranked.drop_last());
    }
}

// ---------------------------------------------------------------------------
// Chunks and terms
// ---------------------------------------------------------------------------

/// `trim_end(s)` is a prefix of `s`.
proof fn lemma_trim_end_prefix(s: Seq<char>)
    ensures
        trim_end(s).len() <= s.len(),
        trim_end(s) == s.take(trim_end(s).len() as int),
        trim_end(s).len() > 0 ==> !char_is_whitespace(trim_end(s).last()),
    decreases s.len(),
{
    if s.len() > 0 && char_is_whitespace(s.last()) {
        lemma_trim_end_prefix(s.drop_last());
        assert(s.drop_last().take(trim_end(s).len() as int) =~= s.take(trim_end(s).len() as int));
    } else {
        assert(s.take(s.len() as int) =~= s);
    }
}

/// `trim_start(s)` is empty or starts with a character that is not whitespace.
proof fn lemma_trim_start_first(s: Seq<char>)
    ensures
        trim_start(s).len() > 0 ==> !char_is_whitespace(trim_start(s)[0]),
    decreases s.len(),
{
    if s.len() > 0 && char_is_whitespace(s[0]) {
        lemma_trim_start_first(s.drop_first());
    }
}

/// A trimmed string neither starts nor ends with whitespace.
pub proof fn lemma_trim_ends(s: Seq<char>)
    ensures
        trim(s).len() > 0 ==> !char_is_whitespace(trim(s)[0]) && !char_is_whitespace(
            trim(s).last(),
        ),
{
    lemma_trim_start_first(s);
    lemma_trim_end_prefix(trim_start(s));
}

/// The chunks of the pieces are the non-empty trimmed pieces.
proof fn lemma_trimmed_nonempty_shape(pieces: Seq<Seq<char>>)
    ensures
        forall|k: int|
            #![trigger trimmed_nonempty(pieces)[k]]
            0 <= k < trimmed_nonempty(pieces).len() ==> {
                let c = trimmed_nonempty(pieces)[k];
                &&& c.len() > 0
                &&& !char_is_whitespace(c[0])
                &&& !char_is_whitespace(c.last())
            },
    decreases pieces.len(),
{
    if pieces.len() > 0 {
        let prev = trimmed_nonempty(pieces.drop_last());
        lemma_trimmed_nonempty_shape(pieces.drop_last());
        lemma_trim_ends(pieces.last());
        assert forall|k: int|
            #![trigger trimmed_nonempty(pieces)[k]]
            0 <= k < trimmed_nonempty(pieces).len() implies {
            let c = trimmed_nonempty(pieces)[k];
            &&& c.len() > 0
            &&& !char_is_whitespace(c[0])
            &&& !char_is_whitespace(c.last())
        } by {
            if k < prev.len() {
                assert(trimmed_nonempty(pieces)[k] == prev[k]);
            }
        }
    }
}

/// Paragraph chunking yields only non-empty chunks without leading or trailing whitespace.
pub proof fn law_chunks_trimmed(s: Seq<char>)
    ensures
        forall|k: int|
            #![trigger paragraph_chunks(s)[k]]
            0 <= k < paragraph_chunks(s).len() ==> {
                let c = paragraph_chunks(s)[k];
                &&& c.len() > 0
                &&& !char_is_whitespace(c[0])
                &&& !char_is_whitespace(c.last())
            },
{
    lemma_trimmed_nonempty_shape(split_paragraphs(s));
}

/// Every search term of a text is non-empty.
pub proof fn law_terms_nonempty(s: Seq<char>)
    ensures
        forall|k: int|
            0 <= k < tokenize(s).len() ==> (#[trigger] tokenize(s)[k]).len() > 0,
{
    lemma_nonempty_terms(split_whitespace(s));
}

proof fn lemma_nonempty_terms(words: Seq<Seq<char>>)
    ensures
        forall|k: int|
            0 <= k < nonempty_terms(words).len() ==> (#[trigger] nonempty_terms(words)[k]).len() > 0,
    decreases words.len(),
{
    if words.len() > 0 {
        let prev = nonempty_terms(words.drop_last());
        lemma_nonempty_terms(words.drop_last());
        assert forall|k: int|
            0 <= k < nonempty_terms(words).len() implies (#[trigger] nonempty_terms(words)[k]).len()
            > 0 by {
            if k < prev.len() {
                assert(nonempty_terms(words)[k] == prev[k]);
            }
        }
    }
}


/// `s` holds no blank line: no two consecutive newlines.
pub open spec fn no_blank_line(s: Seq<char>) -> bool {
    forall|i: int| 0 <= i < s.len() - 1 ==> !(#[trigger] s[i] == '\n' && s[i + 1] == '\n')
}

/// A contiguous part of a text without blank lines has none either.
proof fn lemma_no_blank_line_subrange(s: Seq<char>, a: int, b: int)
    requires
        no_blank_line(s),
        0 <= a <= b <= s.len(),
    ensures
        no_blank_line(s.subrange(a, b)),
{
    let r = s.subrange(a, b);
    assert forall|i: int| 0 <= i < r.len() - 1 implies !(#[trigger] r[i] == '\n' && r[i + 1]
        == '\n') by {
        assert(r[i] == s[a + i] && r[i + 1] == s[a + i + 1]);
    }
}

/// `trim_start(s)` is a suffix of `s`.
proof fn lemma_trim_start_suffix(s: Seq<char>) -> (k: int)
    ensures
        0 <= k <= s.len(),
        trim_start(s) == s.subrange(k, s.len() as int),
    decreases s.len(),
{
    if s.len() > 0 && char_is_whitespace(s[0]) {
        let k = lemma_trim_start_suffix(s.drop_first());
        assert(s.drop_first().subrange(k, s.len() - 1) =~= s.subrange(k + 1, s.len() as int));
        k + 1
    } else {
        assert(s.subrange(0, s.len() as int) =~= s);
        0
    }
}

/// Neither the open piece nor any closed piece of the paragraph scan holds a blank line.
proof fn lemma_paragraph_scan_no_blank(s: Seq<char>)
    ensures
        no_blank_line(paragraph_scan(s).1),
        forall|k: int|
            0 <= k < paragraph_scan(s).0.len() ==> no_blank_line(#[trigger] paragraph_scan(s).0[k]),
    decreases s.len(),
{
    if s.len() > 0 {
        let (done, cur) = paragraph_scan(s.drop_last());
        lemma_paragraph_scan_no_blank(s.drop_last());
        let c = s.last();
        if c == '\n' && cur.len() > 0 && cur.last() == '\n' {
            lemma_no_blank_line_subrange(cur, 0, cur.len() - 1);
            assert(cur.subrange(0, cur.len() - 1) =~= cur.drop_last());
            let done2 = done.push(cur.drop_last());
            assert forall|k: int| 0 <= k < done2.len() implies no_blank_line(#[trigger] done2[k]) by {
                if k < done.len() {
                    assert(done2[k] == done[k]);
                }
            }
            assert(no_blank_line(Seq::<char>::empty()));
        } else {
            let cur2 = cur.push(c);
            assert forall|i: int| 0 <= i < cur2.len() - 1 implies !(#[trigger] cur2[i] == '\n'
                && cur2[i + 1] == '\n') by {
                if i < cur.len() - 1 {
                    assert(cur2[i] == cur[i] && cur2[i + 1] == cur[i + 1]);
                } else {
                    assert(cur2[i] == cur.last() && cur2[i + 1] == c);
                }
            }
        }
    }
}

/// Trimming keeps a text free of blank lines.
proof fn lemma_trim_no_blank(s: Seq<char>)
    requires
        no_blank_line(s),
    ensures
        no_blank_line(trim(s)),
{
    let k = lemma_trim_start_suffix(s);
    lemma_no_blank_line_subrange(s, k, s.len() as int);
    let x = trim_start(s);
    lemma_trim_end_prefix(x);
    lemma_no_blank_line_subrange(x, 0, trim_end(x).len() as int);
    assert(x.subrange(0, trim_end(x).len() as int) =~= x.take(trim_end(x).len() as int));
}

/// The chunks of pieces without blank lines have none either.
proof fn lemma_trimmed_nonempty_no_blank(pieces: Seq<Seq<char>>)
    requires
        forall|k: int| 0 <= k < pieces.len() ==> no_blank_line(#[trigger] pieces[k]),
    ensures
        forall|k: int|
            0 <= k < trimmed_nonempty(pieces).len() ==> no_blank_line(
                #[trigger] trimmed_nonempty(pieces)[k],
            ),
    decreases pieces.len(),
{
    if pieces.len() > 0 {
        let rest = pieces.drop_last();
        assert forall|k: int| 0 <= k < rest.len() implies no_blank_line(#[trigger] rest[k]) by {
            assert(rest[k] == pieces[k]);
        }
        lemma_trimmed_nonempty_no_blank(rest);
        lemma_trim_no_blank(pieces.last());
        let prev = trimmed_nonempty(rest);
        assert forall|k: int|
            0 <= k < trimmed_nonempty(pieces).len() implies no_blank_line(
            #[trigger] trimmed_nonempty(pieces)[k],
        ) by {
            if k < prev.len() {
                assert(trimmed_nonempty(pieces)[k] == prev[k]);
            }
        }
    }
}

/// Paragraph chunking splits at every blank line: no chunk holds two consecutive newlines.
pub proof fn law_chunks_hold_no_blank_line(s: Seq<char>)
    ensures
        forall|k: int|
            0 <= k < paragraph_chunks(s).len() ==> no_blank_line(#[trigger] paragraph_chunks(s)[k]),
{
    let (done, cur) = paragraph_scan(s);
    lemma_paragraph_scan_no_blank(s);
    let pieces = done.push(cur);
    assert forall|k: int| 0 <= k < pieces.len() implies no_blank_line(#[trigger] pieces[k]) by {
        if k < done.len() {
            assert(pieces[k] == done[k]);
        }
    }
    lemma_trimmed_nonempty_no_blank(pieces);
}


// ---------------------------------------------------------------------------
// The index
// ---------------------------------------------------------------------------

/// A term that occurs in a sequence occurs at some position of it.
proof fn lemma_count_in_pos(ws: Seq<Seq<char>>, w: Seq<char>)
    requires
        count_in(ws, w) > 0,
    ensures
        exists|k: int| 0 <= k < ws.len() && ws[k] == w,
    decreases ws.len(),
{
    if ws.last() != w {
        lemma_count_in_pos(ws.drop_last(), w);
        let k = choose|k: int| 0 <= k < ws.len() - 1 && ws.drop_last()[k] == w;
        assert(ws[k] == w);
    } else {
        assert(ws[ws.len() - 1] == w);
    }
}

/// A term with postings is a search term of some chunk.
proof fn lemma_postings_source(cs: Seq<Chunk>, t: Seq<char>, w: Seq<char>)
    requires
        postings_for(cs, t, w).len() > 0,
    ensures
        exists|i: int| 0 <= i < cs.len() && count_in(tokenize(#[trigger] cs[i].content@), w) > 0,
    decreases cs.len(),
{
    let prev = cs.drop_last();
    if postings_for(prev, t, w).len() > 0 {
        lemma_postings_source(prev, t, w);
        let i = choose|i: int| 0 <= i < prev.len() && count_in(tokenize(#[trigger] prev[i].content@), w) > 0;
        assert(prev[i] == cs[i]);
    } else {
        assert(cs[cs.len() - 1] == cs.last());
    }
}

/// Every term an index knows is non-empty: it is a search term of one of the tenant's chunks.
pub proof fn law_indexed_terms_nonempty(idx: TenantIndex, cs: Seq<Chunk>, t: Seq<char>, w: Seq<char>)
    requires
        idx.represents(cs, t),
        idx.has_term(w),
    ensures
        w.len() > 0,
{
    lemma_postings_source(cs, t, w);
    let i = choose|i: int| 0 <= i < cs.len() && count_in(tokenize(#[trigger] cs[i].content@), w) > 0;
    let toks = tokenize(cs[i].content@);
    lemma_count_in_pos(toks, w);
    law_terms_nonempty(cs[i].content@);
    let k = choose|k: int| 0 <= k < toks.len() && toks[k] == w;
    assert(toks[k].len() > 0);
}


// ---------------------------------------------------------------------------
// What a tenant retrieves depends on that tenant's documents alone
// ---------------------------------------------------------------------------

/// The source and content of each chunk of tenant `t`, in order.
pub open spec fn tenant_docs(cs: Seq<Chunk>, t: Seq<char>) -> Seq<(Seq<char>, Seq<char>)>
    decreases cs.len(),
{
    if cs.len() == 0 {
        seq![]
    } else {
        let prev = tenant_docs(cs.drop_last(), t);
        if cs.last().tenant_id@ == t {
            prev.push((cs.last().source@, cs.last().content@))
        } else {
            prev
        }
    }
}

/// For each document that holds term `w`: its source, its content, how often it holds `w`,
/// and how many terms it has.
pub open spec fn doc_postings(docs: Seq<(Seq<char>, Seq<char>)>, w: Seq<char>) -> Seq<
    (Seq<char>, Seq<char>, usize, usize),
>
    decreases docs.len(),
{
    if docs.len() == 0 {
        seq![]
    } else {
        let prev = doc_postings(docs.drop_last(), w);
        let d = docs.last();
        let toks = tokenize(d.1);
        if count_in(toks, w) > 0 {
            prev.push((d.0, d.1, count_in(toks, w) as usize, toks.len() as usize))
        } else {
            prev
        }
    }
}

/// A scored chunk as a reader of the results sees it: its source, its content, and the
/// four numbers its score summand is made of.
pub type ScoredView = (Seq<char>, Seq<char>, usize, usize, usize, usize);

/// The summands of query terms `qs` over the documents `docs`, seen as `ScoredView`s.
pub open spec fn doc_score_terms(docs: Seq<(Seq<char>, Seq<char>)>, qs: Seq<Seq<char>>) -> Seq<
    ScoredView,
>
    decreases qs.len(),
{
    if qs.len() == 0 {
        seq![]
    } else {
        let dp = doc_postings(docs, qs.last());
        doc_score_terms(docs, qs.drop_last()) + dp.map_values(
            |e: (Seq<char>, Seq<char>, usize, usize)|
                (e.0, e.1, e.2, e.3, dp.len() as usize, docs.len() as usize),
        )
    }
}

/// What a query for `q` scores over the documents `docs`, seen as `ScoredView`s.
pub open spec fn doc_query(docs: Seq<(Seq<char>, Seq<char>)>, q: Seq<char>) -> Seq<ScoredView> {
    let qs = tokenize(q);
    if qs.len() == 0 || docs.len() == 0 {
        seq![]
    } else {
        doc_score_terms(docs, qs)
    }
}

/// A summand seen as a `ScoredView`: the chunk it scores replaced by that chunk's source
/// and content.
pub open spec fn scored_view(cs: Seq<Chunk>, st: ScoreTerm) -> ScoredView {
    let c = cs[st.chunk_idx as int];
    (c.source@, c.content@, st.term_count, st.chunk_len, st.doc_freq, st.tenant_chunks)
}

/// A posting seen through its chunk's source and content.
pub open spec fn posting_view(cs: Seq<Chunk>, p: Posting) -> (Seq<char>, Seq<char>, usize, usize) {
    let c = cs[p.chunk_idx as int];
    (c.source@, c.content@, p.term_count, p.chunk_len)
}

/// A tenant's chunk count is the number of its documents.
proof fn lemma_tenant_docs_len(cs: Seq<Chunk>, t: Seq<char>)
    ensures
        tenant_docs(cs, t).len() == tenant_chunk_count(cs, t),
    decreases cs.len(),
{
    if cs.len() > 0 {
        lemma_tenant_docs_len(cs.drop_last(), t);
    }
}

/// A posting list seen through its chunks is the postings of the tenant's documents.
proof fn lemma_postings_as_docs(cs: Seq<Chunk>, t: Seq<char>, w: Seq<char>)
    requires
        cs.len() <= usize::MAX,
    ensures
        postings_for(cs, t, w).map_values(|p: Posting| posting_view(cs, p)) == doc_postings(
            tenant_docs(cs, t),
            w,
        ),
    decreases cs.len(),
{
    if cs.len() > 0 {
        let prev = cs.drop_last();
        let c = cs.last();
        lemma_postings_as_docs(prev, t, w);
        lemma_postings_shape(prev, t, w);
        let pp = postings_for(prev, t, w);
        assert(pp.map_values(|p: Posting| posting_view(cs, p)) =~= pp.map_values(
            |p: Posting| posting_view(prev, p),
        )) by {
            assert forall|a: int| 0 <= a < pp.len() implies posting_view(cs, #[trigger] pp[a])
                == posting_view(prev, pp[a]) by {
                assert(cs[pp[a].chunk_idx as int] == prev[pp[a].chunk_idx as int]);
            }
        }
        let docs = tenant_docs(cs, t);
        if c.tenant_id@ == t {
            assert(docs.drop_last() =~= tenant_docs(prev, t));
            assert(docs.last() == (c.source@, c.content@));
            if count_in(tokenize(c.content@), w) > 0 {
                let np = chunk_posting(c, cs.len() - 1, w);
                assert(cs[np.chunk_idx as int] == c);
                assert(postings_for(cs, t, w) == pp.push(np));
                assert(pp.push(np).map_values(|p: Posting| posting_view(cs, p)) =~= pp.map_values(
                    |p: Posting| posting_view(cs, p),
                ).push(posting_view(cs, np)));
            } else {
                assert(postings_for(cs, t, w) == pp);
            }
        } else {
            assert(docs =~= tenant_docs(prev, t));
            assert(postings_for(cs, t, w) == pp);
        }
    }
}

/// The summands of query terms seen through their chunks are the summands over the
/// tenant's documents.
proof fn lemma_score_terms_as_docs(cs: Seq<Chunk>, t: Seq<char>, qs: Seq<Seq<char>>)
    requires
        cs.len() <= usize::MAX,
    ensures
        score_terms(cs, t, qs).map_values(|st: ScoreTerm| scored_view(cs, st)) == doc_score_terms(
            tenant_docs(cs, t),
            qs,
        ),
    decreases qs.len(),
{
    if qs.len() > 0 {
        let w = qs.last();
        let ps = postings_for(cs, t, w);
        let n = tenant_chunk_count(cs, t);
        let docs = tenant_docs(cs, t);
        let dp = doc_postings(docs, w);
        lemma_score_terms_as_docs(cs, t, qs.drop_last());
        lemma_postings_as_docs(cs, t, w);
        lemma_tenant_docs_len(cs, t);
        let prev = score_terms(cs, t, qs.drop_last());
        let tail = ps.map_values(|p: Posting| score_term_of(p, ps.len(), n));
        let dtail = dp.map_values(
            |e: (Seq<char>, Seq<char>, usize, usize)|
                (e.0, e.1, e.2, e.3, dp.len() as usize, docs.len() as usize),
        );
        assert(ps.map_values(|p: Posting| posting_view(cs, p)).len() == ps.len());
        assert(tail.map_values(|st: ScoreTerm| scored_view(cs, st)) =~= dtail) by {
            assert forall|a: int| 0 <= a < tail.len() implies scored_view(cs, #[trigger] tail[a])
                == dtail[a] by {
                assert(ps.map_values(|p: Posting| posting_view(cs, p))[a] == posting_view(
                    cs,
                    ps[a],
                ));
            }
        }
        assert((prev + tail).map_values(|st: ScoreTerm| scored_view(cs, st)) =~= prev.map_values(
            |st: ScoreTerm| scored_view(cs, st),
        ) + tail.map_values(|st: ScoreTerm| scored_view(cs, st)));
    }
}

/// What tenant `t` retrieves depends on `t`'s own documents alone: seen through the chunks
/// they score, the summands of every query by `t` are those computed over `t`'s documents
/// (sources and contents, in ingestion order), whatever other tenants stored and wherever
/// their chunks stand.
pub proof fn law_query_depends_on_tenant_docs(cs: Seq<Chunk>, t: Seq<char>, q: Seq<char>)
    requires
        cs.len() <= usize::MAX,
    ensures
        query_plan_spec(cs, t, q).map_values(|st: ScoreTerm| scored_view(cs, st)) == doc_query(
            tenant_docs(cs, t),
            q,
        ),
{
    lemma_tenant_docs_len(cs, t);
    if tokenize(q).len() > 0 && tenant_chunk_count(cs, t) > 0 {
        lemma_score_terms_as_docs(cs, t, tokenize(q));
    } else {
        assert(query_plan_spec(cs, t, q).map_values(|st: ScoreTerm| scored_view(cs, st)) =~= seq![]);
    }
}

/// Other tenants never change what a tenant retrieves: two chunk stores in which tenant
/// `t` holds the same documents in the same order score the same summands for every query
/// by `t`, on chunks with the same sources and contents, in the same order.
pub proof fn law_same_tenant_docs_same_results(
    cs1: Seq<Chunk>,
    cs2: Seq<Chunk>,
    t: Seq<char>,
    q: Seq<char>,
)
    requires
        cs1.len() <= usize::MAX,
        cs2.len() <= usize::MAX,
        tenant_docs(cs1, t) == tenant_docs(cs2, t),
    ensures
        query_plan_spec(cs1, t, q).map_values(|st: ScoreTerm| scored_view(cs1, st))
            == query_plan_spec(cs2, t, q).map_values(|st: ScoreTerm| scored_view(cs2, st)),
{
    law_query_depends_on_tenant_docs(cs1, t, q);
    law_query_depends_on_tenant_docs(cs2, t, q);
}


// ---------------------------------------------------------------------------
// Chunking composes
// ---------------------------------------------------------------------------

/// One step of the paragraph scan.
pub open spec fn paragraph_step(st: (Seq<Seq<char>>, Seq<char>), c: char) -> (
    Seq<Seq<char>>,
    Seq<char>,
) {
    let (done, cur) = st;
    if c == '\n' && cur.len() > 0 && cur.last() == '\n' {
        (done.push(cur.drop_last()), seq![])
    } else {
        (done, cur.push(c))
    }
}

/// The paragraph scan of `s`, started from state `st`.
pub open spec fn scan_from(st: (Seq<Seq<char>>, Seq<char>), s: Seq<char>) -> (
    Seq<Seq<char>>,
    Seq<char>,
)
    decreases s.len(),
{
    if s.len() == 0 {
        st
    } else {
        paragraph_step(scan_from(st, s.drop_last()), s.last())
    }
}

/// The paragraphs `r` joined by blank lines ("\n\n").
pub open spec fn join_paragraphs(r: Seq<Seq<char>>) -> Seq<char>
    decreases r.len(),
{
    if r.len() == 0 {
        seq![]
    } else if r.len() == 1 {
        r[0]
    } else {
        join_paragraphs(r.drop_last()) + seq!['\n', '\n'] + r.last()
    }
}

proof fn lemma_scan_from_start(s: Seq<char>)
    ensures
        scan_from((seq![], seq![]), s) == paragraph_scan(s),
    decreases s.len(),
{
    if s.len() > 0 {
        lemma_scan_from_start(s.drop_last());
    }
}

proof fn lemma_scan_from_concat(st: (Seq<Seq<char>>, Seq<char>), a: Seq<char>, b: Seq<char>)
    ensures
        scan_from(st, a + b) == scan_from(scan_from(st, a), b),
    decreases b.len(),
{
    if b.len() == 0 {
        assert(a + b =~= a);
    } else {
        lemma_scan_from_concat(st, a, b.drop_last());
        assert((a + b).drop_last() =~= a + b.drop_last());
        assert((a + b).last() == b.last());
    }
}

/// A leading newline does not change a trimmed text.
proof fn lemma_trim_prepend_newline(y: Seq<char>)
    ensures
        trim(seq!['\n'] + y) == trim(y),
{
    let z = seq!['\n'] + y;
    assert(z[0] == '\n');
    assert(z.drop_first() =~= y);
}

/// `trim_start` of a text extended by one character.
proof fn lemma_trim_start_push(y: Seq<char>, c: char)
    ensures
        trim_start(y.push(c)) == if trim_start(y).len() > 0 {
            trim_start(y).push(c)
        } else {
            trim_start(seq![c])
        },
    decreases y.len(),
{
    if y.len() == 0 {
        assert(y.push(c) =~= seq![c]);
    } else if char_is_whitespace(y[0]) {
        assert(y.push(c)[0] == y[0]);
        assert(y.push(c).drop_first() =~= y.drop_first().push(c));
        lemma_trim_start_push(y.drop_first(), c);
    } else {
        assert(y.push(c)[0] == y[0]);
    }
}

/// A trailing whitespace character does not change a trimmed text.
proof fn lemma_trim_push_whitespace(y: Seq<char>, c: char)
    requires
        char_is_whitespace(c),
    ensures
        trim(y.push(c)) == trim(y),
{
    lemma_trim_start_push(y, c);
    if trim_start(y).len() > 0 {
        let x = trim_start(y);
        assert(x.push(c).drop_last() =~= x);
        assert(x.push(c).last() == c);
        assert(trim_end(x.push(c)) == trim_end(x));
    } else {
        let e = Seq::<char>::empty();
        assert(seq![c][0] == c);
        assert(seq![c].drop_first() =~= e);
        assert(trim_start(e) == e);
        assert(trim_start(seq![c]) == e);
        assert(trim_end(e) == e);
    }
}

/// Chunks of closed pieces after one more piece.
proof fn lemma_trimmed_nonempty_push(d: Seq<Seq<char>>, x: Seq<char>)
    ensures
        trimmed_nonempty(d.push(x)) == if trim(x).len() > 0 {
            trimmed_nonempty(d).push(trim(x))
        } else {
            trimmed_nonempty(d)
        },
{
    assert(d.push(x).drop_last() =~= d);
}

/// Two scan states that give the same chunks, up to the chunks `p` closed before, and whose
/// open pieces differ at most by a leading newline.
pub open spec fn scans_agree(
    s1: (Seq<Seq<char>>, Seq<char>),
    s2: (Seq<Seq<char>>, Seq<char>),
    p: Seq<Seq<char>>,
) -> bool {
    &&& trimmed_nonempty(s1.0) == p + trimmed_nonempty(s2.0)
    &&& (s1.1 == s2.1 || s1.1 == seq!['\n'] + s2.1 || s2.1 == seq!['\n'] + s1.1)
}

proof fn lemma_step_agree(
    s1: (Seq<Seq<char>>, Seq<char>),
    s2: (Seq<Seq<char>>, Seq<char>),
    p: Seq<Seq<char>>,
    c: char,
)
    requires
        scans_agree(s1, s2, p),
    ensures
        scans_agree(paragraph_step(s1, c), paragraph_step(s2, c), p),
{
    let (d1, c1) = s1;
    let (d2, c2) = s2;
    let cut1 = c == '\n' && c1.len() > 0 && c1.last() == '\n';
    let cut2 = c == '\n' && c2.len() > 0 && c2.last() == '\n';
    let nl = seq!['\n'];
    if cut1 {
        lemma_trimmed_nonempty_push(d1, c1.drop_last());
    }
    if cut2 {
        lemma_trimmed_nonempty_push(d2, c2.drop_last());
    }
    if c1 == c2 {
        if cut1 {
            assert(p + trimmed_nonempty(d2).push(trim(c2.drop_last())) =~= (p + trimmed_nonempty(
                d2,
            )).push(trim(c2.drop_last())));
        }
    } else if c1 == nl + c2 {
        if c2.len() > 0 {
            assert(c1.last() == c2.last());
            if cut1 {
                assert(c1.drop_last() =~= nl + c2.drop_last());
                lemma_trim_prepend_newline(c2.drop_last());
                assert(p + trimmed_nonempty(d2).push(trim(c2.drop_last())) =~= (p
                    + trimmed_nonempty(d2)).push(trim(c2.drop_last())));
            } else {
                assert(c1.push(c) =~= nl + c2.push(c));
            }
        } else {
            assert(c2 =~= Seq::<char>::empty());
            assert(c1 =~= nl);
            if c == '\n' {
                assert(c1.drop_last() =~= Seq::<char>::empty());
                assert(trim(Seq::<char>::empty()).len() == 0);
                assert(c2.push(c) =~= nl + Seq::<char>::empty());
            } else {
                assert(c1.push(c) =~= nl + c2.push(c));
            }
        }
    } else {
        assert(c2 == nl + c1);
        if c1.len() > 0 {
            assert(c1.last() == c2.last());
            if cut2 {
                assert(c2.drop_last() =~= nl + c1.drop_last());
                lemma_trim_prepend_newline(c1.drop_last());
                assert(p + trimmed_nonempty(d2).push(trim(c1.drop_last())) =~= (p
                    + trimmed_nonempty(d2)).push(trim(c1.drop_last())));
            } else {
                assert(c2.push(c) =~= nl + c1.push(c));
            }
        } else {
            assert(c1 =~= Seq::<char>::empty());
            assert(c2 =~= nl);
            if c == '\n' {
                assert(c2.drop_last() =~= Seq::<char>::empty());
                assert(trim(Seq::<char>::empty()).len() == 0);
                assert(c1.push(c) =~= nl + Seq::<char>::empty());
            } else {
                assert(c2.push(c) =~= nl + c1.push(c));
            }
        }
    }
}

proof fn lemma_scan_agree(
    s1: (Seq<Seq<char>>, Seq<char>),
    s2: (Seq<Seq<char>>, Seq<char>),
    p: Seq<Seq<char>>,
    b: Seq<char>,
)
    requires
        scans_agree(s1, s2, p),
    ensures
        scans_agree(scan_from(s1, b), scan_from(s2, b), p),
    decreases b.len(),
{
    if b.len() > 0 {
        lemma_scan_agree(s1, s2, p, b.drop_last());
        lemma_step_agree(scan_from(s1, b.drop_last()), scan_from(s2, b.drop_last()), p, b.last());
    }
}

/// Joining two documents with a blank line concatenates their chunk lists.
pub proof fn law_chunks_of_join(a: Seq<char>, b: Seq<char>)
    ensures
        paragraph_chunks(a + seq!['\n', '\n'] + b) == paragraph_chunks(a) + paragraph_chunks(b),
{
    let init: (Seq<Seq<char>>, Seq<char>) = (seq![], seq![]);
    let sep = seq!['\n', '\n'];
    lemma_scan_from_start(a + sep + b);
    lemma_scan_from_start(a);
    lemma_scan_from_start(b);
    lemma_scan_from_concat(init, a + sep, b);
    lemma_scan_from_concat(init, a, sep);
    let sa = paragraph_scan(a);
    let (da, ca) = sa;
    assert(sep.drop_last() =~= seq!['\n']);
    assert(seq!['\n'].drop_last() =~= Seq::<char>::empty());
    let s1 = paragraph_step(sa, '\n');
    let s = paragraph_step(s1, '\n');
    assert(scan_from(sa, Seq::<char>::empty()) == sa);
    assert(seq!['\n'].last() == '\n');
    assert(scan_from(sa, seq!['\n']) == s1);
    assert(sep.last() == '\n');
    assert(scan_from(sa, sep) == s);
    lemma_trimmed_nonempty_push(da, ca);
    if ca.len() > 0 && ca.last() == '\n' {
        lemma_trimmed_nonempty_push(da, ca.drop_last());
        assert(ca.drop_last().push('\n') =~= ca);
        lemma_trim_push_whitespace(ca.drop_last(), '\n');
        assert(s.1 =~= seq!['\n'] + Seq::<char>::empty());
    } else {
        assert(ca.push('\n').drop_last() =~= ca);
    }
    assert(trimmed_nonempty(Seq::<Seq<char>>::empty()) =~= Seq::<Seq<char>>::empty());
    assert(paragraph_chunks(a) + Seq::<Seq<char>>::empty() =~= paragraph_chunks(a));
    assert(scans_agree(s, init, paragraph_chunks(a)));
    lemma_scan_agree(s, init, paragraph_chunks(a), b);
    let (d1, c1) = scan_from(s, b);
    let (d2, c2) = paragraph_scan(b);
    lemma_trimmed_nonempty_push(d1, c1);
    lemma_trimmed_nonempty_push(d2, c2);
    if c1 == seq!['\n'] + c2 {
        lemma_trim_prepend_newline(c2);
    } else if c2 == seq!['\n'] + c1 {
        lemma_trim_prepend_newline(c1);
    }
    assert(paragraph_chunks(a + sep + b) =~= paragraph_chunks(a) + paragraph_chunks(b));
}

/// A text without blank lines is scanned as one open piece.
proof fn lemma_scan_no_blank(s: Seq<char>)
    requires
        no_blank_line(s),
    ensures
        paragraph_scan(s) == (Seq::<Seq<char>>::empty(), s),
    decreases s.len(),
{
    if s.len() > 0 {
        lemma_no_blank_line_subrange(s, 0, s.len() - 1);
        assert(s.subrange(0, s.len() - 1) =~= s.drop_last());
        lemma_scan_no_blank(s.drop_last());
        if s.len() >= 2 {
            assert(!(s[s.len() - 2] == '\n' && s[s.len() - 1] == '\n'));
            assert(s.drop_last().last() == s[s.len() - 2]);
        }
        assert(s.drop_last().push(s.last()) =~= s);
    }
}

/// A paragraph (non-empty, trimmed, without blank lines) chunks to itself.
proof fn lemma_single_paragraph(x: Seq<char>)
    requires
        x.len() > 0,
        !char_is_whitespace(x[0]),
        !char_is_whitespace(x.last()),
        no_blank_line(x),
    ensures
        paragraph_chunks(x) == seq![x],
{
    lemma_scan_no_blank(x);
    assert(trim_start(x) == x);
    assert(trim_end(x) == x);
    lemma_trimmed_nonempty_push(Seq::<Seq<char>>::empty(), x);
    assert(Seq::<Seq<char>>::empty().push(x) =~= seq![x]);
    assert(trimmed_nonempty(Seq::<Seq<char>>::empty()) =~= Seq::<Seq<char>>::empty());
}

/// Paragraphs (non-empty, trimmed, without blank lines) joined by blank lines chunk back
/// to themselves.
pub proof fn law_chunks_of_joined_paragraphs(r: Seq<Seq<char>>)
    requires
        forall|k: int|
            0 <= k < r.len() ==> {
                let x = #[trigger] r[k];
                &&& x.len() > 0
                &&& !char_is_whitespace(x[0])
                &&& !char_is_whitespace(x.last())
                &&& no_blank_line(x)
            },
    ensures
        paragraph_chunks(join_paragraphs(r)) == r,
    decreases r.len(),
{
    if r.len() == 0 {
        let e = Seq::<char>::empty();
        assert(paragraph_scan(e) == (Seq::<Seq<char>>::empty(), e));
        lemma_trimmed_nonempty_push(Seq::<Seq<char>>::empty(), e);
        assert(trimmed_nonempty(Seq::<Seq<char>>::empty()) =~= Seq::<Seq<char>>::empty());
        assert(paragraph_chunks(e) =~= r);
    } else if r.len() == 1 {
        assert(r[0] == r[0]);
        lemma_single_paragraph(r[0]);
        assert(seq![r[0]] =~= r);
    } else {
        let prev = r.drop_last();
        assert forall|k: int| 0 <= k < prev.len() implies {
            let x = #[trigger] prev[k];
            &&& x.len() > 0
            &&& !char_is_whitespace(x[0])
            &&& !char_is_whitespace(x.last())
            &&& no_blank_line(x)
        } by {
            assert(prev[k] == r[k]);
        }
        law_chunks_of_joined_paragraphs(prev);
        assert(r[r.len() - 1] == r.last());
        lemma_single_paragraph(r.last());
        law_chunks_of_join(join_paragraphs(prev), r.last());
        assert(prev + seq![r.last()] =~= r);
    }
}

/// Re-chunking a document's chunks joined by blank lines gives the same chunks.
pub proof fn law_rechunk_joined_chunks(s: Seq<char>)
    ensures
        paragraph_chunks(join_paragraphs(paragraph_chunks(s))) == paragraph_chunks(s),
{
    law_chunks_trimmed(s);
    law_chunks_hold_no_blank_line(s);
    law_chunks_of_joined_paragraphs(paragraph_chunks(s));
}


// ---------------------------------------------------------------------------
// Grouping summands by chunk
// ---------------------------------------------------------------------------

/// The grouped chunks are exactly the chunks the summands score, each once, in order of
/// first appearance: every summand's chunk is grouped, every grouped chunk is scored by
/// some summand, no chunk is grouped twice, and a chunk grouped earlier is scored before
/// every summand of a chunk grouped later.
#[verifier::spinoff_prover]
#[verifier::rlimit(40)]
pub proof fn law_first_seen(plan: Seq<ScoreTerm>)
    ensures
        forall|j: int|
            0 <= j < plan.len() ==> first_seen(plan).contains(#[trigger] plan[j].chunk_idx),
        forall|g: int|
            0 <= g < first_seen(plan).len() ==> exists|j: int|
                0 <= j < plan.len() && (#[trigger] plan[j]).chunk_idx == #[trigger] first_seen(
                    plan,
                )[g],
        forall|g: int, h: int|
            0 <= g < h < first_seen(plan).len() ==> #[trigger] first_seen(plan)[g]
                != #[trigger] first_seen(plan)[h],
        forall|g: int, h: int, j: int|
            #![trigger plan[j], first_seen(plan)[h], first_seen(plan)[g]]
            0 <= g < h < first_seen(plan).len() && 0 <= j < plan.len() && plan[j].chunk_idx
                == first_seen(plan)[h] ==> exists|i: int|
                #![trigger plan[i]]
                0 <= i < j && plan[i].chunk_idx == first_seen(plan)[g],
    decreases plan.len(),
{
    if plan.len() > 0 {
        let p = plan.drop_last();
        let fs = first_seen(plan);
        let fp = first_seen(p);
        let x = plan.last().chunk_idx;
        law_first_seen(p);
        assert(forall|j: int| 0 <= j < p.len() ==> p[j] == plan[j]);
        assert(plan[plan.len() - 1] == plan.last());
        if fp.contains(x) {
            assert(fs == fp);
        } else {
            assert(fs == fp.push(x));
            assert(fs[fp.len() as int] == x);
        }
        assert forall|j: int| 0 <= j < plan.len() implies fs.contains(#[trigger] plan[j].chunk_idx) by {
            if j < p.len() {
                assert(fp.contains(p[j].chunk_idx));
                let g = choose|g: int| 0 <= g < fp.len() && fp[g] == p[j].chunk_idx;
                assert(fs[g] == fp[g]);
            } else if fp.contains(x) {
            } else {
                assert(fs[fp.len() as int] == x);
            }
        }
        assert forall|g: int| 0 <= g < fs.len() implies exists|j: int|
            0 <= j < plan.len() && (#[trigger] plan[j]).chunk_idx == #[trigger] fs[g] by {
            if g < fp.len() {
                assert(fs[g] == fp[g]);
                let j = choose|j: int| 0 <= j < p.len() && (#[trigger] p[j]).chunk_idx == fp[g];
                assert(plan[j] == p[j]);
            } else {
                assert(plan[plan.len() - 1].chunk_idx == fs[g]);
            }
        }
        assert forall|g: int, h: int| 0 <= g < h < fs.len() implies #[trigger] fs[g]
            != #[trigger] fs[h] by {
            assert(fs[g] == fp[g]);
            if h < fp.len() {
                assert(fs[h] == fp[h]);
            } else {
                assert(fp.contains(fp[g]));
            }
        }
        assert forall|g: int, h: int, j: int|
            #![trigger plan[j], fs[h], fs[g]]
            0 <= g < h < fs.len() && 0 <= j < plan.len() && plan[j].chunk_idx == fs[h] implies exists|
            i: int,
        |
            #![trigger plan[i]]
            0 <= i < j && plan[i].chunk_idx == fs[g] by {
            assert(fs[g] == fp[g]);
            let j0 = choose|j0: int| 0 <= j0 < p.len() && (#[trigger] p[j0]).chunk_idx == fp[g];
            assert(plan[j0] == p[j0]);
            if h < fp.len() {
                assert(fs[h] == fp[h]);
                if j < p.len() {
                    assert(p[j].chunk_idx == fp[h]);
                    assert(p[j] == plan[j]);
                    let i = choose|i: int| #![trigger p[i]] 0 <= i < j && p[i].chunk_idx == fp[g];
                    assert(plan[i] == p[i]);
                } else {
                    let j1 = choose|j1: int| 0 <= j1 < p.len() && (#[trigger] p[j1]).chunk_idx == fp[h];
                    let i = choose|i: int| #![trigger p[i]] 0 <= i < j1 && p[i].chunk_idx == fp[g];
                    assert(plan[i] == p[i]);
                }
            } else {
                // fs[h] is x, which no earlier summand scores
                if j < p.len() {
                    assert(fp.contains(p[j].chunk_idx));
                }
                assert(j == p.len());
            }
        }
    }
}

/// A chunk's group holds exactly the summands that score that chunk, in plan order: the
/// plan filtered by the chunk.
pub proof fn law_terms_for(plan: Seq<ScoreTerm>, idx: usize)
    ensures
        terms_for(plan, idx) == plan.filter(|st: ScoreTerm| st.chunk_idx == idx),
    decreases plan.len(),
{
    reveal_with_fuel(Seq::<ScoreTerm>::filter, 1);
    if plan.len() > 0 {
        law_terms_for(plan.drop_last(), idx);
    } else {
        assert(plan.filter(|st: ScoreTerm| st.chunk_idx == idx) =~= Seq::<ScoreTerm>::empty());
    }
}


// ---------------------------------------------------------------------------
// Tokenization
// ---------------------------------------------------------------------------

/// One step of the word scan.
pub open spec fn word_step(st: (Seq<Seq<char>>, Seq<char>), c: char) -> (Seq<Seq<char>>, Seq<char>) {
    let (done, cur) = st;
    if char_is_whitespace(c) {
        if cur.len() > 0 {
            (done.push(cur), seq![])
        } else {
            (done, cur)
        }
    } else {
        (done, cur.push(c))
    }
}

/// The word scan of `s`, started from state `st`.
pub open spec fn words_from(st: (Seq<Seq<char>>, Seq<char>), s: Seq<char>) -> (
    Seq<Seq<char>>,
    Seq<char>,
)
    decreases s.len(),
{
    if s.len() == 0 {
        st
    } else {
        word_step(words_from(st, s.drop_last()), s.last())
    }
}

proof fn lemma_words_from_start(s: Seq<char>)
    ensures
        words_from((seq![], seq![]), s) == word_scan(s),
    decreases s.len(),
{
    if s.len() > 0 {
        lemma_words_from_start(s.drop_last());
    }
}

proof fn lemma_words_from_concat(st: (Seq<Seq<char>>, Seq<char>), a: Seq<char>, b: Seq<char>)
    ensures
        words_from(st, a + b) == words_from(words_from(st, a), b),
    decreases b.len(),
{
    if b.len() == 0 {
        assert(a + b =~= a);
    } else {
        lemma_words_from_concat(st, a, b.drop_last());
        assert((a + b).drop_last() =~= a + b.drop_last());
        assert((a + b).last() == b.last());
    }
}

/// Words closed before a scan stay in front of the words it closes.
proof fn lemma_words_from_prefix(d: Seq<Seq<char>>, c: Seq<char>, b: Seq<char>)
    ensures
        words_from((d, c), b).0 == d + words_from((seq![], c), b).0,
        words_from((d, c), b).1 == words_from((seq![], c), b).1,
    decreases b.len(),
{
    if b.len() == 0 {
        assert(d + Seq::<Seq<char>>::empty() =~= d);
    } else {
        lemma_words_from_prefix(d, c, b.drop_last());
        let (d0, c0) = words_from((seq![], c), b.drop_last());
        assert((d + d0).push(c0) =~= d + d0.push(c0));
    }
}

/// The search terms of two lists of words.
proof fn lemma_nonempty_terms_concat(x: Seq<Seq<char>>, y: Seq<Seq<char>>)
    ensures
        nonempty_terms(x + y) == nonempty_terms(x) + nonempty_terms(y),
    decreases y.len(),
{
    if y.len() == 0 {
        assert(x + y =~= x);
        assert(nonempty_terms(x) + nonempty_terms(y) =~= nonempty_terms(x));
    } else {
        lemma_nonempty_terms_concat(x, y.drop_last());
        assert((x + y).drop_last() =~= x + y.drop_last());
        assert((x + y).last() == y.last());
        let t = normalize(y.last());
        assert((nonempty_terms(x) + nonempty_terms(y.drop_last())).push(t) =~= nonempty_terms(x)
            + nonempty_terms(y.drop_last()).push(t));
    }
}

/// Tokenization is compositional over whitespace: the search terms of two texts joined by
/// a whitespace character are the terms of the first followed by the terms of the second.
pub proof fn law_tokenize_join(a: Seq<char>, c: char, b: Seq<char>)
    requires
        char_is_whitespace(c),
    ensures
        tokenize(a + seq![c] + b) == tokenize(a) + tokenize(b),
{
    let init: (Seq<Seq<char>>, Seq<char>) = (seq![], seq![]);
    lemma_words_from_start(a + seq![c] + b);
    lemma_words_from_start(a);
    lemma_words_from_start(b);
    lemma_words_from_concat(init, a + seq![c], b);
    lemma_words_from_concat(init, a, seq![c]);
    assert(seq![c].drop_last() =~= Seq::<char>::empty());
    assert(seq![c].last() == c);
    let sa = word_scan(a);
    let s = word_step(sa, c);
    assert(words_from(sa, Seq::<char>::empty()) == sa);
    assert(words_from(sa, seq![c]) == s);
    assert(s.0 == split_whitespace(a));
    assert(s.1 =~= Seq::<char>::empty());
    lemma_words_from_prefix(split_whitespace(a), seq![], b);
    let (db, cb) = word_scan(b);
    if cb.len() > 0 {
        assert((split_whitespace(a) + db).push(cb) =~= split_whitespace(a) + db.push(cb));
    }
    assert(split_whitespace(a + seq![c] + b) == split_whitespace(a) + split_whitespace(b));
    lemma_nonempty_terms_concat(split_whitespace(a), split_whitespace(b));
}

/// Removing punctuation keeps exactly the alphanumeric characters, in order.
pub proof fn law_alnum_only(w: Seq<char>)
    ensures
        alnum_only(w) == w.filter(|c: char| char_is_alphanumeric(c)),
    decreases w.len(),
{
    reveal_with_fuel(Seq::<char>::filter, 1);
    if w.len() > 0 {
        law_alnum_only(w.drop_last());
    } else {
        assert(w.filter(|c: char| char_is_alphanumeric(c)) =~= Seq::<char>::empty());
    }
}

/// A text without whitespace is one word.
proof fn lemma_word_scan_one_word(w: Seq<char>)
    requires
        forall|i: int| 0 <= i < w.len() ==> !char_is_whitespace(#[trigger] w[i]),
    ensures
        word_scan(w) == (Seq::<Seq<char>>::empty(), w),
    decreases w.len(),
{
    if w.len() > 0 {
        let p = w.drop_last();
        assert forall|i: int| 0 <= i < p.len() implies !char_is_whitespace(#[trigger] p[i]) by {
            assert(p[i] == w[i]);
        }
        lemma_word_scan_one_word(p);
        assert(w[w.len() - 1] == w.last());
        assert(p.push(w.last()) =~= w);
    }
}

/// A word gives one search term holding every alphanumeric character of the word, in
/// order, lowercased as a whole (or no term, if it has none or lowercases to nothing).
pub proof fn law_tokenize_word(w: Seq<char>)
    requires
        forall|i: int| 0 <= i < w.len() ==> !char_is_whitespace(#[trigger] w[i]),
    ensures
        ({
            let kept = w.filter(|c: char| char_is_alphanumeric(c));
            let t = str_lowercase(kept);
            tokenize(w) == if kept.len() > 0 && t.len() > 0 {
                seq![t]
            } else {
                Seq::<Seq<char>>::empty()
            }
        }),
{
    lemma_word_scan_one_word(w);
    law_alnum_only(w);
    let e = Seq::<Seq<char>>::empty();
    assert(nonempty_terms(e) == e);
    if w.len() > 0 {
        assert(split_whitespace(w) == e.push(w));
        assert(e.push(w).drop_last() =~= e);
        assert(e.push(w).last() == w);
        assert(nonempty_terms(e.push(w)) == if normalize(w).len() > 0 {
            e.push(normalize(w))
        } else {
            e
        });
        assert(e.push(normalize(w)) =~= seq![normalize(w)]);
    } else {
        assert(split_whitespace(w) == e);
        assert(alnum_only(w) == Seq::<char>::empty());
    }
}


// ---------------------------------------------------------------------------
// Result lines
// ---------------------------------------------------------------------------

/// The rendered lines are, for each ranked entry that names a stored chunk, in ranked
/// order, the text "[Score: " + its score + "] (Source: " + the chunk's source + ") " +
/// the chunk's whole content.
pub proof fn law_rendered_lines(cs: Seq<Chunk>, ranked: Seq<RankedChunk>)
    ensures
        rendered(cs, ranked) == ranked.filter(|r: RankedChunk| r.chunk_idx < cs.len()).map_values(
            |r: RankedChunk|
                "[Score: "@ + r.score_text@ + "] (Source: "@ + cs[r.chunk_idx as int].source@
                    + ") "@ + cs[r.chunk_idx as int].content@,
        ),
    decreases ranked.len(),
{
    reveal_with_fuel(Seq::<RankedChunk>::filter, 1);
    let f = |r: RankedChunk|
        "[Score: "@ + r.score_text@ + "] (Source: "@ + cs[r.chunk_idx as int].source@ + ") "@
            + cs[r.chunk_idx as int].content@;
    let keep = |r: RankedChunk| r.chunk_idx < cs.len();
    if ranked.len() > 0 {
        law_rendered_lines(cs, ranked.drop_last());
        let sub = ranked.drop_last().filter(keep);
        if keep(ranked.last()) {
            assert(sub.push(ranked.last()).map_values(f) =~= sub.map_values(f).push(f(ranked.last())));
        }
    } else {
        assert(ranked.filter(keep).map_values(f) =~= Seq::<Seq<char>>::empty());
    }
}


// ---------------------------------------------------------------------------
// Counting
// ---------------------------------------------------------------------------

/// `count_in(ws, w)` is the number of elements of `ws` equal to `w`.
pub proof fn law_count_in(ws: Seq<Seq<char>>, w: Seq<char>)
    ensures
        count_in(ws, w) == ws.filter(|x: Seq<char>| x == w).len(),
    decreases ws.len(),
{
    reveal_with_fuel(Seq::<Seq<char>>::filter, 1);
    if ws.len() > 0 {
        law_count_in(ws.drop_last(), w);
    }
}

/// A tenant's chunk count is the number of stored chunks that belong to it.
pub proof fn law_tenant_chunk_count(cs: Seq<Chunk>, t: Seq<char>)
    ensures
        tenant_chunk_count(cs, t) == cs.filter(|c: Chunk| c.tenant_id@ == t).len(),
    decreases cs.len(),
{
    reveal_with_fuel(Seq::<Chunk>::filter, 1);
    if cs.len() > 0 {
        law_tenant_chunk_count(cs.drop_last(), t);
    }
}

} // verus!
