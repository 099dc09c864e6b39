use sagelib::{CoreHybridRetriever, CorePipeline, CoreSemanticChunker, RankedChunk};

/// Ranks the scored chunks of a query the way the engine does: sums each chunk's TF-IDF
/// summands, orders by descending score, renders the top results.
fn query(pipeline: &CorePipeline, query_str: &str, tenant_id: &str) -> Vec<String> {
    let groups = pipeline.query_groups(query_str, tenant_id);
    if groups.is_empty() {
        return Vec::new();
    }
    let mut ranked: Vec<(f64, usize)> = groups
        .iter()
        .map(|g| {
            let mut score = 0.0;
            for st in &g.terms {
                let tf = (st.term_count as f64) / (st.chunk_len as f64);
                let idf = ((st.tenant_chunks as f64) / (st.doc_freq as f64)).ln() + 1.0;
                score += tf * idf;
            }
            (score, g.chunk_idx)
        })
        .collect();
    ranked.sort_by(|a, b| b.0.partial_cmp(&a.0).unwrap_or(std::cmp::Ordering::Equal));
    let ranked: Vec<RankedChunk> = ranked
        .into_iter()
        .map(|(score, chunk_idx)| RankedChunk { score_text: format!("{:.4}", score), chunk_idx })
        .collect();
    pipeline.store.render_top(&ranked)
}

fn ready_pipeline() -> CorePipeline {
    let mut pipeline = CorePipeline::new("local".to_string(), false);
    let chunker = CoreSemanticChunker::new();
    let retriever = CoreHybridRetriever::new(60);
    pipeline.use_chunker(&chunker);
    pipeline.use_retriever(&retriever);
    pipeline
}

#[test]
fn test_pipeline_requires_chunker_and_retriever() {
    let mut pipeline = CorePipeline::new("local".to_string(), false);
    let res = pipeline.ingest_text("doc1.txt", "Some content", "tenant1");
    assert!(res.is_err());
    assert!(res.unwrap_err().contains("requires both a chunker and retriever"));
}

#[test]
fn test_semantic_chunker_splits_paragraphs() {
    let chunker = CoreSemanticChunker::new();
    let content = "First paragraph with details.\n\nSecond paragraph with more info.\n\n\nThird paragraph.";
    let chunks = chunker.chunk(content);
    assert_eq!(chunks.len(), 3);
    assert_eq!(chunks[0], "First paragraph with details.");
    assert_eq!(chunks[1], "Second paragraph with more info.");
    assert_eq!(chunks[2], "Third paragraph.");
}

#[test]
fn test_multi_tenant_boundary_isolation() {
    let mut pipeline = CorePipeline::new("local".to_string(), false);
    let chunker = CoreSemanticChunker::new();
    let retriever = CoreHybridRetriever::new(60);
    pipeline.use_chunker(&chunker);
    pipeline.use_retriever(&retriever);

    pipeline
        .ingest_text("secret_a.txt", "Tenant A highly confidential financial risk data.", "tenant_A")
        .unwrap();
    pipeline
        .ingest_text("secret_b.txt", "Tenant B confidential marketing launch plans.", "tenant_B")
        .unwrap();

    let results_a = query(&pipeline, "financial risk", "tenant_A");
    assert!(!results_a.is_empty());
    assert!(results_a[0].contains("Tenant A"));
    assert!(!results_a[0].contains("Tenant B"));

    let results_b_query_a = query(&pipeline, "financial risk", "tenant_B");
    assert_eq!(results_b_query_a.len(), 0);

    let results_c = query(&pipeline, "financial risk", "tenant_C");
    assert_eq!(results_c.len(), 0);
}

#[test]
fn test_tfidf_ranking_relevance() {
    let mut pipeline = CorePipeline::new("local".to_string(), false);
    let chunker = CoreSemanticChunker::new();
    let retriever = CoreHybridRetriever::new(60);
    pipeline.use_chunker(&chunker);
    pipeline.use_retriever(&retriever);

    let doc = "Artificial intelligence and machine learning models.\n\nDeep learning neural network architectures for computer vision.\n\nUnrelated cooking recipe for apple pie.";
    pipeline.ingest_text("tech.txt", doc, "org_1").unwrap();

    let results = query(&pipeline, "machine learning models", "org_1");
    assert!(!results.is_empty());
    assert!(results[0].contains("Artificial intelligence and machine learning"));
}

#[test]
fn test_empty_query_handling() {
    let mut pipeline = CorePipeline::new("local".to_string(), false);
    let chunker = CoreSemanticChunker::new();
    let retriever = CoreHybridRetriever::new(60);
    pipeline.use_chunker(&chunker);
    pipeline.use_retriever(&retriever);

    pipeline.ingest_text("test.txt", "Hello world", "tenant_x").unwrap();
    let results = query(&pipeline, "", "tenant_x");
    assert_eq!(results.len(), 0);
}

#[test]
fn ingest_reports_chunk_count_and_stores_chunks_in_order() {
    let mut pipeline = ready_pipeline();
    let n = pipeline.ingest_text("a.txt", "  one  \n\ntwo\n\n\n\n   \n\nthree", "t").unwrap();
    assert_eq!(n, 3);
    let chunks = pipeline.store.chunks();
    assert_eq!(chunks.len(), 3);
    assert_eq!(chunks[0].content, "one");
    assert_eq!(chunks[1].content, "two");
    assert_eq!(chunks[2].content, "three");
    assert!(chunks.iter().all(|c| c.tenant_id == "t" && c.source == "a.txt"));
    let m = pipeline.ingest_text("b.txt", "four", "u").unwrap();
    assert_eq!(m, 1);
    let chunks = pipeline.store.chunks();
    assert_eq!(chunks.len(), 4);
    assert_eq!(chunks[3].tenant_id, "u");
    assert_eq!(chunks[3].source, "b.txt");
    assert_eq!(chunks[0].content, "one");
}

#[test]
fn refused_ingestion_changes_nothing() {
    let mut pipeline = CorePipeline::new("local".to_string(), true);
    pipeline.use_chunker(&CoreSemanticChunker::new());
    let err = pipeline.ingest_text("a.txt", "text", "t").unwrap_err();
    assert_eq!(err, "Pipeline requires both a chunker and retriever before ingestion.");
    assert_eq!(pipeline.store.chunks().len(), 0);
    assert!(pipeline.store.tenant_index("t").is_none());
    assert!(pipeline.ensure_operators().is_err());
    pipeline.use_retriever(&CoreHybridRetriever::default());
    assert!(pipeline.ensure_operators().is_ok());
    assert_eq!(pipeline.ingest_text("a.txt", "text", "t"), Ok(1));
}

#[test]
fn empty_document_registers_tenant_without_chunks() {
    let mut pipeline = ready_pipeline();
    assert_eq!(pipeline.ingest_text("e.txt", " \n\n \t ", "t"), Ok(0));
    let idx = pipeline.store.tenant_index("t").unwrap();
    assert_eq!(idx.chunk_count(), 0);
    assert!(pipeline.query_plan("anything", "t").is_empty());
}

#[test]
fn query_plan_lists_exact_summands() {
    let mut pipeline = ready_pipeline();
    pipeline.ingest_text("d.txt", "Apple banana apple.\n\nCherry!", "t").unwrap();
    let plan = pipeline.query_plan("APPLE cherry apple", "t");
    assert_eq!(plan.len(), 3);
    assert_eq!(
        (plan[0].chunk_idx, plan[0].term_count, plan[0].chunk_len, plan[0].doc_freq, plan[0].tenant_chunks),
        (0, 2, 3, 1, 2)
    );
    assert_eq!(
        (plan[1].chunk_idx, plan[1].term_count, plan[1].chunk_len, plan[1].doc_freq, plan[1].tenant_chunks),
        (1, 1, 1, 1, 2)
    );
    assert_eq!(plan[2], plan[0]);
}

#[test]
fn index_holds_postings_and_lengths() {
    let mut pipeline = ready_pipeline();
    pipeline.ingest_text("d.txt", "red red blue\n\nblue green", "t").unwrap();
    pipeline.ingest_text("e.txt", "red", "u").unwrap();
    let idx = pipeline.store.tenant_index("t").unwrap();
    assert_eq!(idx.chunk_count(), 2);
    assert_eq!(idx.chunk_lengths(), &vec![3, 2]);
    let blue = idx.lookup("blue").unwrap();
    assert_eq!(blue.len(), 2);
    assert_eq!((blue[0].chunk_idx, blue[0].term_count, blue[0].chunk_len), (0, 1, 3));
    assert_eq!((blue[1].chunk_idx, blue[1].term_count, blue[1].chunk_len), (1, 1, 2));
    let red = idx.lookup("red").unwrap();
    assert_eq!(red.len(), 1);
    assert_eq!(red[0].term_count, 2);
    assert!(idx.lookup("yellow").is_none());
    let other = pipeline.store.tenant_index("u").unwrap();
    let red_u = other.lookup("red").unwrap();
    assert_eq!(red_u[0].chunk_idx, 2);
}

#[test]
fn other_tenants_ingestion_leaves_queries_unchanged() {
    let mut pipeline = ready_pipeline();
    pipeline.ingest_text("a.txt", "shared words here\n\nmore shared", "a").unwrap();
    let before = pipeline.query_plan("shared words", "a");
    pipeline.ingest_text("b.txt", "shared shared shared words", "b").unwrap();
    let after = pipeline.query_plan("shared words", "a");
    assert_eq!(before, after);
    for st in &after {
        assert_eq!(pipeline.store.chunks()[st.chunk_idx].tenant_id, "a");
        assert!(st.term_count >= 1 && st.term_count <= st.chunk_len);
        assert!(st.doc_freq >= 1 && st.doc_freq <= st.tenant_chunks);
    }
}

#[test]
fn punctuation_only_query_scores_nothing() {
    let mut pipeline = ready_pipeline();
    pipeline.ingest_text("a.txt", "Hello world", "t").unwrap();
    assert!(pipeline.query_plan("  ?!  ...  -- ", "t").is_empty());
    assert!(pipeline.query_plan("hello", "nobody").is_empty());
}

#[test]
fn render_top_limits_and_formats_results() {
    let mut pipeline = ready_pipeline();
    pipeline.ingest_text("s.txt", "alpha\n\nbeta\n\ngamma\n\ndelta", "t").unwrap();
    let ranked: Vec<RankedChunk> = vec![
        RankedChunk { score_text: "2.5000".to_string(), chunk_idx: 3 },
        RankedChunk { score_text: "1.0000".to_string(), chunk_idx: 99 },
        RankedChunk { score_text: "0.5000".to_string(), chunk_idx: 0 },
        RankedChunk { score_text: "0.2500".to_string(), chunk_idx: 1 },
    ];
    let lines = pipeline.store.render_top(&ranked);
    assert_eq!(
        lines,
        vec![
            "[Score: 2.5000] (Source: s.txt) delta".to_string(),
            "[Score: 0.5000] (Source: s.txt) alpha".to_string(),
        ]
    );
    assert!(pipeline.store.render_top(&Vec::new()).is_empty());
}

#[test]
fn query_returns_at_most_three_results() {
    let mut pipeline = ready_pipeline();
    pipeline
        .ingest_text("x.txt", "cat one\n\ncat two\n\ncat three\n\ncat four\n\ncat five", "t")
        .unwrap();
    let results = query(&pipeline, "cat", "t");
    assert_eq!(results.len(), 3);
    assert!(results[0].starts_with("[Score: 0.5000] (Source: x.txt) cat "));
}

#[test]
fn tfidf_scores_are_exact() {
    let mut pipeline = ready_pipeline();
    pipeline.ingest_text("x.txt", "rust rust go\n\ngo java", "t").unwrap();
    let results = query(&pipeline, "rust", "t");
    // tf = 2/3, idf = ln(2/1) + 1
    let expected = (2.0f64 / 3.0) * ((2.0f64).ln() + 1.0);
    assert_eq!(results, vec![format!("[Score: {:.4}] (Source: x.txt) rust rust go", expected)]);
}

#[test]
fn operators_defaults() {
    assert_eq!(CoreSemanticChunker::default().config, "default");
    assert_eq!(CoreSemanticChunker::new().config, "default");
    assert_eq!(CoreHybridRetriever::default().rrf_k, 60);
    assert_eq!(CoreHybridRetriever::new(7).rrf_k, 7);
    let p = CorePipeline::new("disk".to_string(), true);
    assert_eq!(p.storage_type, "disk");
    assert!(p.observability_enabled);
    assert!(!p.has_chunker && !p.has_retriever);
}

#[test]
fn query_plan_covers_every_matching_chunk() {
    let mut pipeline = ready_pipeline();
    pipeline.ingest_text("a.txt", "zebra one\n\nnothing here\n\nZEBRA, two!\n\nzebras three", "t").unwrap();
    pipeline.ingest_text("b.txt", "zebra elsewhere", "u").unwrap();
    let plan = pipeline.query_plan("zebra", "t");
    let mut idxs: Vec<usize> = plan.iter().map(|st| st.chunk_idx).collect();
    idxs.sort();
    assert_eq!(idxs, vec![0, 2]);
    assert!(plan.iter().all(|st| st.doc_freq == 2 && st.tenant_chunks == 4));
}

#[test]
fn chunks_compare_by_their_fields() {
    let mut pipeline = ready_pipeline();
    pipeline.ingest_text("a.txt", "same\n\nsame", "t").unwrap();
    let chunks = pipeline.store.chunks();
    assert_eq!(chunks[0], chunks[1]);
    pipeline.ingest_text("b.txt", "same", "t").unwrap();
    let chunks = pipeline.store.chunks();
    assert_ne!(chunks[0], chunks[2]);
}

#[test]
fn groups_follow_first_appearance_and_keep_summand_order() {
    let mut pipeline = ready_pipeline();
    pipeline.ingest_text("g.txt", "kiwi lime\n\nlime\n\nkiwi kiwi plum", "t").unwrap();
    let plan = pipeline.query_plan("lime kiwi plum", "t");
    let groups = sagelib::group_by_chunk(&plan);
    let idxs: Vec<usize> = groups.iter().map(|g| g.chunk_idx).collect();
    assert_eq!(idxs, vec![0, 1, 2]);
    assert_eq!(groups[0].terms.len(), 2);
    assert_eq!(groups[1].terms.len(), 1);
    assert_eq!(groups[2].terms.len(), 2);
    assert_eq!(groups[2].terms[0].term_count, 2);
    assert_eq!(groups[2].terms[1].term_count, 1);
    let via_pipeline = pipeline.query_groups("lime kiwi plum", "t");
    assert_eq!(via_pipeline.len(), 3);
    assert!(pipeline.query_groups("lime", "other").is_empty());
}

#[test]
fn interleaved_tenants_do_not_change_results() {
    let mut p1 = ready_pipeline();
    p1.ingest_text("a1.txt", "solar panels and wind\n\nsolar storage", "a").unwrap();
    p1.ingest_text("a2.txt", "wind turbines", "a").unwrap();

    let mut p2 = ready_pipeline();
    p2.ingest_text("noise.txt", "solar solar solar\n\nwind", "b").unwrap();
    p2.ingest_text("a1.txt", "solar panels and wind\n\nsolar storage", "a").unwrap();
    p2.ingest_text("more.txt", "turbines wind solar", "c").unwrap();
    p2.ingest_text("a2.txt", "wind turbines", "a").unwrap();

    let view = |p: &CorePipeline| -> Vec<(String, String, usize, usize, usize, usize)> {
        p.query_plan("solar wind", "a")
            .iter()
            .map(|st| {
                let c = &p.store.chunks()[st.chunk_idx];
                (c.source.clone(), c.content.clone(), st.term_count, st.chunk_len, st.doc_freq, st.tenant_chunks)
            })
            .collect()
    };
    assert_eq!(view(&p1), view(&p2));
    assert_eq!(query(&p1, "solar wind", "a"), query(&p2, "solar wind", "a"));
}
