use rapid_textrank::csr::compile;
use rapid_textrank::error_code::ErrorCode;
use rapid_textrank::graph_builder::GraphBuilder;
use rapid_textrank::observer::{NoopObserver, StageTimingObserver, STAGE_GRAPH, STAGE_RANK, STAGE_TELEPORT};
use rapid_textrank::pagerank::{rank, RESIDUAL_NONE};
use rapid_textrank::runner::run_pipeline;
use rapid_textrank::teleport::{build_teleport, TopicWeights};
use rapid_textrank::topical_pagerank::{PersonalizedPageRank, TopicalPageRank};
use rapid_textrank::types::{PosTag, TextRankConfig, Token, SCALE};

fn make_token(text: &str, lemma: &str, pos: PosTag, sent: usize, idx: usize) -> Token {
    Token {
        text: text.to_string(),
        lemma: lemma.to_string(),
        pos,
        start: 0,
        end: text.len(),
        sentence_idx: sent,
        token_idx: idx,
        is_stopword: false,
    }
}

/// Five tokens, one sentence: machine learning is artificial intelligence.
fn ml_tokens() -> Vec<Token> {
    vec![
        make_token("Machine", "machine", PosTag::Noun, 0, 0),
        make_token("learning", "learning", PosTag::Noun, 0, 1),
        make_token("is", "be", PosTag::Verb, 0, 2),
        make_token("artificial", "artificial", PosTag::Adjective, 0, 3),
        make_token("intelligence", "intelligence", PosTag::Noun, 0, 4),
    ]
}

fn sample_tokens() -> Vec<Token> {
    vec![
        make_token("Machine", "machine", PosTag::Noun, 0, 0),
        make_token("learning", "learning", PosTag::Noun, 0, 1),
        make_token("is", "be", PosTag::Verb, 0, 2),
        make_token("artificial", "artificial", PosTag::Adjective, 0, 3),
        make_token("intelligence", "intelligence", PosTag::Noun, 0, 4),
        make_token("Deep", "deep", PosTag::Adjective, 1, 5),
        make_token("learning", "learning", PosTag::Noun, 1, 6),
        make_token("uses", "use", PosTag::Verb, 1, 7),
        make_token("neural", "neural", PosTag::Adjective, 1, 8),
        make_token("networks", "network", PosTag::Noun, 1, 9),
    ]
}

// ---------------------------------------------------------------- graph

#[test]
fn test_empty_tokens_yield_empty_graph() {
    let tokens: Vec<Token> = Vec::new();
    let builder = GraphBuilder::from_tokens(&tokens, 2, true, &Vec::new(), false, false);
    assert!(builder.is_empty());
    assert_eq!(builder.node_count(), 0);
    let graph = compile(&builder);
    assert_eq!(graph.node_count(), 0);
}

#[test]
fn test_window2_graph_structure() {
    // One sentence, window 2, unweighted: 5 nodes, edges only between
    // tokens at distance <= 2.
    let tokens = ml_tokens();
    let builder = GraphBuilder::from_tokens(&tokens, 2, false, &Vec::new(), false, false);
    assert_eq!(builder.node_count(), 5);
    let graph = compile(&builder);
    assert_eq!(graph.node_count(), 5);

    // distance 1 and 2 pairs carry an edge of weight 1
    for u in 0..5usize {
        for v in 0..5usize {
            let expected = if u != v && u.abs_diff(v) <= 2 { 1 } else { 0 };
            assert_eq!(graph.edge_weight_of(u, v), expected, "edge ({u}, {v})");
        }
    }
}

#[test]
fn test_edge_weights_symmetric_and_no_self_loops() {
    let tokens = sample_tokens();
    let builder = GraphBuilder::from_tokens(&tokens, 3, true, &Vec::new(), false, false);
    let graph = compile(&builder);
    let n = graph.node_count();
    for u in 0..n {
        assert_eq!(graph.edge_weight_of(u, u), 0);
        for v in 0..n {
            assert_eq!(graph.edge_weight_of(u, v), graph.edge_weight_of(v, u));
        }
    }
}

#[test]
fn test_weighted_cooccurrence_accumulates() {
    // "a b a b": pair {a, b} co-occurs 3 times within window 2.
    let tokens = vec![
        make_token("a", "a", PosTag::Noun, 0, 0),
        make_token("b", "b", PosTag::Noun, 0, 1),
        make_token("a", "a", PosTag::Noun, 0, 2),
        make_token("b", "b", PosTag::Noun, 0, 3),
    ];
    let weighted = GraphBuilder::from_tokens(&tokens, 2, true, &Vec::new(), false, false);
    let gw = compile(&weighted);
    assert_eq!(gw.node_count(), 2);
    // pairs: (0,1), (1,2), (2,3) at distance 1; (0,2) and (1,3) are
    // self-pairs of one key and never count.
    assert_eq!(gw.edge_weight_of(0, 1), 3);

    let unweighted = GraphBuilder::from_tokens(&tokens, 2, false, &Vec::new(), false, false);
    let gu = compile(&unweighted);
    assert_eq!(gu.edge_weight_of(0, 1), 1);
}

#[test]
fn test_totals_equal_neighbor_weight_sums() {
    let tokens = sample_tokens();
    let builder = GraphBuilder::from_tokens(&tokens, 3, true, &Vec::new(), false, false);
    let graph = compile(&builder);
    for u in 0..graph.node_count() {
        let mut total: u64 = 0;
        for k in 0..graph.row_len(u) {
            total += graph.row_entry(u, k).weight;
        }
        assert_eq!(total, graph.total_weight(u));
    }
}

#[test]
fn test_sentence_boundaries_respected() {
    // Two sentences; window 3 would span them, but windows reset at the
    // boundary unless told to ignore it.
    let tokens = vec![
        make_token("alpha", "alpha", PosTag::Noun, 0, 0),
        make_token("beta", "beta", PosTag::Noun, 0, 1),
        make_token("gamma", "gamma", PosTag::Noun, 1, 2),
        make_token("delta", "delta", PosTag::Noun, 1, 3),
    ];
    let respect = GraphBuilder::from_tokens(&tokens, 3, true, &Vec::new(), false, false);
    let gr = compile(&respect);
    assert_eq!(gr.edge_weight_of(0, 1), 1);
    assert_eq!(gr.edge_weight_of(2, 3), 1);
    assert_eq!(gr.edge_weight_of(1, 2), 0);
    assert_eq!(gr.edge_weight_of(0, 2), 0);

    let cross = GraphBuilder::from_tokens(&tokens, 3, true, &Vec::new(), false, true);
    let gc = compile(&cross);
    assert_eq!(gc.edge_weight_of(1, 2), 1);
    assert_eq!(gc.edge_weight_of(0, 2), 1);
    assert_eq!(gc.edge_weight_of(0, 3), 1);
}

#[test]
fn test_pos_filter_and_stopwords_excluded() {
    let mut tokens = sample_tokens();
    tokens[0].is_stopword = true; // "machine" is now a stopword
    let filter = vec![PosTag::Noun, PosTag::Adjective];
    let builder = GraphBuilder::from_tokens(&tokens, 2, true, &filter, false, false);
    // surviving keys: learning, artificial, intelligence, deep, neural,
    // network ("machine" is a stopword, verbs are filtered)
    assert_eq!(builder.node_count(), 6);
}

#[test]
fn test_pos_sensitive_node_identity() {
    // Same lemma under two POS tags: one node when identity is the lemma
    // alone, two when it is (lemma, POS).
    let tokens = vec![
        make_token("run", "run", PosTag::Verb, 0, 0),
        make_token("run", "run", PosTag::Noun, 0, 1),
    ];
    let merged = GraphBuilder::from_tokens(&tokens, 2, true, &Vec::new(), false, false);
    assert_eq!(merged.node_count(), 1);
    let split = GraphBuilder::from_tokens(&tokens, 2, true, &Vec::new(), true, false);
    assert_eq!(split.node_count(), 2);
}

#[test]
fn test_prune_edges_drops_light_edges_only() {
    // "a b a b c": {a,b} accumulates weight 3; {b,c} and {a,c} weight 1.
    let tokens = vec![
        make_token("a", "a", PosTag::Noun, 0, 0),
        make_token("b", "b", PosTag::Noun, 0, 1),
        make_token("a", "a", PosTag::Noun, 0, 2),
        make_token("b", "b", PosTag::Noun, 0, 3),
        make_token("c", "c", PosTag::Noun, 0, 4),
    ];
    let builder = GraphBuilder::from_tokens(&tokens, 2, true, &Vec::new(), false, false);
    let graph = compile(&builder);
    assert_eq!(graph.edge_weight_of(0, 1), 3);
    assert_eq!(graph.edge_weight_of(1, 2), 1);
    assert_eq!(graph.edge_weight_of(0, 2), 1);

    let pruned = rapid_textrank::csr::prune_edges(&graph, 2);
    // node indices and keys unchanged
    assert_eq!(pruned.node_count(), graph.node_count());
    for u in 0..graph.node_count() {
        assert_eq!(pruned.key_at(u).lemma, graph.key_at(u).lemma);
    }
    // only the heavy edge survives, symmetrically
    assert_eq!(pruned.edge_weight_of(0, 1), 3);
    assert_eq!(pruned.edge_weight_of(1, 0), 3);
    assert_eq!(pruned.edge_weight_of(1, 2), 0);
    assert_eq!(pruned.edge_weight_of(0, 2), 0);
    // totals track the surviving neighbor weights
    assert_eq!(pruned.total_weight(0), 3);
    assert_eq!(pruned.total_weight(1), 3);
    assert_eq!(pruned.total_weight(2), 0);
}

// ---------------------------------------------------------------- engine

#[test]
fn test_empty_graph_rank_short_circuits() {
    let tokens: Vec<Token> = Vec::new();
    let builder = GraphBuilder::from_tokens(&tokens, 2, true, &Vec::new(), false, false);
    let graph = compile(&builder);
    let out = rank(&graph, 850_000_000_000, 100, 1_000_000, None);
    assert!(out.scores.is_empty());
    assert!(out.converged);
    assert_eq!(out.iterations, 0);
    assert_eq!(out.residual, 0);
}

#[test]
fn test_scores_form_distribution() {
    // Plain ranking on the 5-node graph converges in a positive number of
    // iterations with a valid probability-distribution score vector.
    let tokens = ml_tokens();
    let builder = GraphBuilder::from_tokens(&tokens, 2, false, &Vec::new(), false, false);
    let graph = compile(&builder);
    let out = rank(&graph, 850_000_000_000, 100, 1_000_000, None);
    assert!(out.converged);
    assert!(out.iterations > 0);
    assert_eq!(out.scores.len(), 5);
    let sum: u64 = out.scores.iter().sum();
    // total mass is exactly 1.0: the normalization hands the rounding
    // remainder back
    assert_eq!(sum, SCALE);
}

#[test]
fn test_iteration_cap_and_convergence_flag() {
    let tokens = ml_tokens();
    let builder = GraphBuilder::from_tokens(&tokens, 2, false, &Vec::new(), false, false);
    let graph = compile(&builder);
    // threshold of one fixed-point unit (1e-12) cannot be reached in two
    // steps
    let out = rank(&graph, 850_000_000_000, 2, 1, None);
    assert_eq!(out.iterations, 2);
    assert!(!out.converged);
    // converged run certifies its residual
    let out2 = rank(&graph, 850_000_000_000, 100, 1_000_000, None);
    assert!(out2.converged);
    assert!(out2.residual <= 1_000_000);
}

#[test]
fn test_rerun_is_bit_identical() {
    let tokens = sample_tokens();
    let builder = GraphBuilder::from_tokens(&tokens, 3, true, &Vec::new(), false, false);
    let graph = compile(&builder);
    let a = rank(&graph, 850_000_000_000, 100, 1_000_000, None);
    let b = rank(&graph, 850_000_000_000, 100, 1_000_000, None);
    assert_eq!(a.scores, b.scores);
    assert_eq!(a.iterations, b.iterations);
    assert_eq!(a.converged, b.converged);
    assert_eq!(a.residual, b.residual);
}

#[test]
fn test_uniform_remainder_distributed() {
    // Three nodes: 1.0 does not divide evenly, so the first entry gets
    // the one leftover unit and the total is exactly 1.0.
    let tokens = vec![
        make_token("alpha", "alpha", PosTag::Noun, 0, 0),
        make_token("beta", "beta", PosTag::Noun, 0, 1),
        make_token("gamma", "gamma", PosTag::Noun, 0, 2),
    ];
    let builder = GraphBuilder::from_tokens(&tokens, 2, true, &Vec::new(), false, false);
    let graph = compile(&builder);
    let out = rank(&graph, 850_000_000_000, 0, 1_000_000, None);
    let q = SCALE / 3;
    assert_eq!(out.scores, vec![q + 1, q, q]);
    let sum: u64 = out.scores.iter().sum();
    assert_eq!(sum, SCALE);
}

#[test]
fn test_zero_iterations_return_initial_distribution() {
    // max_iterations = 0: no update steps; the initial (uniform)
    // distribution comes back unchanged and the run does not converge.
    let tokens = ml_tokens();
    let builder = GraphBuilder::from_tokens(&tokens, 2, false, &Vec::new(), false, false);
    let graph = compile(&builder);
    let out = rank(&graph, 850_000_000_000, 0, 1_000_000, None);
    assert_eq!(out.iterations, 0);
    assert!(!out.converged);
    assert_eq!(out.scores, vec![SCALE / 5; 5]);
    assert_eq!(out.residual, RESIDUAL_NONE);
}

// ------------------------------------------------------------- teleport

#[test]
fn test_empty_topic_weights_give_uniform_teleport() {
    // Empty mapping, min_weight 1.0: every node falls back to the same
    // out-of-vocabulary weight, so the teleport vector is uniform.
    let tokens = ml_tokens();
    let builder = GraphBuilder::from_tokens(&tokens, 2, false, &Vec::new(), false, false);
    let graph = compile(&builder);
    let tw = TopicWeights::new();
    let t = build_teleport(&tw, &graph, SCALE);
    assert_eq!(t, vec![SCALE / 5; 5]);
}

#[test]
fn test_zero_weights_fall_back_to_uniform() {
    let tokens = ml_tokens();
    let builder = GraphBuilder::from_tokens(&tokens, 2, false, &Vec::new(), false, false);
    let graph = compile(&builder);
    let tw = TopicWeights::new();
    let t = build_teleport(&tw, &graph, 0);
    assert_eq!(t, vec![SCALE / 5; 5]);
}

#[test]
fn test_teleport_proportional_to_weights() {
    let tokens = ml_tokens();
    let builder = GraphBuilder::from_tokens(&tokens, 2, false, &Vec::new(), false, false);
    let graph = compile(&builder);
    let mut tw = TopicWeights::new();
    // 3:1 split between "machine" (node 0) and "learning" (node 1)
    tw.insert("machine".to_string(), 3 * SCALE);
    tw.insert("learning".to_string(), SCALE);
    let t = build_teleport(&tw, &graph, 0);
    assert_eq!(t[0], 3 * (SCALE / 4));
    assert_eq!(t[1], SCALE / 4);
    assert_eq!(t[2], 0);
    assert_eq!(t[3], 0);
    assert_eq!(t[4], 0);
}

#[test]
fn test_uniform_personalized_run_equals_plain_run() {
    // The uniform-fallback personalized run is step-for-step the plain run.
    let tokens = sample_tokens();
    let config = TextRankConfig::default();
    let result = TopicalPageRank::with_config(config.clone())
        .with_min_weight(SCALE)
        .extract_with_info(&tokens);

    let builder = GraphBuilder::from_tokens(
        &tokens,
        config.window_size,
        true,
        &config.include_pos,
        false,
        false,
    );
    let graph = compile(&builder);
    let plain = rank(
        &graph,
        config.damping,
        config.max_iterations,
        config.convergence_threshold,
        None,
    );
    assert_eq!(result.output.scores, plain.scores);
    assert_eq!(result.iterations, plain.iterations);
    assert_eq!(result.converged, plain.converged);
}

#[test]
fn test_equal_topic_weights_equal_uniform_run() {
    // All node lemmas mapped to one equal weight: same ranking as uniform.
    let tokens = ml_tokens();
    let mut tw = TopicWeights::new();
    for lemma in ["machine", "learning", "be", "artificial", "intelligence"] {
        tw.insert(lemma.to_string(), SCALE / 2);
    }
    let config = TextRankConfig::default().with_window_size(2).with_include_pos(Vec::new());
    let personalized = TopicalPageRank::with_config(config.clone())
        .with_topic_weights(tw)
        .extract_with_info(&tokens);
    let uniform = TopicalPageRank::with_config(config)
        .with_min_weight(SCALE)
        .extract_with_info(&tokens);
    assert_eq!(personalized.output.scores, uniform.output.scores);
}

// -------------------------------------------------------------- topical

#[test]
fn test_basic_extraction() {
    let tokens = sample_tokens();
    let mut weights = TopicWeights::new();
    weights.insert("machine".to_string(), 800_000_000_000);
    weights.insert("learning".to_string(), 600_000_000_000);

    let config = TextRankConfig::default();
    let result = TopicalPageRank::with_config(config)
        .with_topic_weights(weights)
        .extract_with_info(&tokens);

    assert!(result.graph.node_count() > 0);
    assert!(!result.output.scores.is_empty());
    assert!(result.converged);
}

#[test]
fn test_empty_input() {
    let tokens: Vec<Token> = Vec::new();
    let config = TextRankConfig::default();
    let result = TopicalPageRank::with_config(config).extract_with_info(&tokens);

    assert!(result.output.scores.is_empty());
    assert!(result.converged);
    assert_eq!(result.iterations, 0);
}

#[test]
fn test_empty_weights() {
    let tokens = sample_tokens();
    let config = TextRankConfig::default();

    // Empty topic weights + uniform fallback weight: still a full run.
    let result = TopicalPageRank::with_config(config)
        .with_min_weight(SCALE)
        .extract_with_info(&tokens);

    assert!(!result.output.scores.is_empty());
}

#[test]
fn test_personalization_biases_target_word() {
    // Weight 10.0 on "machine", 0 elsewhere: machine's final score is
    // strictly greater than in the uniform run on the same graph.
    let tokens = ml_tokens();
    let config = TextRankConfig::default().with_window_size(2).with_include_pos(Vec::new());

    let mut weights = TopicWeights::new();
    weights.insert("machine".to_string(), 10 * SCALE);
    let biased = TopicalPageRank::with_config(config.clone())
        .with_topic_weights(weights)
        .with_min_weight(0)
        .extract_with_info(&tokens);

    let uniform = TopicalPageRank::with_config(config)
        .with_min_weight(SCALE)
        .extract_with_info(&tokens);

    // "machine" is node 0 (first-seen order)
    assert!(
        biased.output.scores[0] > uniform.output.scores[0],
        "machine should score higher with bias ({} vs {})",
        biased.output.scores[0],
        uniform.output.scores[0]
    );
}

#[test]
fn test_topic_weights_bias_ranking() {
    let tokens = sample_tokens();
    let config = TextRankConfig::default();

    // Strong bias towards "neural" and "network".
    let mut neural_weights = TopicWeights::new();
    neural_weights.insert("neural".to_string(), 10 * SCALE);
    neural_weights.insert("network".to_string(), 10 * SCALE);
    let neural_result = TopicalPageRank::with_config(config.clone())
        .with_topic_weights(neural_weights)
        .extract_with_info(&tokens);

    // Strong bias towards "machine".
    let mut machine_weights = TopicWeights::new();
    machine_weights.insert("machine".to_string(), 10 * SCALE);
    let machine_result = TopicalPageRank::with_config(config)
        .with_topic_weights(machine_weights)
        .extract_with_info(&tokens);

    // find the node index of "neural" (identical graphs, same order)
    let n = neural_result.graph.node_count();
    let mut neural_idx = None;
    for u in 0..n {
        if neural_result.graph.key_at(u).lemma == "neural" {
            neural_idx = Some(u);
        }
    }
    let u = neural_idx.expect("neural should be a node");
    assert!(
        neural_result.output.scores[u] > machine_result.output.scores[u],
        "neural should score higher with neural bias ({} vs {})",
        neural_result.output.scores[u],
        machine_result.output.scores[u]
    );
}

#[test]
fn test_min_weight_affects_oov() {
    let tokens = sample_tokens();
    let config = TextRankConfig::default();

    let mut weights = TopicWeights::new();
    weights.insert("machine".to_string(), 10 * SCALE);

    let result_zero_min = TopicalPageRank::with_config(config.clone())
        .with_topic_weights(weights.clone())
        .with_min_weight(0)
        .extract_with_info(&tokens);

    let result_high_min = TopicalPageRank::with_config(config)
        .with_topic_weights(weights)
        .with_min_weight(SCALE)
        .extract_with_info(&tokens);

    // With min_weight 0, "machine" (node 0) should dominate at least as much.
    assert!(
        result_zero_min.output.scores[0] >= result_high_min.output.scores[0],
        "machine should score at least as high with zero OOV weight ({} vs {})",
        result_zero_min.output.scores[0],
        result_high_min.output.scores[0]
    );
}

#[test]
fn test_builder_accessors() {
    let mut weights = TopicWeights::new();
    weights.insert("machine".to_string(), 42);
    let tpr = TopicalPageRank::new()
        .with_topic_weights(weights)
        .with_min_weight(7);
    assert_eq!(tpr.min_weight(), 7);
    assert_eq!(tpr.topic_weights().len(), 1);
    assert_eq!(
        tpr.topic_weights().weight_for(&"machine".to_string(), 0),
        42
    );
    assert_eq!(
        tpr.topic_weights().weight_for(&"absent".to_string(), 13),
        13
    );
}

#[test]
fn test_personalized_pagerank_builder() {
    let ppr = PersonalizedPageRank::new()
        .with_damping(900_000_000_000)
        .with_max_iterations(50)
        .with_threshold(2_000_000);
    assert_eq!(ppr.damping, 900_000_000_000);
    assert_eq!(ppr.max_iterations, 50);
    assert_eq!(ppr.threshold, 2_000_000);
    assert!(ppr.personalization.is_none());
}

// ---------------------------------------------------------------- config

#[test]
fn test_config_validation_errors() {
    let base = TextRankConfig::default();
    assert!(base.validate().is_ok());

    let zero_window = base.clone().with_window_size(0);
    assert_eq!(zero_window.validate(), Err(ErrorCode::InvalidValue));

    let huge_window = base.clone().with_window_size(1_000_001);
    assert_eq!(huge_window.validate(), Err(ErrorCode::LimitExceeded));

    let zero_damping = base.clone().with_damping(0);
    assert_eq!(zero_damping.validate(), Err(ErrorCode::InvalidValue));

    let full_damping = base.clone().with_damping(SCALE);
    assert_eq!(full_damping.validate(), Err(ErrorCode::InvalidValue));

    let zero_threshold = base.clone().with_threshold(0);
    assert_eq!(zero_threshold.validate(), Err(ErrorCode::InvalidValue));

    let huge_iterations = base.clone().with_max_iterations(1_000_001);
    assert_eq!(huge_iterations.validate(), Err(ErrorCode::LimitExceeded));
}

// ---------------------------------------------------------------- runner

#[test]
fn test_pipeline_rejects_invalid_config() {
    let tokens = ml_tokens();
    let config = TextRankConfig::default().with_window_size(0);
    let mut obs = NoopObserver;
    let r = run_pipeline(&tokens, &config, None, 0, &mut obs);
    assert_eq!(r.err(), Some(ErrorCode::InvalidValue));
}

#[test]
fn test_pipeline_runs_and_notifies_stages() {
    let tokens = sample_tokens();
    let config = TextRankConfig::default();
    let tw = {
        let mut tw = TopicWeights::new();
        tw.insert("machine".to_string(), SCALE);
        tw
    };
    let mut obs = StageTimingObserver::new();
    let result = run_pipeline(&tokens, &config, Some(&tw), 0, &mut obs).expect("pipeline runs");
    assert!(result.converged);
    assert_eq!(result.output.scores.len(), result.graph.node_count());

    let stages: Vec<&str> = obs.reports().iter().map(|r| r.stage.as_str()).collect();
    assert_eq!(stages, vec![STAGE_GRAPH, STAGE_TELEPORT, STAGE_RANK]);
    assert_eq!(
        obs.reports()[0].report.nodes(),
        Some(result.graph.node_count())
    );
    assert_eq!(
        obs.reports()[2].report.iterations(),
        Some(result.iterations)
    );
    assert_eq!(obs.reports()[2].report.converged(), Some(true));
}

#[test]
fn test_pipeline_skips_teleport_stage_without_topics() {
    let tokens = ml_tokens();
    let config = TextRankConfig::default().with_include_pos(Vec::new());
    let mut obs = StageTimingObserver::new();
    let result = run_pipeline(&tokens, &config, None, 0, &mut obs).expect("pipeline runs");
    assert!(result.converged);
    let stages: Vec<&str> = obs.reports().iter().map(|r| r.stage.as_str()).collect();
    assert_eq!(stages, vec![STAGE_GRAPH, STAGE_RANK]);
}
