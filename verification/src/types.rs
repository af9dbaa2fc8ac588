//! Core data model: annotated tokens, node keys, and the ranking
//! configuration.
//!
//! Probability-like quantities (damping factor, convergence threshold,
//! teleport weights, scores) are fixed-point integers in units of 1e-12:
//! the value `SCALE` stands for 1.0.

use vstd::prelude::*;
use crate::error_code::ErrorCode;

verus! {

/// Fixed-point scale: 1.0 is represented by this many units.
pub const SCALE: u64 = 1_000_000_000_000;

/// Largest accepted window size.
pub const MAX_WINDOW_SIZE: usize = 1_000_000;

/// Largest accepted iteration cap.
pub const MAX_ITERATIONS_LIMIT: u32 = 1_000_000;

/// Cap on `tokens.len() * window_size`, so that accumulated co-occurrence
/// counts provably fit in a `u64`.
pub const MAX_COOC_PAIRS: u64 = 0x4000_0000_0000_0000;

/// Part-of-speech tag of an annotated token.
#[derive(Clone, Copy, Debug, PartialEq, Eq, Hash, Structural)]
pub enum PosTag {
    Noun,
    ProperNoun,
    Verb,
    Adjective,
    Adverb,
    Pronoun,
    Determiner,
    Adposition,
    Conjunction,
    Numeral,
    Particle,
    Other,
}

/// One annotated token of the input document, supplied by an external
/// tokenizer/tagger.
#[derive(Clone, Debug)]
pub struct Token {
    /// Surface form as it appears in the text.
    pub text: String,
    /// Lemmatized form; node identity is based on this.
    pub lemma: String,
    /// Part-of-speech tag.
    pub pos: PosTag,
    /// Character offset of the first character.
    pub start: usize,
    /// Character offset one past the last character.
    pub end: usize,
    /// Index of the sentence this token belongs to.
    pub sentence_idx: usize,
    /// Position of the token in the document.
    pub token_idx: usize,
    /// Whether the token is a stopword; stopwords never become nodes.
    pub is_stopword: bool,
}

/// Identity of a graph vertex: a lemma, optionally combined with the
/// part-of-speech tag when node identity is POS-sensitive.
#[derive(Clone, Debug)]
pub struct NodeKey {
    /// Lemma of the node.
    pub lemma: String,
    /// POS tag, present only when node identity is POS-sensitive.
    pub pos: Option<PosTag>,
}

/// Mathematical view of a [`NodeKey`].
pub ghost struct KeyView {
    /// Lemma as a character sequence.
    pub lemma: Seq<char>,
    /// POS tag, present only when node identity is POS-sensitive.
    pub pos: Option<PosTag>,
}

impl View for NodeKey {
    type V = KeyView;

    open spec fn view(&self) -> KeyView {
        KeyView { lemma: self.lemma@, pos: self.pos }
    }
}

/// Configuration of graph construction and ranking.
#[derive(Clone, Debug)]
pub struct TextRankConfig {
    /// Window size W: positions `i` and `j` co-occur when `1 <= j - i <= W`.
    pub window_size: usize,
    /// When true, repeated co-occurrence accumulates weight; when false an
    /// edge weight saturates at 1.
    pub weighted: bool,
    /// Allow-list of parts of speech; empty means no filtering.
    pub include_pos: Vec<PosTag>,
    /// When true a node key is (lemma, POS); when false it is the lemma
    /// alone.
    pub use_pos_in_nodes: bool,
    /// When true the co-occurrence window slides across sentence
    /// boundaries; when false a window never spans two sentences.
    pub ignore_sentence_boundaries: bool,
    /// Damping factor in fixed-point units; must lie strictly between 0
    /// and `SCALE`.
    pub damping: u64,
    /// Upper bound on the number of power-iteration steps.
    pub max_iterations: u32,
    /// Convergence threshold for the L1 residual, in fixed-point units.
    pub convergence_threshold: u64,
}

impl TextRankConfig {
    /// The configuration error reported by [`validate`](Self::validate),
    /// if any: the first offending field in declaration order.
    pub open spec fn spec_validation_error(&self) -> Option<ErrorCode> {
        if self.window_size == 0 {
            Some(ErrorCode::InvalidValue)
        } else if self.window_size > MAX_WINDOW_SIZE {
            Some(ErrorCode::LimitExceeded)
        } else if self.damping == 0 || self.damping >= SCALE {
            Some(ErrorCode::InvalidValue)
        } else if self.convergence_threshold == 0 {
            Some(ErrorCode::InvalidValue)
        } else if self.max_iterations > MAX_ITERATIONS_LIMIT {
            Some(ErrorCode::LimitExceeded)
        } else {
            None
        }
    }

    /// Whether the configuration passes validation.
    pub open spec fn spec_valid(&self) -> bool {
        self.spec_validation_error() is None
    }

    /// Check the numeric configuration fields, reporting the first
    /// offending field. Invalid configuration is rejected before any
    /// pipeline work begins.
    pub fn validate(&self) -> (r: Result<(), ErrorCode>)
        ensures
            r is Ok <==> self.spec_valid(),
            r is Err ==> r->Err_0 == self.spec_validation_error()->0,
    {
        if self.window_size == 0 {
            Err(ErrorCode::InvalidValue)
        } else if self.window_size > MAX_WINDOW_SIZE {
            Err(ErrorCode::LimitExceeded)
        } else if self.damping == 0 || self.damping >= SCALE {
            Err(ErrorCode::InvalidValue)
        } else if self.convergence_threshold == 0 {
            Err(ErrorCode::InvalidValue)
        } else if self.max_iterations > MAX_ITERATIONS_LIMIT {
            Err(ErrorCode::LimitExceeded)
        } else {
            Ok(())
        }
    }

    /// Replace the window size.
    pub fn with_window_size(self, window_size: usize) -> (r: Self)
        ensures
            r == (Self { window_size, ..self }),
    {
        Self { window_size, ..self }
    }

    /// Replace the damping factor (fixed-point units of 1e-12).
    pub fn with_damping(self, damping: u64) -> (r: Self)
        ensures
            r == (Self { damping, ..self }),
    {
        Self { damping, ..self }
    }

    /// Replace the iteration cap.
    pub fn with_max_iterations(self, max_iterations: u32) -> (r: Self)
        ensures
            r == (Self { max_iterations, ..self }),
    {
        Self { max_iterations, ..self }
    }

    /// Replace the convergence threshold (fixed-point units of 1e-12).
    pub fn with_threshold(self, convergence_threshold: u64) -> (r: Self)
        ensures
            r == (Self { convergence_threshold, ..self }),
    {
        Self { convergence_threshold, ..self }
    }

    /// Replace the POS allow-list.
    pub fn with_include_pos(self, include_pos: Vec<PosTag>) -> (r: Self)
        ensures
            r == (Self { include_pos, ..self }),
    {
        Self { include_pos, ..self }
    }
}

impl TextRankConfig {
    /// The documented default configuration: window 3, weighted
    /// co-occurrence, nouns and adjectives, POS-insensitive node identity,
    /// windows respect sentence boundaries, damping 0.85, at most 100
    /// iterations, threshold 1e-6.
    pub open spec fn spec_is_default(&self) -> bool {
        &&& self.window_size == 3
        &&& self.weighted == true
        &&& self.include_pos@ == seq![PosTag::Noun, PosTag::Adjective]
        &&& self.use_pos_in_nodes == false
        &&& self.ignore_sentence_boundaries == false
        &&& self.damping == 850_000_000_000u64
        &&& self.max_iterations == 100u32
        &&& self.convergence_threshold == 1_000_000u64
    }
}

impl Default for TextRankConfig {
    /// Defaults: window 3, weighted co-occurrence, nouns and adjectives,
    /// POS-insensitive node identity, windows respect sentence boundaries,
    /// damping 0.85, at most 100 iterations, threshold 1e-6.
    fn default() -> (r: Self)
        ensures
            r.spec_is_default(),
            r.spec_valid(),
    {
        let mut include_pos: Vec<PosTag> = Vec::new();
        include_pos.push(PosTag::Noun);
        include_pos.push(PosTag::Adjective);
        assert(include_pos@ =~= seq![PosTag::Noun, PosTag::Adjective]);
        TextRankConfig {
            window_size: 3,
            weighted: true,
            include_pos,
            use_pos_in_nodes: false,
            ignore_sentence_boundaries: false,
            damping: 850_000_000_000,
            max_iterations: 100,
            convergence_threshold: 1_000_000,
        }
    }
}

} // verus!
