//! Configuration of every stage, with its defaults, and the parsers for the
//! values the configuration file holds as strings. Thresholds and weights
//! are fixed-point numbers over `SCORE_SCALE`.
use vstd::prelude::*;
use crate::normalization::slice_chars;
use crate::text::{chars_of, lower_of, string_of, to_lowercase, trim_bounds, trim_spec};

verus! {

#[derive(Clone, Debug)]
pub enum EmbedderKind {
    Tf,
    BagOfWords,
    Custom { name: String, version: Option<String> },
}

#[derive(Clone, Copy, Debug, PartialEq, Eq, Structural)]
pub enum Stage3RerankMode {
    BaseOnly,
    TermOverlap,
    Hybrid,
}

#[derive(Clone, Debug)]
pub enum ConfigError {
    /// An embedder kind that is none of `tf`, `bag-of-words`, `custom:<name>[:<version>]`.
    UnknownEmbedderKind(String),
    /// `custom:` with no model name.
    MissingCustomName,
    /// A rerank mode that is none of `none`, `term-overlap`, `hybrid`.
    UnknownRerankMode(String),
}

#[derive(Clone, Debug)]
pub struct Stage1Ingest {
    pub extensions: Vec<String>,
    pub skip_duplicates: bool,
    pub verbose_documents: bool,
}

#[derive(Clone, Debug)]
pub struct Stage1Chunk {
    pub max_tokens: usize,
    pub overlap: usize,
    pub split_on_double_newline: bool,
    pub dedupe_segments: bool,
    pub chunk_separators: Vec<String>,
}

#[derive(Clone, Debug)]
pub struct Stage1Embedder {
    pub tfidf_min_freq: usize,
    pub normalize_query: bool,
    pub kind: EmbedderKind,
}

#[derive(Clone, Debug)]
pub struct Stage1Search {
    pub top_k: usize,
    /// Fixed-point, over `SCORE_SCALE`.
    pub score_threshold: u64,
    pub rerank_enabled: bool,
}

#[derive(Clone, Debug)]
pub struct Stage1Storage {
    pub state_file: String,
    pub chunks_file: String,
    pub artifact_dir: String,
}

#[derive(Clone, Debug)]
pub struct Stage1Config {
    pub enabled: bool,
    pub ingest: Stage1Ingest,
    pub chunk: Stage1Chunk,
    pub embedder: Stage1Embedder,
    pub search: Stage1Search,
    pub storage: Stage1Storage,
}

#[derive(Clone, Debug)]
pub struct EvaluationQuery {
    pub name: String,
    pub query: String,
    pub expected_terms: Vec<String>,
    pub top_k: Option<usize>,
}

#[derive(Clone, Debug)]
pub struct Stage2Evaluation {
    pub queries: Vec<EvaluationQuery>,
}

#[derive(Clone, Debug)]
pub struct Stage2Config {
    pub enabled: bool,
    pub log_evaluation: bool,
    pub run_baselines: bool,
    pub runs_dir: String,
    pub embedder_kinds: Vec<EmbedderKind>,
    pub evaluation: Stage2Evaluation,
}

#[derive(Clone, Debug)]
pub struct Stage3RerankerStrategyConfig {
    pub name: String,
    pub mode: Stage3RerankMode,
    pub boost_terms: Vec<String>,
    /// Fixed-point, over `SCORE_SCALE`.
    pub boost_factor: u64,
    /// Fixed-point, over `SCORE_SCALE`.
    pub threshold: u64,
    /// Fixed-point, over `SCORE_SCALE`.
    pub hybrid_weight: u64,
}

#[derive(Clone, Debug)]
pub struct Stage3RerankerConfig {
    pub strategies: Vec<Stage3RerankerStrategyConfig>,
}

#[derive(Clone, Debug)]
pub struct Stage3Config {
    pub enabled: bool,
    pub context_budget: usize,
    pub prompt_template: String,
    pub reranker: Stage3RerankerConfig,
}

#[derive(Clone, Debug)]
pub struct Stage4TrainingConfig {
    pub context_budget: usize,
    pub sample_limit: usize,
}

#[derive(Clone, Debug)]
pub struct Stage4Config {
    pub enabled: bool,
    pub models_dir: String,
    pub training: Stage4TrainingConfig,
}

#[derive(Clone, Debug)]
pub struct Config {
    pub stage1: Stage1Config,
    pub stage2: Stage2Config,
    pub stage3: Stage3Config,
    pub stage4: Stage4Config,
}

pub fn default_true() -> (r: bool)
    ensures
        r,
{
    true
}

pub fn default_false() -> (r: bool)
    ensures
        !r,
{
    false
}

pub fn default_extensions() -> (r: Vec<String>)
    ensures
        r@.len() == 2,
        r@[0]@ == "txt"@,
        r@[1]@ == "md"@,
{
    vec![String::from_str("txt"), String::from_str("md")]
}

pub fn default_max_tokens() -> (r: usize)
    ensures
        r == 200,
{
    200
}

pub fn default_overlap() -> (r: usize)
    ensures
        r == 32,
{
    32
}

pub fn default_embedder_kind() -> (r: EmbedderKind)
    ensures
        r is Tf,
{
    EmbedderKind::Tf
}

pub fn default_chunk_separators() -> (r: Vec<String>)
    ensures
        r@.len() == 4,
        r@[0]@ == "\n\n"@,
        r@[1]@ == "\r\n\r\n"@,
        r@[2]@ == "\n-\n"@,
        r@[3]@ == "\n*\n"@,
{
    vec![
        String::from_str("\n\n"),
        String::from_str("\r\n\r\n"),
        String::from_str("\n-\n"),
        String::from_str("\n*\n"),
    ]
}

pub fn default_min_freq() -> (r: usize)
    ensures
        r == 1,
{
    1
}

pub fn default_top_k() -> (r: usize)
    ensures
        r == 5,
{
    5
}

pub fn default_state_file() -> (r: String)
    ensures
        r@ == "data/state.json"@,
{
    String::from_str("data/state.json")
}

pub fn default_chunks_file() -> (r: String)
    ensures
        r@ == "data/chunks.jsonl"@,
{
    String::from_str("data/chunks.jsonl")
}

pub fn default_artifact_dir() -> (r: String)
    ensures
        r@ == "data"@,
{
    String::from_str("data")
}

pub fn default_stage2_runs_dir() -> (r: String)
    ensures
        r@ == "runs"@,
{
    String::from_str("runs")
}

pub fn default_stage2_embedder_kinds() -> (r: Vec<EmbedderKind>)
    ensures
        r@.len() == 2,
        r@[0] is Tf,
        r@[1] is BagOfWords,
{
    vec![EmbedderKind::Tf, EmbedderKind::BagOfWords]
}

pub fn default_stage4_models_dir() -> (r: String)
    ensures
        r@ == "models"@,
{
    String::from_str("models")
}

pub fn default_stage4_context_budget() -> (r: usize)
    ensures
        r == 512,
{
    512
}

pub fn default_stage4_sample_limit() -> (r: usize)
    ensures
        r == 10_000,
{
    10_000
}

pub fn default_stage3_prompt_template() -> (r: String)
    ensures
        r@ == "Question: {query}\nContext:\n{context}\nAnswer:"@,
{
    String::from_str("Question: {query}\nContext:\n{context}\nAnswer:")
}

pub fn default_stage3_rerank_mode() -> (r: Stage3RerankMode)
    ensures
        r == Stage3RerankMode::BaseOnly,
{
    Stage3RerankMode::BaseOnly
}

/// 1.0 in fixed point.
pub fn default_stage3_boost_factor() -> (r: u64)
    ensures
        r == 1_000_000,
{
    1_000_000
}

pub fn default_stage3_threshold() -> (r: u64)
    ensures
        r == 0,
{
    0
}

/// 0.5 in fixed point.
pub fn default_stage3_hybrid_weight() -> (r: u64)
    ensures
        r == 500_000,
{
    500_000
}

pub fn default_context_budget() -> (r: usize)
    ensures
        r == 1024,
{
    1024
}

pub fn default_checkpoint_dir() -> (r: String)
    ensures
        r@ == "models/"@,
{
    String::from_str("models/")
}

pub fn default_stage3_strategies() -> (r: Vec<Stage3RerankerStrategyConfig>)
    ensures
        r@.len() == 1,
        r@[0].name@ == "embedding-only"@,
        r@[0].mode == Stage3RerankMode::BaseOnly,
        r@[0].boost_terms@.len() == 0,
        r@[0].boost_factor == 1_000_000,
        r@[0].threshold == 0,
        r@[0].hybrid_weight == 500_000,
{
    vec![Stage3RerankerStrategyConfig::default()]
}

impl Default for Stage3RerankerStrategyConfig {
    fn default() -> (r: Self)
        ensures
            r.name@ == "embedding-only"@,
            r.mode == Stage3RerankMode::BaseOnly,
            r.boost_terms@.len() == 0,
            r.boost_factor == 1_000_000,
            r.threshold == 0,
            r.hybrid_weight == 500_000,
    {
        Stage3RerankerStrategyConfig {
            name: String::from_str("embedding-only"),
            mode: default_stage3_rerank_mode(),
            boost_terms: Vec::new(),
            boost_factor: default_stage3_boost_factor(),
            threshold: default_stage3_threshold(),
            hybrid_weight: default_stage3_hybrid_weight(),
        }
    }
}

impl Default for Stage1Ingest {
    fn default() -> (r: Self)
        ensures
            r.extensions@.len() == 2,
            r.skip_duplicates,
            r.verbose_documents,
    {
        Stage1Ingest { extensions: default_extensions(), skip_duplicates: true, verbose_documents: true }
    }
}

impl Default for Stage1Chunk {
    fn default() -> (r: Self)
        ensures
            r.max_tokens == 200,
            r.overlap == 32,
            r.split_on_double_newline,
            r.dedupe_segments,
            r.chunk_separators@.len() == 4,
    {
        Stage1Chunk {
            max_tokens: default_max_tokens(),
            overlap: default_overlap(),
            split_on_double_newline: true,
            dedupe_segments: true,
            chunk_separators: default_chunk_separators(),
        }
    }
}

impl Default for Stage1Embedder {
    fn default() -> (r: Self)
        ensures
            r.tfidf_min_freq == 1,
            r.normalize_query,
            r.kind is Tf,
    {
        Stage1Embedder { tfidf_min_freq: default_min_freq(), normalize_query: true, kind: default_embedder_kind() }
    }
}

impl Default for Stage1Search {
    fn default() -> (r: Self)
        ensures
            r.top_k == 5,
            r.score_threshold == 0,
            !r.rerank_enabled,
    {
        Stage1Search { top_k: default_top_k(), score_threshold: 0, rerank_enabled: false }
    }
}

impl Default for Stage1Storage {
    fn default() -> (r: Self)
        ensures
            r.state_file@ == "data/state.json"@,
            r.chunks_file@ == "data/chunks.jsonl"@,
            r.artifact_dir@ == "data"@,
    {
        Stage1Storage {
            state_file: default_state_file(),
            chunks_file: default_chunks_file(),
            artifact_dir: default_artifact_dir(),
        }
    }
}

impl Default for Stage1Config {
    fn default() -> (r: Self)
        ensures
            r.enabled,
            r.ingest.extensions@.len() == 2,
            r.ingest.skip_duplicates,
            r.ingest.verbose_documents,
            r.chunk.max_tokens == 200,
            r.chunk.overlap == 32,
            r.chunk.split_on_double_newline,
            r.chunk.dedupe_segments,
            r.chunk.chunk_separators@.len() == 4,
            r.embedder.tfidf_min_freq == 1,
            r.embedder.normalize_query,
            r.embedder.kind is Tf,
            r.search.top_k == 5,
            r.search.score_threshold == 0,
            !r.search.rerank_enabled,
            r.storage.state_file@ == "data/state.json"@,
            r.storage.chunks_file@ == "data/chunks.jsonl"@,
            r.storage.artifact_dir@ == "data"@,
    {
        Stage1Config {
            enabled: true,
            ingest: Stage1Ingest::default(),
            chunk: Stage1Chunk::default(),
            embedder: Stage1Embedder::default(),
            search: Stage1Search::default(),
            storage: Stage1Storage::default(),
        }
    }
}

impl Default for Stage2Evaluation {
    fn default() -> (r: Self)
        ensures
            r.queries@.len() == 0,
    {
        Stage2Evaluation { queries: Vec::new() }
    }
}

impl Default for Stage2Config {
    fn default() -> (r: Self)
        ensures
            !r.enabled,
            r.log_evaluation,
            r.run_baselines,
            r.runs_dir@ == "runs"@,
            r.embedder_kinds@.len() == 2,
            r.embedder_kinds@[0] is Tf,
            r.embedder_kinds@[1] is BagOfWords,
            r.evaluation.queries@.len() == 0,
    {
        Stage2Config {
            enabled: false,
            log_evaluation: true,
            run_baselines: true,
            runs_dir: default_stage2_runs_dir(),
            embedder_kinds: default_stage2_embedder_kinds(),
            evaluation: Stage2Evaluation::default(),
        }
    }
}

impl Default for Stage3RerankerConfig {
    fn default() -> (r: Self)
        ensures
            r.strategies@.len() == 1,
            r.strategies@[0].name@ == "embedding-only"@,
            r.strategies@[0].mode == Stage3RerankMode::BaseOnly,
            r.strategies@[0].boost_terms@.len() == 0,
            r.strategies@[0].boost_factor == 1_000_000,
            r.strategies@[0].threshold == 0,
            r.strategies@[0].hybrid_weight == 500_000,
    {
        Stage3RerankerConfig { strategies: default_stage3_strategies() }
    }
}

impl Default for Stage3Config {
    fn default() -> (r: Self)
        ensures
            !r.enabled,
            r.context_budget == 1024,
            r.prompt_template@ == "Question: {query}\nContext:\n{context}\nAnswer:"@,
            r.reranker.strategies@.len() == 1,
            r.reranker.strategies@[0].name@ == "embedding-only"@,
            r.reranker.strategies@[0].mode == Stage3RerankMode::BaseOnly,
            r.reranker.strategies@[0].boost_terms@.len() == 0,
            r.reranker.strategies@[0].boost_factor == 1_000_000,
            r.reranker.strategies@[0].threshold == 0,
            r.reranker.strategies@[0].hybrid_weight == 500_000,
    {
        Stage3Config {
            enabled: false,
            context_budget: default_context_budget(),
            prompt_template: default_stage3_prompt_template(),
            reranker: Stage3RerankerConfig::default(),
        }
    }
}

impl Default for Stage4TrainingConfig {
    fn default() -> (r: Self)
        ensures
            r.context_budget == 512,
            r.sample_limit == 10_000,
    {
        Stage4TrainingConfig {
            context_budget: default_stage4_context_budget(),
            sample_limit: default_stage4_sample_limit(),
        }
    }
}

impl Default for Stage4Config {
    fn default() -> (r: Self)
        ensures
            !r.enabled,
            r.models_dir@ == "models"@,
            r.training.context_budget == 512,
            r.training.sample_limit == 10_000,
    {
        Stage4Config {
            enabled: false,
            models_dir: default_stage4_models_dir(),
            training: Stage4TrainingConfig::default(),
        }
    }
}

impl Default for Config {
    fn default() -> (r: Self)
        ensures
            r.stage1.enabled,
            r.stage1.chunk.max_tokens == 200,
            r.stage1.chunk.overlap == 32,
            r.stage1.chunk.split_on_double_newline,
            r.stage1.chunk.dedupe_segments,
            r.stage1.embedder.tfidf_min_freq == 1,
            r.stage1.embedder.normalize_query,
            r.stage1.embedder.kind is Tf,
            r.stage1.search.top_k == 5,
            r.stage1.search.score_threshold == 0,
            r.stage1.ingest.skip_duplicates,
            !r.stage2.enabled,
            r.stage2.embedder_kinds@.len() == 2,
            r.stage2.evaluation.queries@.len() == 0,
            !r.stage3.enabled,
            r.stage3.context_budget == 1024,
            r.stage3.reranker.strategies@.len() == 1,
            !r.stage4.enabled,
            r.stage4.training.sample_limit == 10_000,
    {
        Config {
            stage1: Stage1Config::default(),
            stage2: Stage2Config::default(),
            stage3: Stage3Config::default(),
            stage4: Stage4Config::default(),
        }
    }
}

/// Index of the first ':' of `s`.
pub open spec fn first_colon(s: Seq<char>) -> Option<int>
    decreases s.len(),
{
    if s.len() == 0 {
        None
    } else if s[0] == ':' {
        Some(0)
    } else {
        match first_colon(s.drop_first()) {
            Some(i) => Some(i + 1),
            None => None,
        }
    }
}

/// What `parse_embedder_kind` makes of `n`, the trimmed, lowercased value:
/// the name of a custom model runs to the first ':' after `custom:`, and
/// the version is all that follows it, when not empty.
pub open spec fn kind_of(n: Seq<char>) -> Option<(Seq<char>, Option<Seq<char>>)> {
    let rest = n.skip(7);
    match first_colon(rest) {
        None => Some((rest, None)),
        Some(i) => Some((rest.take(i), if i + 1 < rest.len() { Some(rest.skip(i + 1)) } else { None })),
    }
}

/// Parses an embedder kind: `tf`, `bag-of-words`, or
/// `custom:<name>[:<version>]`, case-insensitively and ignoring surrounding
/// whitespace.
pub fn parse_embedder_kind(value: &str) -> (r: Result<EmbedderKind, ConfigError>)
    ensures
        ({
            let n = lower_of(trim_spec(value@));
            if n == "tf"@ {
                r matches Ok(EmbedderKind::Tf)
            } else if n == "bag-of-words"@ {
                r matches Ok(EmbedderKind::BagOfWords)
            } else if n.len() >= 7 && n.take(7) == "custom:"@ {
                let (name, version) = kind_of(n)->Some_0;
                if name.len() == 0 {
                    r matches Err(ConfigError::MissingCustomName)
                } else {
                    match r {
                        Ok(EmbedderKind::Custom { name: rn, version: rv }) => rn@ == name && match rv {
                            Some(v) => version == Some(v@),
                            None => version is None,
                        },
                        _ => false,
                    }
                }
            } else {
                match r {
                    Err(ConfigError::UnknownEmbedderKind(v)) => v@ == value@,
                    _ => false,
                }
            }
        }),
{
    let cs = chars_of(value);
    let (lo, hi) = trim_bounds(&cs, 0, cs.len());
    proof {
        assert(cs@.subrange(0, cs@.len() as int) =~= cs@);
    }
    let trimmed = string_of(slice_chars(&cs, lo, hi).as_slice());
    let normalized = to_lowercase(trimmed.as_str());
    let ghost n = normalized@;
    if normalized == String::from_str("tf") {
        return Ok(EmbedderKind::Tf);
    }
    if normalized == String::from_str("bag-of-words") {
        return Ok(EmbedderKind::BagOfWords);
    }
    let nc = chars_of(normalized.as_str());
    if nc.len() >= 7 && string_of(slice_chars(&nc, 0, 7).as_slice()) == String::from_str("custom:") {
        proof {
            assert(nc@.subrange(0, 7) =~= n.take(7));
        }
        let ghost rest = n.skip(7);
        let mut i: usize = 7;
        while i < nc.len() && nc[i] != ':'
            invariant
                7 <= i <= nc@.len(),
                nc@ == n,
                rest == n.skip(7),
                first_colon(rest) == match first_colon(n.skip(i as int)) {
                    Some(j) => Some(j + (i - 7)),
                    None => None,
                },
            decreases nc@.len() - i,
        {
            proof {
                assert(n.skip(i as int).drop_first() =~= n.skip(i + 1));
            }
            i = i + 1;
        }
        proof {
            if i < nc@.len() {
                assert(n.skip(i as int)[0] == ':');
            } else {
                assert(n.skip(i as int).len() == 0);
            }
        }
        let name = string_of(slice_chars(&nc, 7, i).as_slice());
        proof {
            assert(name@ =~= kind_of(n)->Some_0.0);
        }
        if i == 7 {
            return Err(ConfigError::MissingCustomName);
        }
        let version = if i < nc.len() && nc.len() - i > 1 {
            let v = string_of(slice_chars(&nc, i + 1, nc.len()).as_slice());
            proof {
                assert(v@ =~= rest.skip(i - 7 + 1));
            }
            Some(v)
        } else {
            None
        };
        return Ok(EmbedderKind::Custom { name, version });
    }
    proof {
        if n.len() >= 7 && n.take(7) == "custom:"@ {
            assert(nc@.subrange(0, 7) =~= n.take(7));
        }
    }
    Err(ConfigError::UnknownEmbedderKind(String::from_str(value)))
}

/// Parses a rerank mode: `none`, `term-overlap` or `hybrid`.
pub fn parse_rerank_mode(value: &str) -> (r: Result<Stage3RerankMode, ConfigError>)
    ensures
        value@ == "none"@ ==> r == Ok::<Stage3RerankMode, ConfigError>(Stage3RerankMode::BaseOnly),
        value@ == "term-overlap"@ ==> r == Ok::<Stage3RerankMode, ConfigError>(Stage3RerankMode::TermOverlap),
        value@ == "hybrid"@ ==> r == Ok::<Stage3RerankMode, ConfigError>(Stage3RerankMode::Hybrid),
        value@ != "none"@ && value@ != "term-overlap"@ && value@ != "hybrid"@ ==> (r matches Err(
            ConfigError::UnknownRerankMode(v),
        ) && v@ == value@),
{
    proof {
        reveal_strlit("none");
        reveal_strlit("term-overlap");
        reveal_strlit("hybrid");
        assert("term-overlap"@.len() != "none"@.len());
        assert("hybrid"@.len() != "none"@.len());
        assert("hybrid"@.len() != "term-overlap"@.len());
    }
    let v = String::from_str(value);
    if v == String::from_str("none") {
        Ok(Stage3RerankMode::BaseOnly)
    } else if v == String::from_str("term-overlap") {
        Ok(Stage3RerankMode::TermOverlap)
    } else if v == String::from_str("hybrid") {
        Ok(Stage3RerankMode::Hybrid)
    } else {
        Err(ConfigError::UnknownRerankMode(v))
    }
}

} // verus!
