//! Scores: what a floating-point score is to be computed from.
//!
//! A [`ScoreTask`] holds everything that one score depends on, in integers and bit patterns. The
//! caller of the engine passes a function that computes a task: a single, as its bits.
use vstd::prelude::*;

use crate::bm25::Bm25Terms;
#[allow(unused_imports)]
use crate::bm25::TermsV;

verus! {

/// One score to compute.
#[derive(Debug, PartialEq, Eq)]
pub enum ScoreTask {
    /// The cosine similarity of an embedding to a query vector: the dot product over the product of
    /// the norms, over the components that both have, and `0.0` where a norm is zero.
    Similarity { embedding: Vec<u32>, query: Vec<u32> },
    /// The BM25 relevance: the sum over the terms of
    /// `ln(1 + (N - df + 0.5) / (df + 0.5)) * tf * (k1 + 1) / (tf + k1 * (1 - b + b * len / avg))`,
    /// with `k1 = 1.2`, `b = 0.75` and `avg = total / N`.
    Relevance(Bm25Terms),
    /// An integer.
    Count(i128),
    /// The smoothed mean of vote weights: `(sum + 1) / (n + 2)`.
    Mean { weights: Vec<u32> },
    /// The smoothed mean of vote weights, held within `0.0` and `1.0`.
    Normalized { weights: Vec<u32> },
    /// `0.7 * similarity + 0.3 * normalized`, the latter the smoothed mean held within bounds.
    Salience { similarity: u32, weights: Vec<u32> },
    /// The sum over votes of `sign / (1 + age)`.
    Feedback { votes: Vec<(i8, i64)> },
    /// The reciprocal-rank fusion `1 / (60 + lexical) + 1 / (60 + vector)` of two ranks from 1 on.
    Fusion { lexical: u64, vector: u64 },
}

#[verifier::ext_equal]
pub enum TaskV {
    Similarity { embedding: Seq<u32>, query: Seq<u32> },
    Relevance(TermsV),
    Count(int),
    Mean { weights: Seq<u32> },
    Normalized { weights: Seq<u32> },
    Salience { similarity: u32, weights: Seq<u32> },
    Feedback { votes: Seq<(i8, i64)> },
    Fusion { lexical: int, vector: int },
}

impl View for ScoreTask {
    type V = TaskV;

    open spec fn view(&self) -> TaskV {
        match *self {
            ScoreTask::Similarity { embedding, query } => TaskV::Similarity {
                embedding: embedding@,
                query: query@,
            },
            ScoreTask::Relevance(terms) => TaskV::Relevance(terms@),
            ScoreTask::Count(n) => TaskV::Count(n as int),
            ScoreTask::Mean { weights } => TaskV::Mean { weights: weights@ },
            ScoreTask::Normalized { weights } => TaskV::Normalized { weights: weights@ },
            ScoreTask::Salience { similarity, weights } => TaskV::Salience {
                similarity,
                weights: weights@,
            },
            ScoreTask::Feedback { votes } => TaskV::Feedback { votes: votes@ },
            ScoreTask::Fusion { lexical, vector } => TaskV::Fusion {
                lexical: lexical as int,
                vector: vector as int,
            },
        }
    }
}

/// A function that says what each score is.
pub type Scoring = spec_fn(TaskV) -> u32;

/// `f` computes the scores that `g` says.
pub open spec fn scores_by<F: Fn(ScoreTask) -> u32>(f: F, g: Scoring) -> bool {
    forall|t: ScoreTask, s: u32| #[trigger] call_ensures(f, (t,), s) ==> s == g(t@)
}

/// `f` takes any task.
pub open spec fn takes_tasks<F: Fn(ScoreTask) -> u32>(f: F) -> bool {
    forall|t: ScoreTask| call_requires(f, (t,))
}

} // verus!
