//! Verified core logic of the resyn research-synthesis toolkit.

pub mod text;
pub mod ids;
pub mod words;
pub mod highlight;
pub mod order;
pub mod annotation;
pub mod aggregation;
pub mod strs;
pub mod sections;
pub mod extraction;
pub mod prompt;
pub mod contradiction;
pub mod gap;
pub mod paper;
pub mod arxiv_refs;
pub mod openalex;
pub mod community;
pub mod tfidf;
pub mod error;
pub mod chain;
pub mod provider;
pub mod bridge;
pub mod crawl;
pub mod records;
pub mod inspire;
pub mod pipeline;
pub mod export;
pub mod ingest;
pub mod graph;
pub mod page;
pub mod louvain;
