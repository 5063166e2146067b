//! Fraud scoring library: request framing, payload extraction, quantized
//! feature vectors, a partitioned KD-tree index and its exact 5-NN search.

pub mod quantize;
pub mod bytes;
pub mod index;
pub mod knn;
pub mod response;
pub mod numbers;
pub mod text;
pub mod perf;
pub mod http;
pub mod json;
pub mod cache;
pub mod fast_path;
pub mod tier;
pub mod features;
pub mod score;
pub mod builder;
pub mod refs;
pub mod linear;
pub mod config;
pub mod balancer;
pub mod tools;
