//! The kernels, layouts, forward passes, parsers and scheduling rules of a CPU-only
//! inference engine for mixture-of-experts language models.
pub mod access;
pub mod activation;
pub mod algebra;
pub mod analytic;
pub mod arith;
pub mod attend;
pub mod attention;
pub mod barrier;
pub mod batch;
pub mod batch_pass;
pub mod batch_steps;
pub mod batch_store;
pub mod bits;
pub mod chat;
pub mod config;
pub mod decode;
pub mod dense;
pub mod even;
pub mod exact;
pub mod exact_attend;
pub mod exact_batch;
pub mod exact_gptoss;
pub mod exact_mx;
pub mod exact_qwen;
pub mod exact_rows;
pub mod fields;
pub mod gemm;
pub mod gptoss;
pub mod gptoss_order;
pub mod gptoss_pass;
pub mod half;
pub mod ideal;
pub mod ideal_attend;
pub mod ideal_dense;
pub mod ideal_draw;
pub mod ideal_gptoss;
pub mod ideal_levels;
pub mod ideal_qwen;
pub mod ideal_softmax;
pub mod kmat;
pub mod lanes;
pub mod layout;
pub mod mxfp4;
pub mod norm;
pub mod number;
pub mod order;
pub mod pack;
pub mod partition;
pub mod piece;
pub mod places;
pub mod pool;
pub mod q4;
pub mod q4k;
pub mod q6k;
pub mod q8;
pub mod quantize;
pub mod qwen;
pub mod qwen_order;
pub mod qwen_pass;
pub mod request;
pub mod rng;
pub mod routing;
pub mod sampling;
pub mod scalar;
pub mod schedule;
pub mod select;
pub mod sme;
pub mod softmax;
pub mod tensors;
pub mod text;
pub mod tile;
pub mod tokenizer;
pub mod weighted;
pub mod work;
pub mod yarn;
