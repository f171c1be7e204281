//! Einstein-notation analysis, label interning and index-layout kernels for
//! tensor contraction, with their contracts proved by Verus.

pub mod backend;
pub mod block_contract;
pub mod block_copy;
pub mod block_ops;
pub mod contract_spec;
pub mod dense_plan;
pub mod einsum;
pub mod fused_tuples;
pub mod gemm_flags;
pub mod label;
pub mod legs;
pub mod perm;
pub mod seqs;
pub mod square_ops;
pub mod strided;
pub mod tensordot_law;
pub mod text;
pub mod truncation;
