pub mod arena;
pub mod blocks;
pub mod brute;
pub mod desc;
pub mod digits;
pub mod ds;
pub mod fast_in;
pub mod fast_out;
pub mod lanes;
pub mod laws;
pub mod layout_laws;
pub mod plan;
pub mod rng;
pub mod run_laws;
pub mod seqs;
pub mod solve;
pub mod splay;
pub mod sqrt;
pub mod sqrt_bitset;
pub mod sqrt_bitset2;
pub mod superblock;
pub mod swar;
pub mod treap;
pub mod text_laws;
pub mod tree;
pub mod workload;
pub mod wrap;
