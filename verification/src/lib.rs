//! Verified building blocks of a set of Ethereum client tooling: ordered
//! set differences of test names, EIP-2537 BLS12-381 precompile checks,
//! EVM trace comparison and log parsing.

pub mod keys;
pub mod sort;
pub mod set_diff;
pub mod bls_field;
pub mod bls_points;
pub mod eip2537;
pub mod hex_quantity;
pub mod evm_trace;
pub mod state_roots;
pub mod contract_list;
pub mod asm_source;
pub mod contract_scrape;
