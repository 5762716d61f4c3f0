//! Measurements of the verifiers of compressed STARK proofs: what checking a
//! proof of Risc0, SP1 or Stwo costs in operations and bytes, and what those
//! operations cost as Boolean circuits.
//!
//! - Circuits: [`circuit`] records word operations on wires, [`plan`] fixes
//!   inputs and outputs, [`field`], [`qm31`], [`blake2s`] and the Poseidon2
//!   modules build gadgets, [`montgomery`] says what they compute, and
//!   [`gadget`], [`groth16`] and [`report`] keep their gate counts.
//! - Systems: [`count`] and [`risc0`], [`sp1`], and [`stwo`] keep the operation
//!   ledgers, proof sizes and parameters.
//! - Files and text: [`lockfile`], [`manifest`], [`guests`], [`compiled`],
//!   [`felt`], [`size`], [`lines`], [`decimal`], [`text`] and [`bits`].

pub mod bits;
pub mod blake2s;
pub mod circuit;
pub mod compiled;
pub mod count;
pub mod decimal;
pub mod felt;
pub mod field;
pub mod gadget;
pub mod groth16;
pub mod guests;
pub mod lines;
pub mod lockfile;
pub mod manifest;
pub mod montgomery;
pub mod plan;
pub mod poseidon2;
pub mod poseidon2_babybear;
pub mod poseidon2_koalabear;
pub mod qm31;
pub mod report;
pub mod risc0;
pub mod size;
pub mod sp1;
pub mod stwo;
pub mod text;
