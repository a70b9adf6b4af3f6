//! Additively homomorphic encryption over class groups of imaginary quadratic
//! orders, with the arbitrary-precision arithmetic and the arithmetic of
//! binary quadratic forms that it rests on.
//!
//! Every function carries a machine-checked contract over a mathematical
//! model of its arguments: integers for `BigInt`, coefficient triples for
//! group elements, a key and a counter for the randomness source.
//!
//! - `natural`: natural numbers as vectors of limbs
//! - `bigint`: signed integers of arbitrary size
//! - `rng`: the randomness source and the sampling of integers below a bound
//! - `form`: forms, their reduction and their composition
//! - `united`: united forms, classes and the reduced form of a class
//! - `composite`: composition as a law on classes
//! - `representative`: representatives with a leading coefficient prime to
//!   a given number
//! - `associative`: composition is associative
//! - `group`: the parameters of a group, powers and products of powers
//! - `scheme`: key generation, encryption and decryption
//! - `laws`: what holds across these operations
//! - `error`: the ways in which an operation can fail

pub mod natural;
pub mod bigint;
pub mod error;
pub mod rng;
pub mod form;
pub mod united;
pub mod composite;
pub mod representative;
pub mod associative;
pub mod group;
pub mod scheme;
pub mod laws;
