//! Validation, parsing, formatting and random generation of Brazil's two
//! taxpayer identification numbers: the 11-digit CPF (individuals) and the
//! 14-digit CNPJ (entities).
//!
//! Both numbers are fixed-length decimal digit sequences whose last two
//! digits are check digits computed by a weighted modulo-11 procedure.
//! Every value is produced by a parser, a digit-slice constructor that
//! completes the missing check digits, or the random generator.

pub mod cnpj;
pub mod cpf;
pub mod digits;
mod rng;

pub use cnpj::{Cnpj, ParseCnpjError};
pub use cpf::{Cpf, ParseCpfError};
