//! Fixed-width big integers: an unsigned and a two's-complement signed family,
//! each a little-endian array of 64-bit digits whose length is a const
//! parameter of the type.
pub mod bint;
pub mod buint;
pub mod digit;
pub mod divisibility;
pub mod errors;
pub mod model;
pub mod natbits;
pub mod types;

pub use bint::BInt;
pub use buint::BUint;
pub use digit::{Digit, ExpType};
pub use errors::{ParseIntError, TryFromIntError};
pub use types::{
    I1024, I128, I2048, I256, I4096, I512, I8192, U1024, U128, U2048, U256, U4096, U512, U8192,
};
