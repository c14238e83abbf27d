//! Bilinear pairings over elliptic curves from first principles: prime and
//! extension fields, polynomials over them, the curve group law, and the Tate
//! pairing by Miller's loop and a final exponentiation.

pub mod associativity;
pub mod bignum;
pub mod curves;
pub mod division;
pub mod elliptic_curve;
pub mod extension;
pub mod field_element;
pub mod fields;
pub mod finite_field;
pub mod pairing;
pub mod polynomial;
