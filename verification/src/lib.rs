//! Native Word math equations (OMML, `m:oMath`) and run languages (`w:lang`)
//! for `.docx` documents, with their XML serialisation.

pub mod escape;
pub mod lang;
pub mod omath;
pub mod xml;

pub use lang::Lang;
pub use omath::{OMath, OMathElement};
pub mod wellformed;
