//! A toy arithmetic calculator driven by the `rustc_lexer` tokenizer, with
//! its evaluation rules stated and proved, plus the small instrumented
//! call chain used to demonstrate span logging.

pub mod number;
pub mod precedence;
pub mod reading;
pub mod token;
pub mod toy_calculator;
pub mod tracing_instrument;
pub mod whitespace;
