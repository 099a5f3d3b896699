//! The two-level call chain that demonstrates instrumented spans: `f`
//! hands its arguments to `g`, which insists that `b` is 1. The logging,
//! the spans and the worker thread are the application's part.

use vstd::prelude::*;

verus! {

/// The arguments carried down the call chain.
#[derive(Debug)]
pub struct Args {
    pub b: i32,
}

/// The inner call of the chain; it accepts only `b.b == 1`.
pub fn g(b: &Args)
    requires
        b.b == 1,
{
}

/// The outer call of the chain: it passes `b` on to `g`.
pub fn f(_a: &str, b: Args)
    requires
        b.b == 1,
{
    g(&b);
}

} // verus!
