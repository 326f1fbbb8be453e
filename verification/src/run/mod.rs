//! How a run goes: what is asked for, what is refused, and how it ends.

use vstd::prelude::*;

pub mod plan;
pub mod select;
pub mod finish;
pub mod monorepo;

verus! {

/// Runs the tests, or watches for changes and runs them again until that ends. The
/// code to exit with comes back.
pub fn run<E, W: FnOnce() -> Result<(), E>, X: FnOnce() -> Result<i32, E>>(
    watch: bool,
    watch_loop: W,
    execute: X,
) -> (res: Result<i32, E>)
    requires
        watch ==> call_requires(watch_loop, ()),
        !watch ==> call_requires(execute, ()),
    ensures
        !watch ==> call_ensures(execute, (), res),
        watch ==> match res {
            Ok(code) => code == 0 && call_ensures(watch_loop, (), Ok(())),
            Err(e) => call_ensures(watch_loop, (), Err(e)),
        },
{
    if watch {
        match watch_loop() {
            Ok(done) => {
                assert(done == ());
                Ok(0)
            },
            Err(e) => Err(e),
        }
    } else {
        execute()
    }
}

} // verus!
