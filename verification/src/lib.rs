use vstd::prelude::*;

pub mod heap;
pub mod serial;
pub mod monitor;
pub mod trap;
pub mod ramfb;

verus! {
}
