use vstd::prelude::*;

verus! {

/// The error kinds of the refiner. `Query` and `Write` are produced by the
/// store-facing glue around the library; the engine itself produces `Parse`
/// (malformed series data), `Lookup` (a requested hour is absent, or a
/// ranking window is empty) and `Normalization` (exact arithmetic cannot
/// proceed: a zero daily average, or calendar arithmetic past its range).
#[derive(Clone, Copy, Debug, PartialEq, Eq, Structural)]
pub enum RefineError {
    Query,
    Parse,
    Lookup,
    Normalization,
    Write,
}

} // verus!
