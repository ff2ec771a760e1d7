use vstd::prelude::*;

verus! {

/// Key under which a query hit carries the record's identifier.
pub const F_ID: &'static str = "__id__";

/// Key under which a query hit carries its similarity score.
pub const F_METRICS: &'static str = "__metrics__";

} // verus!
