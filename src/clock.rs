use vstd::prelude::*;

verus! {

/// Relies on chrono's `Local::now` and its `format`: the local wall-clock
/// time now, written `YYYY-MM-DD HH:MM:SS`. Nothing is promised of its value.
#[verifier::external_body]
pub(crate) fn local_timestamp() -> (r: String) {
    chrono::Local::now().format("%Y-%m-%d %H:%M:%S").to_string()
}

} // verus!
