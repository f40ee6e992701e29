use vstd::prelude::*;

verus! {

/// Relies on `chrono::Local::now` and its `format("%Y-%m-%d")`: today's date in
/// the machine's time zone. It depends on the clock, so nothing is promised of
/// the text.
#[verifier::external_body]
pub(crate) fn local_today() -> (r: String) {
    chrono::Local::now().format("%Y-%m-%d").to_string()
}

} // verus!
