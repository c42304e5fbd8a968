//! Mirroring of the Permanent file tree into the Supplemental tree: which
//! files are eligible, and when a copy must happen.

use vstd::prelude::*;
use crate::text::{is_prefix, is_suffix, starts_with_str, ends_with_str};

verus! {

/// The file's base name begins with one of the accepted airport prefixes.
pub open spec fn spec_icao_prefixed(s: Seq<char>) -> bool {
    ||| is_prefix("VQPR"@, s)
    ||| is_prefix("ZB"@, s)
    ||| is_prefix("ZG"@, s)
    ||| is_prefix("ZH"@, s)
    ||| is_prefix("ZJ"@, s)
    ||| is_prefix("ZL"@, s)
    ||| is_prefix("ZP"@, s)
    ||| is_prefix("ZS"@, s)
    ||| is_prefix("ZU"@, s)
    ||| is_prefix("ZW"@, s)
    ||| is_prefix("ZY"@, s)
}

/// The file name ends with one of the procedure-file extensions the mirror
/// carries over.
pub open spec fn spec_mirror_extension(s: Seq<char>) -> bool {
    ||| is_suffix(".sid"@, s)
    ||| is_suffix(".sidtrs"@, s)
    ||| is_suffix(".app"@, s)
    ||| is_suffix(".apptrs"@, s)
    ||| is_suffix(".star"@, s)
    ||| is_suffix(".startrs"@, s)
}

/// A Permanent file is mirrored when its name carries an accepted airport
/// prefix and a procedure-file extension.
pub open spec fn spec_mirror_eligible(s: Seq<char>) -> bool {
    spec_icao_prefixed(s) && spec_mirror_extension(s)
}

/// The mirror copies a file exactly when it is eligible and the destination
/// does not exist yet.
pub open spec fn spec_should_copy(s: Seq<char>, dest_exists: bool) -> bool {
    spec_mirror_eligible(s) && !dest_exists
}

pub fn icao_prefixed(name: &str) -> (r: bool)
    ensures
        r == spec_icao_prefixed(name@),
{
    starts_with_str(name, "VQPR") || starts_with_str(name, "ZB") || starts_with_str(name, "ZG")
        || starts_with_str(name, "ZH") || starts_with_str(name, "ZJ") || starts_with_str(
        name,
        "ZL",
    ) || starts_with_str(name, "ZP") || starts_with_str(name, "ZS") || starts_with_str(name, "ZU")
        || starts_with_str(name, "ZW") || starts_with_str(name, "ZY")
}

pub fn mirror_eligible(name: &str) -> (r: bool)
    ensures
        r == spec_mirror_eligible(name@),
{
    icao_prefixed(name) && (ends_with_str(name, ".sid") || ends_with_str(name, ".sidtrs")
        || ends_with_str(name, ".app") || ends_with_str(name, ".apptrs") || ends_with_str(
        name,
        ".star",
    ) || ends_with_str(name, ".startrs"))
}

/// Whether a file must be copied from the Permanent tree to the Supplemental
/// tree, given whether the destination already exists.
pub fn should_copy(name: &str, dest_exists: bool) -> (r: bool)
    ensures
        r == spec_should_copy(name@, dest_exists),
{
    !dest_exists && mirror_eligible(name)
}

/// Mirroring is idempotent: once a destination file exists it is never
/// copied again, so a second run of the mirror leaves every file of the
/// Supplemental tree unchanged.
pub proof fn lemma_mirror_idempotent()
    ensures
        forall|name: Seq<char>| !spec_should_copy(name, true),
{
}

} // verus!
