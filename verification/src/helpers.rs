//! Small helper functions: human-readable sizes and well-known paths under
//! the data directory.

use crate::text::dec_digits;
use crate::text::u64_to_string;
use vstd::prelude::*;
use vstd::string::StringExecFns;

verus! {

/// The size text for a byte count: bytes below 1 KiB, otherwise KiB or MiB
/// with one decimal place, rounded half-up.
pub open spec fn spec_format_size(b: nat) -> Seq<char> {
    if b < 1024 {
        dec_digits(b) + " B"@
    } else if b < 1024 * 1024 {
        let t = (b * 10 + 512) / 1024;
        dec_digits(t / 10) + "."@ + dec_digits(t % 10) + " KB"@
    } else {
        let t = (b * 10 + 524288) / 1048576;
        dec_digits(t / 10) + "."@ + dec_digits(t % 10) + " MB"@
    }
}

/// Formats a byte count as a short human-readable size.
pub fn format_size(bytes: u64) -> (r: String)
    ensures
        r@ == spec_format_size(bytes as nat),
{
    if bytes < 1024 {
        let mut r = u64_to_string(bytes);
        r.append(" B");
        r
    } else if bytes < 1024 * 1024 {
        let t = (bytes * 10 + 512) / 1024;
        let mut r = u64_to_string(t / 10);
        r.append(".");
        let frac = u64_to_string(t % 10);
        r.append(frac.as_str());
        r.append(" KB");
        r
    } else {
        let wide = ((bytes as u128) * 10 + 524288) / 1048576;
        let t = wide as u64;
        proof {
            assert(wide <= u64::MAX) by {
                assert((bytes as u128) * 10 + 524288 <= (u64::MAX as u128) * 10 + 524288)
                    by (nonlinear_arith);
                assert(((u64::MAX as u128) * 10 + 524288) / 1048576 <= u64::MAX);
            }
            assert(t as nat == ((bytes as nat) * 10 + 524288) / 1048576);
        }
        let mut r = u64_to_string(t / 10);
        r.append(".");
        let frac = u64_to_string(t % 10);
        r.append(frac.as_str());
        r.append(" MB");
        r
    }
}

/// The path of the generated trigger script inside the data directory.
pub fn get_trigger_script_path(data_dir: &str) -> (r: String)
    ensures
        r@ == data_dir@ + "/trigger.sh"@,
{
    let mut r = String::from_str(data_dir);
    r.append("/trigger.sh");
    r
}

} // verus!
