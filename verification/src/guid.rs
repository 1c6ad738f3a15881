//! The identifier alphabet: 32-character lowercase-hexadecimal tokens.

use vstd::prelude::*;

verus! {

/// Length, in bytes, of every identifier.
pub const GUID_LEN: usize = 32;

/// A byte that may appear in an identifier: `0`-`9` or `a`-`f`.
pub open spec fn is_hex_byte(b: u8) -> bool {
    (48 <= b && b <= 57) || (97 <= b && b <= 102)
}

/// A well-formed identifier: exactly 32 lowercase-hex bytes.
pub open spec fn is_guid(s: Seq<u8>) -> bool {
    s.len() == GUID_LEN && forall|i: int| 0 <= i < s.len() ==> is_hex_byte(s[i])
}

/// Runtime check for a single identifier byte.
pub fn hex_byte(b: u8) -> (r: bool)
    ensures
        r == is_hex_byte(b),
{
    (48 <= b && b <= 57) || (97 <= b && b <= 102)
}

/// Runtime check that `s` is a well-formed identifier.
pub fn check_guid(s: &Vec<u8>) -> (r: bool)
    ensures
        r == is_guid(s@),
{
    if s.len() != GUID_LEN {
        return false;
    }
    let mut i: usize = 0;
    while i < s.len()
        invariant
            0 <= i <= s.len(),
            forall|k: int| 0 <= k < i ==> is_hex_byte(s@[k]),
        decreases s.len() - i,
    {
        if !hex_byte(s[i]) {
            return false;
        }
        i = i + 1;
    }
    true
}

} // verus!
