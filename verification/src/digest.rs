use vstd::prelude::*;
use crate::package::PackageFile;

verus! {

/// The lowercase hex rendering of the MD5 digest of `bytes`.
pub uninterp spec fn md5_hex(bytes: Seq<u8>) -> Seq<char>;

/// Relies on md5::compute: the digest is a function of the input bytes alone,
/// and the crate's LowerHex impl prints it as two lowercase hex digits per
/// digest byte, 32 characters in all.
#[verifier::external_body]
pub(crate) fn md5_hex_exec(bytes: &Vec<u8>) -> (r: String)
    ensures
        r@ == md5_hex(bytes@),
        r@.len() == 32,
{
    format!("{:x}", md5::compute(bytes.as_slice()))
}

impl PackageFile {
    /// Whether `hash` is the hex MD5 digest of `bytes`.
    pub fn check_hash(bytes: &Vec<u8>, hash: &String) -> (r: bool)
        ensures
            r == (md5_hex(bytes@) == hash@),
    {
        let digest = md5_hex_exec(bytes);
        digest.eq(hash)
    }
}

} // verus!
