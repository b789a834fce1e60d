use crypto::digest::Digest;
use crypto::md5::Md5;
use vstd::prelude::*;

verus! {

/// The MD5 digest of the UTF-8 encoding of `text`, as 32 lower-case
/// hexadecimal digits.
pub uninterp spec fn md5_hex(text: Seq<char>) -> Seq<char>;

/// Feeds the bytes of `text` to a fresh `crypto::md5::Md5` through
/// `Digest::input` and reads the digest with `Digest::result_str`. The
/// digest depends on the text alone; MD5 itself is not restated.
#[verifier::external_body]
pub(crate) fn md5_digest(text: &str) -> (digest: String)
    ensures
        digest@ == md5_hex(text@),
{
    let mut hasher = Md5::new();
    hasher.input(text.as_bytes());
    hasher.result_str()
}

} // verus!
