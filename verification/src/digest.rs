use vstd::prelude::*;

use sha1::Digest;

verus! {

/// The 40-character uppercase hexadecimal rendering of the SHA-1 digest of a
/// string, as a function of its characters alone. The digest itself is left
/// unstated: nothing here recomputes SHA-1, the name only pins that equal
/// inputs give equal output.
pub uninterp spec fn sha1_hex_of(s: Seq<char>) -> Seq<char>;

/// Whether `c` is a character of uppercase hexadecimal text.
pub open spec fn is_upper_hex_char(c: char) -> bool {
    (('0' as u32) <= (c as u32) && (c as u32) <= ('9' as u32)) || (('A' as u32) <= (c as u32)
        && (c as u32) <= ('F' as u32))
}

/// The fingerprint the lookup protocol works on: the empty password maps to
/// the empty string (never a meaningful lookup target), any other password to
/// its 40-character uppercase hexadecimal SHA-1 digest.
pub open spec fn spec_digest(password: Seq<char>) -> Seq<char> {
    if password.len() == 0 {
        Seq::empty()
    } else {
        sha1_hex_of(password)
    }
}

/// Relies on `sha1::Sha1` (through the `digest` traits): hashing the
/// password's bytes and printing the 20-byte digest with `{:X}` gives two
/// uppercase hexadecimal digits per byte, a deterministic function of the
/// input characters.
#[verifier::external_body]
fn sha1_hex(password: &str) -> (r: String)
    ensures
        r@ == sha1_hex_of(password@),
        r@.len() == 40,
        forall|i: int| 0 <= i < r@.len() ==> is_upper_hex_char(#[trigger] r@[i]),
{
    let mut hasher = sha1::Sha1::new();
    hasher.update(password.as_bytes());
    format!("{:X}", hasher.finalize())
}

/// Computes the digest a lookup is keyed by: empty in, empty out; otherwise
/// exactly 40 uppercase hexadecimal characters.
pub fn hash_password(pass: &str) -> (r: String)
    ensures
        r@ == spec_digest(pass@),
        pass@.len() > 0 ==> r@.len() == 40,
        forall|i: int| 0 <= i < r@.len() ==> is_upper_hex_char(#[trigger] r@[i]),
{
    if pass.is_empty() {
        String::new()
    } else {
        sha1_hex(pass)
    }
}

/// The only part of the digest that ever leaves the machine: its first five
/// characters, the key of the remote range query.
pub fn hash_prefix<'a>(hash: &'a str) -> (p: &'a str)
    requires
        hash@.len() >= 5,
    ensures
        p@ == hash@.take(5),
{
    let p = hash.substring_char(0, 5);
    proof {
        assert(p@ =~= hash@.take(5));
    }
    p
}

/// The digest is deterministic: it depends on the password's characters and on
/// nothing else, so equal passwords always carry equal digests.
pub proof fn lemma_digest_deterministic(p1: Seq<char>, p2: Seq<char>)
    requires
        p1 == p2,
    ensures
        spec_digest(p1) == spec_digest(p2),
{
}

} // verus!
