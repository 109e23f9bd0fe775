//! Rules of the content-addressed object store: object names are hex SHA-256
//! hashes of their bytes, stored under a two-character fan-out directory.

use vstd::prelude::*;
use vstd::string::*;
use crate::hashing::{sha256_hex, spec_hex_encode, spec_sha256};
use crate::refs::{is_valid_hash, spec_is_valid_hash};
use crate::text::{append_decimal, decimal};
use vstd::utf8::encode_utf8;

verus! {

/// Failures of the object store.
#[derive(Debug)]
pub enum StorageError {
    Io(std::io::Error),
    AlreadyExists(String),
    NotFound(String),
    Corruption(String),
}

/// Why a string is not a valid object name: its length in bytes is not 64,
/// or it is not all hex digits.
pub open spec fn hash_fault_message(hash: Seq<char>) -> Seq<char> {
    if encode_utf8(hash).len() != 64 {
        "Invalid hash length: expected 64, got "@ + decimal(encode_utf8(hash).len())
    } else {
        "Invalid hash format: must be hexadecimal"@
    }
}

/// Checks that an object name is a hex SHA-256 hash, so that it cannot point
/// outside the object directory.
pub fn validate_hash(hash: &str) -> (r: Result<(), StorageError>)
    ensures
        r is Ok <==> spec_is_valid_hash(hash@),
        r matches Err(e) ==> (e matches StorageError::Corruption(m) && m@ == hash_fault_message(hash@)),
{
    let n = hash.as_bytes().len();
    if n != 64 {
        let mut msg = String::from_str("Invalid hash length: expected 64, got ");
        proof {
            reveal_strlit("Invalid hash length: expected 64, got ");
        }
        append_decimal(&mut msg, n as u64);
        return Err(StorageError::Corruption(msg));
    }
    if !is_valid_hash(hash) {
        proof {
            reveal_strlit("Invalid hash format: must be hexadecimal");
        }
        return Err(StorageError::Corruption(String::from_str("Invalid hash format: must be hexadecimal")));
    }
    Ok(())
}

/// Where an object lives below `objects/`: the directory named by the first
/// two characters of its hash, and the file named by the rest.
pub fn object_path_parts(hash: &str) -> (r: Result<(String, String), StorageError>)
    ensures
        r is Ok <==> spec_is_valid_hash(hash@),
        r matches Ok((dir, file)) ==> dir@ == hash@.take(2) && file@ == hash@.skip(2),
        r matches Err(e) ==> (e matches StorageError::Corruption(m) && m@ == hash_fault_message(hash@)),
{
    match validate_hash(hash) {
        Ok(()) => {},
        Err(e) => {
            return Err(e);
        },
    }
    let cs = crate::refs::chars_of(hash);
    proof {
        crate::refs::lemma_valid_hash_len(hash@);
    }
    let mut dir = String::new();
    crate::refs::push_char(&mut dir, cs[0]);
    crate::refs::push_char(&mut dir, cs[1]);
    assert(dir@ =~= hash@.take(2));
    let mut file = String::new();
    let mut k: usize = 2;
    while k < cs.len()
        invariant
            cs@ == hash@,
            2 <= k <= cs@.len(),
            file@ == hash@.subrange(2, k as int),
        decreases cs@.len() - k,
    {
        crate::refs::push_char(&mut file, cs[k]);
        assert(hash@.subrange(2, k + 1) =~= hash@.subrange(2, k as int).push(cs@[k as int]));
        k = k + 1;
    }
    assert(hash@.subrange(2, cs@.len() as int) =~= hash@.skip(2));
    Ok((dir, file))
}

/// The name an object with these bytes must have.
pub open spec fn object_name(data: Seq<u8>) -> Seq<char> {
    spec_hex_encode(spec_sha256(data))
}

/// Checks that `data` hashes to `hash`; objects are stored and read only
/// under the hash of their bytes.
pub fn verify_data_hash(hash: &str, data: &[u8]) -> (r: Result<(), StorageError>)
    ensures
        r is Ok <==> hash@ == object_name(data@),
        r matches Err(e) ==> (e matches StorageError::Corruption(m) && m@ == "Hash mismatch: expected "@ + hash@
            + ", computed "@ + object_name(data@)),
{
    let computed = sha256_hex(data);
    if !crate::text::str_eq(computed.as_str(), hash) {
        proof {
            reveal_strlit("Hash mismatch: expected ");
            reveal_strlit(", computed ");
        }
        let mut msg = String::from_str("Hash mismatch: expected ");
        msg.append(hash);
        msg.append(", computed ");
        msg.append(computed.as_str());
        return Err(StorageError::Corruption(msg));
    }
    Ok(())
}

/// Checks bytes loaded for an object against its name; every read goes
/// through this. Gives the bytes back when they hash to the name.
pub fn check_loaded(hash: &str, data: Vec<u8>) -> (r: Result<Vec<u8>, StorageError>)
    ensures
        r is Ok <==> hash@ == object_name(data@),
        r matches Ok(d) ==> d@ == data@,
        r matches Err(e) ==> (e matches StorageError::Corruption(m) && m@ == "Hash mismatch: expected "@ + hash@
            + ", computed "@ + object_name(data@)),
{
    match verify_data_hash(hash, data.as_slice()) {
        Ok(()) => Ok(data),
        Err(e) => Err(e),
    }
}

} // verus!
