//! An example custom value type stored through the map.
//!
//! [`UserProfile`] is a plain aggregate encoded through a self-describing,
//! versionable format: each field is written as a tag byte, a little-endian
//! payload length, and the payload. A decoder written against this schema
//! skips well-formed fields with later tags, so values written after new
//! fields are appended stay decodable.

use vstd::prelude::*;
use vstd::slice::slice_subrange;
use vstd::slice::slice_to_vec;
use vstd::string::StrSliceExecFns;
use vstd::string::StringSliceAdditionalSpecFns;
use vstd::utf8::encode_utf8;

use vstd::utf8::valid_utf8;

use crate::codec::le64;
use crate::codec::le64_decode;
use crate::codec::le64_encode;
use crate::codec::lemma_le64_injective;
use crate::codec::lemma_u64_of_le64;
use crate::codec::u64_of_le;
use crate::errors::MapError;
use crate::storable::Storable;

verus! {

/// Field tag of the age field.
pub const TAG_AGE: u8 = 1;

/// Field tag of the name field.
pub const TAG_NAME: u8 = 2;

/// A profile record: a plain aggregate of bounded scalar fields.
#[derive(Debug, PartialEq, Eq)]
pub struct UserProfile {
    /// Age in years.
    pub age: u8,
    /// Display name.
    pub name: String,
}

/// The canonical tagged image of a profile: the age field, the name field.
pub open spec fn profile_image(age: u8, name: Seq<char>) -> Seq<u8> {
    seq![TAG_AGE] + le64(1) + seq![age] + seq![TAG_NAME] + le64(encode_utf8(name).len() as u64)
        + encode_utf8(name)
}

/// A well-formed run of fields with tags later than the known ones,
/// starting at `pos`: each is a tag byte, a little-endian payload length
/// and the payload, and the run ends exactly at the end of the input.
pub open spec fn trailing_fields_ok(bytes: Seq<u8>, pos: int) -> bool
    decreases bytes.len() - pos,
{
    if pos >= bytes.len() {
        pos == bytes.len()
    } else if bytes.len() - pos < 9 || bytes[pos] <= TAG_NAME {
        false
    } else {
        let l = u64_of_le(bytes.subrange(pos + 1, pos + 9)) as int;
        if l <= bytes.len() - pos - 9 {
            trailing_fields_ok(bytes, pos + 9 + l)
        } else {
            false
        }
    }
}

/// The byte strings this decoder accepts: the two known fields in their
/// canonical form, followed by any well-formed run of later-tag fields
/// (what a writer with an extended schema appends).
pub open spec fn profile_accepts(bytes: Seq<u8>) -> bool {
    &&& bytes.len() >= 19
    &&& bytes[0] == TAG_AGE
    &&& bytes.subrange(1, 9) == le64(1)
    &&& bytes[10] == TAG_NAME
    &&& u64_of_le(bytes.subrange(11, 19)) as int <= bytes.len() - 19
    &&& valid_utf8(bytes.subrange(19, 19 + u64_of_le(bytes.subrange(11, 19)) as int))
    &&& trailing_fields_ok(bytes, 19 + u64_of_le(bytes.subrange(11, 19)) as int)
}

/// What a canonical profile image looks like byte by byte.
proof fn lemma_profile_image_shape(x: UserProfile, bytes: Seq<u8>)
    requires
        bytes == x.encode_spec(),
    ensures
        bytes.len() == 19 + encode_utf8(x.name@).len(),
        bytes[0] == TAG_AGE,
        bytes.subrange(1, 9) == le64(1),
        bytes[9] == x.age,
        bytes[10] == TAG_NAME,
        bytes.subrange(11, 19) == le64(encode_utf8(x.name@).len() as u64),
        bytes.subrange(19, bytes.len() as int) == encode_utf8(x.name@),
{
    assert(bytes.subrange(1, 9) =~= le64(1));
    assert(bytes.subrange(11, 19) =~= le64(encode_utf8(x.name@).len() as u64));
    assert(bytes.subrange(19, bytes.len() as int) =~= encode_utf8(x.name@));
}

impl Storable for UserProfile {
    open spec fn encode_spec(&self) -> Seq<u8> {
        profile_image(self.age, self.name@)
    }

    open spec fn accepts_spec(bytes: Seq<u8>) -> bool {
        profile_accepts(bytes)
    }

    fn to_bytes(&self) -> (r: Vec<u8>) {
        let nb: Vec<u8> = self.name.as_str().as_bytes_vec();
        let nlen: u64 = nb.len() as u64;
        let mut r: Vec<u8> = Vec::new();
        r.push(TAG_AGE);
        let mut lenfield: Vec<u8> = le64_encode(1);
        r.append(&mut lenfield);
        r.push(self.age);
        r.push(TAG_NAME);
        let mut namelen: Vec<u8> = le64_encode(nlen);
        r.append(&mut namelen);
        let mut payload: Vec<u8> = nb;
        r.append(&mut payload);
        proof {
            assert(r@ =~= profile_image(self.age, self.name@));
        }
        r
    }

    #[verifier::loop_isolation(false)]
    fn from_bytes(bytes: &[u8]) -> (r: Result<UserProfile, MapError>) {
        let n: usize = bytes.len();
        if n < 19 {
            proof {
                if exists|x: UserProfile| x.encode_spec() == bytes@ {
                    let x0 = choose|x: UserProfile| x.encode_spec() == bytes@;
                    lemma_profile_image_shape(x0, bytes@);
                }
            }
            return Err(MapError::DecodeError);
        }
        if bytes[0] != TAG_AGE {
            proof {
                if exists|x: UserProfile| x.encode_spec() == bytes@ {
                    let x0 = choose|x: UserProfile| x.encode_spec() == bytes@;
                    lemma_profile_image_shape(x0, bytes@);
                }
            }
            return Err(MapError::DecodeError);
        }
        let age_len: u64 = le64_decode(&slice_to_vec(slice_subrange(bytes, 1, 9)));
        if age_len != 1 {
            proof {
                if exists|x: UserProfile| x.encode_spec() == bytes@ {
                    let x0 = choose|x: UserProfile| x.encode_spec() == bytes@;
                    lemma_profile_image_shape(x0, bytes@);
                    lemma_le64_injective(age_len, 1);
                }
                if profile_accepts(bytes@) {
                    lemma_le64_injective(age_len, 1);
                }
            }
            return Err(MapError::DecodeError);
        }
        let age: u8 = bytes[9];
        if bytes[10] != TAG_NAME {
            proof {
                if exists|x: UserProfile| x.encode_spec() == bytes@ {
                    let x0 = choose|x: UserProfile| x.encode_spec() == bytes@;
                    lemma_profile_image_shape(x0, bytes@);
                }
            }
            return Err(MapError::DecodeError);
        }
        let name_len: u64 = le64_decode(&slice_to_vec(slice_subrange(bytes, 11, 19)));
        proof {
            lemma_u64_of_le64(name_len);
            assert(u64_of_le(bytes@.subrange(11, 19)) == name_len);
        }
        if name_len > (n - 19) as u64 {
            proof {
                if exists|x: UserProfile| x.encode_spec() == bytes@ {
                    let x0 = choose|x: UserProfile| x.encode_spec() == bytes@;
                    lemma_profile_image_shape(x0, bytes@);
                    lemma_le64_injective(name_len, encode_utf8(x0.name@).len() as u64);
                }
            }
            return Err(MapError::DecodeError);
        }
        let plen: usize = name_len as usize;
        let payload: &[u8] = slice_subrange(bytes, 19, 19 + plen);
        proof {
            if exists|x: UserProfile| x.encode_spec() == bytes@ {
                let x0 = choose|x: UserProfile| x.encode_spec() == bytes@;
                lemma_profile_image_shape(x0, bytes@);
                lemma_le64_injective(name_len, encode_utf8(x0.name@).len() as u64);
                assert(payload@ == x0.name.encode_spec());
            }
        }
        let name: String = match <String as Storable>::from_bytes(payload) {
            Ok(s) => s,
            Err(_) => {
                return Err(MapError::DecodeError);
            },
        };
        let mut pos: usize = 19 + plen;
        while pos < n
            invariant
                pos <= n,
                n == bytes@.len(),
                (exists|x: UserProfile| x.encode_spec() == bytes@) ==> pos == n,
                profile_accepts(bytes@) ==> trailing_fields_ok(bytes@, pos as int),
                trailing_fields_ok(bytes@, pos as int) ==> trailing_fields_ok(
                    bytes@,
                    19 + plen as int,
                ),
            decreases n - pos,
        {
            if n - pos < 9 {
                return Err(MapError::DecodeError);
            }
            let t: u8 = bytes[pos];
            if t <= TAG_NAME {
                return Err(MapError::DecodeError);
            }
            let flen: u64 = le64_decode(&slice_to_vec(slice_subrange(bytes, pos + 1, pos + 9)));
            proof {
                lemma_u64_of_le64(flen);
                assert(u64_of_le(bytes@.subrange(pos as int + 1, pos as int + 9)) == flen);
            }
            if flen > (n - pos - 9) as u64 {
                return Err(MapError::DecodeError);
            }
            proof {
                assert(trailing_fields_ok(bytes@, pos as int) == trailing_fields_ok(
                    bytes@,
                    pos as int + 9 + flen as int,
                ));
            }
            pos = pos + 9 + flen as usize;
        }
        proof {
            if exists|x: UserProfile| x.encode_spec() == bytes@ {
                let x0 = choose|x: UserProfile| x.encode_spec() == bytes@;
                lemma_profile_image_shape(x0, bytes@);
                lemma_le64_injective(name_len, encode_utf8(x0.name@).len() as u64);
                assert(encode_utf8(name@) == encode_utf8(x0.name@));
            }
            assert(trailing_fields_ok(bytes@, n as int));
            assert(trailing_fields_ok(bytes@, 19 + plen as int));
            assert(bytes@.subrange(1, 9) == le64(1));
            assert(valid_utf8(bytes@.subrange(19, 19 + plen as int)));
            assert(profile_accepts(bytes@));
        }
        Ok(UserProfile { age, name })
    }
}

} // verus!
