//! Paths, as the bytes that the system takes them for.
use crate::text::{decimal, decimal_text};
use vstd::prelude::*;
use vstd::utf8::encode_utf8;

verus! {

/// The path of `rel`, which is relative, in the directory `base`: a separator is put between the
/// two unless `base` is empty or ends with one.
pub open spec fn joined(base: Seq<u8>, rel: Seq<u8>) -> Seq<u8> {
    if base.len() > 0 && base.last() != 0x2f {
        base.push(0x2f) + rel
    } else {
        base + rel
    }
}

/// Joins a directory and a relative path.
pub fn join_path(base: &Vec<u8>, rel: &str) -> (r: Vec<u8>)
    ensures
        r@ == joined(base@, encode_utf8(rel@)),
{
    let mut r: Vec<u8> = Vec::new();
    r.extend_from_slice(base.as_slice());
    assert(r@ =~= base@);
    if base.len() > 0 && base[base.len() - 1] != 0x2f {
        r.push(0x2f);
    }
    let ghost head = r@;
    r.extend_from_slice(rel.as_bytes());
    assert(r@ =~= head + encode_utf8(rel@));
    r
}

/// The directory of the user's sockets: what the environment says, or else the directory that is
/// made for the user's id.
pub fn runtime_dir(xdg_runtime_dir: Option<Vec<u8>>, uid: Option<u32>) -> (r: Vec<u8>)
    ensures
        r@ == (match xdg_runtime_dir {
            Some(dir) => dir@,
            None => encode_utf8(
                "/run/user/"@ + decimal(
                    match uid {
                        Some(uid) => uid as nat,
                        None => 0,
                    },
                ),
            ),
        }),
{
    if let Some(dir) = xdg_runtime_dir {
        return dir;
    }
    let id: u32 = match uid {
        Some(uid) => uid,
        None => 0,
    };
    let mut dir = "/run/user/".to_owned();
    dir.append(decimal_text(id as u64).as_str());
    dir.as_str().as_bytes_vec()
}

/// A joined path begins with the directory and ends with the relative path, and where the directory
/// is not empty there is a separator before the latter: the directory's own, or one that is put
/// there.
pub proof fn law_joined_path(base: Seq<u8>, rel: Seq<u8>)
    ensures
        ({
            let path = joined(base, rel);
            let n = path.len() - rel.len();
            &&& 0 <= base.len() <= n <= base.len() + 1
            &&& path.take(base.len() as int) == base
            &&& path.skip(n) == rel
            &&& base.len() == 0 ==> n == 0
            &&& base.len() > 0 ==> path[n - 1] == 0x2f
            &&& n > base.len() ==> base.last() != 0x2f
        }),
{
    let path = joined(base, rel);
    let n = path.len() - rel.len();
    assert(path.take(base.len() as int) =~= base);
    assert(path.skip(n) =~= rel);
}

} // verus!
