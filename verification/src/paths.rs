//! Building the storage path of a file from its routing fields.

use vstd::prelude::*;
use crate::vecs::push_all;

verus! {

/// The path the file store keeps a file under: the storage root and the
/// service, domain, token and file-id segments, joined by slashes.
pub open spec fn spec_storage_path(
    root: Seq<u8>,
    service: Seq<u8>,
    domain: Seq<u8>,
    token: Seq<u8>,
    file_id: Seq<u8>,
) -> Seq<u8> {
    root + seq![0x2fu8] + service + seq![0x2fu8] + domain + seq![0x2fu8] + token + seq![0x2fu8]
        + file_id
}

/// Joins the storage root and the four path segments of a download
/// request with slashes.
pub fn build_storage_path(
    root: &Vec<u8>,
    service: &Vec<u8>,
    domain: &Vec<u8>,
    token: &Vec<u8>,
    file_id: &Vec<u8>,
) -> (r: Vec<u8>)
    ensures
        r@ == spec_storage_path(root@, service@, domain@, token@, file_id@),
{
    let mut out: Vec<u8> = Vec::new();
    push_all(&mut out, root);
    out.push(0x2f);
    push_all(&mut out, service);
    out.push(0x2f);
    push_all(&mut out, domain);
    out.push(0x2f);
    push_all(&mut out, token);
    out.push(0x2f);
    push_all(&mut out, file_id);
    assert(out@ =~= spec_storage_path(root@, service@, domain@, token@, file_id@));
    out
}

} // verus!
