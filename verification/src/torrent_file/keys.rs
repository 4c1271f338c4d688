//! The dictionary keys that the metainfo parsers look for.
use crate::primitives::bytes_eq;
use vstd::prelude::*;

verus! {

/// The key `length`.
pub open spec fn key_length() -> Seq<u8> {
    seq![108u8, 101u8, 110u8, 103u8, 116u8, 104u8]
}

/// Whether `k` is the key `length`.
pub fn is_key_length(k: &[u8]) -> (r: bool)
    ensures
        r == (k@ == key_length()),
{
    let lit: [u8; 6] = [108u8, 101u8, 110u8, 103u8, 116u8, 104u8];
    assert(lit@ =~= key_length());
    bytes_eq(k, lit.as_slice())
}

/// The key `path`.
pub open spec fn key_path() -> Seq<u8> {
    seq![112u8, 97u8, 116u8, 104u8]
}

/// Whether `k` is the key `path`.
pub fn is_key_path(k: &[u8]) -> (r: bool)
    ensures
        r == (k@ == key_path()),
{
    let lit: [u8; 4] = [112u8, 97u8, 116u8, 104u8];
    assert(lit@ =~= key_path());
    bytes_eq(k, lit.as_slice())
}

/// The key `pieces root`.
pub open spec fn key_pieces_root() -> Seq<u8> {
    seq![112u8, 105u8, 101u8, 99u8, 101u8, 115u8, 32u8, 114u8, 111u8, 111u8, 116u8]
}

/// Whether `k` is the key `pieces root`.
pub fn is_key_pieces_root(k: &[u8]) -> (r: bool)
    ensures
        r == (k@ == key_pieces_root()),
{
    let lit: [u8; 11] = [112u8, 105u8, 101u8, 99u8, 101u8, 115u8, 32u8, 114u8, 111u8, 111u8, 116u8];
    assert(lit@ =~= key_pieces_root());
    bytes_eq(k, lit.as_slice())
}

/// The key `file tree`.
pub open spec fn key_file_tree() -> Seq<u8> {
    seq![102u8, 105u8, 108u8, 101u8, 32u8, 116u8, 114u8, 101u8, 101u8]
}

/// Whether `k` is the key `file tree`.
pub fn is_key_file_tree(k: &[u8]) -> (r: bool)
    ensures
        r == (k@ == key_file_tree()),
{
    let lit: [u8; 9] = [102u8, 105u8, 108u8, 101u8, 32u8, 116u8, 114u8, 101u8, 101u8];
    assert(lit@ =~= key_file_tree());
    bytes_eq(k, lit.as_slice())
}

/// The key `files`.
pub open spec fn key_files() -> Seq<u8> {
    seq![102u8, 105u8, 108u8, 101u8, 115u8]
}

/// Whether `k` is the key `files`.
pub fn is_key_files(k: &[u8]) -> (r: bool)
    ensures
        r == (k@ == key_files()),
{
    let lit: [u8; 5] = [102u8, 105u8, 108u8, 101u8, 115u8];
    assert(lit@ =~= key_files());
    bytes_eq(k, lit.as_slice())
}

/// The key `meta version`.
pub open spec fn key_meta_version() -> Seq<u8> {
    seq![109u8, 101u8, 116u8, 97u8, 32u8, 118u8, 101u8, 114u8, 115u8, 105u8, 111u8, 110u8]
}

/// Whether `k` is the key `meta version`.
pub fn is_key_meta_version(k: &[u8]) -> (r: bool)
    ensures
        r == (k@ == key_meta_version()),
{
    let lit: [u8; 12] = [109u8, 101u8, 116u8, 97u8, 32u8, 118u8, 101u8, 114u8, 115u8, 105u8, 111u8, 110u8];
    assert(lit@ =~= key_meta_version());
    bytes_eq(k, lit.as_slice())
}

/// The key `name`.
pub open spec fn key_name() -> Seq<u8> {
    seq![110u8, 97u8, 109u8, 101u8]
}

/// Whether `k` is the key `name`.
pub fn is_key_name(k: &[u8]) -> (r: bool)
    ensures
        r == (k@ == key_name()),
{
    let lit: [u8; 4] = [110u8, 97u8, 109u8, 101u8];
    assert(lit@ =~= key_name());
    bytes_eq(k, lit.as_slice())
}

/// The key `piece length`.
pub open spec fn key_piece_length() -> Seq<u8> {
    seq![112u8, 105u8, 101u8, 99u8, 101u8, 32u8, 108u8, 101u8, 110u8, 103u8, 116u8, 104u8]
}

/// Whether `k` is the key `piece length`.
pub fn is_key_piece_length(k: &[u8]) -> (r: bool)
    ensures
        r == (k@ == key_piece_length()),
{
    let lit: [u8; 12] = [112u8, 105u8, 101u8, 99u8, 101u8, 32u8, 108u8, 101u8, 110u8, 103u8, 116u8, 104u8];
    assert(lit@ =~= key_piece_length());
    bytes_eq(k, lit.as_slice())
}

/// The key `pieces`.
pub open spec fn key_pieces() -> Seq<u8> {
    seq![112u8, 105u8, 101u8, 99u8, 101u8, 115u8]
}

/// Whether `k` is the key `pieces`.
pub fn is_key_pieces(k: &[u8]) -> (r: bool)
    ensures
        r == (k@ == key_pieces()),
{
    let lit: [u8; 6] = [112u8, 105u8, 101u8, 99u8, 101u8, 115u8];
    assert(lit@ =~= key_pieces());
    bytes_eq(k, lit.as_slice())
}

} // verus!
