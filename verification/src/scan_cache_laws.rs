//! What a snapshot file holds byte by byte, and what is derived from a path when
//! one is read.
use crate::codec::{law_numbers_are_little_endian, lemma_number_of_bytes};
use crate::digest::{blake3_digest, hex_text, lemma_hex_len};
use crate::paths::{extension, file_name, law_extension_follows_the_last_dot, PathStyle};
use crate::scan_cache::{
    cache_key, cache_name, derived_ext, derived_name, file_bytes, intact, is_snapshot, magic,
    parsed, payload, CachedFile, SnapshotView,
};
use crate::text::lowercase;
use vstd::prelude::*;

verus! {

/// The name of a record is the file name of its path; a path without one stands for
/// itself.
pub proof fn law_record_is_named_after_its_path(style: PathStyle, path: Seq<char>)
    ensures
        file_name(style, path) matches Some(n) ==> derived_name(style, path) == n,
        file_name(style, path) is None ==> derived_name(style, path) == path,
{
}

/// The extension of a file's record is what follows the last dot of its name, in
/// lower case; a directory has none, and neither has a file without a dot or with
/// one in front only.
pub proof fn law_record_has_the_extension_of_its_name(
    style: PathStyle,
    path: Seq<char>,
    stem: Seq<char>,
    ext: Seq<char>,
)
    requires
        forall|i: int| 0 <= i < ext.len() ==> #[trigger] ext[i] != '.',
    ensures
        derived_ext(style, path, true) is None,
        file_name(style, path) == Some(stem + seq!['.'] + ext) && stem.len() > 0 ==> derived_ext(
            style,
            path,
            false,
        ) == Some(lowercase(ext)),
        file_name(style, path) == Some(stem + seq!['.'] + ext) && stem.len() == 0 ==> derived_ext(
            style,
            path,
            false,
        ) is None,
        file_name(style, path) == Some(ext) ==> derived_ext(style, path, false) is None,
{
    law_extension_follows_the_last_dot(stem, ext);
}

/// A file is read as a snapshot only if it starts with the four letters and the
/// version of the format, and the 32 bytes behind them are the hash of everything
/// that follows.
pub proof fn law_only_intact_files_are_read(style: PathStyle, data: Seq<u8>)
    ensures
        parsed(style, data) is Some ==> {
            &&& data.len() >= 40
            &&& data[0] == 0x43 && data[1] == 0x4d && data[2] == 0x53 && data[3] == 0x43
            &&& data[4] == 1 && data[5] == 0 && data[6] == 0 && data[7] == 0
            &&& data.subrange(8, 40) == blake3_digest(data.skip(40))
        },
{
    if intact(data) {
        let m = data.take(4);
        assert(m[0] == data[0] && m[1] == data[1] && m[2] == data[2] && m[3] == data[3]);
        let v = data.subrange(4, 8);
        lemma_number_of_bytes(v);
        assert(v[0] == data[4] && v[1] == data[5] && v[2] == data[6] && v[3] == data[7]);
    }
}

/// A snapshot file is written with those letters, that version, the hash of the
/// payload and the payload.
pub proof fn law_files_are_written_intact(s: SnapshotView)
    requires
        blake3_digest(payload(s)).len() == 32,
    ensures
        intact(file_bytes(s)),
        file_bytes(s).skip(40) == payload(s),
        file_bytes(s).take(8) == seq![0x43u8, 0x4du8, 0x53u8, 0x43u8, 1u8, 0u8, 0u8, 0u8],
{
    let b = file_bytes(s);
    let v = crate::codec::le_bytes(1, 4);
    law_numbers_are_little_endian(1);
    crate::codec::lemma_pow256();
    crate::codec::lemma_le_roundtrip(1, 4);
    assert(v[0] == 1 && v[1] == 0 && v[2] == 0 && v[3] == 0);
    assert(b.take(4) =~= magic());
    assert(b.subrange(4, 8) =~= v);
    assert(b.subrange(8, 40) =~= blake3_digest(payload(s)));
    assert(b.skip(40) =~= payload(s));
    assert(b.take(8) =~= seq![0x43u8, 0x4du8, 0x53u8, 0x43u8, 1u8, 0u8, 0u8, 0u8]);
}

/// Only files with the extension `cmsc` are snapshots, and so only those are ever
/// pruned.
pub proof fn law_snapshots_have_their_extension(style: PathStyle, f: CachedFile)
    ensures
        is_snapshot(style)(f) <==> extension(style, f.path@) == Some("cmsc"@),
{
}

/// A request is kept under 24 hexadecimal digits of the hash of its key and the
/// ending for snapshots, so that requests with different keys share a name only
/// where their hashes start alike.
pub proof fn law_a_request_is_kept_under_its_hash(root: Seq<char>, excludes: Seq<Seq<char>>)
    requires
        blake3_digest(cache_key(root, excludes)).len() == 32,
    ensures
        cache_name(root, excludes).len() == 29,
        cache_name(root, excludes).take(24) == hex_text(
            blake3_digest(cache_key(root, excludes)),
        ).take(24),
        cache_name(root, excludes).skip(24) == seq!['.', 'c', 'm', 's', 'c'],
{
    reveal_strlit(".cmsc");
    let h = hex_text(blake3_digest(cache_key(root, excludes)));
    lemma_hex_len(blake3_digest(cache_key(root, excludes)));
    let n = cache_name(root, excludes);
    assert(n.take(24) =~= h.take(24));
    assert(n.skip(24) =~= seq!['.', 'c', 'm', 's', 'c']);
}

} // verus!
