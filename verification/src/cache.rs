//! Files that keep what was downloaded.

use crate::icons::icon_name;
use crate::text::{decimal, find_text, lemma_decimal_first, occurs_at, to_decimal};
use crate::velocity::velocity_name;
use flate2::read::DeflateDecoder;
use flate2::write::DeflateEncoder;
use flate2::Compression;
use std::collections::hash_map::DefaultHasher;
use std::hash::{Hash, Hasher};
use std::io::{Read, Write};
use vstd::prelude::*;
use vstd::std_specs::hash::DefaultHasherAdditionalSpecFns;
use vstd::string::*;

verus! {

/// A file in a directory.
#[derive(Clone, Debug, PartialEq, Eq)]
pub struct CacheFile {
    pub dir: String,
    pub name: String,
}

/// What the names of files with replies start with. Only such files are ever
/// removed when they are old.
pub open spec fn cache_prefix() -> Seq<char> {
    "cache_"@
}

/// Name of the file for the reply from an address with the hash.
pub open spec fn cache_name(hash: u64) -> Seq<char> {
    cache_prefix() + decimal(hash as nat)
}

/// Name of the file for the reply from an address with the hash.
pub fn cache_file_name(hash: u64) -> (name: String)
    ensures
        name@ == cache_name(hash),
{
    String::from_str("cache_").concat(to_decimal(hash).as_str())
}

/// Seconds after which a reply is too old: the server itself keeps its replies
/// that long.
pub const REPLY_TTL_SECS: u64 = 300;

/// The name is that of a file with a reply.
pub open spec fn is_reply_name(name: Seq<char>) -> bool {
    occurs_at(name, cache_prefix(), 0)
}

/// The entry of the directory is a file with a reply that is too old.
pub open spec fn is_outdated(name: Seq<char>, is_dir: bool, age_secs: u64) -> bool {
    !is_dir && is_reply_name(name) && age_secs > REPLY_TTL_SECS
}

/// Whether an entry of the directory is an old reply, which is removed.
pub fn is_old_reply(name: &str, is_dir: bool, age_secs: u64) -> (b: bool)
    ensures
        b == (!is_dir && is_reply_name(name@) && age_secs > REPLY_TTL_SECS),
        b == is_outdated(name@, is_dir, age_secs),
{
    let found: Option<usize> = find_text(name, "cache_");
    let is_reply = match found {
        Some(i) => i == 0,
        None => false,
    };
    !is_dir && is_reply && age_secs > REPLY_TTL_SECS
}

/// Replies are removed when they are old, and no other file of the library is:
/// neither favourites, nor settings, nor pictures, nor velocities.
pub proof fn law_only_replies_are_removed(hash: u64, item_id: u32)
    ensures
        is_reply_name(cache_name(hash)),
        !is_reply_name("favorites.json"@),
        !is_reply_name("gui_prefs.json"@),
        !is_reply_name(icon_name(item_id)),
        !is_reply_name(velocity_name(item_id)),
{
    reveal_strlit("cache_");
    reveal_strlit("favorites.json");
    reveal_strlit("gui_prefs.json");
    assert(cache_name(hash).subrange(0, 6) =~= cache_prefix());
    lemma_decimal_first(item_id as nat);
    assert forall|name: Seq<char>| #[trigger] is_reply_name(name) implies name[0] == 'c' by {
        assert(name.subrange(0, 6)[0] == name[0]);
    }
    assert(icon_name(item_id)[0] == decimal(item_id as nat)[0]);
    assert(velocity_name(item_id)[0] == decimal(item_id as nat)[0]);
}

/// What a text feeds to a hasher.
pub uninterp spec fn fed_by(text: Seq<char>) -> Seq<Seq<u8>>;

/// Feeds a text to a hasher, by the implementation of [`std::hash::Hash`] for
/// [`str`]. The same text always feeds the same; what that is, is left to the
/// standard library.
#[verifier::external_body]
fn hash_text(text: &str, hasher: &mut DefaultHasher)
    ensures
        final(hasher)@ == old(hasher)@ + fed_by(text@),
{
    text.hash(hasher);
}

/// Hash of a text, by a hasher that has been fed nothing else.
pub open spec fn text_hash(text: Seq<char>) -> u64 {
    DefaultHasher::spec_finish(fed_by(text))
}

/// File for the reply from an address.
pub fn url_to_cache_path(url: &str, cache_dir: &str) -> (file: CacheFile)
    ensures
        file.dir@ == cache_dir@,
        file.name@ == cache_name(text_hash(url@)),
{
    let mut hasher = DefaultHasher::new();
    hash_text(url, &mut hasher);
    assert(hasher@ =~= fed_by(url@));
    let hash: u64 = hasher.finish();
    CacheFile { dir: String::from_str(cache_dir), name: cache_file_name(hash) }
}

/// Replies from two addresses share a file only where the addresses have the
/// same hash.
pub proof fn law_files_clash_only_by_hash(a: Seq<char>, b: Seq<char>)
    ensures
        cache_name(text_hash(a)) == cache_name(text_hash(b)) <==> text_hash(a) == text_hash(b),
{
    let x = decimal(text_hash(a) as nat);
    let y = decimal(text_hash(b) as nat);
    let n = cache_prefix().len() as int;
    if cache_name(text_hash(a)) == cache_name(text_hash(b)) {
        assert(x =~= cache_name(text_hash(a)).skip(n));
        assert(y =~= cache_name(text_hash(b)).skip(n));
        crate::text::law_decimal_is_unambiguous(text_hash(a) as nat, text_hash(b) as nat);
    }
}

/// What the bytes of a DEFLATE stream hold, where they are one.
pub uninterp spec fn inflated(packed: Seq<u8>) -> Option<Seq<u8>>;

/// The bytes that an optional value holds.
pub open spec fn optional_bytes(bytes: Option<Vec<u8>>) -> Option<Seq<u8>> {
    match bytes {
        Some(bytes) => Some(bytes@),
        None => None,
    }
}

/// The DEFLATE stream that bytes are packed into, where they can be.
pub uninterp spec fn deflated(bytes: Seq<u8>) -> Option<Seq<u8>>;

/// Packs bytes with [`flate2::write::DeflateEncoder`] at the default level. The
/// same bytes always give the same stream, and it holds these bytes.
#[verifier::external_body]
fn deflate(bytes: &Vec<u8>) -> (packed: Option<Vec<u8>>)
    ensures
        optional_bytes(packed) == deflated(bytes@),
        packed matches Some(p) ==> inflated(p@) == Some(bytes@),
{
    let mut encoder = DeflateEncoder::new(Vec::new(), Compression::default());
    encoder.write_all(bytes).ok()?;
    encoder.finish().ok()
}

/// Unpacks a stream with [`flate2::read::DeflateDecoder`]. The same bytes always
/// hold the same; which bytes are a stream is left to the decoder.
#[verifier::external_body]
fn inflate(packed: &Vec<u8>) -> (bytes: Option<Vec<u8>>)
    ensures
        optional_bytes(bytes) == inflated(packed@),
{
    let mut bytes = Vec::new();
    let mut decoder = DeflateDecoder::new(packed.as_slice());
    decoder.read_to_end(&mut bytes).ok().map(|_| bytes)
}

/// Bytes to keep in a file.
pub fn pack(bytes: &Vec<u8>) -> (packed: Option<Vec<u8>>)
    ensures
        optional_bytes(packed) == deflated(bytes@),
        packed matches Some(p) ==> inflated(p@) == Some(bytes@),
{
    deflate(bytes)
}

/// What the bytes of a file hold.
pub fn unpack(packed: &Vec<u8>) -> (bytes: Option<Vec<u8>>)
    ensures
        optional_bytes(bytes) == inflated(packed@),
{
    inflate(packed)
}

/// What is said of a data file that cannot be read.
pub open spec fn unreadable_text(path: Seq<char>, error: Seq<char>) -> Seq<char> {
    "Failed to deserialize existing data at '"@ + path + "' ("@ + error
        + "). Try using the --reset-data flag to replace the data files."@
}

/// What is said of a data file that cannot be read.
pub fn unreadable_data_message(path: &str, error: &str) -> (s: String)
    ensures
        s@ == unreadable_text(path@, error@),
{
    String::from_str("Failed to deserialize existing data at '").concat(path).concat("' (").concat(
        error,
    ).concat("). Try using the --reset-data flag to replace the data files.")
}

/// Replies are kept for five minutes, to the second. No directory is ever removed, and
/// no file whose name starts otherwise.
pub proof fn law_replies_are_kept_five_minutes(hash: u64, name: Seq<char>, age_secs: u64)
    ensures
        is_outdated(cache_name(hash), false, age_secs) <==> age_secs > 5 * 60,
        !is_outdated(name, true, age_secs),
        is_outdated(name, false, age_secs) ==> name.len() >= 6 && name[0] == 'c' && name[1] == 'a'
            && name[2] == 'c' && name[3] == 'h' && name[4] == 'e' && name[5] == '_',
{
    law_only_replies_are_removed(hash, 0);
    reveal_strlit("cache_");
    if is_outdated(name, false, age_secs) {
        let start = name.subrange(0, 6);
        assert(start[0] == name[0] && start[1] == name[1] && start[2] == name[2] && start[3]
            == name[3] && start[4] == name[4] && start[5] == name[5]);
    }
}

/// A file that cannot be read is named, with the reason.
pub proof fn law_unreadable_files_are_named(path: Seq<char>, error: Seq<char>)
    ensures
        ("Failed to deserialize existing data at '"@ + path + "' ("@ + error + ")"@).is_prefix_of(
            unreadable_text(path, error),
        ),
{
    reveal_strlit(")");
    reveal_strlit("). Try using the --reset-data flag to replace the data files.");
    let text = unreadable_text(path, error);
    let a = "Failed to deserialize existing data at '"@ + path + "' ("@ + error + ")"@;
    assert(text.subrange(0, a.len() as int) =~= a);
}

} // verus!
