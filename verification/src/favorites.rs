//! Favourite items, kept in a file of their own.

use crate::cache::CacheFile;
use crate::text::optional_text;
use std::collections::HashSet;
use vstd::prelude::*;
use vstd::string::*;

verus! {

/// File with the favourites: a JSON array of item ids.
pub fn favorites_path(cache_dir: &str) -> (file: CacheFile)
    ensures
        file.dir@ == cache_dir@,
        file.name@ == "favorites.json"@,
{
    CacheFile { dir: String::from_str(cache_dir), name: String::from_str("favorites.json") }
}

/// The ids that a JSON array of ids holds, where the text is one.
pub uninterp spec fn ids_in_json(text: Seq<char>) -> Option<Set<u32>>;

/// The ids that a JSON array holds, by [`serde_json::from_str`]. The same text
/// always holds the same ids; which texts are such an array is left to the
/// parser.
#[verifier::external_body]
fn parse_ids(text: &str) -> (ids: Option<HashSet<u32>>)
    ensures
        match ids {
            Some(ids) => ids_in_json(text@) == Some(ids@),
            None => ids_in_json(text@) is None,
        },
{
    serde_json::from_str(text).ok()
}

/// The ids as a JSON array, one on a line, by [`serde_json::to_string_pretty`],
/// which fails only where the implementation of `Serialize` does, or for a map
/// whose keys are no text: never for ids. Their order is left open, but the text
/// holds exactly these ids.
#[verifier::external_body]
fn render_ids(ids: &HashSet<u32>) -> (text: Result<String, String>)
    ensures
        match text {
            Ok(t) => ids_in_json(t@) == Some(ids@),
            Err(_) => false,
        },
{
    serde_json::to_string_pretty(ids).map_err(|e| e.to_string())
}

/// The favourites, given what the file was found to hold: none, where it is
/// missing or holds anything else.
pub fn favorites_or_none(found: Option<HashSet<u32>>) -> (favorites: HashSet<u32>)
    ensures
        favorites@ == (match found {
            Some(ids) => ids@,
            None => Set::<u32>::empty(),
        }),
{
    match found {
        Some(ids) => ids,
        None => HashSet::new(),
    }
}

/// The favourites that the content of the file holds.
pub open spec fn favorites_in(content: Option<Seq<char>>) -> Set<u32> {
    match content {
        Some(text) => match ids_in_json(text) {
            Some(ids) => ids,
            None => Set::empty(),
        },
        None => Set::empty(),
    }
}

/// The favourites that the content of the file holds, where it could be read.
pub fn load(content: &Option<String>) -> (favorites: HashSet<u32>)
    ensures
        favorites@ == favorites_in(optional_text(*content)),
{
    let found: Option<HashSet<u32>> = match content {
        Some(text) => parse_ids(text.as_str()),
        None => None,
    };
    favorites_or_none(found)
}

/// A content of the file that keeps the favourites.
pub open spec fn keeps_favorites(content: Seq<char>, favorites: Set<u32>) -> bool {
    ids_in_json(content) == Some(favorites)
}

/// The content of the file that keeps the favourites.
pub fn save(favorites: &HashSet<u32>) -> (content: Result<String, String>)
    ensures
        content matches Ok(text) && keeps_favorites(text@, favorites@),
{
    render_ids(favorites)
}

/// What was saved is what is loaded.
pub proof fn law_favorites_read_back(content: Seq<char>, favorites: Set<u32>)
    requires
        keeps_favorites(content, favorites),
    ensures
        favorites_in(Some(content)) == favorites,
{
}

/// Favourites with the item taken out if it was one, and put in if not.
pub open spec fn toggled(favorites: Set<u32>, item_id: u32) -> Set<u32> {
    if favorites.contains(item_id) {
        favorites.remove(item_id)
    } else {
        favorites.insert(item_id)
    }
}

/// Takes the item out of the favourites if it is one, and puts it in if not.
pub fn toggle_favorite(favorites: &mut HashSet<u32>, item_id: u32)
    ensures
        final(favorites)@ == toggled(old(favorites)@, item_id),
{
    if !favorites.remove(&item_id) {
        favorites.insert(item_id);
    }
}

/// Toggling an item twice changes nothing, and toggling it once changes nothing
/// but the item.
pub proof fn law_toggling_twice_changes_nothing(favorites: Set<u32>, item_id: u32, other: u32)
    ensures
        toggled(toggled(favorites, item_id), item_id) == favorites,
        toggled(favorites, item_id).contains(item_id) == !favorites.contains(item_id),
        other != item_id ==> toggled(favorites, item_id).contains(other) == favorites.contains(
            other,
        ),
{
    assert(toggled(toggled(favorites, item_id), item_id) =~= favorites);
}

} // verus!
