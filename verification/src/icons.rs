//! Pictures of items, kept for good once they have been downloaded.

use crate::cache::CacheFile;
use crate::text::{decimal, to_decimal};
use std::collections::HashSet;
use vstd::prelude::*;
use vstd::string::*;

verus! {

/// Name of the file with the picture of an item.
pub open spec fn icon_name(item_id: u32) -> Seq<char> {
    decimal(item_id as nat) + ".png"@
}

/// File with the picture of an item.
pub fn icon_path(icons_dir: &str, item_id: u32) -> (file: CacheFile)
    ensures
        file.dir@ == icons_dir@,
        file.name@ == icon_name(item_id),
{
    CacheFile {
        dir: String::from_str(icons_dir),
        name: to_decimal(item_id as u64).concat(".png"),
    }
}

/// File that a picture is written to before it is moved to its place, so that
/// no half-written picture ever stands there.
pub fn temporary_icon_path(icons_dir: &str, item_id: u32) -> (file: CacheFile)
    ensures
        file.dir@ == icons_dir@,
        file.name@ == icon_name(item_id) + ".tmp"@,
{
    let file = icon_path(icons_dir, item_id);
    CacheFile { dir: file.dir, name: file.name.concat(".tmp") }
}

/// How to come by the picture of an item.
#[derive(Clone, Copy, Debug, PartialEq, Eq, Structural)]
pub enum IconPlan {
    /// The item has none.
    NoIcon,
    /// It has been downloaded before.
    Cached,
    Download,
}

/// Decides how to come by the picture of an item.
pub fn icon_plan(has_url: bool, is_cached: bool) -> (plan: IconPlan)
    ensures
        plan == (if !has_url {
            IconPlan::NoIcon
        } else if is_cached {
            IconPlan::Cached
        } else {
            IconPlan::Download
        }),
{
    if !has_url {
        IconPlan::NoIcon
    } else if is_cached {
        IconPlan::Cached
    } else {
        IconPlan::Download
    }
}

/// Whether the picture is in its place: it was moved there, or someone else has
/// put it there meanwhile.
pub fn is_icon_in_place(written: bool, moved: bool, exists: bool) -> (b: bool)
    ensures
        b == (written && (moved || exists)),
{
    written && (moved || exists)
}

/// What is shown while a picture is downloaded.
pub fn icon_notice(icon_url: &str) -> (s: String)
    ensures
        s@ == "Fetching icon "@ + icon_url@,
{
    String::from_str("Fetching icon ").concat(icon_url)
}

/// What is shown when the server has no picture.
pub fn icon_failure(item_id: u32, status: &str) -> (s: String)
    ensures
        s@ == "Failed to fetch icon for item "@ + decimal(item_id as nat) + " ("@ + status@ + ")"@,
{
    String::from_str("Failed to fetch icon for item ").concat(
        to_decimal(item_id as u64).as_str(),
    ).concat(" (").concat(status).concat(")")
}

/// Width, height and pixels of the picture that the bytes of a file hold, four
/// bytes a pixel, where they hold one.
pub uninterp spec fn decoded_picture(bytes: Seq<u8>) -> Option<(u32, u32, Seq<u8>)>;

/// The picture that the bytes of a file hold, by [`image::load_from_memory`] and
/// `to_rgba8` of [`image::DynamicImage`]. The same bytes always give the same
/// picture; which bytes are one is left to the decoder.
#[verifier::external_body]
fn decode_picture(bytes: &Vec<u8>) -> (picture: Option<(u32, u32, Vec<u8>)>)
    ensures
        match picture {
            Some((w, h, pixels)) => decoded_picture(bytes@) == Some((w, h, pixels@)),
            None => decoded_picture(bytes@) is None,
        },
{
    let picture = image::load_from_memory(bytes).ok()?.to_rgba8();
    Some((picture.width(), picture.height(), picture.into_raw()))
}

/// A picture, four bytes a pixel, row by row.
#[derive(Clone, Debug, PartialEq, Eq)]
pub struct Picture {
    pub width: u32,
    pub height: u32,
    pub pixels: Vec<u8>,
}

/// The decoder's answer is a whole picture.
pub open spec fn is_whole(w: u32, h: u32, pixels: Seq<u8>) -> bool {
    pixels.len() == 4 * (w * h)
}

/// A picture that was decoded, if it is whole.
pub fn whole_picture(width: u32, height: u32, pixels: Vec<u8>) -> (picture: Option<Picture>)
    ensures
        match picture {
            Some(p) => is_whole(width, height, pixels@) && p.width == width && p.height == height
                && p.pixels@ == pixels@,
            None => !is_whole(width, height, pixels@),
        },
{
    proof {
        assert(0 <= width * height <= 0xffff_ffff * 0xffff_ffff) by (nonlinear_arith)
            requires
                0 <= width <= 0xffff_ffff,
                0 <= height <= 0xffff_ffff,
        ;
    }
    let expected: u128 = 4 * ((width as u128) * (height as u128));
    if pixels.len() as u128 == expected {
        Some(Picture { width, height, pixels })
    } else {
        None
    }
}

/// The picture that the bytes of a file hold, where it is whole.
pub fn load_picture(bytes: &Vec<u8>) -> (picture: Option<Picture>)
    ensures
        match (picture, decoded_picture(bytes@)) {
            (Some(p), Some((w, h, pixels))) => is_whole(w, h, pixels) && p.width == w && p.height
                == h && p.pixels@ == pixels,
            (Some(_), None) => false,
            (None, Some((w, h, pixels))) => !is_whole(w, h, pixels),
            (None, None) => true,
        },
{
    match decode_picture(bytes) {
        Some((width, height, pixels)) => whole_picture(width, height, pixels),
        None => None,
    }
}

/// The items whose pictures are on their way, once the picture of an item is
/// wanted. One that is there or on its way is not asked for again.
pub open spec fn waiting_for(pending: Set<u32>, id: u32, is_there: bool) -> Set<u32> {
    if is_there {
        pending
    } else {
        pending.insert(id)
    }
}

/// Notes that the picture of an item is wanted, and says whether to ask for it.
pub fn want_picture(pending: &mut HashSet<u32>, id: u32, is_there: bool) -> (ask: bool)
    ensures
        ask == (!is_there && !old(pending)@.contains(id)),
        final(pending)@ == waiting_for(old(pending)@, id, is_there),
{
    if is_there {
        false
    } else {
        pending.insert(id)
    }
}

/// Notes that the picture of an item has come, or that there is none: it is no
/// longer waited for.
pub fn picture_has_come(pending: &mut HashSet<u32>, id: u32)
    ensures
        final(pending)@ == old(pending)@.remove(id),
{
    pending.remove(&id);
}

/// A picture that was asked for and has come leaves nothing to wait for. Nor is
/// it asked for again.
pub proof fn law_pictures_are_waited_for_once(pending: Set<u32>, id: u32)
    requires
        !pending.contains(id),
    ensures
        waiting_for(pending, id, false).remove(id) == pending,
        waiting_for(pending, id, true) == pending,
{
    assert(pending.insert(id).remove(id) =~= pending);
}

/// Two items never share a file.
pub proof fn law_icons_do_not_clash(a: u32, b: u32)
    requires
        icon_name(a) == icon_name(b),
    ensures
        a == b,
{
    let x = decimal(a as nat);
    let y = decimal(b as nat);
    let end = ".png"@;
    assert(icon_name(a).len() == x.len() + end.len());
    assert(icon_name(b).len() == y.len() + end.len());
    assert(x.len() == y.len());
    assert(x =~= icon_name(a).take(x.len() as int));
    assert(y =~= icon_name(b).take(y.len() as int));
    assert(x == y);
    crate::text::law_decimal_is_unambiguous(a as nat, b as nat);
}

/// A picture that is wanted and not there is waited for, and no other is added or lost.
pub proof fn law_wanted_pictures_are_waited_for(pending: Set<u32>, id: u32, other: u32)
    requires
        other != id,
    ensures
        waiting_for(pending, id, false).contains(id),
        waiting_for(pending, id, true).contains(id) == pending.contains(id),
        waiting_for(pending, id, false).contains(other) == pending.contains(other),
        waiting_for(pending, id, true).contains(other) == pending.contains(other),
{
}

/// A whole picture stays whole if a row is added, of four bytes for each column.
pub proof fn law_rows_have_four_bytes_a_pixel(w: u32, h: u32, pixels: Seq<u8>, row: Seq<u8>)
    requires
        h < u32::MAX,
        row.len() == 4 * w,
    ensures
        is_whole(w, (h + 1) as u32, pixels + row) <==> is_whole(w, h, pixels),
        is_whole(w, 0, pixels) <==> pixels.len() == 0,
{
    assert(w * (h + 1) == w * h + w) by (nonlinear_arith);
    assert(w * 0 == 0) by (nonlinear_arith);
}

} // verus!
