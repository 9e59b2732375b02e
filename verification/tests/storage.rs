use gw2_arbitrage::cache::{
    cache_file_name, is_old_reply, pack, unpack, unreadable_data_message, url_to_cache_path,
};
use gw2_arbitrage::config::{
    json_shows_too_many_quotes, saved_status, write_config_key, Setting,
};
use gw2_arbitrage::favorites::{
    favorites_or_none, favorites_path, load, save, toggle_favorite,
};
use gw2_arbitrage::icons::{
    icon_failure, icon_notice, icon_path, icon_plan, is_icon_in_place, load_picture,
    picture_has_come, temporary_icon_path, want_picture, whole_picture, IconPlan, Picture,
};
use gw2_arbitrage::velocity::velocity_path;
use std::collections::hash_map::DefaultHasher;
use std::collections::HashSet;
use std::hash::{Hash, Hasher};
use std::io::Cursor;

#[test]
fn replies_are_filed_under_the_hash_of_their_address() {
    let url = "https://api.guildwars2.com/v2/commerce/prices?ids=1";
    let mut hasher = DefaultHasher::new();
    url.hash(&mut hasher);
    let file = url_to_cache_path(url, "/tmp/dir");
    assert_eq!(file.dir, "/tmp/dir");
    assert_eq!(file.name, format!("cache_{}", hasher.finish()));
    assert_eq!(url_to_cache_path(url, "d").name, file.name);
    assert_ne!(url_to_cache_path("other", "d").name, file.name);
    assert_eq!(cache_file_name(12), "cache_12");
}

#[test]
fn only_old_replies_are_removed() {
    assert!(is_old_reply("cache_12", false, 301));
    assert!(!is_old_reply("cache_12", false, 300));
    assert!(!is_old_reply("cache_12", true, 999));
    assert!(!is_old_reply("my_cache_12", false, 999));
    assert!(!is_old_reply("favorites.json", false, 999));
    assert_eq!(velocity_path("velocity", 12).name, "12.json");
}

#[test]
fn packed_bytes_are_unpacked_again() {
    let bytes: Vec<u8> = (0..5000).map(|i| (i % 7) as u8).collect();
    let packed = pack(&bytes).unwrap();
    assert!(packed.len() < bytes.len());
    assert_eq!(unpack(&packed), Some(bytes));
    assert_eq!(unpack(&pack(&vec![]).unwrap()), Some(vec![]));
    assert_eq!(unpack(&vec![0xff; 9]), None);
}

#[test]
fn data_that_cannot_be_read_is_named() {
    assert_eq!(
        unreadable_data_message("/a/b", "eof"),
        "Failed to deserialize existing data at '/a/b' (eof). Try using the --reset-data flag to \
         replace the data files."
    );
}

#[test]
fn favorites_survive_a_restart() {
    let favorites: HashSet<u32> = [5, 1, u32::MAX].into_iter().collect();
    let content = save(&favorites).unwrap();
    assert_eq!(load(&Some(content)), favorites);
    assert_eq!(save(&HashSet::new()).unwrap(), "[]");
    assert_eq!(save(&[5].into_iter().collect()).unwrap(), "[\n  5\n]");
}

#[test]
fn broken_favorites_are_none() {
    assert!(load(&None).is_empty());
    assert!(load(&Some("{".to_string())).is_empty());
    assert!(load(&Some("[-1]".to_string())).is_empty());
    assert_eq!(load(&Some("[3, 3]".to_string())), HashSet::from([3]));
    assert!(favorites_or_none(None).is_empty());
    assert_eq!(favorites_or_none(Some(HashSet::from([1]))), HashSet::from([1]));
    let file = favorites_path("c");
    assert_eq!((file.dir.as_str(), file.name.as_str()), ("c", "favorites.json"));
}

#[test]
fn toggling_twice_changes_nothing() {
    let mut favorites = HashSet::from([1, 2]);
    toggle_favorite(&mut favorites, 3);
    assert_eq!(favorites, HashSet::from([1, 2, 3]));
    toggle_favorite(&mut favorites, 1);
    toggle_favorite(&mut favorites, 3);
    toggle_favorite(&mut favorites, 1);
    assert_eq!(favorites, HashSet::from([1, 2]));
}

#[test]
fn icons_have_files_of_their_own() {
    let file = icon_path("icons", 42);
    assert_eq!((file.dir.as_str(), file.name.as_str()), ("icons", "42.png"));
    assert_eq!(temporary_icon_path("icons", 42).name, "42.png.tmp");
    assert_eq!(icon_notice("u"), "Fetching icon u");
    assert_eq!(
        icon_failure(42, "404 Not Found"),
        "Failed to fetch icon for item 42 (404 Not Found)"
    );
}

#[test]
fn icons_are_downloaded_once() {
    assert!(matches!(icon_plan(false, true), IconPlan::NoIcon));
    assert!(matches!(icon_plan(true, true), IconPlan::Cached));
    assert!(matches!(icon_plan(true, false), IconPlan::Download));
    assert!(is_icon_in_place(true, true, false));
    assert!(is_icon_in_place(true, false, true));
    assert!(!is_icon_in_place(true, false, false));
    assert!(!is_icon_in_place(false, true, true));
}

#[test]
fn pictures_are_waited_for_once() {
    let mut pending = HashSet::new();
    assert!(!want_picture(&mut pending, 7, true));
    assert!(pending.is_empty());
    assert!(want_picture(&mut pending, 7, false));
    assert!(!want_picture(&mut pending, 7, false));
    assert!(want_picture(&mut pending, 8, false));
    assert_eq!(pending, HashSet::from([7, 8]));
    picture_has_come(&mut pending, 7);
    picture_has_come(&mut pending, 9);
    assert_eq!(pending, HashSet::from([8]));
    picture_has_come(&mut pending, 8);
    assert!(pending.is_empty());
}

#[test]
fn pictures_are_decoded() {
    let pixels = vec![255, 0, 0, 255, 0, 255, 0, 128];
    let mut bytes = Cursor::new(Vec::new());
    image::RgbaImage::from_raw(2, 1, pixels.clone())
        .unwrap()
        .write_to(&mut bytes, image::ImageFormat::Png)
        .unwrap();
    let picture = load_picture(&bytes.into_inner());
    assert_eq!(picture, Some(Picture { width: 2, height: 1, pixels }));
    assert_eq!(load_picture(&vec![1, 2, 3]), None);
    assert_eq!(whole_picture(2, 2, vec![0; 8]), None);
    assert_eq!(whole_picture(0, 7, vec![]), Some(Picture { width: 0, height: 7, pixels: vec![] }));
}

#[test]
fn settings_are_written_beside_the_others() {
    let text = write_config_key(&None, "count", Some(Setting::Number(3))).unwrap();
    let text = write_config_key(&Some(text), "api_key", Some(Setting::Text("k \"q\"".to_string()))).unwrap();
    let text = format!("{}\n[currencies]\nkarma = 1.5\n", text);
    let text = write_config_key(&Some(text), "include_ascended", Some(Setting::Flag(true))).unwrap();
    let table: toml::Table = toml::from_str(&text).unwrap();
    assert_eq!(table["count"].as_integer(), Some(3));
    assert_eq!(table["api_key"].as_str(), Some("k \"q\""));
    assert_eq!(table["include_ascended"].as_bool(), Some(true));
    assert_eq!(table["currencies"]["karma"].as_float(), Some(1.5));
    let text = write_config_key(&Some(text), "count", None).unwrap();
    let table: toml::Table = toml::from_str(&text).unwrap();
    assert!(!table.contains_key("count"));
    assert_eq!(table.len(), 3);
}

#[test]
fn names_stay_whatever_their_values_are_read_as() {
    let content = "a = { b = 1, \"$__toml_private_datetime\" = \"1979-05-27\" }\nn = 4\n";
    let set = |content: String| {
        write_config_key(&Some(content), "api_key", Some(Setting::Text("k".to_string()))).unwrap()
    };
    let once = set(content.to_string());
    let table: toml::Table = toml::from_str(&once).unwrap();
    assert_eq!(table.keys().collect::<Vec<_>>(), ["a", "api_key", "n"]);
    assert_eq!(table["api_key"].as_str(), Some("k"));
    assert_eq!(table["n"].as_integer(), Some(4));
    assert!(table["a"].is_datetime());
    assert_ne!(set(once.clone()), once);
}

#[test]
fn too_many_quotes_in_a_row_are_refused() {
    let set = |content: Option<String>, text: String| {
        write_config_key(&content, "api_key", Some(Setting::Text(text)))
    };
    for quote in ["'", "\""] {
        let most = quote.repeat(255);
        let apart = format!("{}-{}", most, most);
        let text = set(None, apart.clone()).unwrap();
        let table: toml::Table = toml::from_str(&text).unwrap();
        assert_eq!(table["api_key"].as_str(), Some(apart.as_str()));
        assert_eq!(set(None, quote.repeat(256)), Err("too many quotes in a row".to_string()));
        assert_eq!(
            set(None, format!("a\\{}b", quote.repeat(300))),
            Err("too many quotes in a row".to_string())
        );
    }
    let nested = format!("[a]\nb = [[\"{}\"]]\n", "\\\"".repeat(256));
    assert_eq!(set(Some(nested), "k".to_string()), Err("too many quotes in a row".to_string()));
    assert!(set(None, "\\\"".repeat(300)).is_ok());
    assert!(set(None, "'\"".repeat(300)).is_ok());
    assert!(json_shows_too_many_quotes(&"'".repeat(256)));
    assert!(json_shows_too_many_quotes(&"\\\"".repeat(256)));
    assert!(!json_shows_too_many_quotes(&"\"".repeat(999)));
    assert!(!json_shows_too_many_quotes(""));
}

#[test]
fn unreadable_settings_are_replaced() {
    let text = write_config_key(&Some("= =".to_string()), "count", Some(Setting::Number(1))).unwrap();
    assert_eq!(text, "count = 1\n");
    assert_eq!(
        saved_status("/c.toml", &Ok(())),
        "Saved to /c.toml. Restart the app to fully apply."
    );
    assert_eq!(
        saved_status("/c.toml", &Err("full".to_string())),
        "Failed to save config: full"
    );
}
