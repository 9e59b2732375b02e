//! The file with the settings of the analysis.

use crate::text::chars_of;
use vstd::prelude::*;
use vstd::string::*;

verus! {

#[verifier::external_type_specification]
#[verifier::external_body]
#[verifier::reject_recursive_types(K)]
#[verifier::reject_recursive_types(V)]
pub struct ExTomlMap<K, V>(toml::map::Map<K, V>);

#[verifier::external_type_specification]
#[verifier::external_body]
pub struct ExTomlValue(toml::Value);

/// A value of a setting.
#[derive(Clone, Debug)]
pub enum Setting {
    Text(String),
    Flag(bool),
    Number(i64),
}

/// What the file says of a setting.
pub enum Entry {
    Text(Seq<char>),
    Flag(bool),
    Number(int),
    /// Anything else, as it is written out in full, and whether a name or a text
    /// in it has too many quotes in a row.
    Other { text: Seq<char>, too_many_quotes: bool },
}

/// Equal quotes in a row that are too many to be written.
pub const TOO_MANY_QUOTES: usize = 256;

/// From `at` on, `n` characters are `even` and `odd` in turn.
pub open spec fn alternates(text: Seq<char>, at: int, n: int, even: char, odd: char) -> bool {
    &&& 0 <= at
    &&& at + n <= text.len()
    &&& forall|k: int|
        at <= k < at + n ==> #[trigger] text[k] == (if (k - at) % 2 == 0 {
            even
        } else {
            odd
        })
}

/// Somewhere `n` characters are `even` and `odd` in turn.
pub open spec fn has_alternation(text: Seq<char>, n: int, even: char, odd: char) -> bool {
    exists|at: int| #[trigger] alternates(text, at, n, even, odd)
}

/// A text has too many equal quotes in a row.
pub open spec fn has_too_many_quotes(text: Seq<char>) -> bool {
    ||| has_alternation(text, TOO_MANY_QUOTES as int, '\'', '\'')
    ||| has_alternation(text, TOO_MANY_QUOTES as int, '"', '"')
}

/// A name or a text among the settings has too many equal quotes in a row.
pub open spec fn have_too_many_quotes(entries: Map<Seq<char>, Entry>) -> bool {
    exists|key: Seq<char>| #[trigger]
        entries.contains_key(key) && (has_too_many_quotes(key) || match entries[key] {
            Entry::Text(text) => has_too_many_quotes(text),
            Entry::Other { too_many_quotes, .. } => too_many_quotes,
            _ => false,
        })
}

/// A JSON text shows too many equal quotes in a row. A double quote within a
/// string stands behind a backslash there.
pub open spec fn shows_too_many_quotes(json: Seq<char>) -> bool {
    ||| has_alternation(json, TOO_MANY_QUOTES as int, '\'', '\'')
    ||| has_alternation(json, 2 * TOO_MANY_QUOTES as int, '\\', '"')
}

/// The character at `k` where `even` and `odd` stand in turn.
fn in_turn(k: usize, even: char, odd: char) -> (c: char)
    ensures
        c == (if k % 2 == 0 {
            even
        } else {
            odd
        }),
{
    if k % 2 == 0 {
        even
    } else {
        odd
    }
}

/// Whether somewhere `n` characters are `even` and `odd` in turn.
fn find_alternation(chars: &Vec<char>, n: usize, even: char, odd: char) -> (b: bool)
    requires
        0 < n,
    ensures
        b == has_alternation(chars@, n as int, even, odd),
{
    let mut at: usize = 0;
    while at < chars.len()
        invariant
            at <= chars.len(),
            0 < n,
            forall|i: int| 0 <= i < at ==> !#[trigger] alternates(chars@, i, n as int, even, odd),
        decreases chars.len() - at,
    {
        let mut k: usize = 0;
        while k < n && k < chars.len() - at && chars[at + k] == in_turn(k, even, odd)
            invariant
                at < chars.len(),
                k <= n,
                k <= chars.len() - at,
                forall|j: int|
                    at <= j < at + k ==> #[trigger] chars@[j] == (if (j - at) % 2 == 0 {
                        even
                    } else {
                        odd
                    }),
            decreases n - k,
        {
            k += 1;
        }
        if k == n {
            assert(alternates(chars@, at as int, n as int, even, odd));
            return true;
        }
        proof {
            if alternates(chars@, at as int, n as int, even, odd) {
                assert(chars@[at + k] == (if (at + k - at) % 2 == 0 {
                    even
                } else {
                    odd
                }));
            }
        }
        at += 1;
    }
    false
}

/// Whether a JSON text shows too many equal quotes in a row.
pub fn json_shows_too_many_quotes(json: &str) -> (b: bool)
    ensures
        b == shows_too_many_quotes(json@),
{
    let chars = chars_of(json);
    find_alternation(&chars, TOO_MANY_QUOTES, '\'', '\'') || find_alternation(
        &chars,
        2 * TOO_MANY_QUOTES,
        '\\',
        '"',
    )
}

/// What a setting is written as.
pub open spec fn entry_of(setting: Setting) -> Entry {
    match setting {
        Setting::Text(s) => Entry::Text(s@),
        Setting::Flag(b) => Entry::Flag(b),
        Setting::Number(n) => Entry::Number(n as int),
    }
}

/// No settings.
pub open spec fn no_settings() -> Map<Seq<char>, Entry> {
    Map::empty()
}

/// The settings at the top of a table.
pub uninterp spec fn config_entries(table: toml::map::Map<String, toml::Value>) -> Map<
    Seq<char>,
    Entry,
>;

/// The settings at the top of the file that a text is, where it is one.
pub uninterp spec fn config_in(text: Seq<char>) -> Option<Map<Seq<char>, Entry>>;

/// The text holds settings of the same names, if it can be read, and among them
/// the same texts, flags and numbers.
pub open spec fn holds_settings(text: Seq<char>, entries: Map<Seq<char>, Entry>) -> bool {
    config_in(text) matches Some(found) ==> {
        &&& found.dom() == entries.dom()
        &&& forall|key: Seq<char>| #[trigger]
            entries.contains_key(key) && !(entries[key] is Other) ==> found[key] == entries[key]
    }
}

/// The table that a text holds, by [`toml::from_str`]. The same text always
/// holds the same settings; which texts are a file is left to the parser.
#[verifier::external_body]
fn parse_config(text: &str) -> (table: Option<toml::map::Map<String, toml::Value>>)
    ensures
        match table {
            Some(t) => config_in(text@) == Some(config_entries(t)),
            None => config_in(text@) is None,
        },
{
    toml::from_str(text).ok()
}

/// A table without settings, by `new` of [`toml::map::Map`].
#[verifier::external_body]
fn empty_config() -> (fresh: toml::map::Map<String, toml::Value>)
    ensures
        config_entries(fresh) == no_settings(),
{
    toml::map::Map::new()
}

/// Sets a setting, by `insert` of [`toml::map::Map`]: the others stay as they
/// are.
#[verifier::external_body]
fn insert_setting(
    table: &mut toml::map::Map<String, toml::Value>,
    key: &str,
    setting: Setting,
)
    ensures
        config_entries(*final(table)) == config_entries(*old(table)).insert(
            key@,
            entry_of(setting),
        ),
{
    let value = match setting {
        Setting::Text(s) => toml::Value::String(s),
        Setting::Flag(b) => toml::Value::Boolean(b),
        Setting::Number(n) => toml::Value::Integer(n),
    };
    table.insert(key.to_string(), value);
}

/// Takes a setting out, by `remove` of [`toml::map::Map`]: the others stay as
/// they are.
#[verifier::external_body]
fn remove_setting(table: &mut toml::map::Map<String, toml::Value>, key: &str)
    ensures
        config_entries(*final(table)) == config_entries(*old(table)).remove(key@),
{
    table.remove(key);
}

/// The settings as a JSON object.
pub uninterp spec fn config_json(entries: Map<Seq<char>, Entry>) -> Seq<char>;

/// The table as JSON, by [`serde_json::to_string`], which writes every table. The
/// same settings always give the same text. All names and texts are in it, each
/// double quote of them behind a backslash and each single quote as it is: so too
/// many quotes in a row show exactly where a name or a text has them.
#[verifier::external_body]
fn json_of_config(table: &toml::map::Map<String, toml::Value>) -> (json: Option<String>)
    ensures
        json is Some,
        json->0@ == config_json(config_entries(*table)),
        shows_too_many_quotes(json->0@) == have_too_many_quotes(config_entries(*table)),
{
    serde_json::to_string(table).ok()
}

/// The text that settings are written as, where they can be.
pub uninterp spec fn config_text(entries: Map<Seq<char>, Entry>) -> Option<Seq<char>>;

/// The table as text, by [`toml::to_string_pretty`]. The same settings always
/// give the same text, and where the text can be read it has the same names, and
/// the same texts, flags and numbers under them. That it can always be read is not
/// said: the parser gives up on tables that are nested too deeply. Nor is it said
/// of other values that they are read as they were written: a table within can
/// have a name first that makes the parser take it for a date. Quotes in a row
/// are counted in eight bits, so there must not be too many of them.
#[verifier::external_body]
fn render_config(table: &toml::map::Map<String, toml::Value>) -> (text: Result<String, String>)
    requires
        !have_too_many_quotes(config_entries(*table)),
    ensures
        match text {
            Ok(t) => config_text(config_entries(*table)) == Some(t@),
            Err(_) => config_text(config_entries(*table)) is None,
        },
        text matches Ok(t) ==> holds_settings(t@, config_entries(*table)),
{
    toml::to_string_pretty(table).map_err(|e| e.to_string())
}

/// The settings in the content of the file: none, where it is missing or holds
/// anything else.
pub open spec fn settings_in(content: Option<String>) -> Map<Seq<char>, Entry> {
    match content {
        Some(text) => match config_in(text@) {
            Some(entries) => entries,
            None => no_settings(),
        },
        None => no_settings(),
    }
}

/// The settings with one of them set, or taken out.
pub open spec fn with_setting(
    entries: Map<Seq<char>, Entry>,
    key: Seq<char>,
    setting: Option<Setting>,
) -> Map<Seq<char>, Entry> {
    match setting {
        Some(s) => entries.insert(key, entry_of(s)),
        None => entries.remove(key),
    }
}

/// The content of the file with one setting set, or taken out where there is no
/// value. All other settings stay. Too many quotes in a row are refused.
pub fn write_config_key(content: &Option<String>, key: &str, setting: Option<Setting>) -> (text:
    Result<String, String>)
    ensures
        ({
            let entries = with_setting(settings_in(*content), key@, setting);
            match text {
                Ok(t) => !have_too_many_quotes(entries) && config_text(entries) == Some(t@),
                Err(e) => if have_too_many_quotes(entries) {
                    e@ == "too many quotes in a row"@
                } else {
                    config_text(entries) is None
                },
            }
        }),
        text matches Ok(t) ==> holds_settings(
            t@,
            with_setting(settings_in(*content), key@, setting),
        ),
{
    let parsed = match content {
        Some(text) => parse_config(text.as_str()),
        None => None,
    };
    let mut table = match parsed {
        Some(table) => table,
        None => empty_config(),
    };
    match setting {
        Some(s) => insert_setting(&mut table, key, s),
        None => remove_setting(&mut table, key),
    }
    if let Some(json) = json_of_config(&table) {
        if json_shows_too_many_quotes(json.as_str()) {
            return Err(String::from_str("too many quotes in a row"));
        }
    }
    render_config(&table)
}

/// What is shown when the file has been written, or not.
pub fn saved_status(path: &str, result: &Result<(), String>) -> (s: String)
    ensures
        s@ == (match result {
            Ok(_) => "Saved to "@ + path@ + ". Restart the app to fully apply."@,
            Err(e) => "Failed to save config: "@ + e@,
        }),
{
    match result {
        Ok(_) => String::from_str("Saved to ").concat(path).concat(
            ". Restart the app to fully apply.",
        ),
        Err(e) => String::from_str("Failed to save config: ").concat(e.as_str()),
    }
}

/// Where the written file can be read, the setting is found in it as it was set,
/// or not at all where it was taken out. The others are there as before, and what
/// is a text, a flag or a number among them is the same.
pub proof fn law_written_setting_is_read_back(
    text: Seq<char>,
    entries: Map<Seq<char>, Entry>,
    key: Seq<char>,
    setting: Option<Setting>,
    other: Seq<char>,
)
    requires
        holds_settings(text, with_setting(entries, key, setting)),
        config_in(text) is Some,
        other != key,
    ensures
        ({
            let found = config_in(text)->0;
            &&& match setting {
                Some(s) => found.contains_key(key) && found[key] == entry_of(s),
                None => !found.contains_key(key),
            }
            &&& found.contains_key(other) == entries.contains_key(other)
            &&& entries.contains_key(other) && !(entries[other] is Other) ==> found[other]
                == entries[other]
        }),
{
    let now = with_setting(entries, key, setting);
    let found = config_in(text)->0;
    assert(found.dom().contains(key) == now.dom().contains(key));
    assert(found.dom().contains(other) == now.dom().contains(other));
    if setting is Some {
        assert(now.contains_key(key));
    }
    if entries.contains_key(other) {
        assert(now.contains_key(other));
    }
}

/// Writing one setting changes no other.
pub proof fn law_other_settings_stay(
    entries: Map<Seq<char>, Entry>,
    key: Seq<char>,
    setting: Option<Setting>,
    other: Seq<char>,
)
    requires
        other != key,
    ensures
        with_setting(entries, key, setting).contains_key(other) == entries.contains_key(other),
        entries.contains_key(other) ==> with_setting(entries, key, setting)[other]
            == entries[other],
{
}

/// A setting that is set has the value that was given, of its own kind. One that is
/// taken out is not there. A file that is missing has none.
pub proof fn law_settings_have_their_value(
    entries: Map<Seq<char>, Entry>,
    key: Seq<char>,
    text: String,
    flag: bool,
    number: i64,
)
    ensures
        with_setting(entries, key, Some(Setting::Text(text)))[key] == Entry::Text(text@),
        with_setting(entries, key, Some(Setting::Flag(flag)))[key] == Entry::Flag(flag),
        with_setting(entries, key, Some(Setting::Number(number)))[key] == Entry::Number(
            number as int,
        ),
        with_setting(entries, key, Some(Setting::Flag(flag))).contains_key(key),
        !with_setting(entries, key, None).contains_key(key),
        forall|k: Seq<char>| !(#[trigger] settings_in(None).contains_key(k)),
{
}

/// A run of 256 equal quotes is too long, wherever it stands, and a text shorter than
/// that has none.
pub proof fn law_long_runs_of_quotes_are_found(text: Seq<char>, at: int)
    ensures
        0 <= at && at + 256 <= text.len() && (forall|k: int|
            at <= k < at + 256 ==> #[trigger] text[k] == '"') ==> has_too_many_quotes(text),
        0 <= at && at + 256 <= text.len() && (forall|k: int|
            at <= k < at + 256 ==> #[trigger] text[k] == '\'') ==> has_too_many_quotes(text),
        text.len() < 256 ==> !has_too_many_quotes(text),
{
    if 0 <= at && at + 256 <= text.len() {
        if forall|k: int| at <= k < at + 256 ==> #[trigger] text[k] == '"' {
            assert(alternates(text, at, 256, '"', '"'));
        }
        if forall|k: int| at <= k < at + 256 ==> #[trigger] text[k] == '\'' {
            assert(alternates(text, at, 256, '\'', '\''));
        }
    }
}

} // verus!
