//! Requests to the trading post: addresses, retries, and what replies mean.
//!
//! The requests themselves are made by the caller. Each reply is handed to a
//! function that decides what comes next.

use crate::api::ItemListings;
use crate::text::{
    chars_of, contains_text, decimal, find_text, first_non_white, first_occurrence, has_text,
    is_blank, is_white, join, join_texts, law_decimal_reads_back, law_parts_are_joined_in_order,
    lemma_first_char_is_unique, occurs_at, optional_text, parse_number, starts_with_after_white, text_of, texts, to_decimal, truncate, truncated, unsigned_number,
};
use vstd::prelude::*;
use vstd::string::*;

verus! {

/// Requests that are on their way at a time.
pub const PARALLEL_REQUESTS: usize = 10;

/// Entries on a page.
pub const MAX_PAGE_SIZE: u32 = 200;

/// Ids in one request. More of them are an error.
pub const MAX_ITEM_ID_LENGTH: usize = 200;

/// How often an address is tried before it is given up.
pub const MAX_ATTEMPTS: u32 = 4;

/// Address of the interface.
pub open spec fn base_url() -> Seq<char> {
    "https://api.guildwars2.com/v2/"@
}

/// Address of a page, with the language where one is set.
pub open spec fn page_address(
    path: Seq<char>,
    lang: Option<Seq<char>>,
    page_no: nat,
) -> Seq<char> {
    let query = "page="@ + decimal(page_no) + "&page_size="@ + decimal(MAX_PAGE_SIZE as nat);
    base_url() + path + "?"@ + (match lang {
        Some(code) => "lang="@ + code + "&"@ + query,
        None => query,
    })
}

/// Address of page `page_no`.
pub fn page_url(path: &str, lang: &Option<String>, page_no: usize) -> (url: String)
    ensures
        url@ == page_address(path@, optional_text(*lang), page_no as nat),
{
    let query = String::from_str("page=").concat(to_decimal(page_no as u64).as_str()).concat(
        "&page_size=",
    ).concat(to_decimal(MAX_PAGE_SIZE as u64).as_str());
    let url = String::from_str("https://api.guildwars2.com/v2/").concat(path).concat("?");
    match lang {
        Some(code) => url.concat("lang=").concat(code.as_str()).concat("&").concat(
            query.as_str(),
        ),
        None => url.concat(query.as_str()),
    }
}

/// What is shown when a page is asked for: the address, and how far along it is
/// where the number of pages is known.
pub open spec fn page_notice_text(
    url: Seq<char>,
    page_no: nat,
    page_total: Option<nat>,
) -> Seq<char> {
    match page_total {
        Some(total) => url + " ["@ + decimal(page_no + 1) + "/"@ + decimal(total) + "]"@,
        None => url,
    }
}

/// What is shown when page `page_no` is asked for.
pub fn page_notice(url: &str, page_no: usize, page_total: Option<usize>) -> (s: String)
    requires
        page_no < usize::MAX,
    ensures
        s@ == page_notice_text(
            url@,
            page_no as nat,
            match page_total {
                Some(total) => Some(total as nat),
                None => None,
            },
        ),
{
    match page_total {
        Some(total) => String::from_str(url).concat(" [").concat(
            to_decimal((page_no + 1) as u64).as_str(),
        ).concat("/").concat(to_decimal(total as u64).as_str()).concat("]"),
        None => String::from_str(url),
    }
}

/// The part of a page's notice that tells the pages apart: what stands between
/// the address of the prices and the page size.
pub fn page_label(notice: &str) -> (s: String)
    requires
        notice@.len() >= 65,
    ensures
        s@ == notice@.subrange(51, notice@.len() - 14),
{
    let chars = chars_of(notice);
    text_of(&chars, 51, chars.len() - 65)
}

/// The pages behind the first one. One page more than there were is asked for,
/// in case pages are added meanwhile.
pub fn remaining_pages(page_total: usize) -> (pages: Vec<usize>)
    requires
        page_total < usize::MAX,
    ensures
        pages@ == Seq::new(page_total as nat, |i: int| (i + 1) as usize),
{
    let mut pages: Vec<usize> = Vec::new();
    let mut page_no: usize = 1;
    while page_no <= page_total
        invariant
            1 <= page_no <= page_total + 1,
            page_total < usize::MAX,
            pages@ == Seq::new((page_no - 1) as nat, |i: int| (i + 1) as usize),
        decreases page_total + 1 - page_no,
    {
        pages.push(page_no);
        page_no += 1;
        assert(pages@ =~= Seq::new((page_no - 1) as nat, |i: int| (i + 1) as usize));
    }
    pages
}

/// The ids in batches that one request can hold: all full but for the last.
pub open spec fn are_batches(batches: Seq<Vec<u32>>, ids: Seq<u32>) -> bool {
    let size = MAX_ITEM_ID_LENGTH as int;
    &&& batches.len() == (ids.len() + size - 1) / size
    &&& forall|k: int|
        0 <= k < batches.len() ==> (#[trigger] batches[k])@ == ids.subrange(
            k * size,
            if (k + 1) * size <= ids.len() {
                (k + 1) * size
            } else {
                ids.len() as int
            },
        )
}

/// Splits the ids into batches.
pub fn id_batches(ids: &Vec<u32>) -> (batches: Vec<Vec<u32>>)
    ensures
        are_batches(batches@, ids@),
{
    let mut batches: Vec<Vec<u32>> = Vec::new();
    let mut done: usize = 0;
    let ghost size = MAX_ITEM_ID_LENGTH as int;
    while done < ids.len()
        invariant
            size == MAX_ITEM_ID_LENGTH,
            done <= ids.len(),
            done < ids.len() ==> done == batches.len() * size,
            batches.len() == (done + size - 1) / size,
            forall|k: int|
                0 <= k < batches.len() ==> (#[trigger] batches@[k])@ == ids@.subrange(
                    k * size,
                    if (k + 1) * size <= ids@.len() {
                        (k + 1) * size
                    } else {
                        ids@.len() as int
                    },
                ),
        decreases ids.len() - done,
    {
        let end: usize = if ids.len() - done <= MAX_ITEM_ID_LENGTH {
            ids.len()
        } else {
            done + MAX_ITEM_ID_LENGTH
        };
        let mut batch: Vec<u32> = Vec::new();
        let mut i: usize = done;
        while i < end
            invariant
                done <= i <= end <= ids.len(),
                batch@ == ids@.subrange(done as int, i as int),
            decreases end - i,
        {
            batch.push(ids[i]);
            i += 1;
            assert(batch@ =~= ids@.subrange(done as int, i as int));
        }
        batches.push(batch);
        done = end;
    }
    batches
}

/// Cutting ids into batches loses none and changes no order.
pub proof fn law_batches_hold_all_ids(batches: Seq<Vec<u32>>, ids: Seq<u32>, i: int)
    requires
        are_batches(batches, ids),
        0 <= i < ids.len(),
    ensures
        0 <= i / (MAX_ITEM_ID_LENGTH as int) < batches.len(),
        0 <= i % (MAX_ITEM_ID_LENGTH as int) < batches[i / (MAX_ITEM_ID_LENGTH as int)]@.len(),
        batches[i / (MAX_ITEM_ID_LENGTH as int)]@[i % (MAX_ITEM_ID_LENGTH as int)] == ids[i],
{
}

/// No batch is empty or larger than one request can hold.
pub proof fn law_batches_fit(batches: Seq<Vec<u32>>, ids: Seq<u32>, k: int)
    requires
        are_batches(batches, ids),
        0 <= k < batches.len(),
    ensures
        1 <= batches[k]@.len() <= MAX_ITEM_ID_LENGTH,
{
}

/// The ids in decimal notation.
pub open spec fn decimals(ids: Seq<u32>) -> Seq<Seq<char>> {
    ids.map_values(|id: u32| decimal(id as nat))
}

/// Address of a batch.
pub open spec fn ids_address(path: Seq<char>, ids: Seq<u32>) -> Seq<char> {
    base_url() + path + "?ids="@ + join(decimals(ids), ","@)
}

/// The ids in decimal notation.
pub fn to_decimals(ids: &Vec<u32>) -> (parts: Vec<String>)
    ensures
        texts(parts@) == decimals(ids@),
{
    let mut parts: Vec<String> = Vec::new();
    let mut i: usize = 0;
    while i < ids.len()
        invariant
            i <= ids.len(),
            texts(parts@) == decimals(ids@.take(i as int)),
        decreases ids.len() - i,
    {
        let ghost before = parts@;
        parts.push(to_decimal(ids[i] as u64));
        proof {
            assert(texts(parts@) =~= texts(before).push(decimal(ids@[i as int] as nat)));
            assert(decimals(ids@.take(i + 1)) =~= decimals(ids@.take(i as int)).push(
                decimal(ids@[i as int] as nat),
            ));
        }
        i += 1;
    }
    assert(ids@.take(i as int) =~= ids@);
    parts
}

/// Address of a batch.
pub fn ids_url(path: &str, ids: &Vec<u32>) -> (url: String)
    ensures
        url@ == ids_address(path@, ids@),
{
    let list = join_texts(&to_decimals(ids), ",");
    String::from_str("https://api.guildwars2.com/v2/").concat(path).concat("?ids=").concat(
        list.as_str(),
    )
}

/// What is shown when a batch is asked for. A batch that is the only one is not
/// announced here.
pub fn batch_notice(url: &str, batch_no: usize, total_batches: usize) -> (s: Option<String>)
    requires
        batch_no < usize::MAX,
    ensures
        match s {
            Some(s) => total_batches > 1 && s@ == url@ + " [batch "@ + decimal(
                (batch_no + 1) as nat,
            ) + "/"@ + decimal(total_batches as nat) + "]"@,
            None => total_batches <= 1,
        },
{
    if total_batches > 1 {
        Some(
            String::from_str(url).concat(" [batch ").concat(
                to_decimal((batch_no + 1) as u64).as_str(),
            ).concat("/").concat(to_decimal(total_batches as u64).as_str()).concat("]"),
        )
    } else {
        None
    }
}

/// Address of the recipes that an account has unlocked, up to the key.
pub open spec fn account_base() -> Seq<char> {
    "https://api.guildwars2.com/v2/account/recipes?access_token="@
}

/// Address of the recipes that the account of the key has unlocked.
pub fn account_recipes_url(key: &str) -> (url: String)
    ensures
        url@ == account_base() + key@,
{
    String::from_str("https://api.guildwars2.com/v2/account/recipes?access_token=").concat(key)
}

/// The same address as it is shown, without the key.
pub fn account_recipes_notice() -> (s: String)
    ensures
        s@ == account_base() + "<api-key>"@,
{
    String::from_str("https://api.guildwars2.com/v2/account/recipes?access_token=").concat(
        "<api-key>",
    )
}

/// What is shown of asking for the recipes of an account: the address without the
/// key, once, and nothing where the reply is in the cache.
pub open spec fn account_shown(in_cache: bool) -> Seq<Seq<char>> {
    if in_cache {
        Seq::empty()
    } else {
        seq![account_base() + "<api-key>"@]
    }
}

/// How to come by the recipes of an account.
pub enum AccountStep {
    /// Take the reply in the cache.
    TakeCached,
    /// Show the line, and ask the server.
    Ask(String),
}

impl AccountStep {
    /// The lines that the step shows.
    pub open spec fn shows(self) -> Seq<Seq<char>> {
        match self {
            AccountStep::TakeCached => Seq::empty(),
            AccountStep::Ask(line) => seq![line@],
        }
    }
}

/// Decides how to come by the recipes of an account.
pub fn account_step(in_cache: bool) -> (step: AccountStep)
    ensures
        (step is TakeCached) == in_cache,
        step.shows() == account_shown(in_cache),
{
    if in_cache {
        AccountStep::TakeCached
    } else {
        AccountStep::Ask(account_recipes_notice())
    }
}

/// Asking for the recipes of an account shows at most one line, which is the same
/// whatever the key is, and none where the reply is in the cache.
pub proof fn law_account_is_shown_at_most_once(in_cache: bool)
    ensures
        account_shown(in_cache).len() <= 1,
        in_cache ==> account_shown(in_cache).len() == 0,
        forall|i: int|
            0 <= i < account_shown(in_cache).len() ==> #[trigger] account_shown(in_cache)[i]
                == account_base() + "<api-key>"@,
{
}

/// What stands in front of a key in an address.
pub open spec fn key_mark() -> Seq<char> {
    "access_token="@
}

/// Where `pat` first occurs.
pub open spec fn first_index(s: Seq<char>, pat: Seq<char>) -> int {
    choose|i: int| first_occurrence(s, pat, i)
}

/// The address without a key and what follows it.
pub open spec fn redacted(url: Seq<char>) -> Seq<char> {
    if contains_text(url, key_mark()) {
        url.take(first_index(url, key_mark())) + "access_token=<api-key>"@
    } else {
        url
    }
}

proof fn lemma_first_index(s: Seq<char>, pat: Seq<char>, i: int)
    requires
        first_occurrence(s, pat, i),
    ensures
        first_index(s, pat) == i,
        contains_text(s, pat),
{
    let j: int = first_index(s, pat);
    assert(first_occurrence(s, pat, j));
    assert(occurs_at(s, pat, i) && occurs_at(s, pat, j));
}

/// Takes the key out of an address before it is shown.
pub fn redact_url(url: &str) -> (s: String)
    ensures
        s@ == redacted(url@),
{
    match find_text(url, "access_token=") {
        Some(i) => {
            proof {
                lemma_first_index(url@, key_mark(), i as int);
            }
            let chars = chars_of(url);
            text_of(&chars, 0, i).concat("access_token=<api-key>")
        },
        None => String::from_str(url),
    }
}

/// Nothing of what follows the mark shows in a redacted address.
pub proof fn law_redaction_hides_the_key(front: Seq<char>, key: Seq<char>, other: Seq<char>)
    ensures
        redacted(front + key_mark() + key) == redacted(front + key_mark() + other),
        redacted(front + key_mark() + key).len() <= front.len() + "access_token=<api-key>"@.len(),
{
    let mark = key_mark();
    let a = front + mark + key;
    let b = front + mark + other;
    assert(occurs_at(a, mark, front.len() as int)) by {
        assert(a.subrange(front.len() as int, (front.len() + mark.len()) as int) =~= mark);
    }
    assert(occurs_at(b, mark, front.len() as int)) by {
        assert(b.subrange(front.len() as int, (front.len() + mark.len()) as int) =~= mark);
    }
    assert forall|i: int| 0 <= i <= front.len() implies occurs_at(a, mark, i) == occurs_at(
        b,
        mark,
        i,
    ) by {
        assert(a.subrange(i, i + mark.len()) =~= b.subrange(i, i + mark.len()));
    }
    lemma_some_first(a, mark, front.len() as int);
    lemma_some_first(b, mark, front.len() as int);
    let i: int = first_index(a, mark);
    let j: int = first_index(b, mark);
    assert(i == j);
    assert(a.take(i) =~= b.take(j));
}

proof fn lemma_some_first(s: Seq<char>, pat: Seq<char>, i: int)
    requires
        occurs_at(s, pat, i),
    ensures
        contains_text(s, pat),
        first_occurrence(s, pat, first_index(s, pat)),
        0 <= first_index(s, pat) <= i,
    decreases i,
{
    if exists|j: int| 0 <= j < i && occurs_at(s, pat, j) {
        let j: int = choose|j: int| 0 <= j < i && occurs_at(s, pat, j);
        lemma_some_first(s, pat, j);
    } else {
        assert(first_occurrence(s, pat, i));
        lemma_first_index(s, pat, i);
    }
}

/// Seconds to wait after a failed attempt, the first of which is number one: one
/// second, and twice as many each time, up to 64; or as many as the server asks
/// for, up to two minutes.
pub open spec fn backoff(failed_attempt: nat, retry_after: Option<nat>) -> nat {
    let doubled = vstd::arithmetic::power2::pow2(
        if failed_attempt == 0 {
            0
        } else if failed_attempt <= 7 {
            (failed_attempt - 1) as nat
        } else {
            6
        },
    );
    let asked = match retry_after {
        Some(secs) => if secs <= 120 {
            secs
        } else {
            120
        },
        None => 0,
    };
    if asked > doubled {
        asked
    } else {
        doubled
    }
}

/// Seconds to wait after the failed attempt.
pub fn backoff_secs(failed_attempt: u32, retry_after_secs: Option<u64>) -> (secs: u64)
    ensures
        secs == backoff(
            failed_attempt as nat,
            match retry_after_secs {
                Some(secs) => Some(secs as nat),
                None => None,
            },
        ),
{
    let n: u32 = if failed_attempt == 0 {
        0
    } else if failed_attempt <= 7 {
        failed_attempt - 1
    } else {
        6
    };
    let mut doubled: u64 = 1;
    let mut i: u32 = 0;
    assert(vstd::arithmetic::power2::pow2(0) == 1) by {
        vstd::arithmetic::power2::lemma2_to64();
    }
    while i < n
        invariant
            i <= n <= 6,
            doubled == vstd::arithmetic::power2::pow2(i as nat),
            doubled <= 64,
            i < n ==> doubled <= 32,
        decreases n - i,
    {
        proof {
            vstd::arithmetic::power2::lemma_pow2_unfold((i + 1) as nat);
            vstd::arithmetic::power2::lemma2_to64();
        }
        doubled = doubled * 2;
        i += 1;
    }
    let asked: u64 = match retry_after_secs {
        Some(secs) => if secs <= 120 {
            secs
        } else {
            120
        },
        None => 0,
    };
    if asked > doubled {
        asked
    } else {
        doubled
    }
}

/// A wait is never shorter than one second, and never longer than two minutes.
pub proof fn law_backoff_is_bounded(failed_attempt: nat, retry_after: Option<nat>)
    ensures
        1 <= backoff(failed_attempt, retry_after) <= 120,
{
    vstd::arithmetic::power2::lemma2_to64();
    if failed_attempt == 0 {
    } else if failed_attempt == 1 {
    } else if failed_attempt == 2 {
    } else if failed_attempt == 3 {
    } else if failed_attempt == 4 {
    } else if failed_attempt == 5 {
    } else if failed_attempt == 6 {
    }
}

/// Seconds that a `Retry-After` header asks for.
pub open spec fn asked_wait(header: Option<Seq<char>>) -> Option<nat> {
    match header {
        Some(value) => unsigned_number(value, u64::MAX as nat),
        None => None,
    }
}

/// Seconds that a `Retry-After` header asks for, where there is one that can be
/// read.
pub fn retry_after_secs(header: &Option<String>) -> (secs: Option<u64>)
    ensures
        match secs {
            Some(n) => asked_wait(optional_text(*header)) == Some(n as nat),
            None => asked_wait(optional_text(*header)) is None,
        },
{
    match header {
        Some(value) => parse_number(value.as_str(), u64::MAX),
        None => None,
    }
}

/// The server is overloaded or out of order for the moment.
pub open spec fn is_transient(status: u16) -> bool {
    status == 429 || 500 <= status < 600
}

/// The request was answered.
pub open spec fn is_success(status: u16) -> bool {
    200 <= status < 300
}

/// A body that is no data: an error page, or nothing at all.
pub open spec fn is_error_page(body: Seq<char>) -> bool {
    starts_with_after_white(body, '<') || is_blank(body)
}

/// Whether the body is no data.
fn looks_like_error_page(body: &str) -> (b: bool)
    ensures
        b == is_error_page(body@),
{
    match first_non_white(body) {
        Some(c) => {
            proof {
                lemma_first_char_is_unique(body@, c, '<');
            }
            c == '<'
        },
        None => true,
    }
}

/// Reply to a request, as far as it is read.
#[derive(Clone, Debug)]
pub enum Reply {
    /// None came; this is why.
    Lost(String),
    Response {
        status: u16,
        /// The status with its name.
        status_text: String,
        /// Value of the `Retry-After` header.
        retry_after: Option<String>,
        body: String,
    },
}

/// What one attempt came to: a value, a failure that another attempt may not
/// meet, or one that it would meet again.
#[derive(Clone, Debug)]
pub enum Attempt<T> {
    Value(T),
    Retry { detail: String, retry_after_secs: Option<u64> },
    Fatal(String),
}

/// What is said of a body that is not the data that was asked for.
pub open spec fn invalid_json_text(
    body: Seq<char>,
    bytes: nat,
    error: Seq<char>,
) -> Seq<char> {
    "invalid JSON ("@ + decimal(bytes) + " bytes): "@ + error + " (body: "@ + truncated(body, 300)
        + ")"@
}

/// Bytes of a text.
pub open spec fn byte_len(body: Seq<char>) -> nat {
    vstd::utf8::encode_utf8(body).len()
}

fn invalid_json(body: &str, error: &str) -> (s: String)
    ensures
        s@ == invalid_json_text(body@, byte_len(body@), error@),
{
    let bytes: usize = body.as_bytes().len();
    String::from_str("invalid JSON (").concat(to_decimal(bytes as u64).as_str()).concat(
        " bytes): ",
    ).concat(error).concat(" (body: ").concat(truncate(body, 300).as_str()).concat(")")
}

/// The attempt failed, and another one may not, after the wait that was asked
/// for.
pub open spec fn is_retry<T>(a: Attempt<T>, detail: Seq<char>, wait: Option<nat>) -> bool {
    match a {
        Attempt::Retry { detail: d, retry_after_secs } => d@ == detail && (match retry_after_secs {
            Some(n) => wait == Some(n as nat),
            None => wait is None,
        }),
        _ => false,
    }
}

/// The attempt failed for good.
pub open spec fn is_fatal<T>(a: Attempt<T>, detail: Seq<char>) -> bool {
    match a {
        Attempt::Fatal(d) => d@ == detail,
        _ => false,
    }
}

/// What a reply comes to. `explanation` is the text that the body of an error
/// carries, and `parsed` what reading the body gives.
pub open spec fn is_outcome_of<T>(
    a: Attempt<T>,
    reply: Reply,
    explanation: Option<Seq<char>>,
    parsed: Result<T, String>,
) -> bool {
    match reply {
        Reply::Lost(error) => is_retry(a, "request error: "@ + error@, None),
        Reply::Response { status, status_text, retry_after, body } => if is_transient(status) {
            is_retry(
                a,
                "HTTP "@ + status_text@ + " (body: "@ + truncated(body@, 200) + ")"@,
                asked_wait(optional_text(retry_after)),
            )
        } else if !is_success(status) {
            is_fatal(
                a,
                "HTTP "@ + status_text@ + ": "@ + (match explanation {
                    Some(text) => text,
                    None => truncated(body@, 300),
                }),
            )
        } else {
            match parsed {
                Ok(value) => a == Attempt::Value(value),
                Err(error) => {
                    let detail = invalid_json_text(body@, byte_len(body@), error@);
                    if is_error_page(body@) {
                        is_retry(a, detail, None)
                    } else {
                        is_fatal(a, detail)
                    }
                },
            }
        },
    }
}

/// Text under a key of the JSON object that a text is, where it is one with a
/// text under the key.
pub uninterp spec fn text_in_json(json: Seq<char>, key: Seq<char>) -> Option<Seq<char>>;

/// Text under a key of a JSON object.
///
/// [`serde_json::from_str`] parses the object, and `get` and `as_str` of
/// [`serde_json::Value`] pick the text. The same object and key always give the
/// same text; which texts are an object is left to the parser.
#[verifier::external_body]
fn json_text(json: &str, key: &str) -> (text: Option<String>)
    ensures
        optional_text(text) == text_in_json(json@, key@),
{
    let parsed: Option<serde_json::Value> = serde_json::from_str(json).ok();
    parsed.and_then(|v| v.get(key).and_then(|t| t.as_str()).map(str::to_string))
}

/// What the body of an error says of it.
pub open spec fn error_explanation(body: Seq<char>) -> Option<Seq<char>> {
    text_in_json(body, "text"@)
}

/// What a reply comes to, given the text that the body of an error carries.
pub fn outcome_with_explanation<T>(
    reply: Reply,
    explanation: Option<String>,
    parsed: Result<T, String>,
) -> (a: Attempt<T>)
    ensures
        is_outcome_of(a, reply, optional_text(explanation), parsed),
{
    match reply {
        Reply::Lost(error) => Attempt::Retry {
            detail: String::from_str("request error: ").concat(error.as_str()),
            retry_after_secs: None,
        },
        Reply::Response { status, status_text, retry_after, body } => {
            if status == 429 || (500 <= status && status < 600) {
                return Attempt::Retry {
                    detail: String::from_str("HTTP ").concat(status_text.as_str()).concat(
                        " (body: ",
                    ).concat(truncate(body.as_str(), 200).as_str()).concat(")"),
                    retry_after_secs: retry_after_secs(&retry_after),
                };
            }
            if !(200 <= status && status < 300) {
                let what = String::from_str("HTTP ").concat(status_text.as_str()).concat(": ");
                return match explanation {
                    Some(text) => Attempt::Fatal(what.concat(text.as_str())),
                    None => Attempt::Fatal(what.concat(truncate(body.as_str(), 300).as_str())),
                };
            }
            match parsed {
                Ok(value) => Attempt::Value(value),
                Err(error) => {
                    let detail = invalid_json(body.as_str(), error.as_str());
                    if looks_like_error_page(body.as_str()) {
                        Attempt::Retry { detail, retry_after_secs: None }
                    } else {
                        Attempt::Fatal(detail)
                    }
                },
            }
        },
    }
}

/// What a reply comes to. Lost replies, an overloaded or failing server, and
/// error pages in place of data are worth another attempt. `parsed` is what
/// reading the body gives.
pub fn try_fetch<T>(reply: Reply, parsed: Result<T, String>) -> (a: Attempt<T>)
    ensures
        is_outcome_of(
            a,
            reply,
            match reply {
                Reply::Response { body, .. } => error_explanation(body@),
                _ => None,
            },
            parsed,
        ),
{
    let explanation: Option<String> = match &reply {
        Reply::Response { body, .. } => json_text(body.as_str(), "text"),
        _ => None,
    };
    outcome_with_explanation(reply, explanation, parsed)
}

/// What comes after an attempt.
#[derive(Clone, Debug)]
pub enum FetchStep<T> {
    Done(T),
    /// Wait so many seconds, then try again.
    Wait(u64),
    Fail(String),
}

/// What is said when all attempts have failed.
pub open spec fn failed_text(url: Seq<char>, detail: Seq<char>) -> Seq<char> {
    "GET "@ + redacted(url) + " failed after "@ + decimal(MAX_ATTEMPTS as nat) + " attempts: "@
        + detail
}

fn failed_message(url: &str, detail: &str) -> (s: String)
    ensures
        s@ == failed_text(url@, detail@),
{
    String::from_str("GET ").concat(redact_url(url).as_str()).concat(" failed after ").concat(
        to_decimal(MAX_ATTEMPTS as u64).as_str(),
    ).concat(" attempts: ").concat(detail)
}

/// Another attempt is made after a wait, unless this was the last one.
pub open spec fn is_retry_step<T>(
    step: FetchStep<T>,
    attempt: u32,
    url: Seq<char>,
    detail: Seq<char>,
    wait: Option<nat>,
) -> bool {
    match step {
        FetchStep::Done(_) => false,
        FetchStep::Wait(secs) => attempt < MAX_ATTEMPTS && secs == backoff(attempt as nat, wait),
        FetchStep::Fail(message) => attempt >= MAX_ATTEMPTS && message@ == failed_text(
            url,
            detail,
        ),
    }
}

fn retry_step<T>(attempt: u32, url: &str, detail: &str, wait: Option<u64>) -> (step: FetchStep<T>)
    ensures
        is_retry_step(
            step,
            attempt,
            url@,
            detail@,
            match wait {
                Some(n) => Some(n as nat),
                None => None,
            },
        ),
{
    if attempt < MAX_ATTEMPTS {
        FetchStep::Wait(backoff_secs(attempt, wait))
    } else {
        FetchStep::Fail(failed_message(url, detail))
    }
}

/// Decides what comes after the attempt with the number `attempt`, counted from
/// one.
pub fn next_fetch_step<T>(attempt: u32, url: &str, outcome: Attempt<T>) -> (step: FetchStep<T>)
    ensures
        match outcome {
            Attempt::Value(value) => step == FetchStep::Done(value),
            Attempt::Retry { detail, retry_after_secs } => is_retry_step(
                step,
                attempt,
                url@,
                detail@,
                match retry_after_secs {
                    Some(n) => Some(n as nat),
                    None => None,
                },
            ),
            Attempt::Fatal(detail) => match step {
                FetchStep::Fail(message) => message@ == "GET "@ + redacted(url@) + ": "@ + detail@,
                _ => false,
            },
        },
{
    match outcome {
        Attempt::Value(value) => FetchStep::Done(value),
        Attempt::Retry { detail, retry_after_secs } => retry_step(
            attempt,
            url,
            detail.as_str(),
            retry_after_secs,
        ),
        Attempt::Fatal(detail) => FetchStep::Fail(
            String::from_str("GET ").concat(redact_url(url).as_str()).concat(": ").concat(
                detail.as_str(),
            ),
        ),
    }
}

/// Reply to a request for a page, before its body is read.
#[derive(Clone, Debug)]
pub enum PageReply {
    /// None came; this is why.
    Lost(String),
    Response {
        status: u16,
        /// The status with its name.
        status_text: String,
        /// Value of the `X-Page-Total` header.
        page_total: Option<String>,
        /// Value of the `Retry-After` header.
        retry_after: Option<String>,
    },
}

/// What comes after a reply.
#[derive(Clone, Debug)]
pub enum PageStep {
    /// Read the body. The number of pages is known now.
    Read { page_total: usize },
    /// Wait so many seconds, then try again.
    Wait(u64),
    Fail(String),
}

/// Another attempt is made after a wait, unless this was the last one.
pub open spec fn is_page_retry(
    step: PageStep,
    attempt: u32,
    url: Seq<char>,
    detail: Seq<char>,
    wait: Option<nat>,
) -> bool {
    match step {
        PageStep::Read { .. } => false,
        PageStep::Wait(secs) => attempt < MAX_ATTEMPTS && secs == backoff(attempt as nat, wait),
        PageStep::Fail(message) => attempt >= MAX_ATTEMPTS && message@ == failed_text(url, detail),
    }
}

/// Number of pages that a header gives.
pub open spec fn pages_given(header: Option<Seq<char>>) -> Option<nat> {
    match header {
        Some(value) => unsigned_number(value, usize::MAX as nat),
        None => None,
    }
}

/// What comes after a reply to the attempt with the number `attempt`, where
/// `known` is the number of pages that an earlier reply gave.
pub open spec fn is_step_after_reply(
    step: PageStep,
    attempt: u32,
    url: Seq<char>,
    known: Option<usize>,
    reply: PageReply,
) -> bool {
    match reply {
        PageReply::Lost(error) => is_page_retry(
            step,
            attempt,
            url,
            "request error: "@ + error@,
            None,
        ),
        PageReply::Response { status, status_text, page_total, retry_after } => {
            let wait = asked_wait(optional_text(retry_after));
            if is_transient(status) {
                is_page_retry(step, attempt, url, "HTTP "@ + status_text@, wait)
            } else {
                match (known, pages_given(optional_text(page_total))) {
                    (Some(total), _) => step == (PageStep::Read { page_total: total }),
                    (None, Some(total)) => step == (PageStep::Read { page_total: total as usize }),
                    (None, None) => is_page_retry(
                        step,
                        attempt,
                        url,
                        "missing X-Page-Total header (HTTP "@ + status_text@ + ")"@,
                        wait,
                    ),
                }
            }
        },
    }
}

fn page_retry(attempt: u32, url: &str, detail: &str, wait: Option<u64>) -> (step: PageStep)
    ensures
        is_page_retry(
            step,
            attempt,
            url@,
            detail@,
            match wait {
                Some(n) => Some(n as nat),
                None => None,
            },
        ),
{
    if attempt < MAX_ATTEMPTS {
        PageStep::Wait(backoff_secs(attempt, wait))
    } else {
        PageStep::Fail(failed_message(url, detail))
    }
}

/// Decides what comes after a reply to a request for a page.
pub fn page_step_after_reply(
    attempt: u32,
    url: &str,
    known_total: Option<usize>,
    reply: PageReply,
) -> (step: PageStep)
    ensures
        is_step_after_reply(step, attempt, url@, known_total, reply),
{
    match reply {
        PageReply::Lost(error) => page_retry(
            attempt,
            url,
            String::from_str("request error: ").concat(error.as_str()).as_str(),
            None,
        ),
        PageReply::Response { status, status_text, page_total, retry_after } => {
            let wait: Option<u64> = retry_after_secs(&retry_after);
            if status == 429 || (500 <= status && status < 600) {
                return page_retry(
                    attempt,
                    url,
                    String::from_str("HTTP ").concat(status_text.as_str()).as_str(),
                    wait,
                );
            }
            if let Some(total) = known_total {
                return PageStep::Read { page_total: total };
            }
            let given: Option<u64> = match &page_total {
                Some(value) => parse_number(value.as_str(), usize::MAX as u64),
                None => None,
            };
            match given {
                Some(total) => PageStep::Read { page_total: total as usize },
                None => page_retry(
                    attempt,
                    url,
                    String::from_str("missing X-Page-Total header (HTTP ").concat(
                        status_text.as_str(),
                    ).concat(")").as_str(),
                    wait,
                ),
            }
        },
    }
}

/// What comes after the body of a page has been read. A page behind the last
/// one has no entries.
pub open spec fn is_step_after_body<T>(
    step: FetchStep<Vec<T>>,
    attempt: u32,
    url: Seq<char>,
    body: Seq<char>,
    parsed: Result<Vec<T>, String>,
) -> bool {
    if contains_text(body, "page out of range"@) {
        step matches FetchStep::Done(entries) && entries@.len() == 0
    } else {
        match parsed {
            Ok(entries) => step == FetchStep::Done(entries),
            Err(error) => {
                let detail = invalid_json_text(body, byte_len(body), error@);
                if is_error_page(body) {
                    is_retry_step(step, attempt, url, detail, None)
                } else {
                    step matches FetchStep::Fail(message) && message@ == failed_text(url, detail)
                }
            },
        }
    }
}

/// Decides what comes after the body of a page has been read.
pub fn page_step_after_body<T>(
    attempt: u32,
    url: &str,
    body: &str,
    parsed: Result<Vec<T>, String>,
) -> (step: FetchStep<Vec<T>>)
    ensures
        is_step_after_body(step, attempt, url@, body@, parsed),
{
    if has_text(body, "page out of range") {
        return FetchStep::Done(Vec::new());
    }
    match parsed {
        Ok(entries) => FetchStep::Done(entries),
        Err(error) => {
            let detail = invalid_json(body, error.as_str());
            if looks_like_error_page(body) {
                retry_step(attempt, url, detail.as_str(), None)
            } else {
                FetchStep::Fail(failed_message(url, detail.as_str()))
            }
        },
    }
}

/// All entries of the pages, in their order, or the first error.
pub open spec fn pages_joined<T>(
    first: Seq<T>,
    rest: Seq<Result<Vec<T>, String>>,
) -> Result<Seq<T>, Seq<char>>
    decreases rest.len(),
{
    if rest.len() == 0 {
        Ok(first)
    } else {
        match pages_joined(first, rest.drop_last()) {
            Err(e) => Err(e),
            Ok(entries) => match rest.last() {
                Ok(page) => Ok(entries + page@),
                Err(e) => Err(e@),
            },
        }
    }
}

proof fn lemma_page_error_stays<T>(first: Seq<T>, rest: Seq<Result<Vec<T>, String>>, i: int)
    requires
        0 <= i <= rest.len(),
        pages_joined(first, rest.take(i)) is Err,
    ensures
        pages_joined(first, rest) == pages_joined(first, rest.take(i)),
    decreases rest.len(),
{
    if i < rest.len() {
        assert(rest.drop_last().take(i) =~= rest.take(i));
        lemma_page_error_stays(first, rest.drop_last(), i);
    } else {
        assert(rest.take(i) =~= rest);
    }
}

/// Joins the pages.
pub fn join_pages<T>(first: Vec<T>, rest: Vec<Result<Vec<T>, String>>) -> (res: Result<
    Vec<T>,
    String,
>)
    ensures
        match (res, pages_joined(first@, rest@)) {
            (Ok(entries), Ok(all)) => entries@ == all,
            (Err(e), Err(f)) => e@ == f,
            _ => false,
        },
{
    let ghost start = first@;
    let ghost all = rest@;
    let mut entries = first;
    assert(all.take(0) =~= Seq::empty());
    for page in it: rest
        invariant
            it.seq() == all,
            all == rest@,
            start == first@,
            pages_joined(start, all.take(it.index() as int)) == Ok::<Seq<T>, Seq<char>>(entries@),
    {
        proof {
            assert(all.take(it.index() + 1).drop_last() =~= all.take(it.index() as int));
            assert(all.take(it.index() + 1).last() == page);
        }
        match page {
            Ok(more) => {
                let mut more = more;
                entries.append(&mut more);
            },
            Err(e) => {
                proof {
                    lemma_page_error_stays(start, all, it.index() + 1);
                }
                return Err(e);
            },
        }
    }
    assert(all.take(all.len() as int) =~= all);
    Ok(entries)
}

/// A batch was refused because none of its ids is on the market.
pub open spec fn is_unknown_batch(error: Seq<char>) -> bool {
    contains_text(error, "all ids provided are invalid"@)
}

/// All entries of the batches, in their order, or the first error. Where
/// unknown batches are tolerated they add nothing.
pub open spec fn batches_joined<T>(
    batches: Seq<Result<Vec<T>, String>>,
    tolerate: bool,
) -> Result<Seq<T>, Seq<char>>
    decreases batches.len(),
{
    if batches.len() == 0 {
        Ok(Seq::empty())
    } else {
        match batches_joined(batches.drop_last(), tolerate) {
            Err(e) => Err(e),
            Ok(entries) => match batches.last() {
                Ok(batch) => Ok(entries + batch@),
                Err(e) => if tolerate && is_unknown_batch(e@) {
                    Ok(entries)
                } else {
                    Err(e@)
                },
            },
        }
    }
}

proof fn lemma_batch_error_stays<T>(batches: Seq<Result<Vec<T>, String>>, i: int, tolerate: bool)
    requires
        0 <= i <= batches.len(),
        batches_joined(batches.take(i), tolerate) is Err,
    ensures
        batches_joined(batches, tolerate) == batches_joined(batches.take(i), tolerate),
    decreases batches.len(),
{
    if i < batches.len() {
        assert(batches.drop_last().take(i) =~= batches.take(i));
        lemma_batch_error_stays(batches.drop_last(), i, tolerate);
    } else {
        assert(batches.take(i) =~= batches);
    }
}

/// Joins the batches.
pub fn join_batches<T>(batches: Vec<Result<Vec<T>, String>>, tolerate_invalid: bool) -> (res:
    Result<Vec<T>, String>)
    ensures
        match (res, batches_joined(batches@, tolerate_invalid)) {
            (Ok(entries), Ok(all)) => entries@ == all,
            (Err(e), Err(f)) => e@ == f,
            _ => false,
        },
{
    let ghost all = batches@;
    let mut entries: Vec<T> = Vec::new();
    assert(all.take(0) =~= Seq::empty());
    for batch in it: batches
        invariant
            it.seq() == all,
            all == batches@,
            batches_joined(all.take(it.index() as int), tolerate_invalid) == Ok::<
                Seq<T>,
                Seq<char>,
            >(entries@),
    {
        proof {
            assert(all.take(it.index() + 1).drop_last() =~= all.take(it.index() as int));
            assert(all.take(it.index() + 1).last() == batch);
        }
        match batch {
            Ok(more) => {
                let mut more = more;
                entries.append(&mut more);
            },
            Err(e) => {
                if !(tolerate_invalid && has_text(e.as_str(), "all ids provided are invalid")) {
                    proof {
                        lemma_batch_error_stays(all, it.index() + 1, tolerate_invalid);
                    }
                    return Err(e);
                }
            },
        }
    }
    assert(all.take(all.len() as int) =~= all);
    Ok(entries)
}

/// Turns every order book round, so that the best offers can be popped.
pub fn with_best_offers_last(listings: Vec<ItemListings>) -> (res: Vec<ItemListings>)
    ensures
        res@.len() == listings@.len(),
        forall|i: int|
            0 <= i < res@.len() ==> {
                &&& (#[trigger] res@[i]).id == listings@[i].id
                &&& res@[i].buys@ == listings@[i].buys@.reverse()
                &&& res@[i].sells@ == listings@[i].sells@.reverse()
            },
{
    let ghost all = listings@;
    let mut res: Vec<ItemListings> = Vec::new();
    for book in it: listings
        invariant
            it.seq() == all,
            all == listings@,
            res@.len() == it.index(),
            forall|i: int|
                0 <= i < res@.len() ==> {
                    &&& (#[trigger] res@[i]).id == all[i].id
                    &&& res@[i].buys@ == all[i].buys@.reverse()
                    &&& res@[i].sells@ == all[i].sells@.reverse()
                },
    {
        let mut book = book;
        book.best_offers_last();
        res.push(book);
    }
    res
}

/// The address of a page names its number and 200 entries to a page, behind the
/// language where one is set.
#[verifier::spinoff_prover]
pub proof fn law_pages_are_asked_for_by_number(
    path: Seq<char>,
    lang: Option<Seq<char>>,
    page_no: nat,
)
    ensures
        ("https://api.guildwars2.com/v2/"@ + path + "?"@).is_prefix_of(
            page_address(path, lang, page_no),
        ),
        ("page="@ + decimal(page_no) + "&page_size=200"@).is_suffix_of(
            page_address(path, lang, page_no),
        ),
        lang matches Some(code) ==> page_address(path, lang, page_no)
            == "https://api.guildwars2.com/v2/"@ + path + "?lang="@ + code + "&page="@ + decimal(
            page_no,
        ) + "&page_size=200"@,
{
    reveal_strlit("?");
    reveal_strlit("lang=");
    reveal_strlit("?lang=");
    reveal_strlit("&");
    reveal_strlit("page=");
    reveal_strlit("&page=");
    reveal_strlit("&page_size=");
    reveal_strlit("&page_size=200");
    reveal_with_fuel(decimal, 4);
    assert(decimal(200) =~= seq!['2', '0', '0']);
    let text = page_address(path, lang, page_no);
    let a = "https://api.guildwars2.com/v2/"@ + path + "?"@;
    let b = "page="@ + decimal(page_no) + "&page_size=200"@;
    let query = "page="@ + decimal(page_no) + "&page_size="@ + decimal(200);
    assert(query =~= b);
    assert(text.subrange(0, a.len() as int) =~= a);
    assert(text.subrange(text.len() - b.len(), text.len() as int) =~= b);
    if lang is Some {
        assert(text =~= "https://api.guildwars2.com/v2/"@ + path + "?lang="@ + lang->0 + "&page="@
            + decimal(page_no) + "&page_size=200"@);
    }
}

/// Pages are counted from one where they are shown, and no further than there are.
pub proof fn law_pages_are_shown_from_one(url: Seq<char>, page_no: nat, total: nat)
    ensures
        page_notice_text(url, page_no, None) == url,
        url.is_prefix_of(page_notice_text(url, page_no, Some(total))),
        (" ["@ + decimal(page_no + 1) + "/"@ + decimal(total) + "]"@).is_suffix_of(
            page_notice_text(url, page_no, Some(total)),
        ),
{
    let text = page_notice_text(url, page_no, Some(total));
    let b = " ["@ + decimal(page_no + 1) + "/"@ + decimal(total) + "]"@;
    assert(text.subrange(0, url.len() as int) =~= url);
    assert(text.subrange(text.len() - b.len(), text.len() as int) =~= b);
}

/// Every batch but the last has 200 ids, and the last has at most as many.
pub proof fn law_batches_are_full(batches: Seq<Vec<u32>>, ids: Seq<u32>, k: int)
    requires
        are_batches(batches, ids),
        0 <= k < batches.len(),
    ensures
        k < batches.len() - 1 ==> batches[k]@.len() == 200,
        1 <= batches[k]@.len() <= 200,
        200 * (batches.len() - 1) < ids.len() <= 200 * batches.len(),
        forall|i: int|
            0 <= i < batches[k]@.len() ==> #[trigger] batches[k]@[i] == ids[200 * k + i],
{
}

/// Ids stand behind one another in the address, with commas between them.
pub proof fn law_ids_are_listed_in_order(path: Seq<char>, ids: Seq<u32>, id: u32)
    ensures
        ids_address(path, seq![id]) == "https://api.guildwars2.com/v2/"@ + path + "?ids="@
            + decimal(id as nat),
        ids.len() > 0 ==> ids_address(path, ids.push(id)) == ids_address(path, ids) + ","@
            + decimal(id as nat),
{
    let part = decimal(id as nat);
    assert(decimals(seq![id]) =~= seq![part]);
    assert(decimals(ids.push(id)) =~= decimals(ids).push(part));
    assert(decimals(ids).len() == ids.len());
    law_parts_are_joined_in_order(decimals(ids), part, ","@);
    if ids.len() > 0 {
        assert(ids_address(path, ids.push(id)) =~= ids_address(path, ids) + ","@ + part);
    }
}

/// The wait doubles with each failure from one second on, up to 64 seconds. A server
/// that asks for more is heeded, up to two minutes.
pub proof fn law_waits_double(failed_attempt: nat, asked: nat)
    ensures
        backoff(1, None) == 1,
        1 <= failed_attempt <= 6 ==> backoff(failed_attempt + 1, None) == 2 * backoff(
            failed_attempt,
            None,
        ),
        failed_attempt >= 7 ==> backoff(failed_attempt, None) == 64,
        backoff(failed_attempt, Some(asked)) >= backoff(failed_attempt, None),
        asked <= 120 ==> backoff(failed_attempt, Some(asked)) >= asked,
        asked <= backoff(failed_attempt, None) ==> backoff(failed_attempt, Some(asked)) == backoff(
            failed_attempt,
            None,
        ),
        backoff(failed_attempt, None) <= asked <= 120 ==> backoff(failed_attempt, Some(asked))
            == asked,
        asked >= 120 ==> backoff(failed_attempt, Some(asked)) == 120,
{
    vstd::arithmetic::power2::lemma2_to64();
    law_backoff_is_bounded(failed_attempt, Some(asked));
    if failed_attempt == 0 {
    } else if failed_attempt == 1 {
    } else if failed_attempt == 2 {
    } else if failed_attempt == 3 {
    } else if failed_attempt == 4 {
    } else if failed_attempt == 5 {
    } else if failed_attempt == 6 {
    }
}

/// Too many requests and failures of the server are worth another attempt, and so is a
/// lost reply. Any other refusal is final. What was answered is a value if it can be
/// read.
pub proof fn law_status_decides<T>(
    a: Attempt<T>,
    reply: Reply,
    explanation: Option<Seq<char>>,
    parsed: Result<T, String>,
)
    requires
        is_outcome_of(a, reply, explanation, parsed),
    ensures
        reply is Lost ==> a is Retry,
        reply matches Reply::Response { status, retry_after, body, .. } ==> {
            &&& status == 429 || 500 <= status <= 599 ==> a is Retry
            &&& status != 429 && !(500 <= status <= 599) && !(200 <= status <= 299) ==> a is Fatal
            &&& 200 <= status <= 299 ==> (parsed matches Ok(value) ==> a == Attempt::Value(value))
            &&& 200 <= status <= 299 && parsed is Err && is_error_page(body@) ==> a is Retry
            &&& 200 <= status <= 299 && parsed is Err && !is_error_page(body@) ==> a is Fatal
            &&& (status == 429 || 500 <= status <= 599) && retry_after is None ==> (
            a matches Attempt::Retry { retry_after_secs, .. } && retry_after_secs is None)
            &&& (a is Value) ==> 200 <= status <= 299 && parsed is Ok
        },
{
}

/// A wait that the server asks for in seconds is taken as it stands in the header.
pub proof fn law_asked_wait_is_read(secs: nat)
    requires
        secs <= u64::MAX,
    ensures
        asked_wait(Some(decimal(secs))) == Some(secs),
        asked_wait(None) is None,
        pages_given(None) is None,
        secs <= usize::MAX ==> pages_given(Some(decimal(secs))) == Some(secs),
{
    law_decimal_reads_back(secs);
}

/// A body is no data exactly if nothing but white space stands in it, or a mark of a
/// page is the first thing that does.
pub proof fn law_error_pages_start_with_a_mark(body: Seq<char>, i: int)
    requires
        0 <= i < body.len(),
        !is_white(body[i]),
        forall|j: int| 0 <= j < i ==> is_white(#[trigger] body[j]),
    ensures
        is_error_page(body) <==> body[i] == '<',
        forall|blank: Seq<char>|
            (forall|j: int| 0 <= j < blank.len() ==> is_white(#[trigger] blank[j]))
                ==> #[trigger] is_error_page(blank),
{
    let c = body[i];
    assert(is_blank(body.take(i)));
    assert(starts_with_after_white(body, c));
    lemma_first_char_is_unique(body, c, '<');
}

/// Four attempts are made. Before each but the first there is a wait, and the fourth
/// failure is the last.
pub proof fn law_four_attempts_are_made<T>(
    step: FetchStep<T>,
    page_step: PageStep,
    attempt: u32,
    url: Seq<char>,
    detail: Seq<char>,
    wait: Option<nat>,
)
    requires
        is_retry_step(step, attempt, url, detail, wait),
        is_page_retry(page_step, attempt, url, detail, wait),
    ensures
        attempt < 4 ==> step is Wait && page_step is Wait,
        attempt >= 4 ==> step is Fail && page_step is Fail,
        step matches FetchStep::Wait(secs) ==> 1 <= secs <= 120,
        attempt == 1 && wait is None ==> (step matches FetchStep::Wait(secs) && secs == 1),
        attempt == 2 && wait is None ==> (step matches FetchStep::Wait(secs) && secs == 2),
        attempt == 3 && wait is None ==> (step matches FetchStep::Wait(secs) && secs == 4),
        step matches FetchStep::Fail(message) ==> detail.is_suffix_of(message@),
{
    law_backoff_is_bounded(attempt as nat, wait);
    law_waits_double(1, 0);
    law_waits_double(2, 0);
    let text = failed_text(url, detail);
    assert(text.subrange(text.len() - detail.len(), text.len() as int) =~= detail);
}

/// What is said of a failure does not show a key.
pub proof fn law_failures_hide_the_key(
    front: Seq<char>,
    key: Seq<char>,
    other: Seq<char>,
    detail: Seq<char>,
)
    ensures
        failed_text(front + "access_token="@ + key, detail) == failed_text(
            front + "access_token="@ + other,
            detail,
        ),
{
    law_redaction_hides_the_key(front, key, other);
}

/// An address without a key is shown as it is. Of one with a key everything before the
/// key is.
pub proof fn law_redaction_keeps_the_rest(url: Seq<char>, front: Seq<char>, key: Seq<char>)
    requires
        !contains_text(front + "access_token"@, "access_token="@),
    ensures
        !contains_text(url, "access_token="@) ==> redacted(url) == url,
        redacted(front + "access_token="@ + key) == front + "access_token=<api-key>"@,
{
    let mark = key_mark();
    let all = front + mark + key;
    assert(mark.len() > 0 && mark.drop_last() =~= "access_token"@) by {
        reveal_strlit("access_token");
        reveal_strlit("access_token=");
    }
    lemma_mark_found(front, mark, key);
    lemma_first_index(all, mark, front.len() as int);
    assert(all.take(front.len() as int) =~= front);
}

proof fn lemma_mark_found(front: Seq<char>, mark: Seq<char>, key: Seq<char>)
    requires
        mark.len() > 0,
        !contains_text(front + mark.drop_last(), mark),
    ensures
        first_occurrence(front + mark + key, mark, front.len() as int),
{
    let short = front + mark.drop_last();
    let all = front + mark + key;
    let n: int = front.len() as int;
    assert(all.subrange(n, n + mark.len()) =~= mark);
    assert forall|j: int| 0 <= j < n implies !#[trigger] occurs_at(all, mark, j) by {
        if occurs_at(all, mark, j) {
            assert(short.subrange(j, j + mark.len()) =~= all.subrange(j, j + mark.len()));
            assert(occurs_at(short, mark, j));
        }
    }
}

/// A reply is read once the number of pages is known, from an earlier reply or from this
/// one. A failing server, and a reply that does not give it, are asked again.
pub proof fn law_pages_are_read_once_counted(
    step: PageStep,
    attempt: u32,
    url: Seq<char>,
    known: Option<usize>,
    reply: PageReply,
)
    requires
        is_step_after_reply(step, attempt, url, known, reply),
    ensures
        reply is Lost ==> !(step is Read),
        reply matches PageReply::Response { status, page_total, .. } ==> {
            let failing = status == 429 || 500 <= status <= 599;
            &&& failing ==> !(step is Read)
            &&& !failing && known is Some ==> (step matches PageStep::Read { page_total: n }
                && Some(n) == known)
            &&& !failing && known is None ==> (step is Read <==> pages_given(
                optional_text(page_total),
            ) is Some)
        },
        step matches PageStep::Wait(secs) ==> attempt < 4,
{
}

/// A page behind the last one is empty, whatever else its body says. Any other body
/// gives the entries that it holds.
pub proof fn law_pages_behind_the_last_are_empty<T>(
    step: FetchStep<Vec<T>>,
    attempt: u32,
    url: Seq<char>,
    body: Seq<char>,
    parsed: Result<Vec<T>, String>,
)
    requires
        is_step_after_body(step, attempt, url, body, parsed),
    ensures
        contains_text(body, "page out of range"@) ==> (step matches FetchStep::Done(entries)
            && entries@.len() == 0),
        !contains_text(body, "page out of range"@) ==> (parsed matches Ok(entries) ==> step
            == FetchStep::Done(entries)),
        !contains_text(body, "page out of range"@) && parsed is Err ==> !(step is Done),
        step is Wait ==> is_error_page(body) && attempt < 4,
{
}

/// Pages are joined in their order, and the first failure is what is told.
pub proof fn law_pages_are_joined_in_order<T>(
    first: Seq<T>,
    rest: Seq<Result<Vec<T>, String>>,
    i: int,
)
    ensures
        pages_joined(first, Seq::empty()) == Ok::<Seq<T>, Seq<char>>(first),
        0 <= i < rest.len() && (forall|k: int| 0 <= k < i ==> (#[trigger] rest[k]) is Ok) ==> {
            &&& rest[i] matches Err(e) ==> pages_joined(first, rest) == Err::<Seq<T>, Seq<char>>(e@)
            &&& rest[i] matches Ok(page) ==> pages_joined(first, rest.take(i)) is Ok
                && pages_joined(first, rest.take(i + 1)) == Ok::<Seq<T>, Seq<char>>(
                pages_joined(first, rest.take(i))->Ok_0 + page@,
            )
        },
{
    if 0 <= i < rest.len() && (forall|k: int| 0 <= k < i ==> (#[trigger] rest[k]) is Ok) {
        lemma_good_pages(first, rest, i);
        assert(rest.take(i + 1).drop_last() =~= rest.take(i));
        assert(rest.take(i + 1).last() == rest[i]);
        if rest[i] is Err {
            lemma_page_error_stays(first, rest, i + 1);
        }
    }
}

proof fn lemma_good_pages<T>(first: Seq<T>, rest: Seq<Result<Vec<T>, String>>, i: int)
    requires
        0 <= i <= rest.len(),
        forall|k: int| 0 <= k < i ==> (#[trigger] rest[k]) is Ok,
    ensures
        pages_joined(first, rest.take(i)) is Ok,
    decreases i,
{
    if i > 0 {
        lemma_good_pages(first, rest, i - 1);
        assert(rest.take(i).drop_last() =~= rest.take(i - 1));
        assert(rest.take(i).last() == rest[i - 1]);
    }
}

/// Batches are joined in their order. One of which no id is known adds nothing where
/// that is tolerated; any other failure is what is told, the first before the others.
pub proof fn law_batches_are_joined_in_order<T>(
    batches: Seq<Result<Vec<T>, String>>,
    batch: Result<Vec<T>, String>,
    tolerate: bool,
)
    ensures
        batches_joined(Seq::<Result<Vec<T>, String>>::empty(), tolerate) == Ok::<
            Seq<T>,
            Seq<char>,
        >(Seq::empty()),
        batches_joined(batches, tolerate) is Err ==> batches_joined(batches.push(batch), tolerate)
            == batches_joined(batches, tolerate),
        batches_joined(batches, tolerate) matches Ok(entries) ==> {
            let all = batches_joined(batches.push(batch), tolerate);
            &&& batch matches Ok(more) ==> all == Ok::<Seq<T>, Seq<char>>(entries + more@)
            &&& batch matches Err(e) ==> if tolerate && contains_text(
                e@,
                "all ids provided are invalid"@,
            ) {
                all == Ok::<Seq<T>, Seq<char>>(entries)
            } else {
                all == Err::<Seq<T>, Seq<char>>(e@)
            }
        },
{
    assert(batches.push(batch).drop_last() =~= batches);
}

} // verus!
