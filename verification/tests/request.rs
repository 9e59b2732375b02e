use gw2_arbitrage::api::{ItemListings, Listing};
use gw2_arbitrage::request::{
    account_recipes_notice, account_recipes_url, account_step, backoff_secs, batch_notice, id_batches, ids_url,
    join_batches, join_pages, next_fetch_step, outcome_with_explanation, page_label, page_notice,
    page_step_after_body, page_step_after_reply, page_url, redact_url, remaining_pages,
    retry_after_secs, to_decimals, try_fetch, with_best_offers_last, AccountStep, Attempt,
    FetchStep, PageReply, PageStep, Reply, MAX_ATTEMPTS,
};

#[test]
fn an_account_is_shown_once_and_without_its_key() {
    assert!(matches!(account_step(true), AccountStep::TakeCached));
    assert!(matches!(
        account_step(false),
        AccountStep::Ask(line) if line
            == "https://api.guildwars2.com/v2/account/recipes?access_token=<api-key>"
    ));
}

#[test]
fn addresses() {
    assert_eq!(
        page_url("items", &Some("de".to_string()), 3),
        "https://api.guildwars2.com/v2/items?lang=de&page=3&page_size=200"
    );
    assert_eq!(
        page_url("recipes", &None, 0),
        "https://api.guildwars2.com/v2/recipes?page=0&page_size=200"
    );
    assert_eq!(
        ids_url("commerce/listings", &vec![1, 20, 300]),
        "https://api.guildwars2.com/v2/commerce/listings?ids=1,20,300"
    );
    assert_eq!(to_decimals(&vec![7, 0]), vec!["7".to_string(), "0".to_string()]);
    assert_eq!(
        account_recipes_url("SECRET"),
        "https://api.guildwars2.com/v2/account/recipes?access_token=SECRET"
    );
    assert_eq!(
        account_recipes_notice(),
        "https://api.guildwars2.com/v2/account/recipes?access_token=<api-key>"
    );
}

#[test]
fn notices() {
    assert_eq!(page_notice("u", 4, Some(9)), "u [5/9]");
    assert_eq!(page_notice("u", 0, None), "u");
    assert_eq!(batch_notice("u", 0, 1), None);
    assert_eq!(batch_notice("u", 1, 3), Some("u [batch 2/3]".to_string()));
    let url = page_url("commerce/prices", &None, 12);
    assert_eq!(page_label(&url), "12");
}

#[test]
fn one_page_more_is_asked_for() {
    assert_eq!(remaining_pages(3), vec![1, 2, 3]);
    assert_eq!(remaining_pages(0), Vec::<usize>::new());
}

#[test]
fn batches_hold_all_ids() {
    let ids: Vec<u32> = (0..450).collect();
    let batches = id_batches(&ids);
    let sizes: Vec<usize> = batches.iter().map(|b| b.len()).collect();
    assert_eq!(sizes, vec![200, 200, 50]);
    assert_eq!(batches.concat(), ids);
    assert_eq!(id_batches(&(0..200).collect()).len(), 1);
    assert!(id_batches(&vec![]).is_empty());
}

#[test]
fn keys_are_hidden() {
    assert_eq!(redact_url(&account_recipes_url("KEY")), account_recipes_notice());
    assert_eq!(redact_url("https://example.org/x?access_token=KEY&b=1"), "https://example.org/x?access_token=<api-key>");
    assert_eq!(redact_url("https://example.org/x?ids=1"), "https://example.org/x?ids=1");
}

#[test]
fn waits_double_up_to_a_bound() {
    let waits: Vec<u64> = (1..=9).map(|n| backoff_secs(n, None)).collect();
    assert_eq!(waits, vec![1, 2, 4, 8, 16, 32, 64, 64, 64]);
    assert_eq!(backoff_secs(1, Some(30)), 30);
    assert_eq!(backoff_secs(1, Some(1000)), 120);
    assert_eq!(backoff_secs(5, Some(3)), 16);
    assert_eq!(retry_after_secs(&Some("17".to_string())), Some(17));
    assert_eq!(retry_after_secs(&Some("soon".to_string())), None);
    assert_eq!(retry_after_secs(&None), None);
}

fn response(status: u16, status_text: &str, retry_after: Option<&str>, body: &str) -> Reply {
    Reply::Response {
        status,
        status_text: status_text.to_string(),
        retry_after: retry_after.map(str::to_string),
        body: body.to_string(),
    }
}

fn unreadable() -> Result<u32, String> {
    Err("expected value".to_string())
}

#[test]
fn lost_replies_are_retried() {
    let a = try_fetch(Reply::Lost("timed out".to_string()), unreadable());
    assert!(matches!(a, Attempt::Retry { detail, retry_after_secs: None } if detail == "request error: timed out"));
}

#[test]
fn overloaded_servers_are_retried() {
    for status in [429, 500, 503, 599] {
        let a = try_fetch(response(status, "Busy", Some("9"), " a  b "), Ok(1));
        assert!(matches!(
            a,
            Attempt::Retry { detail, retry_after_secs: Some(9) } if detail == "HTTP Busy (body: a b)"
        ));
    }
}

#[test]
fn refusals_are_explained_by_their_body() {
    let a = try_fetch(
        response(404, "404 Not Found", None, "{\"text\": \"all ids provided are invalid\"}"),
        unreadable(),
    );
    assert!(matches!(a, Attempt::Fatal(d) if d == "HTTP 404 Not Found: all ids provided are invalid"));
    for body in ["{\"text\": 5}", "{}", "[1]", "nothing"] {
        let a = try_fetch(response(400, "400 Bad Request", None, body), unreadable());
        assert!(matches!(a, Attempt::Fatal(d) if d == format!("HTTP 400 Bad Request: {}", body)));
    }
    let a = outcome_with_explanation(
        response(403, "403 Forbidden", None, "x"),
        Some("no".to_string()),
        unreadable(),
    );
    assert!(matches!(a, Attempt::Fatal(d) if d == "HTTP 403 Forbidden: no"));
}

#[test]
fn bodies_are_values_or_errors() {
    assert!(matches!(try_fetch(response(200, "200 OK", None, "5"), Ok(5)), Attempt::Value(5)));
    for page in ["", " \n", "  <html>é</html>"] {
        let a = try_fetch(response(200, "200 OK", Some("5"), page), unreadable());
        let expected = format!(
            "invalid JSON ({} bytes): expected value (body: {})",
            page.len(),
            page.trim()
        );
        assert!(matches!(a, Attempt::Retry { detail, retry_after_secs: None } if detail == expected));
    }
    let a = try_fetch(response(200, "200 OK", None, "{\"a\":1}"), unreadable());
    assert!(matches!(a, Attempt::Fatal(d) if d == "invalid JSON (7 bytes): expected value (body: {\"a\":1})"));
}

#[test]
fn attempts_are_limited() {
    let retry = || Attempt::<u32>::Retry { detail: "d".to_string(), retry_after_secs: None };
    assert!(matches!(next_fetch_step(1, "u", retry()), FetchStep::Wait(1)));
    assert!(matches!(next_fetch_step(3, "u", retry()), FetchStep::Wait(4)));
    let url = account_recipes_url("KEY");
    assert!(matches!(
        next_fetch_step(MAX_ATTEMPTS, &url, retry()),
        FetchStep::Fail(m) if m == format!("GET {} failed after 4 attempts: d", account_recipes_notice())
    ));
    assert!(matches!(
        next_fetch_step(1, &url, Attempt::<u32>::Fatal("d".to_string())),
        FetchStep::Fail(m) if m == format!("GET {}: d", account_recipes_notice())
    ));
    assert!(matches!(next_fetch_step(4, "u", Attempt::Value(8)), FetchStep::Done(8)));
}

fn page(status: u16, total: Option<&str>) -> PageReply {
    PageReply::Response {
        status,
        status_text: format!("{}", status),
        page_total: total.map(str::to_string),
        retry_after: Some("7".to_string()),
    }
}

#[test]
fn pages_are_read_once_their_number_is_known() {
    let step = |attempt, known, reply| page_step_after_reply(attempt, "u", known, reply);
    assert!(matches!(step(1, None, page(200, Some("12"))), PageStep::Read { page_total: 12 }));
    assert!(matches!(step(1, Some(3), page(200, None)), PageStep::Read { page_total: 3 }));
    assert!(matches!(step(1, Some(3), page(404, Some("9"))), PageStep::Read { page_total: 3 }));
    assert!(matches!(step(1, None, page(200, Some("x"))), PageStep::Wait(7)));
    assert!(matches!(
        step(4, None, page(200, None)),
        PageStep::Fail(m) if m == "GET u failed after 4 attempts: missing X-Page-Total header (HTTP 200)"
    ));
    assert!(matches!(step(2, Some(3), page(502, None)), PageStep::Wait(7)));
    assert!(matches!(
        step(4, Some(3), page(429, None)),
        PageStep::Fail(m) if m == "GET u failed after 4 attempts: HTTP 429"
    ));
    assert!(matches!(step(2, None, PageReply::Lost("reset".to_string())), PageStep::Wait(2)));
    assert!(matches!(
        step(4, None, PageReply::Lost("reset".to_string())),
        PageStep::Fail(m) if m == "GET u failed after 4 attempts: request error: reset"
    ));
}

#[test]
fn pages_behind_the_last_are_empty() {
    let bad = || Err::<Vec<u32>, String>("bad".to_string());
    assert!(matches!(
        page_step_after_body(1, "u", "{\"text\":\"page out of range. Use\"}", bad()),
        FetchStep::Done(v) if v.is_empty()
    ));
    assert!(matches!(
        page_step_after_body(1, "u", "[1]", Ok(vec![1])),
        FetchStep::Done(v) if v == vec![1]
    ));
    assert!(matches!(page_step_after_body(2, "u", "<x>", bad()), FetchStep::Wait(2)));
    assert!(matches!(
        page_step_after_body(1, "u", "[{}]", bad()),
        FetchStep::Fail(m) if m == "GET u failed after 4 attempts: invalid JSON (4 bytes): bad (body: [{}])"
    ));
}

#[test]
fn pages_and_batches_are_joined_in_order() {
    assert_eq!(join_pages(vec![1], vec![Ok(vec![2, 3]), Ok(vec![]), Ok(vec![4])]), Ok(vec![1, 2, 3, 4]));
    assert_eq!(
        join_pages(vec![1], vec![Ok(vec![2]), Err("a".to_string()), Err("b".to_string())]),
        Err("a".to_string())
    );
    let unknown = || Err("GET u: HTTP 404: all ids provided are invalid".to_string());
    assert_eq!(join_batches(vec![Ok(vec![1]), unknown(), Ok(vec![2])], true), Ok(vec![1, 2]));
    assert_eq!(
        join_batches(vec![Ok(vec![1]), unknown()], false),
        Err("GET u: HTTP 404: all ids provided are invalid".to_string())
    );
    assert_eq!(
        join_batches::<u32>(vec![unknown(), Err("other".to_string())], true),
        Err("other".to_string())
    );
}

#[test]
fn books_are_turned_round() {
    let l = |p| Listing { listings: 1, unit_price: p, quantity: 1 };
    let books = with_best_offers_last(vec![ItemListings {
        id: 3,
        buys: vec![l(9), l(8)],
        sells: vec![l(10), l(11)],
    }]);
    assert_eq!(books[0].id, 3);
    assert_eq!(books[0].buys, vec![l(8), l(9)]);
    assert_eq!(books[0].sells, vec![l(11), l(10)]);
}
