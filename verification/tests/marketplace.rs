use riverdeck_core::json::{parse_json, Json};
use riverdeck_core::marketplace::{
    exp_of_claims, extract_download_url, extract_download_url_from_text, find_in_base64,
    find_in_bytes, find_in_json, jwt_exp, load_marketplace_access_token_from_disk,
    looks_like_download_url, lookup_item_url, marketplace_access_token, percent_decode_best_effort,
    purchase_link_urls, set_marketplace_access_token, try_candidate, Link,
};

#[test]
fn extracts_icon_pack_url_from_query() {
    let u = Link::parse(
        "streamdeck://icons/message/foo?downloadUrl=https%3A%2F%2Fexample.com%2Ftest.streamDeckIconPack",
    )
    .unwrap();
    let got = extract_download_url(&u).unwrap();
    assert_eq!(got, "https://example.com/test.streamDeckIconPack");
}

#[test]
fn extracts_plugin_url_from_path_segment_percent_encoded() {
    let u = Link::parse(
        "streamdeck://plugins/install/foo/https%3A%2F%2Fexample.com%2Ftest.streamDeckPlugin",
    )
    .unwrap();
    let got = extract_download_url(&u).unwrap();
    assert_eq!(got, "https://example.com/test.streamDeckPlugin");
}

#[test]
fn extracts_plugin_url_from_fragment_query_string_blob() {
    let u = Link::parse(
        "streamdeck://plugins/message/foo#downloadUrl=https%3A%2F%2Fexample.com%2Ftest.streamDeckPlugin",
    )
    .unwrap();
    let got = extract_download_url(&u).unwrap();
    assert_eq!(got, "https://example.com/test.streamDeckPlugin");
}

#[test]
fn returns_direct_download_url_when_url_is_archive() {
    let u = Link::parse("https://mp-cdn.elgato.com/versions/foo/bar/Baz.streamDeckPlugin").unwrap();
    let got = extract_download_url(&u).unwrap();
    assert_eq!(
        got,
        "https://mp-cdn.elgato.com/versions/foo/bar/Baz.streamDeckPlugin"
    );
}

#[test]
fn text_that_is_no_link_has_no_download_url() {
    assert!(extract_download_url_from_text("not a link").is_none());
    assert!(extract_download_url_from_text("streamdeck://plugins/message/foo").is_none());
    assert_eq!(
        extract_download_url_from_text("https://example.com/a.streamDeckPlugin").unwrap(),
        "https://example.com/a.streamDeckPlugin"
    );
}

#[test]
fn a_parsed_link_has_its_parts() {
    let u = Link::parse("HTTPS://Example.com:443/a/b%20c?x=1%2B2&y=#frag").unwrap();
    assert_eq!(u.href, "https://example.com/a/b%20c?x=1%2B2&y=#frag");
    assert_eq!(u.host, Some("example.com".to_owned()));
    assert_eq!(u.path, "/a/b%20c");
    assert_eq!(
        u.query,
        vec![("x".to_owned(), "1+2".to_owned()), ("y".to_owned(), "".to_owned())]
    );
    assert_eq!(u.fragment, Some("frag".to_owned()));
    assert_eq!(
        u.path_segments(),
        Some(vec!["a".to_owned(), "b%20c".to_owned()])
    );
    assert!(Link::parse("mailto:a@b").unwrap().path_segments().is_none());
}

#[test]
fn archives_look_like_downloads() {
    assert!(looks_like_download_url("https://x/y.StreamDeckPlugin"));
    assert!(looks_like_download_url("http://x/y.zip"));
    assert!(!looks_like_download_url("https://x/y.zip?a=b"));
    assert!(looks_like_download_url(
        "https://x/y.zip?response-content-disposition=a"
    ));
    assert!(!looks_like_download_url("ftp://x/y.zip"));
}

#[test]
fn percent_decoding_gives_text() {
    assert_eq!(
        percent_decode_best_effort("https%3A%2F%2Fa"),
        Some("https://a".to_owned())
    );
}

#[test]
fn download_urls_are_found_in_json_and_base64() {
    let j = parse_json(br#"{"a":[1,{"b":"https://x/y.streamDeckPlugin"}]}"#).unwrap();
    assert_eq!(find_in_json(&j).unwrap(), "https://x/y.streamDeckPlugin");
    assert_eq!(
        find_in_bytes(b"{\"u\":\"https://x/y.zip\"}".to_vec()).unwrap(),
        "https://x/y.zip"
    );
    // {"u":"https://x/y.zip"}
    assert_eq!(
        find_in_base64("eyJ1IjoiaHR0cHM6Ly94L3kuemlwIn0=").unwrap(),
        "https://x/y.zip"
    );
    assert!(find_in_base64("$$$").is_none());
    assert_eq!(
        try_candidate("eyJ1IjoiaHR0cHM6Ly94L3kuemlwIn0").unwrap(),
        "https://x/y.zip"
    );
}

#[test]
fn item_addresses_name_the_variant() {
    let url = lookup_item_url("abc").unwrap();
    assert!(url.starts_with("https://"));
    assert!(url.contains("abc"));
    assert!(lookup_item_url("  ").is_none());
    assert!(purchase_link_urls("", "abc").is_none());
    assert!(purchase_link_urls("token", "abc").unwrap().len() > 0);
}

fn token_with_exp() -> String {
    // {"alg":"none"} . {"exp":2000} . x
    "eyJhbGciOiJub25lIn0.eyJleHAiOjIwMDB9.x".to_owned()
}

#[test]
fn the_expiry_of_a_token_is_read() {
    assert_eq!(jwt_exp(&token_with_exp()), Some(2000));
    assert_eq!(jwt_exp("a.b.c"), None);
    assert_eq!(exp_of_claims(&parse_json(br#"{"exp":7}"#)), Some(7));
    assert_eq!(exp_of_claims(&Some(Json::Null)), None);
    assert_eq!(exp_of_claims(&None), None);
}

#[test]
fn a_token_that_was_set_is_loaded_again() {
    let mut held = None;
    let disk = set_marketplace_access_token(&mut held, &token_with_exp(), 1000).unwrap();
    assert_eq!(marketplace_access_token(&held), Some(token_with_exp()));
    let mut fresh = None;
    assert!(load_marketplace_access_token_from_disk(&mut fresh, &disk, 1000));
    assert_eq!(fresh, Some(token_with_exp()));
    let mut late = None;
    assert!(!load_marketplace_access_token_from_disk(&mut late, &disk, 5000));
    assert_eq!(late, None);
}
