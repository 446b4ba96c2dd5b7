use netquality::negotiate::{
    is_terminal_agent, negotiate_index, negotiate_prometheus_mime, str_eq_ci, IndexPage,
    PromFormat,
};

#[test]
fn json_accept_selects_json() {
    let format = negotiate_prometheus_mime(Some("application/json")).unwrap();
    assert_eq!(format, PromFormat::Json);
    assert_eq!(format.content_type(), "application/json");
}

#[test]
fn xml_accept_is_refused() {
    assert_eq!(negotiate_prometheus_mime(Some("application/xml")), Err(406));
}

#[test]
fn wildcard_accept_selects_versioned_text() {
    let format = negotiate_prometheus_mime(Some("*/*")).unwrap();
    assert_eq!(format, PromFormat::Text);
    assert_eq!(format.content_type(), "text/plain; version=0.0.4; charset=utf-8");
}

#[test]
fn plain_text_accept_gains_version_parameter() {
    // A bare text/plain in the header still answers with the full
    // exposition Content-Type.
    let format = negotiate_prometheus_mime(Some("text/plain")).unwrap();
    assert_eq!(format.content_type(), "text/plain; version=0.0.4; charset=utf-8");
}

#[test]
fn missing_accept_defaults_to_text() {
    let format = negotiate_prometheus_mime(None).unwrap();
    assert_eq!(format, PromFormat::Text);
}

#[test]
fn priority_order_decides() {
    // JSON outweighs plain text here even though text comes first in the
    // header, because the weights reorder the types.
    let format =
        negotiate_prometheus_mime(Some("text/plain;q=0.5, application/json;q=0.9")).unwrap();
    assert_eq!(format, PromFormat::Json);
    let format =
        negotiate_prometheus_mime(Some("application/json;q=0.4, text/plain;q=0.8")).unwrap();
    assert_eq!(format, PromFormat::Text);
}

#[test]
fn terminal_agents_are_detected() {
    assert!(is_terminal_agent(Some("curl/8.5.0")));
    assert!(is_terminal_agent(Some("Wget/1.21")));
    assert!(!is_terminal_agent(Some("Mozilla/5.0")));
    assert!(!is_terminal_agent(None));
}

#[test]
fn index_prefers_html_for_browsers() {
    let page = negotiate_index(Some("Mozilla/5.0"), Some("text/html, text/plain;q=0.5")).unwrap();
    assert_eq!(page, IndexPage::Html);
    assert_eq!(page.content_type(), "text/html; charset=utf-8");
}

#[test]
fn index_serves_ansi_text_to_terminals() {
    let page = negotiate_index(Some("curl/8.5.0"), Some("*/*")).unwrap();
    assert_eq!(page, IndexPage::AnsiText);
    assert_eq!(page.content_type(), "text/plain; charset=utf-8");
    let page = negotiate_index(Some("Mozilla/5.0"), Some("*/*")).unwrap();
    assert_eq!(page, IndexPage::Html);
}

#[test]
fn index_without_accept_serves_html() {
    assert_eq!(negotiate_index(Some("curl/8.5.0"), None), Ok(IndexPage::Html));
}

#[test]
fn index_refuses_unservable_accept() {
    assert_eq!(negotiate_index(None, Some("application/json")), Err(406));
}

#[test]
fn case_insensitive_essence_comparison() {
    assert!(str_eq_ci("Text/PLAIN", "text/plain"));
    assert!(!str_eq_ci("text/plain", "text/plai"));
    assert!(!str_eq_ci("text/plain", "text/html"));
    // Media types compare case-insensitively end to end.
    let format = negotiate_prometheus_mime(Some("Application/JSON")).unwrap();
    assert_eq!(format, PromFormat::Json);
}
