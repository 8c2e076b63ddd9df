use spidero::plan::{plan, plan_with, Plan, ProxyChoice};
use spidero::spider::SearchEngine;

#[test]
fn no_keywords() {
    assert!(matches!(plan(None, true, true, true, None), Plan::NoKeywords));
}

#[test]
fn no_engines() {
    assert!(matches!(plan(Some("a,b"), false, false, false, Some("http://p")), Plan::NoEngines));
}

#[test]
fn search_direct() {
    match plan(Some("a,b"), false, true, false, None) {
        Plan::Search { keywords, engines, proxy } => {
            assert_eq!(keywords, vec!["a", "b"]);
            assert_eq!(engines, vec![SearchEngine::Google]);
            assert!(matches!(proxy, ProxyChoice::Direct));
        }
        other => panic!("unexpected {:?}", other),
    }
}

#[test]
fn search_through_valid_proxy() {
    match plan(Some("k"), true, false, true, Some("http://127.0.0.1:8080")) {
        Plan::Search { keywords, engines, proxy } => {
            assert_eq!(keywords, vec!["k"]);
            assert_eq!(engines, vec![SearchEngine::Baidu, SearchEngine::Bing]);
            match proxy {
                ProxyChoice::Through(p) => assert_eq!(p, "http://127.0.0.1:8080"),
                other => panic!("unexpected {:?}", other),
            }
        }
        other => panic!("unexpected {:?}", other),
    }
}

#[test]
fn search_with_invalid_proxy() {
    match plan(Some("k"), true, false, false, Some("not a url")) {
        Plan::Search { proxy: ProxyChoice::Invalid(msg), .. } => {
            assert_eq!(msg, "relative URL without a base");
        }
        other => panic!("unexpected {:?}", other),
    }
}

#[test]
fn plan_with_given_parse_outcome() {
    match plan_with(Some("k"), false, false, true, Some("whatever"), Some("bad".to_string())) {
        Plan::Search { proxy: ProxyChoice::Invalid(msg), .. } => assert_eq!(msg, "bad"),
        other => panic!("unexpected {:?}", other),
    }
    match plan_with(Some("k"), false, false, true, Some("whatever"), None) {
        Plan::Search { proxy: ProxyChoice::Through(p), .. } => assert_eq!(p, "whatever"),
        other => panic!("unexpected {:?}", other),
    }
    match plan_with(Some("k"), false, false, true, None, Some("ignored".to_string())) {
        Plan::Search { proxy: ProxyChoice::Direct, .. } => {}
        other => panic!("unexpected {:?}", other),
    }
}

#[test]
fn planned_keywords_join_back() {
    for k in ["a", "a,b", ",x,", ""] {
        match plan(Some(k), true, false, false, None) {
            Plan::Search { keywords, .. } => assert_eq!(keywords.join(","), k),
            other => panic!("unexpected {:?}", other),
        }
    }
}
