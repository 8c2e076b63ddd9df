use spidero::spider::{selected_engines, split_keywords, SearchEngine};

#[test]
fn search_urls() {
    assert_eq!(SearchEngine::Google.search_url("rust"), "https://www.google.com/search?hl=en&num=10&start=0&q=rust");
    assert_eq!(SearchEngine::Bing.search_url("rust"), "https://www.bing.com/search?q=rust");
    assert_eq!(SearchEngine::Baidu.search_url("rust lang"), "http://www.baidu.com/s?wd=rust lang");
    assert_eq!(SearchEngine::Bing.search_url(""), "https://www.bing.com/search?q=");
}

#[test]
fn engine_names() {
    assert_eq!(SearchEngine::Google.name(), "google");
    assert_eq!(SearchEngine::Baidu.name(), "baidu");
    assert_eq!(SearchEngine::Bing.name(), "bing");
}

#[test]
fn split_keywords_like_str_split() {
    assert_eq!(split_keywords("a,b,,c"), vec!["a", "b", "", "c"]);
    assert_eq!(split_keywords(""), vec![""]);
    assert_eq!(split_keywords(","), vec!["", ""]);
    assert_eq!(split_keywords("rust"), vec!["rust"]);
    assert_eq!(split_keywords("é,中文,"), vec!["é", "中文", ""]);
    let s = "x,,y z,";
    assert_eq!(split_keywords(s), s.split(',').collect::<Vec<_>>());
}

#[test]
fn split_then_join_gives_back_keywords() {
    for s in ["", "a", "a,b", ",,", "one, two,three"] {
        assert_eq!(split_keywords(s).join(","), s);
        assert!(split_keywords(s).iter().all(|p| !p.contains(',')));
    }
}

#[test]
fn engines_in_fixed_order() {
    assert_eq!(selected_engines(true, true, true), vec![SearchEngine::Baidu, SearchEngine::Google, SearchEngine::Bing]);
    assert_eq!(selected_engines(false, true, true), vec![SearchEngine::Google, SearchEngine::Bing]);
    assert_eq!(selected_engines(true, false, false), vec![SearchEngine::Baidu]);
    assert!(selected_engines(false, false, false).is_empty());
}
