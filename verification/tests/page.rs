use spidero::dom::{NodeKind, TreeNode};
use spidero::errors::SpiderError;
use spidero::page::{baidu_outcome, preys_in_page, preys_in_parsed, show_page, show_parsed};

#[test]
fn show_page_renders_parsed_tree() {
    let html = b"<!DOCTYPE html><p data-tools=\"x\">hi</p><!--c-->";
    let shown = show_page(html).unwrap().unwrap();
    let expected = "#Document\n    <html>\n        <head>\n        <body>\n            <p data-tools=\"x\">\n                #text: hi\n            <!-- c -->\n";
    assert_eq!(shown, expected);
}

#[test]
fn show_page_of_empty_input() {
    let shown = show_page(b"").unwrap().unwrap();
    assert_eq!(shown, "#Document\n    <html>\n        <head>\n        <body>\n");
}

#[test]
fn show_page_escapes_text() {
    let shown = show_page("<b>caf\u{e9}\t</b>".as_bytes()).unwrap().unwrap();
    assert!(shown.contains("<b>\n                #text: caf\\u{e9}\\t\n"));
}

#[test]
fn preys_in_page_in_document_order() {
    let html = b"<div data-tools='{\"url\":\"a\"}'><span data-tools=\"b\"></span></div><i data-tools=\"c\" data-tools=\"d\"></i>";
    let found = preys_in_page(html).unwrap();
    assert_eq!(found, vec!["{\"url\":\"a\"}", "b", "c"]);
}

#[test]
fn preys_in_page_none() {
    assert!(preys_in_page(b"<p class=\"data-tools\">data-tools</p>").unwrap().is_empty());
}

#[test]
fn parsed_error_passes_through() {
    assert_eq!(show_parsed(Err("broken".to_string())), Err("broken".to_string()));
    assert_eq!(preys_in_parsed(Err("broken".to_string())), Err("broken".to_string()));
}

#[test]
fn parsed_tree_is_rendered_and_walked() {
    let tree = TreeNode {
        data: NodeKind::Element { name: "a".to_string(), attrs: vec![] },
        children: vec![TreeNode { data: NodeKind::Text { contents: "t".to_string() }, children: vec![] }],
    };
    assert_eq!(show_parsed(Ok(tree)), Ok(Some("<a>\n    #text: t\n".to_string())));
    let tree = TreeNode { data: NodeKind::Document, children: vec![] };
    assert_eq!(preys_in_parsed(Ok(tree)), Ok(Vec::<String>::new()));
}

#[test]
fn baidu_outcome_of_shown_page() {
    match baidu_outcome(&Ok(Some("x".to_string()))) {
        Ok(v) => assert!(v.is_empty()),
        Err(e) => panic!("unexpected {:?}", e),
    }
    assert!(matches!(baidu_outcome(&Err("bad".to_string())), Err(SpiderError::HttpParseError)));
}

#[test]
fn reading_a_page_never_fails() {
    let bytes: &[u8] = &[0xff, 0xfe, b'<', b'a', b'>', 0x80];
    assert!(show_page(bytes).is_ok());
    assert!(preys_in_page(bytes).is_ok());
}
