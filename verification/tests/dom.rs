use spidero::dom::{collect_preys, render_document, walk, walk_all, Attribute, NodeKind, TreeNode};

fn attr(name: &str, value: &str) -> Attribute {
    Attribute { name: name.to_string(), value: value.to_string() }
}

fn element(name: &str, attrs: Vec<Attribute>, children: Vec<TreeNode>) -> TreeNode {
    TreeNode { data: NodeKind::Element { name: name.to_string(), attrs }, children }
}

fn text(t: &str) -> TreeNode {
    TreeNode { data: NodeKind::Text { contents: t.to_string() }, children: vec![] }
}

fn sample() -> TreeNode {
    TreeNode {
        data: NodeKind::Document,
        children: vec![element(
            "html",
            vec![],
            vec![
                element("div", vec![attr("data-tools", "first"), attr("class", "c"), attr("data-tools", "second")], vec![
                    element("span", vec![attr("data-tools", "inner")], vec![text("x")]),
                ]),
                element("div", vec![attr("data-tool", "no"), attr("data-tools", "third")], vec![]),
                TreeNode { data: NodeKind::Comment { contents: "note".to_string() }, children: vec![] },
            ],
        )],
    }
}

#[test]
fn collect_in_document_order() {
    assert_eq!(collect_preys(&sample()), vec!["first", "second", "inner", "third"]);
}

#[test]
fn walk_appends_after_existing() {
    let mut preys = vec!["before".to_string()];
    walk(&mut preys, &sample());
    assert_eq!(preys, vec!["before", "first", "second", "inner", "third"]);
}

#[test]
fn collect_nothing_without_record_attributes() {
    let t = element("a", vec![attr("href", "u")], vec![text("data-tools")]);
    assert!(collect_preys(&t).is_empty());
}

#[test]
fn render_every_kind() {
    let t = TreeNode {
        data: NodeKind::Document,
        children: vec![
            TreeNode {
                data: NodeKind::Doctype { name: "html".to_string(), public_id: "p".to_string(), system_id: "s".to_string() },
                children: vec![],
            },
            element("div", vec![attr("id", "a"), attr("class", "b c")], vec![text("hi\n\"there\"")]),
            TreeNode { data: NodeKind::Comment { contents: "é".to_string() }, children: vec![] },
        ],
    };
    let expected = "#Document\n    <!DOCTYPE html \"p\" \"s\">\n    <div id=\"a\" class=\"b c\">\n        #text: hi\\n\\\"there\\\"\n    <!-- \\u{e9} -->\n";
    assert_eq!(render_document(&t).unwrap(), expected);
}

#[test]
fn render_processing_instruction_shows_only_its_indent() {
    let t = element("r", vec![], vec![
        TreeNode { data: NodeKind::ProcessingInstruction { target: "x".to_string(), contents: "y".to_string() }, children: vec![] },
        element("s", vec![], vec![]),
    ]);
    assert_eq!(render_document(&t).unwrap(), "<r>\n        <s>\n");
}

#[test]
fn walk_all_from_an_indent() {
    let mut out = String::from(">");
    walk_all(&mut out, 2, &element("b", vec![], vec![text("t")]));
    assert_eq!(out, ">  <b>\n      #text: t\n");
}

#[test]
fn render_has_one_line_per_shown_node() {
    let out = render_document(&sample()).unwrap();
    assert_eq!(out.matches('\n').count(), 7);
}

#[test]
fn every_record_is_shown_with_its_attribute() {
    let t = sample();
    let out = render_document(&t).unwrap();
    for v in collect_preys(&t) {
        assert!(out.contains(&format!(" data-tools=\"{}\"", v)));
    }
}

#[test]
fn further_in_each_line_gains_the_same_indent() {
    let t = sample();
    let at_zero = render_document(&t).unwrap();
    let mut further = String::new();
    walk_all(&mut further, 3, &t);
    let shifted: String = at_zero.lines().map(|l| format!("   {}\n", l)).collect();
    assert_eq!(further, shifted);
}
