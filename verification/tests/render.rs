use ssml::classify::{classify, SyntheticTag};
use ssml::node::{NodeType, StyleValue, StyledNode};
use ssml::render::{render_ssml, wrap};
use ssml::text::render_value;

fn kw(s: &str) -> StyleValue {
    StyleValue::Keyword(s.to_string())
}

fn text_node(s: &str) -> StyledNode {
    StyledNode {
        node: NodeType::Text(s.to_string()),
        specified_values: Vec::new(),
        children: Vec::new(),
    }
}

fn element(
    tag: &str,
    attrs: Vec<(&str, &str)>,
    props: Vec<(&str, StyleValue)>,
    children: Vec<StyledNode>,
) -> StyledNode {
    StyledNode {
        node: NodeType::Element {
            tag_name: tag.to_string(),
            attributes: attrs.iter().map(|(k, v)| (k.to_string(), v.to_string())).collect(),
        },
        specified_values: props.into_iter().map(|(k, v)| (k.to_string(), v)).collect(),
        children,
    }
}

#[test]
fn text_leaf_is_indent_trim_newline() {
    let out = render_ssml(text_node("  hello  world\t"), 2);
    assert_eq!(out, "    hello  world\n");
}

#[test]
fn text_leaf_whitespace_only_trims_to_empty() {
    let out = render_ssml(text_node(" \t \n"), 1);
    assert_eq!(out, "  \n");
}

#[test]
fn text_leaf_independent_of_siblings() {
    let alone = render_ssml(text_node("a"), 1);
    let tree = element("p", vec![], vec![], vec![text_node("a"), text_node("b")]);
    let out = render_ssml(tree, 0);
    assert_eq!(out, "<p>\n  a\n  b\n</p>\n");
    assert_eq!(alone, "  a\n");
}

#[test]
fn children_render_in_document_order() {
    let tree = element(
        "p",
        vec![],
        vec![],
        vec![text_node("one"), text_node("two"), text_node("three")],
    );
    let out = render_ssml(tree, 0);
    assert_eq!(out, "<p>\n  one\n  two\n  three\n</p>\n");
}

#[test]
fn classifier_table() {
    assert_eq!(classify(&"pitch".to_string()), Some(SyntheticTag::Prosody));
    assert_eq!(classify(&"volume".to_string()), Some(SyntheticTag::Prosody));
    assert_eq!(classify(&"voice-family".to_string()), Some(SyntheticTag::Voice));
    assert_eq!(classify(&"voice-variant".to_string()), Some(SyntheticTag::Voice));
    assert_eq!(classify(&"voice-gender".to_string()), Some(SyntheticTag::Voice));
    assert_eq!(classify(&"level".to_string()), Some(SyntheticTag::Emphasis));
    assert_eq!(classify(&"color".to_string()), None);
    assert_eq!(classify(&"".to_string()), None);
    assert_eq!(classify(&"font-size".to_string()), None);
}

#[test]
fn synthetic_tag_names() {
    assert_eq!(SyntheticTag::Prosody.name(), "prosody");
    assert_eq!(SyntheticTag::Voice.name(), "voice");
    assert_eq!(SyntheticTag::Emphasis.name(), "emphasis");
}

#[test]
fn color_renders_uppercase_hex() {
    assert_eq!(render_value(&StyleValue::Color(255, 0, 16)), "#FF0010");
    assert_eq!(render_value(&StyleValue::Color(0, 0, 0)), "#000000");
    assert_eq!(render_value(&StyleValue::Color(255, 255, 255)), "#FFFFFF");
    assert_eq!(render_value(&StyleValue::Color(1, 35, 171)), "#0123AB");
}

#[test]
fn length_renders_in_pixels() {
    assert_eq!(render_value(&StyleValue::Length(12)), "12px");
    assert_eq!(render_value(&StyleValue::Length(0)), "0px");
    assert_eq!(render_value(&StyleValue::Length(1234567890)), "1234567890px");
}

#[test]
fn keyword_renders_verbatim() {
    assert_eq!(render_value(&kw("red")), "red");
    assert_eq!(render_value(&kw("")), "");
}

#[test]
fn end_to_end_example() {
    let tree = element(
        "p",
        vec![],
        vec![("pitch", kw("high")), ("color", kw("red"))],
        vec![text_node("hello")],
    );
    let out = render_ssml(tree, 0);
    assert_eq!(
        out,
        "<p color=\"red\">\n  <prosody pitch=\"high\">\n    hello\n  </prosody>\n</p>\n"
    );
}

#[test]
fn partition_keeps_every_property_once() {
    let tree = element(
        "p",
        vec![],
        vec![
            ("pitch", kw("high")),
            ("color", StyleValue::Color(255, 0, 16)),
            ("font-size", StyleValue::Length(12)),
        ],
        vec![],
    );
    let out = render_ssml(tree, 0);
    assert_eq!(
        out,
        "<p color=\"#FF0010\" font-size=\"12px\">\n  <prosody pitch=\"high\">\n  </prosody>\n</p>\n"
    );
    assert_eq!(out.matches("pitch").count(), 1);
    assert_eq!(out.matches("color").count(), 1);
    assert_eq!(out.matches("font-size").count(), 1);
}

#[test]
fn properties_of_one_tag_share_one_wrapper() {
    let tree = element(
        "p",
        vec![],
        vec![("pitch", kw("high")), ("volume", kw("loud"))],
        vec![text_node("hi")],
    );
    let out = render_ssml(tree, 0);
    assert_eq!(
        out,
        "<p>\n  <prosody pitch=\"high\" volume=\"loud\">\n    hi\n  </prosody>\n</p>\n"
    );
}

#[test]
fn wrappers_nest_one_level_each_in_first_seen_order() {
    let tree = element(
        "s",
        vec![],
        vec![
            ("pitch", kw("high")),
            ("voice-gender", kw("female")),
            ("volume", kw("loud")),
            ("level", kw("strong")),
        ],
        vec![text_node("hi")],
    );
    let out = render_ssml(tree, 0);
    let expected = "<s>\n\
                    \x20 <prosody pitch=\"high\" volume=\"loud\">\n\
                    \x20   <voice voice-gender=\"female\">\n\
                    \x20     <emphasis level=\"strong\">\n\
                    \x20       hi\n\
                    \x20     </emphasis>\n\
                    \x20   </voice>\n\
                    \x20 </prosody>\n\
                    </s>\n";
    assert_eq!(out, expected);
}

#[test]
fn class_attribute_is_skipped_other_dom_attributes_kept() {
    let tree = element("p", vec![("class", "x"), ("id", "a")], vec![], vec![]);
    let out = render_ssml(tree, 0);
    assert_eq!(out, "<p id=\"a\">\n</p>\n");
}

#[test]
fn dom_attributes_are_never_classified() {
    let tree = element("p", vec![("pitch", "5")], vec![], vec![]);
    let out = render_ssml(tree, 0);
    assert_eq!(out, "<p pitch=\"5\">\n</p>\n");
}

#[test]
fn dom_attributes_precede_plain_style_attributes() {
    let tree = element("p", vec![("id", "a")], vec![("color", kw("red"))], vec![]);
    let out = render_ssml(tree, 0);
    assert_eq!(out, "<p id=\"a\" color=\"red\">\n</p>\n");
}

#[test]
fn wrapper_attribute_values_lose_quote_characters() {
    let tree = element(
        "p",
        vec![],
        vec![("voice-family", kw("Georgia, \"serif\""))],
        vec![],
    );
    let out = render_ssml(tree, 0);
    assert_eq!(out, "<p>\n  <voice voice-family=\"Georgia, serif\">\n  </voice>\n</p>\n");
}

#[test]
fn wrap_builds_one_indented_tag_pair() {
    let props = vec![
        ("pitch".to_string(), kw("x-low")),
        ("color".to_string(), kw("red")),
        ("volume".to_string(), kw("soft")),
    ];
    let inner = "    body\n".to_string();
    let out = wrap(SyntheticTag::Prosody, &props, &inner, 1);
    assert_eq!(out, "  <prosody pitch=\"x-low\" volume=\"soft\">\n    body\n  </prosody>\n");
}

#[test]
fn deeply_nested_tree_renders() {
    let mut tree = text_node("leaf");
    for _ in 0..60 {
        tree = element("span", vec![], vec![], vec![tree]);
    }
    let out = render_ssml(tree, 0);
    assert!(out.starts_with("<span>\n  <span>\n"));
    assert!(out.ends_with("  </span>\n</span>\n"));
    assert_eq!(out.matches("<span>").count(), 60);
    assert_eq!(out.matches("</span>").count(), 60);
    assert!(out.contains(&format!("{}leaf\n", "  ".repeat(60))));
}

#[test]
fn deeper_start_level_shifts_every_line() {
    let tree = element("p", vec![], vec![], vec![text_node("x")]);
    let out = render_ssml(tree, 2);
    assert_eq!(out, "    <p>\n      x\n    </p>\n");
}

#[test]
fn nested_elements_indent_one_level_per_depth() {
    let inner = element("em", vec![], vec![], vec![text_node("deep")]);
    let tree = element("p", vec![], vec![], vec![inner, text_node("tail")]);
    let out = render_ssml(tree, 0);
    assert_eq!(out, "<p>\n  <em>\n    deep\n  </em>\n  tail\n</p>\n");
}
