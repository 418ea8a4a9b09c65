use plbot::digest::get_md5;
use plbot::jsonmodel::{result_array_to_titles_ex, title_from_api_entry, JsonNode, PageEntry};
use plbot::pagetext::{
    body_after_header, make_edit_summary, make_header_content, substitute_str_template,
    substitute_str_template_with_title, WriteStatus,
};

fn entry(ns: i64, title: &str) -> PageEntry {
    PageEntry { ns, title: title.to_string(), redirect: false, redirlinks: None }
}

#[test]
fn test_result_array_to_titles_ex() {
    // The response: batchcomplete and limits carry nothing; the query
    // object holds the backlinks array with one plain page and one
    // redirect whose chain holds one page.
    let mock_data = JsonNode::Object(vec![
        JsonNode::Other,
        JsonNode::Object(vec![JsonNode::Other]),
        JsonNode::Object(vec![JsonNode::Array(vec![
            entry(4, "Wikipedia:持续出没的破坏者"),
            PageEntry {
                ns: 4,
                title: "Wikipedia:KAGE".to_string(),
                redirect: true,
                redirlinks: Some(Box::new(JsonNode::Array(vec![entry(
                    4,
                    "Wikipedia:当前的破坏/存档/2007年",
                )]))),
            },
        ])]),
    ]);
    assert_eq!(result_array_to_titles_ex(&mock_data, true).len(), 3);
    assert_eq!(result_array_to_titles_ex(&mock_data, false).len(), 2);
}

#[test]
fn api_entry_strips_namespace_prefix() {
    let t = title_from_api_entry(4, &"Wikipedia:Foo_Bar".to_string());
    assert_eq!(t.namespace_id(), 4);
    assert_eq!(t.text(), "Foo Bar");
    let main = title_from_api_entry(0, &"Has:Colon".to_string());
    assert_eq!(main.text(), "Has:Colon");
}

#[test]
fn substitution_replaces_placeholders() {
    assert_eq!(substitute_str_template("$+ items ($$)", 42), "42 items ($)");
    assert_eq!(substitute_str_template("plain", 1), "plain");
    assert_eq!(substitute_str_template("$x", 1), "$x");
    assert_eq!(
        substitute_str_template_with_title("* [[$0]] ($1 / $2) $@ of $+", "Talk:A", "Talk", "A", 3, 9),
        "* [[Talk:A]] (Talk / A) 3 of 9"
    );
}

#[test]
fn edit_summaries() {
    assert_eq!(make_edit_summary(Some(0)), "Update query: empty");
    assert_eq!(make_edit_summary(Some(1)), "Update query: 1 result");
    assert_eq!(make_edit_summary(Some(25)), "Update query: 25 results");
    assert_eq!(make_edit_summary(None), "Update query: failure");
}

#[test]
fn header_content() {
    assert_eq!(
        make_header_content("plbot header", 17, WriteStatus::Success.text()),
        "<noinclude>{{subst:plbot header|taskid=17|status=success}}</noinclude>"
    );
    assert_eq!(
        make_header_content("h", -3, WriteStatus::Timeout.text()),
        "<noinclude>{{subst:h|taskid=-3|status=timeout}}</noinclude>"
    );
    assert_eq!(WriteStatus::Parse.text(), "parse");
    assert_eq!(WriteStatus::Solve.text(), "runtime");
}

#[test]
fn body_merge_keeps_tail_after_noinclude() {
    assert_eq!(
        body_after_header("  <noinclude>old header</noinclude>rest of page"),
        "rest of page"
    );
    assert_eq!(body_after_header("<noinclude>unclosed"), "<noinclude>unclosed");
    assert_eq!(body_after_header("no header here"), "no header here");
}

#[test]
fn md5_checksum_is_hex_digest() {
    assert_eq!(get_md5("abc"), "900150983cd24fb0d6963f7d28e17f72");
    assert_eq!(get_md5(""), "d41d8cd98f00b204e9800998ecf8427e");
}
