use microchan::markup::{escape_html, render_body};
use regex::Regex;

#[test]
fn escapes_html() {
    let out = render_body("<script>alert('x')</script> & stuff");
    assert!(!out.contains("<script>"));
    assert!(out.contains("&lt;script&gt;"));
}

#[test]
fn greentext_line() {
    let out = render_body(">be me\nnormal line");
    assert!(out.contains("<span class=\"quote\">&gt;be me</span>"));
}

#[test]
fn quote_link() {
    let out = render_body("see >>123456");
    assert!(out.contains(
        "<a href=\"#p123456\" class=\"ref\" data-ref=\"123456\">&gt;&gt;123456</a>"
    ));
}

#[test]
fn spoiler() {
    let out = render_body("secret [spoiler]hidden[/spoiler] text");
    assert!(out.contains("<span class=\"spoiler\">hidden</span>"));
}

#[test]
fn no_greentext_for_quote() {
    let out = render_body(">>123456");
    assert!(!out.contains("class=\"quote\""));
    assert!(out.contains("&gt;&gt;123456</a>"));
}

/// The same passes written with the regex crate, as a reference.
fn reference(text: &str) -> String {
    let escaped: String = text
        .chars()
        .map(|c| match c {
            '&' => "&amp;".to_string(),
            '<' => "&lt;".to_string(),
            '>' => "&gt;".to_string(),
            '"' => "&quot;".to_string(),
            '\'' => "&#39;".to_string(),
            c => c.to_string(),
        })
        .collect();
    let spoiler_re = Regex::new(r"(?is)\[spoiler\](.*?)\[/spoiler\]").unwrap();
    let quote_re = Regex::new(r"(?i)&gt;&gt;(\d{1,10})").unwrap();
    let s = spoiler_re.replace_all(&escaped, "<span class=\"spoiler\">$1</span>");
    let q = quote_re.replace_all(
        &s,
        "<a href=\"#p$1\" class=\"ref\" data-ref=\"$1\">&gt;&gt;$1</a>",
    );
    let mut out = String::new();
    for line in q.lines() {
        if line.starts_with("&gt;") && !line.starts_with("&gt;&gt;") {
            out.push_str("<span class=\"quote\">");
            out.push_str(line);
            out.push_str("</span>\n");
        } else {
            out.push_str(line);
            out.push('\n');
        }
    }
    out
}

#[test]
fn render_body_agrees_with_regex_reference() {
    let cases = [
        "",
        "\n",
        "a\r\nb\r\n",
        "trailing cr\r",
        ">green\n>>12\n>>>3\n",
        "[SPOILER]x[/Spoiler] and [spoiler]open only",
        "[spoiler]a[spoiler]b[/spoiler]c[/spoiler]",
        "[ſpoiler]long s[/ſpoiler]",
        "multi [spoiler]line\nspoiler[/spoiler] end",
        ">>12345678901234 long number",
        ">>١٢٣ arabic digits",
        "&gt;&gt;1 literal entity",
        ">>>>5 and >> 6 and >>7>>8",
        "quote [spoiler]>>42[/spoiler]",
        "<b>\"quoted\" & 'single'</b>",
        ">spoiler [spoiler]>green[/spoiler]\n>> no",
    ];
    for case in cases {
        assert_eq!(render_body(case), reference(case), "input {case:?}");
    }
}

#[test]
fn escape_html_known_values() {
    assert_eq!(escape_html("a<b>&\"'"), "a&lt;b&gt;&amp;&quot;&#39;");
    assert_eq!(escape_html("plain"), "plain");
}

#[test]
fn empty_body_renders_empty() {
    assert_eq!(render_body(""), "");
    assert_eq!(render_body("x"), "x\n");
}

#[test]
fn plain_text_passes_unchanged() {
    assert_eq!(render_body("just some words, 123 & no tags"), "just some words, 123 &amp; no tags\n");
    assert_eq!(render_body("hello world"), "hello world\n");
    assert_eq!(render_body("привет, мир"), "привет, мир\n");
}

#[test]
fn greentext_of_one_line() {
    assert_eq!(render_body(">be me"), "<span class=\"quote\">&gt;be me</span>\n");
    assert_eq!(render_body(">"), "<span class=\"quote\">&gt;</span>\n");
}

#[test]
fn lone_post_links() {
    assert_eq!(
        render_body(">>7"),
        "<a href=\"#p7\" class=\"ref\" data-ref=\"7\">&gt;&gt;7</a>\n"
    );
    assert_eq!(
        render_body(">>1234567890"),
        "<a href=\"#p1234567890\" class=\"ref\" data-ref=\"1234567890\">&gt;&gt;1234567890</a>\n"
    );
}

#[test]
fn lone_spoilers() {
    assert_eq!(
        render_body("[spoiler]the butler did it[/spoiler]"),
        "<span class=\"spoiler\">the butler did it</span>\n"
    );
    assert_eq!(render_body("[spoiler][/spoiler]"), "<span class=\"spoiler\"></span>\n");
}

fn unescape(s: &str) -> String {
    let mut out = String::new();
    let mut rest = s;
    while !rest.is_empty() {
        let mut matched = false;
        for (entity, c) in [("&amp;", '&'), ("&lt;", '<'), ("&gt;", '>'), ("&quot;", '"'), ("&#39;", '\'')] {
            if rest.starts_with(entity) {
                out.push(c);
                rest = &rest[entity.len()..];
                matched = true;
                break;
            }
        }
        if !matched {
            let c = rest.chars().next().unwrap();
            out.push(c);
            rest = &rest[c.len_utf8()..];
        }
    }
    out
}

#[test]
fn escaping_reads_back() {
    assert_eq!(escape_html("<a href='x'>&\""), "&lt;a href=&#39;x&#39;&gt;&amp;&quot;");
    for s in ["<a href='x'>&\"", "&amp;", "&lt;&#39;", "plain", "", "ü & é"] {
        assert_eq!(unescape(&escape_html(s)), s);
    }
}
