use obsidian_garden::wikilink::{parse_wikilink_text, Wikilink, WikilinkParser, WikilinkParserState};
use pulldown_cmark::CowStr;

#[test]
fn test_parse_wikilink() {
    let mut parser = WikilinkParser::new();
    assert_eq!(parser.feed(&CowStr::Borrowed("[")), None,);
    assert_eq!(parser.feed(&CowStr::Borrowed("[")), None,);
    assert_eq!(parser.feed(&CowStr::Borrowed("Page One")), None,);
    assert_eq!(parser.feed(&CowStr::Borrowed("]")), None,);
    assert_eq!(
        parser.feed(&CowStr::Borrowed("]")),
        Some(Wikilink::new("Page One", None))
    );
}

#[test]
fn test_parse_wikilink_label() {
    let mut parser = WikilinkParser::new();
    assert_eq!(parser.feed(&CowStr::Borrowed("[")), None,);
    assert_eq!(parser.feed(&CowStr::Borrowed("[")), None,);
    assert_eq!(parser.feed(&CowStr::Borrowed("Page One|Label 1")), None,);
    assert_eq!(parser.feed(&CowStr::Borrowed("]")), None,);
    assert_eq!(
        parser.feed(&CowStr::Borrowed("]")),
        Some(Wikilink::new("Page One", Some("Label 1")))
    );
}

#[test]
fn test_parse_wikilink_reset_state_if_an_unexpected_token_is_found() {
    let mut parser = WikilinkParser::new();
    assert_eq!(parser.feed(&CowStr::Borrowed("[")), None,);
    assert_eq!(parser.feed(&CowStr::Borrowed("[")), None,);
    assert_eq!(parser.feed(&CowStr::Borrowed("Page One|Label 1")), None,);
    assert_eq!(parser.feed(&CowStr::Borrowed("]")), None,);
    assert_eq!(parser.feed(&CowStr::Borrowed(" Oops")), None);
    assert!(matches!(parser.state(), WikilinkParserState::Start));
}

#[test]
fn test_parse_wikilink_embed() {
    let mut parser = WikilinkParser::new();
    assert_eq!(parser.feed(&CowStr::Borrowed("![")), None);
    assert_eq!(parser.feed(&CowStr::Borrowed("[")), None);
    assert_eq!(parser.feed(&CowStr::Borrowed("test.webp")), None);
    assert_eq!(parser.feed(&CowStr::Borrowed("]")), None);
    assert_eq!(
        parser.feed(&CowStr::Borrowed("]")),
        Some(Wikilink::embedded("test.webp"))
    );
}

fn feed_all(parser: &mut WikilinkParser, tokens: &[&str]) -> Vec<Wikilink> {
    let mut out = Vec::new();
    for t in tokens {
        if let Some(link) = parser.feed(t) {
            out.push(link);
        }
    }
    out
}

#[test]
fn scanner_plain_link_has_no_label() {
    let mut parser = WikilinkParser::new();
    let links = feed_all(&mut parser, &["[", "[", "Target", "]", "]"]);
    assert_eq!(links, vec![Wikilink::new("Target", None)]);
    assert_eq!(links[0].label, None);
    assert!(!links[0].embedded);
}

#[test]
fn scanner_label_split_at_first_bar() {
    let mut parser = WikilinkParser::new();
    let links = feed_all(&mut parser, &["[", "[", "Target|Label|More", "]", "]"]);
    assert_eq!(links, vec![Wikilink::new("Target", Some("Label|More"))]);
}

#[test]
fn scanner_embedded_link() {
    let mut parser = WikilinkParser::new();
    let links = feed_all(&mut parser, &["![", "[", "a.png", "]", "]"]);
    assert_eq!(links, vec![Wikilink::embedded("a.png")]);
    assert!(links[0].embedded);
}

#[test]
fn scanner_embedded_target_keeps_bar() {
    let mut parser = WikilinkParser::new();
    let links = feed_all(&mut parser, &["![", "[", "a.png|100", "]", "]"]);
    assert_eq!(links, vec![Wikilink::embedded("a.png|100")]);
}

#[test]
fn scanner_broken_patterns_emit_nothing() {
    for tokens in [
        vec!["[", "x", "Target", "]", "]"],
        vec!["[", "[", "Target", "x", "]"],
        vec!["[", "[", "Target", "]", "x"],
        vec!["x", "[", "Target", "]", "]"],
        vec!["[", "[", "Target", "]"],
    ] {
        let mut parser = WikilinkParser::new();
        assert!(feed_all(&mut parser, &tokens).is_empty());
    }
}

#[test]
fn scanner_recovers_after_reset() {
    let mut parser = WikilinkParser::new();
    let links = feed_all(&mut parser, &["[", "oops", "[", "[", "B", "]", "]"]);
    assert_eq!(links, vec![Wikilink::new("B", None)]);
    assert!(matches!(parser.state(), WikilinkParserState::Start));
}

#[test]
fn scanner_plain_link_after_embedded_link_is_not_embedded() {
    let mut parser = WikilinkParser::new();
    let links = feed_all(
        &mut parser,
        &["![", "[", "a.png", "]", "]", "[", "[", "Note", "]", "]"],
    );
    assert_eq!(links, vec![Wikilink::embedded("a.png"), Wikilink::new("Note", None)]);
}

#[test]
fn scanner_default_starts_idle() {
    let parser = WikilinkParser::default();
    assert!(matches!(parser.state(), WikilinkParserState::Start));
}

#[test]
fn text_form_of_links() {
    assert_eq!(Wikilink::new("Page", None).to_string(), "[[Page]]");
    assert_eq!(Wikilink::new("Page", Some("Label")).to_string(), "[[Page|Label]]");
    assert_eq!(Wikilink::embedded("a.png").to_string(), "![[a.png]]");
}

#[test]
fn text_form_round_trips_through_the_scanner() {
    let cases = vec![
        (Wikilink::new("Page", None), vec!["[", "[", "Page", "]", "]"]),
        (Wikilink::new("Page", Some("A label")), vec!["[", "[", "Page|A label", "]", "]"]),
        (Wikilink::embedded("img/a.png"), vec!["![", "[", "img/a.png", "]", "]"]),
    ];
    for (link, tokens) in cases {
        assert_eq!(tokens.concat(), link.to_string());
        let mut parser = WikilinkParser::new();
        assert_eq!(feed_all(&mut parser, &tokens), vec![link]);
    }
}

#[test]
fn parse_wikilink_text_splits_target_and_label() {
    assert_eq!(parse_wikilink_text("a|b"), Wikilink::new("a", Some("b")));
    assert_eq!(parse_wikilink_text("a"), Wikilink::new("a", None));
    assert_eq!(parse_wikilink_text("|b"), Wikilink::new("", Some("b")));
    assert_eq!(parse_wikilink_text("a|"), Wikilink::new("a", Some("")));
}
