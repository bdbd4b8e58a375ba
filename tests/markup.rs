use wikipedia_core::filters::{should_include_by_content, should_include_by_title};
use wikipedia_core::parser::{clean_wikitext, parse_id, PageAssembler, XmlEvent};
use wikipedia_core::{input_format, Article, InputFormat, TopicFilter, UnsupportedFormat};

#[test]
fn test_keyword_matching() {
    let history = TopicFilter::History;
    let technology = TopicFilter::Technology;
    let science = TopicFilter::Science;
    let mathematics = TopicFilter::Mathematics;

    assert!(history.keywords().contains(&"war"));
    assert!(history.keywords().contains(&"empire"));

    assert!(technology.keywords().contains(&"computer"));
    assert!(technology.keywords().contains(&"programming"));

    assert!(science.keywords().contains(&"physics"));
    assert!(science.keywords().contains(&"biology"));

    assert!(mathematics.keywords().contains(&"theorem"));
    assert!(mathematics.keywords().contains(&"algebra"));
}

#[test]
fn test_wikitext_cleaning() {
    let input = "'''Bold text''' and ''italic text'' with [[links]] and {{templates}}.";
    let cleaned = clean_wikitext(input);
    assert_eq!(cleaned, "Bold text and italic text with links and .");

    let input_with_refs = "Text with <ref>reference</ref> and <nowiki>nowiki</nowiki>.";
    let cleaned = clean_wikitext(input_with_refs);
    assert_eq!(cleaned, "Text with  and .");
}

#[test]
fn cleaning_handles_links_categories_and_headings() {
    assert_eq!(clean_wikitext("See [[Rome|the city]] now"), "See the city now");
    assert_eq!(clean_wikitext("A[[Category:History]]B[[File:x.png|thumb]]C"), "ABC");
    assert_eq!(clean_wikitext("== Early life ==\nborn"), "Early life\nborn");
    assert_eq!(clean_wikitext("=== Deeper ==="), "Deeper");
    assert_eq!(clean_wikitext("=======x=="), "x==");
    assert_eq!(clean_wikitext("====x="), "x=");
    assert_eq!(clean_wikitext("==a==b=="), "ab==");
    assert_eq!(clean_wikitext("a == b"), "a == b");
    assert_eq!(clean_wikitext("a <ref name=\"x\">cite</ref>b<br/>c"), "a bc");
    assert_eq!(clean_wikitext("{{unclosed"), "{{unclosed");
}

#[test]
fn cleaning_trims_lines_and_drops_empty_ones() {
    assert_eq!(clean_wikitext("  one  \n\n \t\n two\n"), "one\ntwo");
    assert_eq!(clean_wikitext(""), "");
    assert_eq!(clean_wikitext("\n\n"), "");
}

#[test]
fn cleaning_plain_text_twice_changes_nothing_more() {
    let plain = "  First line \n\nSecond line, plain.\n  ";
    let once = clean_wikitext(plain);
    assert_eq!(once, "First line\nSecond line, plain.");
    assert_eq!(clean_wikitext(&once), once);
    let loose = " a = b, [x] it's {y} \n\n done ";
    let once = clean_wikitext(loose);
    assert_eq!(once, "a = b, [x] it's {y}\ndone");
    assert_eq!(clean_wikitext(&once), once);
}

#[test]
fn namespace_titles_fail_the_title_gate() {
    for filter in [None, Some(TopicFilter::History), Some(TopicFilter::Science)] {
        assert!(!should_include_by_title("File:Example.jpg", &filter));
        assert!(!should_include_by_title("Category:War history", &filter));
        assert!(!should_include_by_title("Template:Battle", &filter));
        assert!(!should_include_by_title("", &filter));
    }
    assert!(should_include_by_title("Anything", &None));
    assert!(should_include_by_title("Warsaw", &Some(TopicFilter::History)));
    assert!(!should_include_by_title("Computer Science", &Some(TopicFilter::History)));
}

#[test]
fn content_gate_matches_whole_words() {
    let page = |title: &str, content: &str| Article {
        title: title.to_string(),
        content: content.to_string(),
        id: 0,
        redirect: None,
    };
    let history = Some(TopicFilter::History);
    assert!(!should_include_by_content(&page("Warsaw", "A city on the river."), &history));
    assert!(should_include_by_content(&page("Warsaw", "Destroyed in the war."), &history));
    assert!(should_include_by_content(&page("Anything", "no keyword"), &None));
}

#[test]
fn ids_parse_like_unsigned_integers() {
    assert_eq!(parse_id("32927"), 32927);
    assert_eq!(parse_id("+7"), 7);
    assert_eq!(parse_id(""), 0);
    assert_eq!(parse_id("12a"), 0);
    assert_eq!(parse_id("-3"), 0);
    assert_eq!(parse_id("18446744073709551615"), u64::MAX);
    assert_eq!(parse_id("18446744073709551616"), 0);
}

#[test]
fn assembler_keeps_first_id_and_records_redirects() {
    let mut assembler = PageAssembler::new();
    let filter = None;
    let events = [
        XmlEvent::Start("page".to_string()),
        XmlEvent::Start("title".to_string()),
        XmlEvent::Text("Old Name".to_string()),
        XmlEvent::End("title".to_string()),
        XmlEvent::Start("id".to_string()),
        XmlEvent::Text("10".to_string()),
        XmlEvent::End("id".to_string()),
        XmlEvent::Start("redirect".to_string()),
        XmlEvent::Text("New Name".to_string()),
        XmlEvent::End("redirect".to_string()),
        XmlEvent::Start("revision".to_string()),
        XmlEvent::Start("id".to_string()),
        XmlEvent::Text("99".to_string()),
        XmlEvent::End("id".to_string()),
        XmlEvent::End("revision".to_string()),
    ];
    for e in &events {
        assert!(assembler.feed(e, &filter).is_none());
    }
    let page = assembler.feed(&XmlEvent::End("page".to_string()), &filter).unwrap();
    assert_eq!(page.title, "Old Name");
    assert_eq!(page.id, 10);
    assert_eq!(page.redirect, Some("New Name".to_string()));
    assert!(assembler.current.is_none());
}

#[test]
fn suppressed_pages_skip_text_and_are_not_handed_on() {
    let mut assembler = PageAssembler::new();
    let filter = Some(TopicFilter::History);
    let events = [
        XmlEvent::Start("page".to_string()),
        XmlEvent::Start("title".to_string()),
        XmlEvent::Text("Computer Science".to_string()),
        XmlEvent::End("title".to_string()),
        XmlEvent::Start("text".to_string()),
        XmlEvent::Text("war war war".to_string()),
        XmlEvent::End("text".to_string()),
    ];
    for e in &events {
        assert!(assembler.feed(e, &filter).is_none());
    }
    assert!(assembler.suppressed);
    assert_eq!(assembler.current.as_ref().unwrap().content, "");
    assert!(assembler.feed(&XmlEvent::End("page".to_string()), &filter).is_none());
    assert!(!assembler.suppressed);
}

#[test]
fn input_formats_follow_the_extension() {
    assert_eq!(input_format("dump.xml"), Ok(InputFormat::Xml));
    assert_eq!(input_format("dump.XML"), Ok(InputFormat::Xml));
    assert_eq!(input_format("dump.xml.bz2"), Ok(InputFormat::Bz2));
    assert_eq!(input_format("dump.gz"), Err(UnsupportedFormat));
    assert_eq!(input_format("dump"), Err(UnsupportedFormat));
    assert_eq!(
        UnsupportedFormat.message(),
        "Unsupported file format. Use .xml or .bz2 files."
    );
}
