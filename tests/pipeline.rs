use wikipedia_core::generator::{
    free_ordinal_exec, manifest_resources, page_total, paginate, server_info, sibling_filename,
};
use wikipedia_core::parser::{PageAssembler, XmlEvent};
use wikipedia_core::{
    Article, ArticleCategorizer, Config, NoCategorizer, StaticMcpGenerator, TopicFilter, WikipediaParser,
};

struct TestCategorizer;

impl ArticleCategorizer for TestCategorizer {
    fn categorize(&self, title: &str, _content: &str) -> Vec<String> {
        let title_lower = title.to_lowercase();
        let mut categories = Vec::new();

        if title_lower.contains("war") {
            categories.push("war".to_string());
        }

        categories
    }
}

fn element(events: &mut Vec<XmlEvent>, name: &str, text: &str) {
    events.push(XmlEvent::Start(name.to_string()));
    events.push(XmlEvent::Text(text.to_string()));
    events.push(XmlEvent::End(name.to_string()));
}

fn export_events(pages: &[(&str, &str, &str)]) -> Vec<XmlEvent> {
    let mut events = vec![XmlEvent::Start("mediawiki".to_string())];
    for (title, id, text) in pages {
        events.push(XmlEvent::Start("page".to_string()));
        element(&mut events, "title", title);
        element(&mut events, "id", id);
        events.push(XmlEvent::Start("revision".to_string()));
        element(&mut events, "text", text);
        events.push(XmlEvent::End("revision".to_string()));
        events.push(XmlEvent::End("page".to_string()));
    }
    events.push(XmlEvent::End("mediawiki".to_string()));
    events.push(XmlEvent::Eof);
    events
}

fn ingest(
    pages: &[(&str, &str, &str)],
    filter: Option<TopicFilter>,
    max: Option<usize>,
) -> WikipediaParser {
    let mut parser = WikipediaParser::new("en".to_string());
    let mut assembler = PageAssembler::new();
    let mut processed: usize = 0;
    for event in &export_events(pages) {
        if parser.ingest_event(&mut assembler, event, &mut processed, max, &filter) {
            break;
        }
    }
    parser
}

fn test_pages() -> Vec<(&'static str, &'static str, &'static str)> {
    vec![
        (
            "World War II",
            "32927",
            "World War II was a global war that lasted from 1939 to 1945. The war involved the vast majority of the world's countries—including all of the great powers—forming two opposing military alliances: the Allies and the Axis.",
        ),
        (
            "Roman Empire",
            "25458",
            "The Roman Empire was the post-Republican period of ancient Rome. As a polity it included large territorial holdings around the Mediterranean Sea in Europe, Northern Africa, and Western Asia ruled by emperors.",
        ),
        (
            "File:Example.jpg",
            "12345",
            "This is a file page and should be excluded.",
        ),
        (
            "Computer Science",
            "5323",
            "Computer science is the study of algorithms and data structures, computational systems, and the design of computer systems and their applications.",
        ),
    ]
}

fn generate<C: ArticleCategorizer>(
    pages: &[(&str, &str, &str)],
    filter: Option<TopicFilter>,
    categorizer: C,
) -> StaticMcpGenerator<C> {
    let parser = ingest(pages, filter, None);
    let mut generator =
        StaticMcpGenerator::new("output".to_string(), "en".to_string(), parser, categorizer);
    let n = generator.articles.len();
    let limit = StaticMcpGenerator::<C>::article_limit(false, n);
    generator.generate_article_responses(limit);
    generator
}

fn doc<C: ArticleCategorizer>(generator: &StaticMcpGenerator<C>, name: &str) -> Option<String> {
    generator.artifacts.get(&name.to_string()).cloned()
}

fn titles<C: ArticleCategorizer>(generator: &StaticMcpGenerator<C>) -> Vec<String> {
    generator.article_titles.keys()
}

#[test]
fn test_topic_filter_history() {
    let filter = TopicFilter::History;

    assert!(filter.is_relevant("World War II", "global war"));
    assert!(filter.is_relevant("Roman Empire", "ancient Rome"));
    assert!(!filter.is_relevant("Computer Science", "algorithms"));

    assert_eq!(
        filter.description(),
        "Historical Events, Figures, and Civilizations"
    );
    assert_eq!(filter.server_name("en"), "Wikipedia EN History StaticMCP");
}

#[test]
fn test_topic_filter_technology() {
    let filter = TopicFilter::Technology;

    assert!(filter.is_relevant("Computer Science", "algorithms"));
    assert!(filter.is_relevant("Python Programming", "software development"));
    assert!(!filter.is_relevant("World War II", "global war"));
}

#[test]
fn test_config_builder() {
    let config = Config::new("input.xml".to_string(), "output".to_string())
        .language("es".to_string())
        .topic_filter(TopicFilter::History)
        .exact_matches(true)
        .max_articles(1000);

    assert_eq!(config.language, "es");
    assert_eq!(config.topic_filter, Some(TopicFilter::History));
    assert!(config.exact_matches);
    assert_eq!(config.max_articles, Some(1000));
}

#[test]
fn test_generate_staticmcp() {
    let config = Config::new("test.xml".to_string(), "output".to_string())
        .language("en".to_string())
        .topic_filter(TopicFilter::History)
        .max_articles(10);
    let parser = ingest(&test_pages(), config.topic_filter, config.max_articles);
    assert_eq!(parser.articles.len(), 2);

    let info = server_info(&config.language, &config.topic_filter);
    assert!(info.name.contains("Wikipedia EN History StaticMCP"));
    assert_eq!(info.version, "1.0.0");
    let resources = manifest_resources();
    assert_eq!(resources.len(), 2);
    assert_eq!(resources[0].uri, "wikipedia://stats");
    assert_eq!(resources[1].uri, "wikipedia://articles");
    assert!(TopicFilter::History.description().contains("Historical Events"));
}

#[test]
fn test_history_filtering() {
    let generator = generate(&test_pages(), Some(TopicFilter::History), NoCategorizer);
    let titles = titles(&generator);

    assert!(titles.contains(&"World War II".to_string()));
    assert!(titles.contains(&"Roman Empire".to_string()));
    assert!(!titles.contains(&"Computer Science".to_string()));
    assert!(!titles.contains(&"File:Example.jpg".to_string()));
}

#[test]
fn test_pagination_and_categories() {
    let generator = generate(&test_pages(), Some(TopicFilter::History), TestCategorizer);

    let pages = paginate(&titles(&generator));
    assert_eq!(pages.len(), 1);
    assert_eq!(pages[0].len(), 2);

    let names = generator.categories.keys();
    assert!(names.contains(&"war".to_string()));
    let war = generator.categories.get(&"war".to_string()).unwrap();
    assert!(war.contains(&"World War II".to_string()));
    assert!(!war.contains(&"Roman Empire".to_string()));
}

#[test]
fn test_article_response_generation() {
    let generator = generate(&test_pages(), Some(TopicFilter::History), NoCategorizer);

    assert!(doc(&generator, "world_war_ii").is_some());
    assert!(doc(&generator, "roman_empire").is_some());

    let article_content = doc(&generator, "world_war_ii").unwrap();
    assert!(article_content.contains("# World War II"));
    assert!(article_content.contains("global war"));
}

#[test]
fn test_collision_handling_short_articles() {
    let pages = [
        (
            "War Article",
            "1",
            "Short content about historical war events.",
        ),
        (
            "War/Article",
            "2",
            "Another short article about war history.",
        ),
    ];
    let generator = generate(&pages, Some(TopicFilter::History), NoCategorizer);

    let merged_content = doc(&generator, "war_article").unwrap();
    assert!(merged_content.contains("War Article"));
    assert!(merged_content.contains("War/Article"));
    assert!(merged_content.contains("---"));
    assert!(!merged_content.contains("Multiple articles found"));
    assert!(doc(&generator, "war_article_1").is_none());
}

#[test]
fn test_collision_handling_long_articles() {
    let long_content1 = format!(
        "This is a long historical war article about ancient battles. {}",
        "a".repeat(1400)
    );
    let long_content2 = format!(
        "This is another long war article about medieval conflicts. {}",
        "b".repeat(1400)
    );
    let pages = [
        ("Battle Article", "1", long_content1.as_str()),
        ("Battle/Article", "2", long_content2.as_str()),
    ];
    let generator = generate(&pages, Some(TopicFilter::History), NoCategorizer);

    let base_content = doc(&generator, "battle_article").unwrap();
    let variant1_content = doc(&generator, "battle_article_1").unwrap();
    let variant2_content = doc(&generator, "battle_article_2").unwrap();

    assert!(base_content.contains("Multiple articles found"));
    assert!(base_content.contains("Battle Article"));
    assert!(base_content.contains("Battle/Article"));

    assert!(!variant1_content.contains("---"));
    assert!(!variant2_content.contains("---"));
    assert_ne!(variant1_content, variant2_content);
    let all_content = format!("{variant1_content}{variant2_content}");
    assert!(all_content.contains("ancient battles"));
    assert!(all_content.contains("medieval conflicts"));
}

#[test]
fn test_collision_handling_existing_disambiguation() {
    let long_content1 = format!(
        "This is a historical empire article about ancient kingdoms. {}",
        "a".repeat(1400)
    );
    let long_content2 = format!(
        "This is another empire article about medieval dynasties. {}",
        "b".repeat(1400)
    );
    let long_content3 = format!(
        "This is a third empire article about colonial rule. {}",
        "c".repeat(1400)
    );
    let pages = [
        ("Empire Article", "1", long_content1.as_str()),
        ("Empire/Article", "2", long_content2.as_str()),
        ("Empire_Article", "3", long_content3.as_str()),
    ];
    let generator = generate(&pages, Some(TopicFilter::History), NoCategorizer);

    let base_content = doc(&generator, "empire_article").unwrap();
    let variant1_content = doc(&generator, "empire_article_1").unwrap();
    let variant2_content = doc(&generator, "empire_article_2").unwrap();
    let variant3_content = doc(&generator, "empire_article_3").unwrap();

    assert!(base_content.contains("Multiple articles found"));
    assert!(base_content.contains("Empire Article"));
    assert!(base_content.contains("Empire/Article"));
    assert!(base_content.contains("Empire_Article"));

    assert!(!variant1_content.contains("---"));
    assert!(!variant2_content.contains("---"));
    assert!(!variant3_content.contains("---"));
    assert_ne!(variant1_content, variant2_content);
    assert_ne!(variant2_content, variant3_content);
    assert_ne!(variant1_content, variant3_content);

    let all_content = format!("{variant1_content}{variant2_content}{variant3_content}");
    assert!(all_content.contains("ancient kingdoms"));
    assert!(all_content.contains("medieval dynasties"));
    assert!(all_content.contains("colonial rule"));
}

#[test]
fn test_collision_handling_mixed_lengths() {
    let short_content = "Short historical revolution article.";
    let long_content = format!(
        "This is a long revolution article about democratic movements. {}",
        "a".repeat(1400)
    );
    let pages = [
        ("Revolution Article", "1", short_content),
        ("Revolution/Article", "2", long_content.as_str()),
    ];
    let generator = generate(&pages, Some(TopicFilter::History), NoCategorizer);

    let base_content = doc(&generator, "revolution_article").unwrap();
    let variant1_content = doc(&generator, "revolution_article_1").unwrap();
    let variant2_content = doc(&generator, "revolution_article_2").unwrap();

    assert!(base_content.contains("Multiple articles found"));
    assert!(base_content.contains("Revolution Article"));
    assert!(base_content.contains("Revolution/Article"));

    assert!(!variant1_content.contains("---"));
    assert!(!variant2_content.contains("---"));
    assert_ne!(variant1_content, variant2_content);
}

#[test]
fn world_war_document_starts_with_its_heading() {
    let pages = &test_pages()[..2];
    let generator = generate(pages, Some(TopicFilter::History), NoCategorizer);
    assert!(titles(&generator).contains(&"World War II".to_string()));
    let text = doc(&generator, "world_war_ii").unwrap();
    assert_eq!(text.lines().next(), Some("# World War II"));
}

#[test]
fn file_pages_are_excluded_with_or_without_a_filter() {
    for filter in [None, Some(TopicFilter::History), Some(TopicFilter::Technology)] {
        let generator = generate(&test_pages(), filter, NoCategorizer);
        assert!(!titles(&generator).contains(&"File:Example.jpg".to_string()));
        assert!(doc(&generator, "file_example_jpg").is_none());
    }
    let generator = generate(&test_pages(), None, NoCategorizer);
    assert_eq!(titles(&generator).len(), 3);
}

#[test]
fn one_hundred_twenty_titles_fill_three_pages() {
    let titles: Vec<String> = (0..120).map(|i| format!("Title {i}")).collect();
    let pages = paginate(&titles);
    assert_eq!(pages.len(), 3);
    assert_eq!(page_total(120), 3);
    assert_eq!(pages[0].len(), 50);
    assert_eq!(pages[1].len(), 50);
    assert_eq!(pages[2].len(), 20);
    assert_eq!(pages[2][0], "Title 100");
    assert_eq!(page_total(0), 0);
    assert_eq!(page_total(50), 1);
    assert_eq!(page_total(51), 2);
}

#[test]
fn default_document_limit_is_one_hundred() {
    assert_eq!(StaticMcpGenerator::<NoCategorizer>::article_limit(false, 250), 100);
    assert_eq!(StaticMcpGenerator::<NoCategorizer>::article_limit(true, 250), 250);
    assert_eq!(StaticMcpGenerator::<NoCategorizer>::article_limit(false, 7), 7);
}

#[test]
fn max_articles_stops_the_parse() {
    let parser = ingest(&test_pages(), None, Some(1));
    assert_eq!(parser.articles.len(), 1);
    assert!(parser.articles.contains(&"World War II".to_string()));
}

#[test]
fn without_filter_server_name_uses_language() {
    let info = server_info("de", &None);
    assert_eq!(info.name, "Wikipedia DE StaticMCP");
}

#[test]
fn merge_policy_texts_are_exact() {
    let generator =
        StaticMcpGenerator::new_streaming("out".to_string(), "en".to_string(), NoCategorizer);
    let short = Article {
        title: "B".to_string(),
        content: "two".to_string(),
        id: 2,
        redirect: None,
    };
    assert_eq!(
        generator.merge_with_existing_content("# A\n\none", "B", &short),
        "# A\n\none\n\n---\n\n## B\n\ntwo"
    );
    let long = Article {
        title: "B".to_string(),
        content: "x".repeat(1001),
        id: 2,
        redirect: None,
    };
    let index = generator.merge_with_existing_content("# A\n\none", "B", &long);
    assert_eq!(
        index,
        "Multiple articles found. Choose the one you need:\n\n\u{2022} **A** - Use get_article tool with title 'A'\n\u{2022} **B** - Use get_article tool with title 'B'\n"
    );
    let grown = generator.merge_with_existing_content(&index, "C", &short);
    assert_eq!(
        grown,
        format!("{index}\u{2022} **C** - Use get_article tool with title 'C'\n")
    );
    assert_eq!(
        generator.merge_with_existing_content("no heading here", "B", &long),
        "Multiple articles found. Choose the one you need:\n\n\u{2022} **Unknown** - Use get_article tool with title 'Unknown'\n\u{2022} **B** - Use get_article tool with title 'B'\n"
    );
}

#[test]
fn heading_titles_are_read_back() {
    let generator =
        StaticMcpGenerator::new_streaming("out".to_string(), "en".to_string(), NoCategorizer);
    assert_eq!(generator.extract_title_from_content("# Title\n\nbody"), "Title");
    assert_eq!(generator.extract_title_from_content("# Only"), "Only");
    assert_eq!(generator.extract_title_from_content("Title\n\nbody"), "Unknown");
}

#[test]
fn sibling_names() {
    assert_eq!(sibling_filename("battle_article", 1), "battle_article_1");
    assert_eq!(sibling_filename("stem", 12), "stem_12");
}

#[test]
fn same_stem_writes_keep_every_article() {
    let mut generator =
        StaticMcpGenerator::new_streaming("out".to_string(), "en".to_string(), NoCategorizer);
    let page = |title: &str, content: String| Article {
        title: title.to_string(),
        content,
        id: 0,
        redirect: None,
    };
    let first = page("Siege Article", "s".repeat(1200));
    let second = page("Siege/Article", "t".repeat(1200));
    let third = page("Siege_Article", "u".repeat(10));
    generator.write_article_with_collision_handling(&first.title, &first);
    assert_eq!(
        generator.artifacts.get(&"siege_article".to_string()).unwrap(),
        &format!("# Siege Article\n\n{}", "s".repeat(1200))
    );
    generator.write_article_with_collision_handling(&second.title, &second);
    generator.write_article_with_collision_handling(&third.title, &third);
    let get = |name: &str| generator.artifacts.get(&name.to_string()).cloned().unwrap();
    assert!(get("siege_article").starts_with("Multiple articles found"));
    assert!(get("siege_article").contains("Siege_Article"));
    assert_eq!(get("siege_article_1"), format!("# Siege Article\n\n{}", "s".repeat(1200)));
    assert_eq!(get("siege_article_2"), format!("# Siege/Article\n\n{}", "t".repeat(1200)));
    assert_eq!(get("siege_article_3"), format!("# Siege_Article\n\n{}", "u".repeat(10)));
    assert_eq!(generator.article_titles.len(), 3);
}

#[test]
fn later_page_with_same_title_wins() {
    let pages = [
        ("Battle of Hastings", "1", "An early war text."),
        ("Battle of Hastings", "2", "A later war text."),
    ];
    let parser = ingest(&pages, Some(TopicFilter::History), None);
    assert_eq!(parser.articles.len(), 1);
    let stored = parser.articles.get(&"Battle of Hastings".to_string()).unwrap();
    assert_eq!(stored.content, "A later war text.");
    assert_eq!(stored.id, 2);
}

#[test]
fn redirects_go_to_their_own_table() {
    let mut events = vec![
        XmlEvent::Start("page".to_string()),
        XmlEvent::Start("title".to_string()),
        XmlEvent::Text("WW2".to_string()),
        XmlEvent::End("title".to_string()),
        XmlEvent::Start("redirect".to_string()),
        XmlEvent::Text("World War II".to_string()),
        XmlEvent::End("redirect".to_string()),
        XmlEvent::End("page".to_string()),
    ];
    events.extend(export_events(&test_pages()[..1]));
    let mut parser = WikipediaParser::new("en".to_string());
    let mut assembler = PageAssembler::new();
    let mut processed: usize = 0;
    for event in &events {
        if parser.ingest_event(&mut assembler, event, &mut processed, None, &None) {
            break;
        }
    }
    assert_eq!(parser.redirects.len(), 1);
    assert_eq!(
        parser.redirects.get(&"WW2".to_string()),
        Some(&"World War II".to_string())
    );
    assert_eq!(parser.articles.len(), 1);
    assert!(!parser.articles.contains(&"WW2".to_string()));
    assert_eq!(processed, 2);
}

#[test]
fn short_threshold_counts_utf8_bytes() {
    let generator =
        StaticMcpGenerator::new_streaming("out".to_string(), "en".to_string(), NoCategorizer);
    let short = Article {
        title: "B".to_string(),
        content: "two".to_string(),
        id: 2,
        redirect: None,
    };
    let existing = format!("# T\n{}", "\u{e9}".repeat(600));
    assert_eq!(existing.chars().count(), 604);
    assert_eq!(existing.len(), 1204);
    let merged = generator.merge_with_existing_content(&existing, "B", &short);
    assert!(merged.starts_with("Multiple articles found"));
    let ascii = format!("# T\n{}", "e".repeat(600));
    let merged = generator.merge_with_existing_content(&ascii, "B", &short);
    assert!(merged.contains("\n\n---\n\n## B"));
}

#[test]
fn pages_without_a_title_are_dropped() {
    let events = vec![
        XmlEvent::Start("page".to_string()),
        XmlEvent::Start("text".to_string()),
        XmlEvent::Text("war everywhere".to_string()),
        XmlEvent::End("text".to_string()),
        XmlEvent::End("page".to_string()),
        XmlEvent::Eof,
    ];
    for filter in [None, Some(TopicFilter::History)] {
        let mut parser = WikipediaParser::new("en".to_string());
        let mut assembler = PageAssembler::new();
        let mut processed: usize = 0;
        for event in &events {
            if parser.ingest_event(&mut assembler, event, &mut processed, None, &filter) {
                break;
            }
        }
        assert_eq!(parser.articles.len(), 0);
        assert_eq!(processed, 0);
    }
}

#[test]
fn cap_of_two_stops_after_the_second_page() {
    let parser = ingest(&test_pages(), None, Some(2));
    assert_eq!(parser.articles.len(), 2);
    assert!(!parser.articles.contains(&"Computer Science".to_string()));
}

#[test]
fn siblings_never_overwrite_other_documents() {
    let mut generator =
        StaticMcpGenerator::new_streaming("out".to_string(), "en".to_string(), NoCategorizer);
    let page = |title: &str, content: String| Article {
        title: title.to_string(),
        content,
        id: 0,
        redirect: None,
    };
    let squatter = page("Siege Article 1", "short".to_string());
    generator.write_article_with_collision_handling(&squatter.title, &squatter);
    let first = page("Siege Article", "s".repeat(1200));
    let second = page("Siege/Article", "t".repeat(1200));
    generator.write_article_with_collision_handling(&first.title, &first);
    generator.write_article_with_collision_handling(&second.title, &second);
    let get = |name: &str| generator.artifacts.get(&name.to_string()).cloned().unwrap();
    assert_eq!(get("siege_article_1"), "# Siege Article 1\n\nshort");
    assert_eq!(get("siege_article_2"), format!("# Siege Article\n\n{}", "s".repeat(1200)));
    assert_eq!(get("siege_article_3"), format!("# Siege/Article\n\n{}", "t".repeat(1200)));
    assert_eq!(free_ordinal_exec(&generator.artifacts, "siege_article"), 4);
}

#[test]
fn constructor_categorizes_every_article() {
    let parser = ingest(&test_pages(), None, None);
    let generator =
        StaticMcpGenerator::new("out".to_string(), "en".to_string(), parser, TestCategorizer);
    let war = generator.categories.get(&"war".to_string()).unwrap();
    assert_eq!(war, &vec!["World War II".to_string()]);
    assert_eq!(generator.categories.len(), 1);
}
