//! Topic filters and the two relevance gates: a cheap one on the title alone,
//! and one on the title and the cleaned content together.
use vstd::prelude::*;
use crate::text::{
    chars_of, contains, contains_chars, contains_word, has_prefix, has_word, lower_of, lowercase,
    starts_with, upper_of, uppercase,
};
use crate::types::Article;

verus! {

/// A subject domain that narrows ingestion to matching articles.
#[derive(Clone, Copy, Debug, PartialEq, Eq, Structural)]
pub enum TopicFilter {
    History,
    Technology,
    Science,
    Mathematics,
}

/// The keywords of each filter, in lower case.
pub open spec fn keywords_of(f: TopicFilter) -> Seq<Seq<char>> {
    match f {
        TopicFilter::History => seq![
            "history"@, "historical"@, "war"@, "battle"@, "empire"@, "kingdom"@, "dynasty"@,
            "revolution"@, "ancient"@, "medieval"@, "century"@, "civilization"@, "emperor"@,
            "treaty"@, "colonial"@,
        ],
        TopicFilter::Technology => seq![
            "technology"@, "computer"@, "software"@, "programming"@, "internet"@, "algorithm"@,
            "engineering"@, "electronics"@, "robot"@, "network"@, "digital"@,
        ],
        TopicFilter::Science => seq![
            "science"@, "scientific"@, "physics"@, "chemistry"@, "biology"@, "astronomy"@,
            "geology"@, "species"@, "molecule"@, "atom"@, "evolution"@,
        ],
        TopicFilter::Mathematics => seq![
            "mathematics"@, "mathematical"@, "theorem"@, "algebra"@, "geometry"@, "calculus"@,
            "equation"@, "topology"@, "statistics"@, "number theory"@,
        ],
    }
}

pub open spec fn topic_name(f: TopicFilter) -> Seq<char> {
    match f {
        TopicFilter::History => "History"@,
        TopicFilter::Technology => "Technology"@,
        TopicFilter::Science => "Science"@,
        TopicFilter::Mathematics => "Mathematics"@,
    }
}

pub open spec fn description_of(f: TopicFilter) -> Seq<char> {
    match f {
        TopicFilter::History => "Historical Events, Figures, and Civilizations"@,
        TopicFilter::Technology => "Technology, Computing, and Engineering"@,
        TopicFilter::Science => "Natural Sciences and Scientific Discovery"@,
        TopicFilter::Mathematics => "Mathematics, Theorems, and Mathematical Concepts"@,
    }
}

/// The display name of a server for a language code and a filter.
pub open spec fn server_name_of(f: TopicFilter, language: Seq<char>) -> Seq<char> {
    "Wikipedia "@ + upper_of(language) + " "@ + topic_name(f) + " StaticMCP"@
}

/// Some keyword of `keywords` stands as a whole word in the lower-cased title or content.
pub open spec fn relevant(keywords: Seq<Seq<char>>, title: Seq<char>, content: Seq<char>) -> bool {
    exists|i: int|
        0 <= i < keywords.len() && (has_word(title, #[trigger] keywords[i]) || has_word(
            content,
            keywords[i],
        ))
}

/// Prefixes of the namespaces that hold no articles.
pub open spec fn namespace_prefixes() -> Seq<Seq<char>> {
    seq![
        "File:"@, "Category:"@, "Template:"@, "User:"@, "Talk:"@, "Wikipedia:"@, "Help:"@,
        "Portal:"@, "MediaWiki:"@, "Module:"@,
    ]
}

pub open spec fn in_namespace(title: Seq<char>) -> bool {
    exists|i: int| 0 <= i < namespace_prefixes().len() && starts_with(title, #[trigger] namespace_prefixes()[i])
}

/// Some keyword of `keywords` occurs in the lower-cased title.
pub open spec fn title_mentions(keywords: Seq<Seq<char>>, title: Seq<char>) -> bool {
    exists|i: int| 0 <= i < keywords.len() && contains(lower_of(title), #[trigger] keywords[i])
}

/// The title gate: a non-empty title outside the namespaces, which with a filter must
/// mention one of its keywords.
pub open spec fn title_gate(title: Seq<char>, filter: Option<TopicFilter>) -> bool {
    &&& title.len() > 0
    &&& !in_namespace(title)
    &&& match filter {
        None => true,
        Some(f) => title_mentions(keywords_of(f), title),
    }
}

/// The content gate: with a filter, the title and content must be relevant to it.
pub open spec fn content_gate(title: Seq<char>, content: Seq<char>, filter: Option<TopicFilter>) -> bool {
    match filter {
        None => true,
        Some(f) => relevant(keywords_of(f), lower_of(title), lower_of(content)),
    }
}

fn namespace_prefix_list() -> (r: Vec<&'static str>)
    ensures
        r@.map_values(|p: &str| p@) == namespace_prefixes(),
{
    let r = vec![
        "File:", "Category:", "Template:", "User:", "Talk:", "Wikipedia:", "Help:", "Portal:",
        "MediaWiki:", "Module:",
    ];
    proof {
        assert(r@.map_values(|p: &str| p@) =~= namespace_prefixes());
    }
    r
}

impl TopicFilter {
    /// The filter's keywords, in lower case.
    pub fn keywords(&self) -> (r: Vec<&'static str>)
        ensures
            r@.map_values(|k: &str| k@) == keywords_of(*self),
    {
        let r = match self {
            TopicFilter::History => vec![
                "history", "historical", "war", "battle", "empire", "kingdom", "dynasty",
                "revolution", "ancient", "medieval", "century", "civilization", "emperor",
                "treaty", "colonial",
            ],
            TopicFilter::Technology => vec![
                "technology", "computer", "software", "programming", "internet", "algorithm",
                "engineering", "electronics", "robot", "network", "digital",
            ],
            TopicFilter::Science => vec![
                "science", "scientific", "physics", "chemistry", "biology", "astronomy",
                "geology", "species", "molecule", "atom", "evolution",
            ],
            TopicFilter::Mathematics => vec![
                "mathematics", "mathematical", "theorem", "algebra", "geometry", "calculus",
                "equation", "topology", "statistics", "number theory",
            ],
        };
        proof {
            assert(r@.map_values(|k: &str| k@) =~= keywords_of(*self));
        }
        r
    }

    /// A human-readable description of the filter.
    pub fn description(&self) -> (r: &'static str)
        ensures
            r@ == description_of(*self),
    {
        match self {
            TopicFilter::History => "Historical Events, Figures, and Civilizations",
            TopicFilter::Technology => "Technology, Computing, and Engineering",
            TopicFilter::Science => "Natural Sciences and Scientific Discovery",
            TopicFilter::Mathematics => "Mathematics, Theorems, and Mathematical Concepts",
        }
    }

    /// The server's display name for a language code.
    pub fn server_name(&self, language: &str) -> (r: String)
        ensures
            r@ == server_name_of(*self, language@),
    {
        let mut r = String::from_str("Wikipedia ");
        let upper = uppercase(language);
        r.append(upper.as_str());
        r.append(" ");
        let name = match self {
            TopicFilter::History => "History",
            TopicFilter::Technology => "Technology",
            TopicFilter::Science => "Science",
            TopicFilter::Mathematics => "Mathematics",
        };
        r.append(name);
        r.append(" StaticMCP");
        r
    }

    /// Whether a keyword stands as a whole word in the lower-cased title or content.
    pub fn is_relevant(&self, title: &str, content: &str) -> (r: bool)
        ensures
            r == relevant(keywords_of(*self), lower_of(title@), lower_of(content@)),
    {
        let t = chars_of(lowercase(title).as_str());
        let c = chars_of(lowercase(content).as_str());
        let keywords = self.keywords();
        let ghost ks = keywords_of(*self);
        let mut i: usize = 0;
        while i < keywords.len()
            invariant
                i <= keywords@.len(),
                keywords@.map_values(|k: &str| k@) == ks,
                ks == keywords_of(*self),
                t@ == lower_of(title@),
                c@ == lower_of(content@),
                forall|j: int| 0 <= j < i ==> !(has_word(t@, #[trigger] ks[j]) || has_word(c@, ks[j])),
            decreases keywords.len() - i,
        {
            let k = chars_of(keywords[i]);
            proof {
                assert(ks[i as int] == keywords@[i as int]@);
            }
            if contains_word(&t, &k) || contains_word(&c, &k) {
                proof {
                    assert(ks.len() == keywords@.len());
                    assert(has_word(t@, ks[i as int]) || has_word(c@, ks[i as int]));
                }
                return true;
            }
            i += 1;
        }
        false
    }
}

/// The title gate of ingestion.
pub fn should_include_by_title(title: &str, topic_filter: &Option<TopicFilter>) -> (r: bool)
    ensures
        r == title_gate(title@, *topic_filter),
{
    if title.unicode_len() == 0 {
        return false;
    }
    let prefixes = namespace_prefix_list();
    let ghost ps = namespace_prefixes();
    let mut i: usize = 0;
    while i < prefixes.len()
        invariant
            i <= prefixes@.len(),
            prefixes@.map_values(|p: &str| p@) == ps,
            ps == namespace_prefixes(),
            forall|j: int| 0 <= j < i ==> !starts_with(title@, #[trigger] ps[j]),
        decreases prefixes.len() - i,
    {
        proof {
            assert(ps[i as int] == prefixes@[i as int]@);
        }
        if has_prefix(title, prefixes[i]) {
            return false;
        }
        i += 1;
    }
    proof {
        assert(!in_namespace(title@));
    }
    match topic_filter {
        None => true,
        Some(filter) => {
            let lower = chars_of(lowercase(title).as_str());
            let keywords = filter.keywords();
            let ghost ks = keywords_of(*filter);
            let mut k: usize = 0;
            while k < keywords.len()
                invariant
                    k <= keywords@.len(),
                    keywords@.map_values(|w: &str| w@) == ks,
                    ks == keywords_of(*filter),
                    *topic_filter == Some(*filter),
                    lower@ == lower_of(title@),
                    title@.len() > 0,
                    !in_namespace(title@),
                    forall|j: int| 0 <= j < k ==> !contains(lower@, #[trigger] ks[j]),
                decreases keywords.len() - k,
            {
                let w = chars_of(keywords[k]);
                proof {
                    assert(ks[k as int] == keywords@[k as int]@);
                }
                if contains_chars(&lower, &w) {
                    proof {
                        assert(ks.len() == keywords@.len());
                        assert(contains(lower_of(title@), ks[k as int]));
                    }
                    return true;
                }
                k += 1;
            }
            false
        },
    }
}

/// The content gate of ingestion.
pub fn should_include_by_content(article: &Article, topic_filter: &Option<TopicFilter>) -> (r: bool)
    ensures
        r == content_gate(article.title@, article.content@, *topic_filter),
{
    match topic_filter {
        None => true,
        Some(filter) => filter.is_relevant(article.title.as_str(), article.content.as_str()),
    }
}

/// A title in one of the non-article namespaces fails the title gate, whatever the filter.
pub proof fn law_namespace_titles_rejected(title: Seq<char>, filter: Option<TopicFilter>)
    requires
        in_namespace(title),
    ensures
        !title_gate(title, filter),
{
}

} // verus!
