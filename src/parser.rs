//! Page assembly: a state machine fed with the markup events of an export,
//! which captures each page's fields and hands on the pages that pass both
//! relevance gates, and the parser state that collects them.
use vstd::prelude::*;
use crate::filters::{content_gate, should_include_by_content, should_include_by_title, title_gate, TopicFilter};
use crate::store::TitleMap;
use crate::text::{chars_of, same_text};
use crate::types::{Article, ArticleView};
use crate::wikitext::clean_spec;
pub use crate::wikitext::clean_wikitext;

verus! {

/// One structural event of the markup, as plain values.
pub enum XmlEvent {
    Start(String),
    Text(String),
    End(String),
    Eof,
}

pub open spec fn digit_char(c: char) -> bool {
    '0' <= c && c <= '9'
}

/// The value of a string of decimal digits.
pub open spec fn digits_value(s: Seq<char>) -> nat
    decreases s.len(),
{
    if s.len() == 0 {
        0
    } else {
        digits_value(s.drop_last()) * 10 + (s.last() as nat - '0' as nat) as nat
    }
}

/// What an `id` element's text gives: the number an optional `+` and one or more decimal
/// digits spell when it fits in 64 bits, and zero otherwise.
pub open spec fn parse_id_spec(s: Seq<char>) -> u64 {
    if id_digits(s).len() > 0 && all_digits(id_digits(s)) && digits_value(id_digits(s))
        <= u64::MAX {
        digits_value(id_digits(s)) as u64
    } else {
        0
    }
}

/// The text after an optional leading `+`.
pub open spec fn id_digits(s: Seq<char>) -> Seq<char> {
    if s.len() > 0 && s[0] == '+' {
        s.skip(1)
    } else {
        s
    }
}

pub open spec fn all_digits(d: Seq<char>) -> bool {
    forall|i: int| 0 <= i < d.len() ==> digit_char(#[trigger] d[i])
}

proof fn lemma_digits_grow(s: Seq<char>, i: int)
    requires
        0 <= i <= s.len(),
        forall|j: int| 0 <= j < s.len() ==> digit_char(#[trigger] s[j]),
    ensures
        digits_value(s.take(i)) <= digits_value(s),
    decreases s.len() - i,
{
    if i < s.len() {
        lemma_digits_grow(s, i + 1);
        assert(s.take(i + 1).drop_last() =~= s.take(i));
    } else {
        assert(s.take(i) =~= s);
    }
}

/// Reads an `id` element's text as `u64`'s `FromStr` does, with zero for what it refuses.
pub fn parse_id(text: &str) -> (r: u64)
    ensures
        r == parse_id_spec(text@),
{
    let s = chars_of(text);
    let start: usize = if s.len() > 0 && s[0] == '+' {
        1
    } else {
        0
    };
    let ghost d = if s@.len() > 0 && s@[0] == '+' {
        s@.skip(1)
    } else {
        s@
    };
    proof {
        assert(d =~= s@.skip(start as int));
    }
    if start >= s.len() {
        return 0;
    }
    let mut value: u64 = 0;
    let mut i: usize = start;
    while i < s.len()
        invariant
            start <= i <= s@.len(),
            s@ == text@,
            d == s@.skip(start as int),
            d == id_digits(text@),
            forall|j: int| 0 <= j < i - start ==> digit_char(#[trigger] d[j]),
            value as nat == digits_value(d.take(i - start)),
        decreases s.len() - i,
    {
        let c = s[i];
        if c < '0' || c > '9' {
            proof {
                assert(!digit_char(d[i - start]));
            }
            return 0;
        }
        let digit = (c as u32 - '0' as u32) as u64;
        proof {
            assert(d.take(i - start + 1).drop_last() =~= d.take(i - start));
            assert(d.take(i - start + 1).last() == c);
        }
        if value > (u64::MAX - digit) / 10 {
            proof {
                assert(value * 10 + digit > u64::MAX) by (nonlinear_arith)
                    requires
                        value > (u64::MAX - digit) / 10,
                        digit <= 9,
                ;
                if all_digits(d) {
                    lemma_digits_grow(d, i - start + 1);
                }
            }
            return 0;
        }
        proof {
            assert(value * 10 + digit <= u64::MAX) by (nonlinear_arith)
                requires
                    value <= (u64::MAX - digit) / 10,
                    digit <= 9,
            ;
        }
        value = value * 10 + digit;
        i += 1;
    }
    proof {
        assert(d.take(i - start) =~= d);
    }
    value
}

pub open spec fn blank_page() -> ArticleView {
    (Seq::empty(), Seq::empty(), 0u64, None)
}

/// The page and the suppression flag after an element other than `page` closes with
/// `text` captured: a title is set and gated, the first non-zero id is kept, the text is
/// normalised unless suppressed, a redirect target is recorded.
pub open spec fn close_element(
    page: ArticleView,
    suppressed: bool,
    name: Seq<char>,
    text: Seq<char>,
    filter: Option<TopicFilter>,
) -> (ArticleView, bool) {
    if name == "title"@ {
        ((text, page.1, page.2, page.3), suppressed || !title_gate(text, filter))
    } else if name == "id"@ {
        (
            if page.2 == 0 {
                (page.0, page.1, parse_id_spec(text), page.3)
            } else {
                page
            },
            suppressed,
        )
    } else if name == "text"@ {
        (
            if !suppressed {
                (page.0, clean_spec(text), page.2, page.3)
            } else {
                page
            },
            suppressed,
        )
    } else if name == "redirect"@ {
        ((page.0, page.1, page.2, Some(text)), suppressed)
    } else {
        (page, suppressed)
    }
}

/// A page that completes is handed on when it was not suppressed and passes both gates: the
/// title gate on its final title (so a page that never had a title is dropped) and the
/// content gate.
pub open spec fn page_accepted(page: ArticleView, suppressed: bool, filter: Option<TopicFilter>) -> bool {
    !suppressed && title_gate(page.0, filter) && content_gate(page.0, page.1, filter)
}

/// The state of page assembly: the page being read, the text captured since the last
/// element boundary, and whether the page's text is to be skipped.
pub struct PageAssembler {
    pub current: Option<Article>,
    pub buffer: String,
    pub suppressed: bool,
}

impl PageAssembler {
    pub fn new() -> (r: PageAssembler)
        ensures
            r.current.is_none(),
            r.buffer@ == Seq::<char>::empty(),
            !r.suppressed,
    {
        PageAssembler { current: None, buffer: String::new(), suppressed: false }
    }

    /// Takes one event. A start element clears the captured text and, for `page`, starts a
    /// fresh page; text is captured; an end element inside a page updates it by
    /// `close_element`, or for `page` completes it, handing it back when it is accepted.
    pub fn feed(&mut self, event: &XmlEvent, topic_filter: &Option<TopicFilter>) -> (r: Option<Article>)
        ensures
            match *event {
                XmlEvent::Start(name) => {
                    &&& r.is_none()
                    &&& final(self).buffer@ == Seq::<char>::empty()
                    &&& if name@ == "page"@ {
                        &&& final(self).current.is_some()
                        &&& final(self).current->0@ == blank_page()
                        &&& !final(self).suppressed
                    } else {
                        &&& final(self).current == old(self).current
                        &&& final(self).suppressed == old(self).suppressed
                    }
                },
                XmlEvent::Text(t) => {
                    &&& r.is_none()
                    &&& final(self).buffer@ == old(self).buffer@ + t@
                    &&& final(self).current == old(self).current
                    &&& final(self).suppressed == old(self).suppressed
                },
                XmlEvent::End(name) => {
                    &&& final(self).buffer@ == Seq::<char>::empty()
                    &&& match old(self).current {
                        None => {
                            &&& r.is_none()
                            &&& final(self).current.is_none()
                            &&& final(self).suppressed == old(self).suppressed
                        },
                        Some(page) => if name@ == "page"@ {
                            &&& final(self).current.is_none()
                            &&& !final(self).suppressed
                            &&& r.is_some() == page_accepted(page@, old(self).suppressed, *topic_filter)
                            &&& r.is_some() ==> r->0@ == page@
                        } else {
                            &&& r.is_none()
                            &&& final(self).current.is_some()
                            &&& (final(self).current->0@, final(self).suppressed) == close_element(
                                page@,
                                old(self).suppressed,
                                name@,
                                old(self).buffer@,
                                *topic_filter,
                            )
                        },
                    }
                },
                XmlEvent::Eof => {
                    &&& r.is_none()
                    &&& final(self).buffer == old(self).buffer
                    &&& final(self).current == old(self).current
                    &&& final(self).suppressed == old(self).suppressed
                },
            },
    {
        match event {
            XmlEvent::Start(name) => {
                self.buffer = String::new();
                if same_text(name.as_str(), "page") {
                    self.current = Some(Article::empty());
                    self.suppressed = false;
                }
                None
            },
            XmlEvent::Text(t) => {
                self.buffer.append(t.as_str());
                None
            },
            XmlEvent::End(name) => {
                let text = self.buffer.clone();
                self.buffer = String::new();
                let mut taken: Option<Article> = None;
                std::mem::swap(&mut taken, &mut self.current);
                match taken {
                    None => None,
                    Some(mut page) => {
                        if same_text(name.as_str(), "page") {
                            let accepted = !self.suppressed && should_include_by_title(
                                page.title.as_str(),
                                topic_filter,
                            ) && should_include_by_content(&page, topic_filter);
                            self.suppressed = false;
                            if accepted {
                                Some(page)
                            } else {
                                None
                            }
                        } else {
                            if same_text(name.as_str(), "title") {
                                page.title = text;
                                if !should_include_by_title(page.title.as_str(), topic_filter) {
                                    self.suppressed = true;
                                }
                            } else if same_text(name.as_str(), "id") {
                                if page.id == 0 {
                                    page.id = parse_id(text.as_str());
                                }
                            } else if same_text(name.as_str(), "text") {
                                if !self.suppressed {
                                    page.content = clean_wikitext(text.as_str());
                                }
                            } else if same_text(name.as_str(), "redirect") {
                                page.redirect = Some(text);
                            }
                            self.current = Some(page);
                            None
                        }
                    },
                }
            },
            XmlEvent::Eof => None,
        }
    }
}

/// `after` is `before` with a page of view `page` stored: a redirect in the redirect table,
/// anything else among the articles, under its title.
pub open spec fn stores_page(before: WikipediaParser, after: WikipediaParser, page: ArticleView) -> bool {
    match page.3 {
        Some(target) => {
            &&& after.articles == before.articles
            &&& after.redirects@.dom() == before.redirects@.dom().insert(page.0)
            &&& after.redirects@[page.0]@ == target
            &&& after.redirects@.remove(page.0) == before.redirects@.remove(page.0)
        },
        None => {
            &&& after.redirects == before.redirects
            &&& after.articles@.dom() == before.articles@.dom().insert(page.0)
            &&& after.articles@[page.0]@ == page
            &&& after.articles@.remove(page.0) == before.articles@.remove(page.0)
        },
    }
}

/// The parser's collections: accepted articles by title, and redirects by title.
pub struct WikipediaParser {
    pub language: String,
    pub articles: TitleMap<Article>,
    pub redirects: TitleMap<String>,
}

impl WikipediaParser {
    pub open spec fn wf(&self) -> bool {
        self.articles.wf() && self.redirects.wf()
    }

    pub fn new(language: String) -> (r: Self)
        ensures
            r.wf(),
            r.language == language,
            r.articles@.is_empty(),
            r.redirects@.is_empty(),
    {
        WikipediaParser { language, articles: TitleMap::new(), redirects: TitleMap::new() }
    }

    /// Stores an accepted page: a redirect goes to the redirect table, anything else to the
    /// articles; a later page with the same title replaces an earlier one.
    pub fn record(&mut self, article: Article)
        requires
            old(self).wf(),
        ensures
            final(self).wf(),
            final(self).language == old(self).language,
            match article.redirect {
                Some(target) => {
                    &&& final(self).articles == old(self).articles
                    &&& final(self).redirects@ == old(self).redirects@.insert(article.title@, target)
                },
                None => {
                    &&& final(self).redirects == old(self).redirects
                    &&& final(self).articles@ == old(self).articles@.insert(article.title@, article)
                },
            },
    {
        let title = article.title.clone();
        match &article.redirect {
            Some(target) => {
                let t = target.clone();
                self.redirects.insert(title, t);
            },
            None => {
                self.articles.insert(title, article);
            },
        }
    }

    /// One step of a parse: feeds the event to the assembler, stores a page it hands back,
    /// and counts it. Returns whether the parse ends here: at the end of the input, or once
    /// the count reaches `max_articles`.
    pub fn ingest_event(
        &mut self,
        assembler: &mut PageAssembler,
        event: &XmlEvent,
        processed: &mut usize,
        max_articles: Option<usize>,
        topic_filter: &Option<TopicFilter>,
    ) -> (stop: bool)
        requires
            old(self).wf(),
        ensures
            final(self).wf(),
            final(self).language == old(self).language,
            (*event is Eof) ==> stop,
            !(*event is End) ==> final(self).articles == old(self).articles && final(self).redirects
                == old(self).redirects && *final(processed) == *old(processed),
            *final(processed) == *old(processed) || *final(processed) == *old(processed) + 1,
            stop && !(*event is Eof) ==> max_articles is Some && *final(processed)
                >= max_articles->0 && *final(processed) == *old(processed) + 1,
            ({
                let handed_on = match *event {
                    XmlEvent::End(name) => match old(assembler).current {
                        Some(page) => name@ == "page"@ && page_accepted(
                            page@,
                            old(assembler).suppressed,
                            *topic_filter,
                        ),
                        None => false,
                    },
                    _ => false,
                };
                &&& handed_on ==> stores_page(*old(self), *final(self), old(assembler).current->0@)
                &&& handed_on && *old(processed) < usize::MAX ==> *final(processed) == *old(processed) + 1
                &&& handed_on && *old(processed) < usize::MAX && max_articles is Some && *old(processed)
                    + 1 >= max_articles->0 ==> stop
                &&& !handed_on ==> final(self).articles == old(self).articles
                    && final(self).redirects == old(self).redirects
                    && *final(processed) == *old(processed)
            }),
    {
        let is_eof = match event {
            XmlEvent::Eof => true,
            _ => false,
        };
        match assembler.feed(event, topic_filter) {
            None => is_eof,
            Some(article) => {
                proof {
                    assert(self.articles@.insert(article.title@, article).remove(article.title@)
                        =~= self.articles@.remove(article.title@));
                    if article.redirect is Some {
                        let t = article.redirect->0;
                        assert(self.redirects@.insert(article.title@, t).remove(article.title@)
                            =~= self.redirects@.remove(article.title@));
                    }
                }
                self.record(article);
                if *processed < usize::MAX {
                    *processed = *processed + 1;
                } else {
                    return false;
                }
                match max_articles {
                    Some(max) => *processed >= max,
                    None => false,
                }
            },
        }
    }
}

} // verus!
