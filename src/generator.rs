//! The output side: per-article documents keyed by encoded filename, with the
//! collision policy that keeps every colliding title retrievable, plus the
//! category index and the paginated title listing.
use vstd::prelude::*;
use crate::filename_encoding::{encode_spec, encode_staticmcp_filename};
use crate::filters::{server_name_of, TopicFilter};
use crate::parser::WikipediaParser;
use crate::store::TitleMap;
use crate::text::{
    chars_of, contains, decimal_digit, decimal_of, decimal_string, first_line, has_line_break,
    has_prefix, lemma_first_line, starts_with, string_from_chars, upper_of, uppercase,
    utf8_len_within,
};
use crate::types::{Article, ArticleCategorizer, Resource, ServerInfo};
use vstd::utf8::encode_utf8;

verus! {

/// Documents at or below this many bytes of UTF-8 count as short when two collide.
pub const SHORT_ARTICLE_LIMIT: usize = 1000;

/// Titles per page of the article listing.
pub const ARTICLES_PER_PAGE: usize = 50;

/// How many article documents are written when not all are asked for.
pub const DEFAULT_ARTICLE_LIMIT: usize = 100;

pub open spec fn index_marker() -> Seq<char> {
    "Multiple articles found"@
}

/// A document that lists colliding titles instead of holding an article.
pub open spec fn is_index(text: Seq<char>) -> bool {
    starts_with(text, index_marker())
}

/// A fresh article document: a heading line with the title, a blank line, the content.
pub open spec fn article_doc(title: Seq<char>, content: Seq<char>) -> Seq<char> {
    "# "@ + title + "\n\n"@ + content
}

/// The index line that points at one title.
pub open spec fn bullet(title: Seq<char>) -> Seq<char> {
    "\u{2022} **"@ + title + "** - Use get_article tool with title '"@ + title + "'\n"@
}

/// An index listing two titles.
pub open spec fn index_doc(first: Seq<char>, second: Seq<char>) -> Seq<char> {
    "Multiple articles found. Choose the one you need:\n\n"@ + bullet(first) + bullet(second)
}

pub open spec fn divider() -> Seq<char> {
    "\n\n---\n\n## "@
}

/// Two short documents as one: the existing text, a divider, the new title and content.
pub open spec fn merged_doc(existing: Seq<char>, title: Seq<char>, content: Seq<char>) -> Seq<
    char,
> {
    existing + divider() + title + "\n\n"@ + content
}

/// The title named by a document's heading line, or `Unknown` when it has none.
pub open spec fn heading_title(text: Seq<char>) -> Seq<char> {
    if starts_with(text, "# "@) {
        first_line(text).skip(2)
    } else {
        "Unknown"@
    }
}

/// Both texts are short: their UTF-8 encodings are at most `SHORT_ARTICLE_LIMIT` bytes.
pub open spec fn both_short(existing: Seq<char>, content: Seq<char>) -> bool {
    encode_utf8(existing).len() <= SHORT_ARTICLE_LIMIT && encode_utf8(content).len()
        <= SHORT_ARTICLE_LIMIT
}

/// What the shared document becomes when `title` collides with `existing`.
pub open spec fn merge_spec(existing: Seq<char>, title: Seq<char>, content: Seq<char>) -> Seq<
    char,
> {
    if is_index(existing) {
        existing + bullet(title)
    } else if both_short(existing, content) {
        merged_doc(existing, title, content)
    } else {
        index_doc(heading_title(existing), title)
    }
}

/// The numbered sibling of a stem, which keeps one colliding article's full text.
pub open spec fn sibling_name(stem: Seq<char>, ordinal: nat) -> Seq<char> {
    stem + seq!['_'] + decimal_of(ordinal)
}

/// The first ordinal from `k` on whose sibling is not among `docs`, trying at most `fuel`
/// more and stopping below `usize::MAX`.
pub open spec fn first_free_from(docs: Map<Seq<char>, Seq<char>>, stem: Seq<char>, k: nat, fuel: nat) -> nat
    decreases fuel,
{
    if fuel == 0 || k >= usize::MAX || !docs.contains_key(sibling_name(stem, k)) {
        k
    } else {
        first_free_from(docs, stem, k + 1, (fuel - 1) as nat)
    }
}

/// The smallest ordinal whose sibling of `stem` holds no document yet.
pub open spec fn free_ordinal(docs: Map<Seq<char>, Seq<char>>, stem: Seq<char>) -> nat {
    first_free_from(docs, stem, 1, docs.dom().len())
}

/// The documents after writing `title` with `content` under `stem`.
pub open spec fn write_spec(
    docs: Map<Seq<char>, Seq<char>>,
    stem: Seq<char>,
    title: Seq<char>,
    content: Seq<char>,
) -> Map<Seq<char>, Seq<char>> {
    if !docs.contains_key(stem) {
        docs.insert(stem, article_doc(title, content))
    } else {
        let existing = docs[stem];
        let merged = merge_spec(existing, title, content);
        let d1 = docs.insert(stem, merged);
        if is_index(existing) {
            d1.insert(sibling_name(stem, free_ordinal(d1, stem)), article_doc(title, content))
        } else if both_short(existing, content) {
            d1
        } else {
            let d2 = d1.insert(sibling_name(stem, free_ordinal(d1, stem)), existing);
            d2.insert(sibling_name(stem, free_ordinal(d2, stem)), article_doc(title, content))
        }
    }
}

/// The documents as text: the view of a store of strings.
pub open spec fn text_view(m: Map<Seq<char>, String>) -> Map<Seq<char>, Seq<char>> {
    Map::new(|k: Seq<char>| m.contains_key(k), |k: Seq<char>| m[k]@)
}

/// Category memberships as text.
pub open spec fn member_view(m: Map<Seq<char>, Vec<String>>) -> Map<Seq<char>, Seq<Seq<char>>> {
    Map::new(|k: Seq<char>| m.contains_key(k), |k: Seq<char>| m[k]@.map_values(|s: String| s@))
}

/// The index after adding `title` to each of `names`, in order.
pub open spec fn add_memberships(
    m: Map<Seq<char>, Seq<Seq<char>>>,
    names: Seq<Seq<char>>,
    title: Seq<char>,
) -> Map<Seq<char>, Seq<Seq<char>>>
    decreases names.len(),
{
    if names.len() == 0 {
        m
    } else {
        let before = add_memberships(m, names.drop_last(), title);
        let name = names.last();
        let members = if before.contains_key(name) {
            before[name]
        } else {
            Seq::empty()
        };
        before.insert(name, members.push(title))
    }
}

proof fn lemma_article_doc_not_index(title: Seq<char>, content: Seq<char>, rest: Seq<char>)
    ensures
        !is_index(article_doc(title, content) + rest),
{
    reveal_strlit("Multiple articles found");
    reveal_strlit("# ");
    let d = article_doc(title, content) + rest;
    if is_index(d) {
        assert(d.take(index_marker().len() as int)[0] == d[0]);
    }
}

proof fn lemma_heading_recovers_title(title: Seq<char>, content: Seq<char>)
    requires
        !has_line_break(title),
    ensures
        heading_title(article_doc(title, content)) == title,
{
    reveal_strlit("# ");
    reveal_strlit("\n\n");
    let d = article_doc(title, content);
    let i = 2 + title.len() as int;
    assert(d.take(2) =~= "# "@);
    assert forall|j: int| 0 <= j < i implies d[j] != '\n' by {
        if j >= 2 {
            assert(d[j] == title[j - 2]);
        }
    }
    assert(d[i] == '\n');
    lemma_first_line(d, i);
    assert(d.take(i).skip(2) =~= title);
}

proof fn lemma_siblings_distinct(stem: Seq<char>)
    ensures
        sibling_name(stem, 1) != stem,
        sibling_name(stem, 2) != stem,
        sibling_name(stem, 1) != sibling_name(stem, 2),
{
    let a = sibling_name(stem, 1);
    let b = sibling_name(stem, 2);
    assert(decimal_of(1) == seq![decimal_digit(1)]);
    assert(decimal_of(2) == seq![decimal_digit(2)]);
    assert(a.len() == stem.len() + 2);
    assert(a[a.len() - 1] == decimal_digit(1));
    assert(b[b.len() - 1] == decimal_digit(2));
}

/// Two short articles whose titles share a stem end in one merged document under that
/// stem: it holds both titles and the divider, is no index, and no sibling is written.
pub proof fn law_short_collision_merges(
    docs: Map<Seq<char>, Seq<char>>,
    stem: Seq<char>,
    t1: Seq<char>,
    c1: Seq<char>,
    t2: Seq<char>,
    c2: Seq<char>,
)
    requires
        !docs.contains_key(stem),
        both_short(article_doc(t1, c1), c2),
    ensures
        ({
            let after = write_spec(write_spec(docs, stem, t1, c1), stem, t2, c2);
            &&& after == docs.insert(stem, merged_doc(article_doc(t1, c1), t2, c2))
            &&& contains(after[stem], t1)
            &&& contains(after[stem], t2)
            &&& contains(after[stem], divider())
            &&& !is_index(after[stem])
        }),
{
    let first = article_doc(t1, c1);
    lemma_article_doc_not_index(t1, c1, Seq::empty());
    assert(first + Seq::<char>::empty() =~= first);
    let after = write_spec(write_spec(docs, stem, t1, c1), stem, t2, c2);
    assert(after =~= docs.insert(stem, merged_doc(first, t2, c2)));
    let m = merged_doc(first, t2, c2);
    lemma_article_doc_not_index(t1, c1, divider() + t2 + "\n\n"@ + c2);
    assert(m =~= first + (divider() + t2 + "\n\n"@ + c2));
    reveal_strlit("# ");
    assert(m.subrange(2, 2 + t1.len() as int) =~= t1);
    let k = first.len() as int;
    assert(m.subrange(k, k + divider().len()) =~= divider());
    let k2 = k + divider().len();
    assert(m.subrange(k2, k2 + t2.len()) =~= t2);
}

/// Two articles sharing a stem, not both short, turn the stem's document into an index
/// that names both titles, and each article's full document stays under a numbered
/// sibling: the first under `_1`, the second under `_2`.
pub proof fn law_long_collision_indexes(
    docs: Map<Seq<char>, Seq<char>>,
    stem: Seq<char>,
    t1: Seq<char>,
    c1: Seq<char>,
    t2: Seq<char>,
    c2: Seq<char>,
)
    requires
        docs.dom().finite(),
        !docs.contains_key(stem),
        !docs.contains_key(sibling_name(stem, 1)),
        !docs.contains_key(sibling_name(stem, 2)),
        !both_short(article_doc(t1, c1), c2),
        !has_line_break(t1),
    ensures
        ({
            let after = write_spec(write_spec(docs, stem, t1, c1), stem, t2, c2);
            &&& after[stem] == index_doc(t1, t2)
            &&& is_index(after[stem])
            &&& contains(after[stem], t1)
            &&& contains(after[stem], t2)
            &&& after[sibling_name(stem, 1)] == article_doc(t1, c1)
            &&& after[sibling_name(stem, 2)] == article_doc(t2, c2)
        }),
{
    let first = article_doc(t1, c1);
    lemma_article_doc_not_index(t1, c1, Seq::empty());
    assert(first + Seq::<char>::empty() =~= first);
    lemma_heading_recovers_title(t1, c1);
    lemma_siblings_distinct(stem);
    let w1 = write_spec(docs, stem, t1, c1);
    let d1 = w1.insert(stem, index_doc(t1, t2));
    assert(free_ordinal(d1, stem) == 1);
    let d2 = d1.insert(sibling_name(stem, 1), first);
    assert(d2.dom() =~= d1.dom().insert(sibling_name(stem, 1)));
    assert(d2.dom().len() > 0);
    assert(free_ordinal(d2, stem) == 2) by {
        let n = d2.dom().len();
        assert(first_free_from(d2, stem, 1, n) == first_free_from(d2, stem, 2, (n - 1) as nat));
    }
    let after = write_spec(w1, stem, t2, c2);
    let ix = index_doc(t1, t2);
    assert(after[stem] == ix);
    let head = "Multiple articles found. Choose the one you need:\n\n"@;
    reveal_strlit("Multiple articles found. Choose the one you need:\n\n");
    reveal_strlit("Multiple articles found");
    reveal_strlit("\u{2022} **");
    assert(ix.take(index_marker().len() as int) =~= index_marker());
    let lead = "\u{2022} **"@;
    let k1 = (head.len() + lead.len()) as int;
    assert(ix.subrange(k1, k1 + t1.len()) =~= t1);
    let k2 = (head.len() + bullet(t1).len() + lead.len()) as int;
    assert(ix.subrange(k2, k2 + t2.len()) =~= t2);
}

/// Once a stem's document is an index, a further colliding title extends it by one line
/// and keeps the title's full document under the first numbered sibling still unused; no
/// other document changes.
pub proof fn law_index_extends(
    docs: Map<Seq<char>, Seq<char>>,
    stem: Seq<char>,
    title: Seq<char>,
    content: Seq<char>,
)
    requires
        docs.contains_key(stem),
        is_index(docs[stem]),
    ensures
        ({
            let after = write_spec(docs, stem, title, content);
            let d1 = docs.insert(stem, docs[stem] + bullet(title));
            &&& after[stem] == docs[stem] + bullet(title)
            &&& is_index(after[stem])
            &&& after[sibling_name(stem, free_ordinal(d1, stem))] == article_doc(title, content)
        }),
{
    let after = write_spec(docs, stem, title, content);
    let old_doc = docs[stem];
    let d1 = docs.insert(stem, old_doc + bullet(title));
    let sib = sibling_name(stem, free_ordinal(d1, stem));
    assert(sib.len() > stem.len());
    assert(after[stem] == old_doc + bullet(title));
    assert((old_doc + bullet(title)).take(index_marker().len() as int) =~= old_doc.take(
        index_marker().len() as int,
    ));
}

proof fn lemma_decimal_len(n: nat)
    ensures
        n < 10 ==> decimal_of(n).len() == 1,
        n >= 10 ==> decimal_of(n).len() >= 2,
    decreases n,
{
    if n >= 10 {
        lemma_decimal_len(n / 10);
    }
}

proof fn lemma_decimal_digit_injective(a: nat, b: nat)
    requires
        a < 10,
        b < 10,
        decimal_digit(a) == decimal_digit(b),
    ensures
        a == b,
{
    assert(decimal_digit(a) as u32 == a + 48);
    assert(decimal_digit(b) as u32 == b + 48);
}

proof fn lemma_decimal_injective(a: nat, b: nat)
    requires
        decimal_of(a) == decimal_of(b),
    ensures
        a == b,
    decreases a,
{
    lemma_decimal_len(a);
    lemma_decimal_len(b);
    if a < 10 && b < 10 {
        assert(decimal_of(a)[0] == decimal_digit(a));
        assert(decimal_of(b)[0] == decimal_digit(b));
        lemma_decimal_digit_injective(a, b);
    } else if a >= 10 && b >= 10 {
        let da = decimal_of(a);
        assert(da.last() == decimal_digit(a % 10));
        assert(decimal_of(b).last() == decimal_digit(b % 10));
        lemma_decimal_digit_injective(a % 10, b % 10);
        assert(da.drop_last() == decimal_of(a / 10));
        assert(decimal_of(b).drop_last() == decimal_of(b / 10));
        lemma_decimal_injective(a / 10, b / 10);
    }
}

proof fn lemma_sibling_injective(stem: Seq<char>, a: nat, b: nat)
    requires
        sibling_name(stem, a) == sibling_name(stem, b),
    ensures
        a == b,
{
    let k = stem.len() + 1int;
    assert(sibling_name(stem, a).skip(k) =~= decimal_of(a));
    assert(sibling_name(stem, b).skip(k) =~= decimal_of(b));
    lemma_decimal_injective(a, b);
}

proof fn lemma_first_free_from(docs: Map<Seq<char>, Seq<char>>, stem: Seq<char>, k: nat, fuel: nat)
    requires
        k + fuel < usize::MAX,
    ensures
        ({
            let r = first_free_from(docs, stem, k, fuel);
            &&& k <= r <= k + fuel
            &&& docs.contains_key(sibling_name(stem, r)) ==> r == k + fuel && forall|j: nat|
                k <= j <= r ==> docs.contains_key(#[trigger] sibling_name(stem, j))
        }),
    decreases fuel,
{
    if fuel > 0 && docs.contains_key(sibling_name(stem, k)) {
        lemma_first_free_from(docs, stem, k + 1, (fuel - 1) as nat);
        let r = first_free_from(docs, stem, k, fuel);
        if docs.contains_key(sibling_name(stem, r)) {
            assert forall|j: nat| k <= j <= r implies docs.contains_key(
                #[trigger] sibling_name(stem, j),
            ) by {
                if j > k {
                    assert(k + 1 <= j);
                }
            }
        }
    }
}

/// In a finite store the ordinal `free_ordinal` picks names a sibling that holds nothing.
pub proof fn lemma_free_ordinal_is_free(docs: Map<Seq<char>, Seq<char>>, stem: Seq<char>)
    requires
        docs.dom().finite(),
        docs.dom().len() + 1 < usize::MAX,
    ensures
        free_ordinal(docs, stem) >= 1,
        !docs.contains_key(sibling_name(stem, free_ordinal(docs, stem))),
{
    let n = docs.dom().len();
    lemma_first_free_from(docs, stem, 1, n);
    let r = free_ordinal(docs, stem);
    if docs.contains_key(sibling_name(stem, r)) {
        let q = Seq::new(n + 1, |j: int| sibling_name(stem, (j + 1) as nat));
        assert forall|x: int, y: int| 0 <= x < q.len() && 0 <= y < q.len() && x != y implies q[x]
            != q[y] by {
            if q[x] == q[y] {
                lemma_sibling_injective(stem, (x + 1) as nat, (y + 1) as nat);
            }
        }
        assert(q.no_duplicates());
        q.unique_seq_to_set();
        assert forall|x: Seq<char>| q.to_set().contains(x) implies docs.dom().contains(x) by {
            let j = choose|j: int| 0 <= j < q.len() && q[j] == x;
            assert(docs.contains_key(sibling_name(stem, (j + 1) as nat)));
        }
        vstd::set_lib::lemma_len_subset(q.to_set(), docs.dom());
    }
}

/// A write changes only the stem's document and adds siblings that held nothing: every
/// other document stays as it was, so no earlier content is lost.
pub proof fn law_write_keeps_other_documents(
    docs: Map<Seq<char>, Seq<char>>,
    stem: Seq<char>,
    title: Seq<char>,
    content: Seq<char>,
)
    requires
        docs.dom().finite(),
        docs.dom().len() + 3 < usize::MAX,
    ensures
        forall|k: Seq<char>|
            #[trigger] docs.contains_key(k) && k != stem ==> write_spec(docs, stem, title, content).contains_key(k)
                && write_spec(docs, stem, title, content)[k] == docs[k],
        docs.contains_key(stem) && !is_index(docs[stem]) && !both_short(docs[stem], content)
            ==> exists|o: nat|
            o >= 1 && #[trigger] write_spec(docs, stem, title, content)[sibling_name(stem, o)]
                == docs[stem],
{
    if docs.contains_key(stem) {
        let existing = docs[stem];
        let d1 = docs.insert(stem, merge_spec(existing, title, content));
        assert(d1.dom() =~= docs.dom());
        lemma_free_ordinal_is_free(d1, stem);
        let k1 = free_ordinal(d1, stem);
        if !is_index(existing) && !both_short(existing, content) {
            let d2 = d1.insert(sibling_name(stem, k1), existing);
            assert(d2.dom() =~= d1.dom().insert(sibling_name(stem, k1)));
            lemma_free_ordinal_is_free(d2, stem);
            let k2 = free_ordinal(d2, stem);
            assert(d2.contains_key(sibling_name(stem, k1)));
            assert(sibling_name(stem, k2) != sibling_name(stem, k1));
            assert(write_spec(docs, stem, title, content)[sibling_name(stem, k1)] == existing);
        }
    }
}

/// The documents after writing each `(title, content)` of `pages` in order.
pub open spec fn write_many(
    docs: Map<Seq<char>, Seq<char>>,
    pages: Seq<(Seq<char>, Seq<char>)>,
) -> Map<Seq<char>, Seq<char>>
    decreases pages.len(),
{
    if pages.len() == 0 {
        docs
    } else {
        let before = write_many(docs, pages.drop_last());
        write_spec(before, encode_spec(pages.last().0), pages.last().0, pages.last().1)
    }
}

/// Once the document under a stem is an index, any run of further writes of titles with
/// that stem leaves an index there.
pub proof fn law_index_never_reverts(
    docs: Map<Seq<char>, Seq<char>>,
    stem: Seq<char>,
    pages: Seq<(Seq<char>, Seq<char>)>,
)
    requires
        docs.contains_key(stem),
        is_index(docs[stem]),
        forall|k: int| 0 <= k < pages.len() ==> encode_spec((#[trigger] pages[k]).0) == stem,
    ensures
        write_many(docs, pages).contains_key(stem),
        is_index(write_many(docs, pages)[stem]),
    decreases pages.len(),
{
    if pages.len() > 0 {
        let init = pages.drop_last();
        assert forall|k: int| 0 <= k < init.len() implies encode_spec((#[trigger] init[k]).0)
            == stem by {
            assert(init[k] == pages[k]);
        }
        law_index_never_reverts(docs, stem, init);
        let before = write_many(docs, init);
        law_index_extends(before, stem, pages.last().0, pages.last().1);
    }
}

/// How many pages `n` titles fill.
pub open spec fn page_count(n: nat) -> nat {
    ((n + ARTICLES_PER_PAGE - 1) / (ARTICLES_PER_PAGE as int)) as nat
}

/// The titles on page `p` (counting from zero) of a listing.
pub open spec fn page_slice(titles: Seq<Seq<char>>, p: int) -> Seq<Seq<char>> {
    let start = p * ARTICLES_PER_PAGE;
    let end = if start + ARTICLES_PER_PAGE < titles.len() {
        start + ARTICLES_PER_PAGE
    } else {
        titles.len() as int
    };
    titles.subrange(start, end)
}

/// How many article documents a run writes.
pub open spec fn article_limit_spec(exact_matches: bool, n: nat) -> nat {
    if exact_matches || n <= DEFAULT_ARTICLE_LIMIT {
        n
    } else {
        DEFAULT_ARTICLE_LIMIT as nat
    }
}

/// The server's display name: the filter's, or the language's alone.
pub open spec fn manifest_name_spec(language: Seq<char>, filter: Option<TopicFilter>) -> Seq<char> {
    match filter {
        Some(f) => server_name_of(f, language),
        None => "Wikipedia "@ + upper_of(language) + " StaticMCP"@,
    }
}

/// Every listing of `n` titles has `page_count(n)` pages, the pages partition the titles in
/// order, and only the last may be short.
pub proof fn law_pages_partition(titles: Seq<Seq<char>>, p: int)
    requires
        0 <= p < page_count(titles.len()),
    ensures
        page_slice(titles, p).len() > 0,
        page_slice(titles, p).len() <= ARTICLES_PER_PAGE,
        p < page_count(titles.len()) - 1 ==> page_slice(titles, p).len() == ARTICLES_PER_PAGE,
        page_slice(titles, p) == titles.subrange(
            p * ARTICLES_PER_PAGE,
            p * ARTICLES_PER_PAGE + page_slice(titles, p).len(),
        ),
{
    let n = titles.len() as int;
    assert(p * 50 < n) by (nonlinear_arith)
        requires
            0 <= p < (n + 49) / 50,
            n >= 0,
    ;
    if p < page_count(titles.len()) - 1 {
        assert(p * 50 + 50 <= n) by (nonlinear_arith)
            requires
                0 <= p < (n + 49) / 50 - 1,
                n >= 0,
        ;
    }
}

/// The category index after putting each title of `titles` into its categories `names[i]`,
/// in order, starting from an empty index.
pub open spec fn categorize_all(titles: Seq<Seq<char>>, names: Seq<Seq<Seq<char>>>) -> Map<
    Seq<char>,
    Seq<Seq<char>>,
>
    decreases titles.len(),
{
    if titles.len() == 0 || names.len() == 0 {
        Map::empty()
    } else {
        add_memberships(
            categorize_all(titles.drop_last(), names.drop_last()),
            names.last(),
            titles.last(),
        )
    }
}

/// Appends the index line for `title` to `out`.
fn push_bullet(out: &mut String, title: &str)
    ensures
        final(out)@ == old(out)@ + bullet(title@),
{
    out.append("\u{2022} **");
    out.append(title);
    out.append("** - Use get_article tool with title '");
    out.append(title);
    out.append("'\n");
    proof {
        assert(final(out)@ =~= old(out)@ + bullet(title@));
    }
}

/// The fresh document for an article.
pub fn article_text(title: &str, content: &str) -> (r: String)
    ensures
        r@ == article_doc(title@, content@),
{
    let mut r = String::from_str("# ");
    r.append(title);
    r.append("\n\n");
    r.append(content);
    r
}

/// The smallest ordinal whose sibling of `stem` holds no document in `store`.
pub fn free_ordinal_exec(store: &TitleMap<String>, stem: &str) -> (k: usize)
    requires
        store.wf(),
    ensures
        k == free_ordinal(text_view(store@), stem@),
{
    let ghost docs = text_view(store@);
    proof {
        assert(docs.dom() =~= store@.dom());
    }
    let mut fuel = store.len();
    let mut k: usize = 1;
    while fuel > 0 && k < usize::MAX && store.contains(&sibling_filename(stem, k))
        invariant
            store.wf(),
            docs == text_view(store@),
            first_free_from(docs, stem@, k as nat, fuel as nat) == free_ordinal(docs, stem@),
        decreases fuel,
    {
        k += 1;
        fuel -= 1;
    }
    k
}

/// The numbered sibling of a stem.
pub fn sibling_filename(stem: &str, ordinal: usize) -> (r: String)
    ensures
        r@ == sibling_name(stem@, ordinal as nat),
{
    let mut r = String::from_str(stem);
    r.append("_");
    let digits = decimal_string(ordinal);
    r.append(digits.as_str());
    proof {
        reveal_strlit("_");
        assert(r@ =~= sibling_name(stem@, ordinal as nat));
    }
    r
}

/// How many pages `n` titles fill.
pub fn page_total(n: usize) -> (r: usize)
    ensures
        r == page_count(n as nat),
{
    let whole = n / ARTICLES_PER_PAGE;
    let r = if n % ARTICLES_PER_PAGE != 0 {
        whole + 1
    } else {
        whole
    };
    proof {
        let m = n as int;
        assert(r == (m + 49) / 50) by (nonlinear_arith)
            requires
                r == (if m % 50 != 0 { m / 50 + 1 } else { m / 50 }),
                m >= 0,
        ;
    }
    r
}

/// The listing cut into pages of fifty titles, in order.
pub fn paginate(titles: &Vec<String>) -> (pages: Vec<Vec<String>>)
    ensures
        pages@.len() == page_count(titles@.len()),
        forall|p: int|
            0 <= p < pages@.len() ==> (#[trigger] pages@[p])@.map_values(|t: String| t@)
                == page_slice(titles@.map_values(|t: String| t@), p),
{
    let ghost tv = titles@.map_values(|t: String| t@);
    let n = titles.len();
    let total = page_total(n);
    let mut pages: Vec<Vec<String>> = Vec::new();
    let mut p: usize = 0;
    while p < total
        invariant
            p <= total,
            total == page_count(n as nat),
            n == titles@.len(),
            tv == titles@.map_values(|t: String| t@),
            pages@.len() == p,
            forall|q: int|
                0 <= q < p ==> (#[trigger] pages@[q])@.map_values(|t: String| t@) == page_slice(
                    tv,
                    q,
                ),
        decreases total - p,
    {
        proof {
            assert(p * 50 < n) by (nonlinear_arith)
                requires
                    p < (n + 49) / 50,
            ;
        }
        let start = p * ARTICLES_PER_PAGE;
        let end = if n - start > ARTICLES_PER_PAGE {
            start + ARTICLES_PER_PAGE
        } else {
            n
        };
        let mut page: Vec<String> = Vec::new();
        let mut k = start;
        while k < end
            invariant
                start <= k <= end <= n,
                n == titles@.len(),
                tv == titles@.map_values(|t: String| t@),
                page@.len() == k - start,
                page@.map_values(|t: String| t@) == tv.subrange(start as int, k as int),
            decreases end - k,
        {
            let t = titles[k].clone();
            let ghost prev = page@;
            page.push(t);
            k += 1;
            proof {
                assert forall|j: int| 0 <= j < k - start implies #[trigger] page@[j]@ == tv.subrange(
                    start as int,
                    k as int,
                )[j] by {
                    if j < k - start - 1 {
                        assert(page@[j] == prev[j]);
                        assert(prev.map_values(|t: String| t@)[j] == prev[j]@);
                    }
                }
                assert(page@.map_values(|t: String| t@) =~= tv.subrange(start as int, k as int));
            }
        }
        proof {
            assert(page_slice(tv, p as int) == tv.subrange(start as int, end as int));
        }
        pages.push(page);
        p += 1;
    }
    pages
}

/// The server's display name for a language and an optional filter.
pub fn manifest_server_name(language: &str, topic_filter: &Option<TopicFilter>) -> (r: String)
    ensures
        r@ == manifest_name_spec(language@, *topic_filter),
{
    match topic_filter {
        Some(f) => f.server_name(language),
        None => {
            let mut r = String::from_str("Wikipedia ");
            let upper = uppercase(language);
            r.append(upper.as_str());
            r.append(" StaticMCP");
            r
        },
    }
}

/// The server's identity in the manifest.
pub fn server_info(language: &str, topic_filter: &Option<TopicFilter>) -> (r: ServerInfo)
    ensures
        r.name@ == manifest_name_spec(language@, *topic_filter),
        r.version@ == "1.0.0"@,
{
    ServerInfo {
        name: manifest_server_name(language, topic_filter),
        version: String::from_str("1.0.0"),
    }
}

/// The protocol version the manifest declares.
pub fn protocol_version() -> (r: &'static str)
    ensures
        r@ == "2024-11-05"@,
{
    "2024-11-05"
}

/// The names of the four tools, in manifest order: article lookup, paginated listing,
/// category listing, category lookup.
pub fn tool_names() -> (r: Vec<&'static str>)
    ensures
        r@.map_values(|t: &str| t@) == seq![
            "get_article"@,
            "list_articles"@,
            "list_categories"@,
            "categories"@,
        ],
{
    let r = vec!["get_article", "list_articles", "list_categories", "categories"];
    proof {
        assert(r@.map_values(|t: &str| t@) =~= seq![
            "get_article"@,
            "list_articles"@,
            "list_categories"@,
            "categories"@,
        ]);
    }
    r
}

/// The two browsable resources: statistics and the article-title list.
pub fn manifest_resources() -> (r: Vec<Resource>)
    ensures
        r@.len() == 2,
        r@[0].uri@ == "wikipedia://stats"@,
        r@[1].uri@ == "wikipedia://articles"@,
{
    let mut r: Vec<Resource> = Vec::new();
    r.push(Resource {
        uri: String::from_str("wikipedia://stats"),
        name: String::from_str("Wikipedia Statistics"),
        description: String::from_str("Statistics about the Wikipedia dump"),
        mime_type: String::from_str("application/json"),
    });
    r.push(Resource {
        uri: String::from_str("wikipedia://articles"),
        name: String::from_str("Article List"),
        description: String::from_str("List of all available Wikipedia articles"),
        mime_type: String::from_str("application/json"),
    });
    r
}

/// Writes documents for accepted articles and keeps the title set, the category index and
/// the redirect table that the listings are built from.
pub struct StaticMcpGenerator<C: ArticleCategorizer> {
    pub output_dir: String,
    pub language: String,
    pub articles: TitleMap<Article>,
    pub redirects: TitleMap<String>,
    pub article_titles: TitleMap<()>,
    pub categories: TitleMap<Vec<String>>,
    /// The output documents, keyed by filename stem.
    pub artifacts: TitleMap<String>,
    pub categorizer: C,
}

impl<C: ArticleCategorizer> StaticMcpGenerator<C> {
    pub open spec fn wf(&self) -> bool {
        &&& self.articles.wf()
        &&& self.redirects.wf()
        &&& self.article_titles.wf()
        &&& self.categories.wf()
        &&& self.artifacts.wf()
    }

    /// A generator for a streaming run: nothing ingested, nothing written.
    pub fn new_streaming(output_dir: String, language: String, categorizer: C) -> (r: Self)
        ensures
            r.wf(),
            r.output_dir == output_dir,
            r.language == language,
            r.articles@.is_empty(),
            r.redirects@.is_empty(),
            r.article_titles@.is_empty(),
            r.categories@.is_empty(),
            r.artifacts@.is_empty(),
            r.categorizer == categorizer,
    {
        StaticMcpGenerator {
            output_dir,
            language,
            articles: TitleMap::new(),
            redirects: TitleMap::new(),
            article_titles: TitleMap::new(),
            categories: TitleMap::new(),
            artifacts: TitleMap::new(),
            categorizer,
        }
    }

    /// The title in a document's heading line, or `Unknown`.
    pub fn extract_title_from_content(&self, content: &str) -> (r: String)
        ensures
            r@ == heading_title(content@),
    {
        if has_prefix(content, "# ") {
            let s = chars_of(content);
            proof {
                reveal_strlit("# ");
                assert(s@[0] == s@.take(2)[0]);
                assert(s@[1] == s@.take(2)[1]);
            }
            let mut out: Vec<char> = Vec::new();
            let mut i: usize = 2;
            while i < s.len() && s[i] != '\n'
                invariant
                    2 <= i <= s.len(),
                    s@ == content@,
                    s@[0] == '#' && s@[1] == ' ',
                    forall|j: int| 0 <= j < i ==> s@[j] != '\n',
                    out@ == s@.subrange(2, i as int),
                decreases s.len() - i,
            {
                out.push(s[i]);
                i += 1;
                proof {
                    assert(out@ =~= s@.subrange(2, i as int));
                }
            }
            proof {
                lemma_first_line(s@, i as int);
                assert(s@.take(i as int).skip(2) =~= s@.subrange(2, i as int));
            }
            string_from_chars(&out)
        } else {
            String::from_str("Unknown")
        }
    }

    /// What the shared document becomes when `new_title` collides with `existing_text`: an
    /// index grows by a line; two short documents are joined under a divider; otherwise the
    /// document turns into an index of the existing heading's title and the new one.
    pub fn merge_with_existing_content(
        &self,
        existing_text: &str,
        new_title: &str,
        new_article: &Article,
    ) -> (r: String)
        ensures
            r@ == merge_spec(existing_text@, new_title@, new_article.content@),
    {
        if has_prefix(existing_text, "Multiple articles found") {
            let mut r = String::from_str(existing_text);
            push_bullet(&mut r, new_title);
            r
        } else if utf8_len_within(existing_text, SHORT_ARTICLE_LIMIT) && utf8_len_within(
            new_article.content.as_str(),
            SHORT_ARTICLE_LIMIT,
        ) {
            let mut r = String::from_str(existing_text);
            r.append("\n\n---\n\n## ");
            r.append(new_title);
            r.append("\n\n");
            r.append(new_article.content.as_str());
            r
        } else {
            let existing_title = self.extract_title_from_content(existing_text);
            let mut r = String::from_str("Multiple articles found. Choose the one you need:\n\n");
            push_bullet(&mut r, existing_title.as_str());
            push_bullet(&mut r, new_title);
            proof {
                assert(r@ =~= index_doc(existing_title@, new_title@));
            }
            r
        }
    }
    /// Adds `title` to each category in `names`, in order; a category seen for the first
    /// time starts with `title` alone.
    pub fn record_categories(&mut self, title: &str, names: &Vec<String>)
        requires
            old(self).wf(),
        ensures
            final(self).wf(),
            member_view(final(self).categories@) == add_memberships(
                member_view(old(self).categories@),
                names@.map_values(|s: String| s@),
                title@,
            ),
            final(self).articles == old(self).articles,
            final(self).redirects == old(self).redirects,
            final(self).article_titles == old(self).article_titles,
            final(self).artifacts == old(self).artifacts,
            final(self).output_dir == old(self).output_dir,
            final(self).language == old(self).language,
            final(self).categorizer == old(self).categorizer,
    {
        let ghost start = member_view(self.categories@);
        let ghost nv = names@.map_values(|s: String| s@);
        let mut i: usize = 0;
        while i < names.len()
            invariant
                self.wf(),
                i <= names@.len(),
                nv == names@.map_values(|s: String| s@),
                member_view(self.categories@) == add_memberships(start, nv.take(i as int), title@),
                self.articles == old(self).articles,
                self.redirects == old(self).redirects,
                self.article_titles == old(self).article_titles,
                self.artifacts == old(self).artifacts,
                self.output_dir == old(self).output_dir,
                self.language == old(self).language,
                self.categorizer == old(self).categorizer,
            decreases names.len() - i,
        {
            let name = names[i].clone();
            let ghost before = member_view(self.categories@);
            let prev = self.categories.insert(name.clone(), Vec::new());
            let mut list = match prev {
                Some(l) => l,
                None => Vec::new(),
            };
            let ghost members = list@.map_values(|s: String| s@);
            proof {
                assert(members == if before.contains_key(name@) {
                    before[name@]
                } else {
                    Seq::<Seq<char>>::empty()
                }) by {
                    if !before.contains_key(name@) {
                        assert(members =~= Seq::<Seq<char>>::empty());
                    }
                }
            }
            list.push(String::from_str(title));
            proof {
                assert(list@.map_values(|s: String| s@) =~= members.push(title@));
            }
            self.categories.insert(name, list);
            proof {
                assert(nv.take(i + 1).drop_last() =~= nv.take(i as int));
                assert(nv.take(i + 1).last() == name@);
                assert(member_view(self.categories@) =~= before.insert(
                    name@,
                    members.push(title@),
                ));
            }
            i += 1;
        }
        proof {
            assert(nv.take(i as int) =~= nv);
        }
    }

    /// Records an accepted article and writes its document under its encoded filename,
    /// resolving a collision with what is stored there by the merge policy.
    pub fn write_article_with_collision_handling(&mut self, title: &str, article: &Article)
        requires
            old(self).wf(),
        ensures
            final(self).wf(),
            text_view(final(self).artifacts@) == write_spec(
                text_view(old(self).artifacts@),
                encode_spec(title@),
                title@,
                article.content@,
            ),
            final(self).article_titles@.dom() == old(self).article_titles@.dom().insert(title@),
            exists|names: Seq<Seq<char>>|
                member_view(final(self).categories@) == add_memberships(
                    member_view(old(self).categories@),
                    names,
                    title@,
                ),
            final(self).articles == old(self).articles,
            final(self).redirects == old(self).redirects,
            final(self).output_dir == old(self).output_dir,
            final(self).language == old(self).language,
            final(self).categorizer == old(self).categorizer,
    {
        let _ = self.article_titles.insert(String::from_str(title), ());
        let names = self.categorizer.categorize(title, article.content.as_str());
        self.record_categories(title, &names);
        let filename = encode_staticmcp_filename(title);
        let doc = article_text(title, article.content.as_str());
        let ghost docs = text_view(self.artifacts@);
        let existing: Option<String> = match self.artifacts.get(&filename) {
            Some(t) => Some(t.clone()),
            None => None,
        };
        match existing {
            None => {
                self.artifacts.insert(filename, doc);
                proof {
                    assert(text_view(self.artifacts@) =~= write_spec(
                        docs,
                        encode_spec(title@),
                        title@,
                        article.content@,
                    ));
                }
            },
            Some(existing) => {
                let merged = self.merge_with_existing_content(existing.as_str(), title, article);
                if has_prefix(existing.as_str(), "Multiple articles found") {
                    let ghost m = merged@;
                    self.artifacts.insert(filename.clone(), merged);
                    proof {
                        assert(text_view(self.artifacts@) =~= docs.insert(filename@, m));
                    }
                    let ordinal = free_ordinal_exec(&self.artifacts, filename.as_str());
                    let sibling = sibling_filename(filename.as_str(), ordinal);
                    self.artifacts.insert(sibling, doc);
                } else if utf8_len_within(existing.as_str(), SHORT_ARTICLE_LIMIT)
                    && utf8_len_within(article.content.as_str(), SHORT_ARTICLE_LIMIT) {
                    self.artifacts.insert(filename, merged);
                } else {
                    let ghost m = merged@;
                    let ghost e = existing@;
                    self.artifacts.insert(filename.clone(), merged);
                    proof {
                        assert(text_view(self.artifacts@) =~= docs.insert(filename@, m));
                    }
                    let first = sibling_filename(
                        filename.as_str(),
                        free_ordinal_exec(&self.artifacts, filename.as_str()),
                    );
                    let ghost d1 = text_view(self.artifacts@);
                    self.artifacts.insert(first, existing);
                    proof {
                        assert(text_view(self.artifacts@) =~= d1.insert(first@, e));
                    }
                    let second = sibling_filename(
                        filename.as_str(),
                        free_ordinal_exec(&self.artifacts, filename.as_str()),
                    );
                    self.artifacts.insert(second, doc);
                }
                proof {
                    assert(text_view(self.artifacts@) =~= write_spec(
                        docs,
                        encode_spec(title@),
                        title@,
                        article.content@,
                    ));
                }
            },
        }
    }
    /// A generator over what a parse collected: its articles and redirects, every article
    /// put through the categoriser, and no document written yet.
    pub fn new(output_dir: String, language: String, parser: WikipediaParser, categorizer: C) -> (r: Self)
        requires
            parser.wf(),
        ensures
            r.wf(),
            r.output_dir == output_dir,
            r.language == language,
            r.articles == parser.articles,
            r.redirects == parser.redirects,
            r.article_titles@.dom() == parser.articles@.dom(),
            r.artifacts@.is_empty(),
            r.categorizer == categorizer,
            exists|names: Seq<Seq<Seq<char>>>|
                names.len() == parser.articles.key_order().len() && member_view(r.categories@)
                    == categorize_all(parser.articles.key_order(), names),
    {
        let mut r = StaticMcpGenerator {
            output_dir,
            language,
            articles: parser.articles,
            redirects: parser.redirects,
            article_titles: TitleMap::new(),
            categories: TitleMap::new(),
            artifacts: TitleMap::new(),
            categorizer,
        };
        let n = r.articles.len();
        proof {
            r.articles.lemma_key_order();
        }
        let mut i: usize = 0;
        let ghost mut acc: Seq<Seq<Seq<char>>> = Seq::empty();
        proof {
            assert(member_view(r.categories@) =~= Map::<Seq<char>, Seq<Seq<char>>>::empty());
        }
        while i < n
            invariant
                r.wf(),
                n == r.articles.key_order().len(),
                i <= n,
                r.articles == parser.articles,
                r.redirects == parser.redirects,
                r.output_dir == output_dir,
                r.language == language,
                r.artifacts@.is_empty(),
                r.categorizer == categorizer,
                r.article_titles@.dom() == r.articles.key_order().take(i as int).to_set(),
                acc.len() == i,
                member_view(r.categories@) == categorize_all(r.articles.key_order().take(i as int), acc),
            decreases n - i,
        {
            let (title, article) = r.articles.entry_at(i);
            let title = title.clone();
            let names = r.categorizer.categorize(title.as_str(), article.content.as_str());
            r.record_categories(title.as_str(), &names);
            let ghost k = title@;
            r.article_titles.insert(title, ());
            proof {
                let ko = r.articles.key_order();
                assert(ko.take(i + 1) =~= ko.take(i as int).push(k));
                ko.take(i as int).lemma_push_to_set_commute(k);
                let nv = names@.map_values(|s: String| s@);
                let acc2 = acc.push(nv);
                assert(acc2.drop_last() =~= acc);
                assert(ko.take(i + 1).drop_last() =~= ko.take(i as int));
                acc = acc2;
            }
            i += 1;
        }
        proof {
            r.articles.lemma_key_order();
            assert(r.articles.key_order().take(i as int) =~= r.articles.key_order());
        }
        r
    }

    /// How many article documents to write: all with `exact_matches`, else at most a
    /// hundred.
    pub fn article_limit(exact_matches: bool, n: usize) -> (r: usize)
        ensures
            r == article_limit_spec(exact_matches, n as nat),
    {
        if exact_matches || n <= DEFAULT_ARTICLE_LIMIT {
            n
        } else {
            DEFAULT_ARTICLE_LIMIT
        }
    }

    /// Writes the documents of the first `limit` articles, in key order.
    pub fn generate_article_responses(&mut self, limit: usize)
        requires
            old(self).wf(),
            limit <= old(self).articles@.dom().len(),
        ensures
            final(self).wf(),
            text_view(final(self).artifacts@) == write_many(
                text_view(old(self).artifacts@),
                Seq::new(
                    limit as nat,
                    |i: int|
                        (
                            old(self).articles.key_order()[i],
                            old(self).articles@[old(self).articles.key_order()[i]].content@,
                        ),
                ),
            ),
            final(self).articles == old(self).articles,
            final(self).redirects == old(self).redirects,
    {
        let ghost pages = Seq::new(
            limit as nat,
            |i: int|
                (
                    self.articles.key_order()[i],
                    self.articles@[self.articles.key_order()[i]].content@,
                ),
        );
        let ghost start = text_view(self.artifacts@);
        proof {
            self.articles.lemma_key_order();
            assert(pages.take(0) =~= Seq::<(Seq<char>, Seq<char>)>::empty());
        }
        let mut i: usize = 0;
        while i < limit
            invariant
                self.wf(),
                i <= limit <= self.articles.key_order().len(),
                self.articles == old(self).articles,
                self.redirects == old(self).redirects,
                pages == Seq::new(
                    limit as nat,
                    |i: int|
                        (
                            old(self).articles.key_order()[i],
                            old(self).articles@[old(self).articles.key_order()[i]].content@,
                        ),
                ),
                text_view(self.artifacts@) == write_many(start, pages.take(i as int)),
            decreases limit - i,
        {
            let (title, article) = self.articles.entry_at(i);
            let title = title.clone();
            let article = article.duplicate();
            self.write_article_with_collision_handling(title.as_str(), &article);
            proof {
                assert(pages.take(i + 1).drop_last() =~= pages.take(i as int));
            }
            i += 1;
        }
        proof {
            assert(pages.take(i as int) =~= pages);
        }
    }
    /// Writes the article documents a run asks for: all of them with `exact_matches`,
    /// else the first hundred in key order.
    pub fn generate_tools(&mut self, exact_matches: bool)
        requires
            old(self).wf(),
        ensures
            final(self).wf(),
            text_view(final(self).artifacts@) == write_many(
                text_view(old(self).artifacts@),
                Seq::new(
                    article_limit_spec(exact_matches, old(self).articles@.dom().len()),
                    |i: int|
                        (
                            old(self).articles.key_order()[i],
                            old(self).articles@[old(self).articles.key_order()[i]].content@,
                        ),
                ),
            ),
            final(self).articles == old(self).articles,
            final(self).redirects == old(self).redirects,
    {
        let n = self.articles.len();
        let limit = Self::article_limit(exact_matches, n);
        self.generate_article_responses(limit);
    }
}

} // verus!
