//! Markup normalisation: an ordered list of span rewrites over the raw text,
//! then a line pass that trims lines, drops empty ones and joins the rest.
use vstd::prelude::*;
use crate::text::{chars_of, occurs_at, matches_at, string_from_chars};

verus! {

/// What a rewrite keeps of a matched span.
#[derive(Clone, Copy, PartialEq, Eq, Structural)]
pub enum Keep {
    /// The span goes entirely.
    Nothing,
    /// The text between the delimiters stays.
    Inner,
    /// The text after the last `|` between the delimiters stays; a span without `|` does
    /// not match.
    AfterLastPipe,
}

/// A span rewrite: an opening sequence, then text up to the first `stop` character, where
/// the closing sequence must stand. With `runs` the rule is the heading form instead: two
/// to six `=`, text without `=`, two to six `=` (see `span_at`).
pub struct Rule {
    pub open: Vec<char>,
    pub stop: char,
    pub close: Vec<char>,
    pub keep: Keep,
    pub runs: bool,
}

/// A rule as values: opening, stop character, closing, what is kept, runs.
pub type RuleShape = (Seq<char>, char, Seq<char>, Keep, bool);

impl Rule {
    pub open spec fn shape(&self) -> RuleShape {
        (self.open@, self.stop, self.close@, self.keep, self.runs)
    }
}

/// The first index at or after `from` that holds `c`, or the length.
pub open spec fn first_from(s: Seq<char>, from: int, c: char) -> int
    decreases s.len() - from,
{
    if from >= s.len() {
        s.len() as int
    } else if s[from] == c {
        from
    } else {
        first_from(s, from + 1, c)
    }
}

/// The first index at or after `from` that does not hold `c`, or the length.
pub open spec fn skip_run(s: Seq<char>, from: int, c: char) -> int
    decreases s.len() - from,
{
    if from >= s.len() {
        s.len() as int
    } else if s[from] != c {
        from
    } else {
        skip_run(s, from + 1, c)
    }
}

/// The last index in `[lo, hi)` that holds `c`, or `lo - 1`.
pub open spec fn last_in(s: Seq<char>, lo: int, hi: int, c: char) -> int
    decreases hi - lo,
{
    if hi <= lo {
        lo - 1
    } else if s[hi - 1] == c {
        hi - 1
    } else {
        last_in(s, lo, hi - 1, c)
    }
}

/// How many `c` characters stand in a row from `i` on.
pub open spec fn run_len(s: Seq<char>, i: int, c: char) -> int {
    skip_run(s, i, c) - i
}

/// In the heading form: after a run of two to six `=` the text up to the next `=` is
/// followed by a run of at least two `=`.
pub open spec fn heading_closes(s: Seq<char>, i: int) -> bool {
    let m = run_len(s, i, '=');
    run_len(s, first_from(s, i + m, '='), '=') >= 2
}

/// How many `=` open a heading at `i`, as `={2,6}` takes them: as many as six, fewer
/// when what follows could not close otherwise.
pub open spec fn heading_open(s: Seq<char>, i: int) -> int {
    let m = run_len(s, i, '=');
    if m > 6 {
        if m - 6 >= 2 {
            6
        } else {
            5
        }
    } else if heading_closes(s, i) {
        m
    } else {
        m - 2
    }
}

/// Where the inner text of a span at `i` begins.
pub open spec fn inner_start(s: Seq<char>, i: int, r: RuleShape) -> int {
    if r.4 {
        i + heading_open(s, i)
    } else {
        i + r.0.len()
    }
}

/// Where the inner text of a span at `i` ends: the first stop character.
pub open spec fn inner_end(s: Seq<char>, i: int, r: RuleShape) -> int {
    if r.4 {
        let m = run_len(s, i, '=');
        if m <= 6 && heading_closes(s, i) {
            first_from(s, i + m, '=')
        } else {
            inner_start(s, i, r)
        }
    } else {
        first_from(s, inner_start(s, i, r), r.1)
    }
}

/// Where a span at `i` ends.
pub open spec fn span_end(s: Seq<char>, i: int, r: RuleShape) -> int {
    if r.4 {
        let j = inner_end(s, i, r);
        let c = run_len(s, j, '=');
        j + if c > 6 {
            6
        } else {
            c
        }
    } else {
        inner_end(s, i, r) + r.2.len()
    }
}

/// A span of rule `r` starts at `i`. In the heading form (`runs`) that is the shape
/// `={2,6}` text without `=` `={2,6}`, matched as a backtracking search from `i` would.
pub open spec fn span_at(s: Seq<char>, i: int, r: RuleShape) -> bool {
    let a = inner_start(s, i, r);
    let j = inner_end(s, i, r);
    if r.4 {
        let m = run_len(s, i, '=');
        &&& m >= 2
        &&& (m > 6 || heading_closes(s, i) || m >= 4)
        &&& i < span_end(s, i, r) <= s.len()
    } else {
        &&& occurs_at(s, r.0, i)
        &&& j < s.len()
        &&& occurs_at(s, r.2, j)
        &&& (r.3 == Keep::AfterLastPipe ==> last_in(s, a, j, '|') >= a)
        &&& i < span_end(s, i, r) <= s.len()
    }
}

/// What replaces a span at `i`.
pub open spec fn replacement(s: Seq<char>, i: int, r: RuleShape) -> Seq<char> {
    let a = inner_start(s, i, r);
    let j = inner_end(s, i, r);
    if r.4 {
        s.subrange(a, j)
    } else {
        match r.3 {
            Keep::Nothing => Seq::empty(),
            Keep::Inner => s.subrange(a, j),
            Keep::AfterLastPipe => s.subrange(last_in(s, a, j, '|') + 1, j),
        }
    }
}

/// `s` from `i` on, with every span of `r` replaced, scanning left to right.
pub open spec fn rewrite_from(s: Seq<char>, i: int, r: RuleShape) -> Seq<char>
    decreases s.len() - i,
{
    if i < 0 || i >= s.len() {
        Seq::empty()
    } else if span_at(s, i, r) {
        replacement(s, i, r) + rewrite_from(s, span_end(s, i, r), r)
    } else {
        seq![s[i]] + rewrite_from(s, i + 1, r)
    }
}

pub open spec fn rewrite(s: Seq<char>, r: RuleShape) -> Seq<char> {
    rewrite_from(s, 0, r)
}

proof fn lemma_first_from_bounds(s: Seq<char>, from: int, c: char)
    requires
        0 <= from <= s.len(),
    ensures
        from <= first_from(s, from, c) <= s.len(),
    decreases s.len() - from,
{
    if from < s.len() && s[from] != c {
        lemma_first_from_bounds(s, from + 1, c);
    }
}

proof fn lemma_skip_run_bounds(s: Seq<char>, from: int, c: char)
    requires
        0 <= from <= s.len(),
    ensures
        from <= skip_run(s, from, c) <= s.len(),
    decreases s.len() - from,
{
    if from < s.len() && s[from] == c {
        lemma_skip_run_bounds(s, from + 1, c);
    }
}

fn first_from_exec(s: &Vec<char>, from: usize, c: char) -> (r: usize)
    ensures
        r == first_from(s@, from as int, c),
{
    let mut k = from;
    while k < s.len() && s[k] != c
        invariant
            from <= k,
            first_from(s@, k as int, c) == first_from(s@, from as int, c),
        decreases s.len() - k,
    {
        k += 1;
    }
    if k >= s.len() {
        s.len()
    } else {
        k
    }
}

fn skip_run_exec(s: &Vec<char>, from: usize, c: char) -> (r: usize)
    ensures
        r == skip_run(s@, from as int, c),
{
    let mut k = from;
    while k < s.len() && s[k] == c
        invariant
            from <= k,
            skip_run(s@, k as int, c) == skip_run(s@, from as int, c),
        decreases s.len() - k,
    {
        k += 1;
    }
    if k >= s.len() {
        s.len()
    } else {
        k
    }
}

/// The last `|` in `[lo, hi)`, if any.
fn last_pipe_exec(s: &Vec<char>, lo: usize, hi: usize) -> (r: Option<usize>)
    requires
        lo <= hi <= s@.len(),
    ensures
        match r {
            Some(p) => p as int == last_in(s@, lo as int, hi as int, '|') && lo <= p < hi,
            None => last_in(s@, lo as int, hi as int, '|') < lo,
        },
{
    let mut k = hi;
    while k > lo && s[k - 1] != '|'
        invariant
            lo <= k <= hi,
            hi <= s@.len(),
            last_in(s@, lo as int, k as int, '|') == last_in(s@, lo as int, hi as int, '|'),
        decreases k - lo,
    {
        k -= 1;
    }
    if k > lo {
        Some(k - 1)
    } else {
        None
    }
}

/// For a heading span at `i`: the bounds of its text, and its end.
fn heading_at_exec(s: &Vec<char>, i: usize, r: &Rule) -> (res: Option<(usize, usize, usize)>)
    requires
        i < s@.len(),
        r.runs,
    ensures
        match res {
            Some((lo, hi, e)) => {
                &&& span_at(s@, i as int, r.shape())
                &&& e as int == span_end(s@, i as int, r.shape())
                &&& lo <= hi <= s@.len()
                &&& s@.subrange(lo as int, hi as int) == replacement(s@, i as int, r.shape())
            },
            None => !span_at(s@, i as int, r.shape()),
        },
{
    let run_end = skip_run_exec(s, i, '=');
    proof {
        lemma_skip_run_bounds(s@, i as int, '=');
    }
    let m = run_end - i;
    if m < 2 {
        return None;
    }
    let mut a: usize = run_end;
    let mut j: usize = run_end;
    if m > 6 {
        let o: usize = if m - 6 >= 2 {
            6
        } else {
            5
        };
        a = i + o;
        j = i + o;
    } else {
        let jj = first_from_exec(s, run_end, '=');
        proof {
            lemma_first_from_bounds(s@, run_end as int, '=');
        }
        let close_end = skip_run_exec(s, jj, '=');
        proof {
            lemma_skip_run_bounds(s@, jj as int, '=');
        }
        if close_end - jj >= 2 {
            j = jj;
        } else if m >= 4 {
            a = run_end - 2;
            j = run_end - 2;
        } else {
            return None;
        }
    }
    let c_end = skip_run_exec(s, j, '=');
    proof {
        lemma_skip_run_bounds(s@, j as int, '=');
    }
    let c = c_end - j;
    let e = j + if c > 6 {
        6
    } else {
        c
    };
    if e <= i {
        return None;
    }
    Some((a, j, e))
}

/// For a span of `r` at `i`: the bounds of the text that replaces it, and its end.
fn span_at_exec(s: &Vec<char>, i: usize, r: &Rule) -> (res: Option<(usize, usize, usize)>)
    requires
        i < s@.len(),
    ensures
        match res {
            Some((lo, hi, e)) => {
                &&& span_at(s@, i as int, r.shape())
                &&& e as int == span_end(s@, i as int, r.shape())
                &&& lo <= hi <= s@.len()
                &&& s@.subrange(lo as int, hi as int) == replacement(s@, i as int, r.shape())
            },
            None => !span_at(s@, i as int, r.shape()),
        },
{
    if r.runs {
        return heading_at_exec(s, i, r);
    }
    if !matches_at(s, &r.open, i) {
        return None;
    }
    let n = s.len();
    let m = r.open.len();
    assert(i + m <= n);
    let a = i + m;
    let j = first_from_exec(s, a, r.stop);
    proof {
        lemma_first_from_bounds(s@, a as int, r.stop);
    }
    if j >= s.len() || !matches_at(s, &r.close, j) {
        return None;
    }
    let mut lo = j;
    if r.keep == Keep::Inner {
        lo = a;
    } else if r.keep == Keep::AfterLastPipe {
        match last_pipe_exec(s, a, j) {
            None => {
                return None;
            },
            Some(p) => {
                lo = p + 1;
            },
        }
    }
    assert(j + r.close@.len() <= s@.len());
    let e = j + r.close.len();
    if e <= i {
        return None;
    }
    proof {
        if r.keep == Keep::Nothing {
            assert(s@.subrange(lo as int, j as int) =~= Seq::<char>::empty());
        }
    }
    Some((lo, j, e))
}

/// Appends `s[lo..hi]` to `out`.
fn append_range(out: &mut Vec<char>, s: &Vec<char>, lo: usize, hi: usize)
    requires
        lo <= hi <= s@.len(),
    ensures
        final(out)@ == old(out)@ + s@.subrange(lo as int, hi as int),
{
    let mut k = lo;
    while k < hi
        invariant
            lo <= k <= hi <= s@.len(),
            out@ == old(out)@ + s@.subrange(lo as int, k as int),
        decreases hi - k,
    {
        out.push(s[k]);
        k += 1;
        proof {
            assert(out@ =~= old(out)@ + s@.subrange(lo as int, k as int));
        }
    }
}

/// Applies one rule over the whole text.
pub fn rewrite_exec(s: &Vec<char>, r: &Rule) -> (out: Vec<char>)
    ensures
        out@ == rewrite(s@, r.shape()),
{
    let mut out: Vec<char> = Vec::new();
    let mut i: usize = 0;
    while i < s.len()
        invariant
            i <= s@.len(),
            out@ + rewrite_from(s@, i as int, r.shape()) == rewrite(s@, r.shape()),
        decreases s.len() - i,
    {
        let ghost before = out@;
        match span_at_exec(s, i, r) {
            Some((lo, hi, e)) => {
                append_range(&mut out, s, lo, hi);
                proof {
                    assert(out@ + rewrite_from(s@, e as int, r.shape()) =~= before
                        + rewrite_from(s@, i as int, r.shape()));
                }
                i = e;
            },
            None => {
                out.push(s[i]);
                proof {
                    assert(out@ + rewrite_from(s@, i + 1, r.shape()) =~= before + rewrite_from(
                        s@,
                        i as int,
                        r.shape(),
                    ));
                }
                i += 1;
            },
        }
    }
    proof {
        assert(out@ + rewrite_from(s@, i as int, r.shape()) =~= out@);
    }
    out
}

/// The characters with Unicode's White_Space property, which `char::is_whitespace` tests.
pub open spec fn white(c: char) -> bool {
    ('\u{9}' <= c && c <= '\u{D}') || c == ' ' || c == '\u{85}' || c == '\u{A0}' || c
        == '\u{1680}' || ('\u{2000}' <= c && c <= '\u{200A}') || c == '\u{2028}' || c
        == '\u{2029}' || c == '\u{202F}' || c == '\u{205F}' || c == '\u{3000}'
}

pub fn is_white(c: char) -> (r: bool)
    ensures
        r == white(c),
{
    ('\u{9}' <= c && c <= '\u{D}') || c == ' ' || c == '\u{85}' || c == '\u{A0}' || c
        == '\u{1680}' || ('\u{2000}' <= c && c <= '\u{200A}') || c == '\u{2028}' || c
        == '\u{2029}' || c == '\u{202F}' || c == '\u{205F}' || c == '\u{3000}'
}

/// The first index in `[lo, hi)` that holds no white space, or `hi`.
pub open spec fn trim_start(s: Seq<char>, lo: int, hi: int) -> int
    decreases hi - lo,
{
    if lo >= hi {
        hi
    } else if !white(s[lo]) {
        lo
    } else {
        trim_start(s, lo + 1, hi)
    }
}

/// One past the last index in `[lo, hi)` that holds no white space, or `lo`.
pub open spec fn trim_end(s: Seq<char>, lo: int, hi: int) -> int
    decreases hi - lo,
{
    if hi <= lo {
        lo
    } else if !white(s[hi - 1]) {
        hi
    } else {
        trim_end(s, lo, hi - 1)
    }
}

/// `s[lo..hi]` without leading and trailing white space.
pub open spec fn trimmed(s: Seq<char>, lo: int, hi: int) -> Seq<char> {
    let a = trim_start(s, lo, hi);
    s.subrange(a, trim_end(s, a, hi))
}

/// Two pieces of text joined by a line break; an empty piece adds nothing.
pub open spec fn join2(a: Seq<char>, b: Seq<char>) -> Seq<char> {
    if a.len() == 0 {
        b
    } else if b.len() == 0 {
        a
    } else {
        a + seq!['\n'] + b
    }
}

/// The lines of `s` from index `i` on, trimmed, empty ones dropped, joined by line breaks.
pub open spec fn tidy_from(s: Seq<char>, i: int) -> Seq<char>
    decreases s.len() - i,
{
    if i < 0 || i > s.len() {
        Seq::empty()
    } else {
        let k = first_from(s, i, '\n');
        let line = trimmed(s, i, k);
        if i <= k < s.len() {
            join2(line, tidy_from(s, k + 1))
        } else {
            line
        }
    }
}

pub open spec fn tidy(s: Seq<char>) -> Seq<char> {
    tidy_from(s, 0)
}

/// The rewrites of the normaliser, in the order they apply: templates; category and file
/// links; piped links, then plain links; bold, then italic; references and no-wiki blocks;
/// any other tag; heading markers.
pub open spec fn rule_shapes() -> Seq<RuleShape> {
    seq![
        ("{{"@, '}', "}}"@, Keep::Nothing, false),
        ("[[Category:"@, ']', "]]"@, Keep::Nothing, false),
        ("[[File:"@, ']', "]]"@, Keep::Nothing, false),
        ("[["@, ']', "]]"@, Keep::AfterLastPipe, false),
        ("[["@, ']', "]]"@, Keep::Inner, false),
        ("\'\'\'"@, '\'', "\'\'\'"@, Keep::Inner, false),
        ("\'\'"@, '\'', "\'\'"@, Keep::Inner, false),
        ("<ref"@, '<', "</ref>"@, Keep::Nothing, false),
        ("<nowiki>"@, '<', "</nowiki>"@, Keep::Nothing, false),
        ("<"@, '>', ">"@, Keep::Nothing, false),
        ("=="@, '=', "=="@, Keep::Inner, true),
    ]
}

/// `s` after each rule of `rules` in turn.
pub open spec fn rewrite_all(s: Seq<char>, rules: Seq<RuleShape>) -> Seq<char>
    decreases rules.len(),
{
    if rules.len() == 0 {
        s
    } else {
        rewrite_all(rewrite(s, rules[0]), rules.skip(1))
    }
}

/// The normalised form of raw markup.
pub open spec fn clean_spec(s: Seq<char>) -> Seq<char> {
    tidy(rewrite_all(s, rule_shapes()))
}

proof fn lemma_join2_assoc(a: Seq<char>, b: Seq<char>, c: Seq<char>)
    ensures
        join2(join2(a, b), c) == join2(a, join2(b, c)),
{
    if a.len() > 0 && b.len() > 0 && c.len() > 0 {
        assert(join2(join2(a, b), c) =~= join2(a, join2(b, c)));
    }
}

proof fn lemma_trim_bounds(s: Seq<char>, lo: int, hi: int)
    requires
        0 <= lo <= hi <= s.len(),
    ensures
        lo <= trim_start(s, lo, hi) <= hi,
        trim_start(s, lo, hi) <= trim_end(s, trim_start(s, lo, hi), hi) <= hi,
    decreases hi - lo,
{
    if lo < hi && white(s[lo]) {
        lemma_trim_bounds(s, lo + 1, hi);
    }
    let a = trim_start(s, lo, hi);
    lemma_trim_end_bounds(s, a, hi);
}

proof fn lemma_trim_end_bounds(s: Seq<char>, lo: int, hi: int)
    requires
        0 <= lo <= hi <= s.len(),
    ensures
        lo <= trim_end(s, lo, hi) <= hi,
    decreases hi - lo,
{
    if lo < hi && white(s[hi - 1]) {
        lemma_trim_end_bounds(s, lo, hi - 1);
    }
}

fn trim_start_exec(s: &Vec<char>, lo: usize, hi: usize) -> (r: usize)
    requires
        lo <= hi <= s@.len(),
    ensures
        r == trim_start(s@, lo as int, hi as int),
{
    let mut k = lo;
    while k < hi && is_white(s[k])
        invariant
            lo <= k <= hi <= s@.len(),
            trim_start(s@, k as int, hi as int) == trim_start(s@, lo as int, hi as int),
        decreases hi - k,
    {
        k += 1;
    }
    k
}

fn trim_end_exec(s: &Vec<char>, lo: usize, hi: usize) -> (r: usize)
    requires
        lo <= hi <= s@.len(),
    ensures
        r == trim_end(s@, lo as int, hi as int),
{
    let mut k = hi;
    while k > lo && is_white(s[k - 1])
        invariant
            lo <= k <= hi <= s@.len(),
            trim_end(s@, lo as int, k as int) == trim_end(s@, lo as int, hi as int),
        decreases k - lo,
    {
        k -= 1;
    }
    k
}

/// Trims each line, drops the empty ones and joins the rest with single line breaks.
pub fn tidy_lines(s: &Vec<char>) -> (out: Vec<char>)
    ensures
        out@ == tidy(s@),
{
    let mut out: Vec<char> = Vec::new();
    let mut i: usize = 0;
    let mut finished = false;
    while !finished
        invariant
            i <= s@.len(),
            !finished ==> tidy(s@) == join2(out@, tidy_from(s@, i as int)),
            finished ==> tidy(s@) == out@,
        decreases s@.len() - i + if finished {
            0int
        } else {
            1int
        },
    {
        let k = first_from_exec(s, i, '\n');
        proof {
            lemma_first_from_bounds(s@, i as int, '\n');
        }
        let a = trim_start_exec(s, i, k);
        proof {
            lemma_trim_bounds(s@, i as int, k as int);
        }
        let b = trim_end_exec(s, a, k);
        let ghost before = out@;
        let ghost line = trimmed(s@, i as int, k as int);
        if a < b {
            if out.len() > 0 {
                out.push('\n');
            }
            append_range(&mut out, s, a, b);
        }
        proof {
            assert(out@ =~= join2(before, line));
        }
        if k >= s.len() {
            finished = true;
        } else {
            proof {
                lemma_join2_assoc(before, line, tidy_from(s@, k + 1));
            }
            i = k + 1;
        }
    }
    out
}

/// The rules of the normaliser as values.
fn rule_list() -> (r: Vec<Rule>)
    ensures
        r@.map_values(|x: Rule| x.shape()) == rule_shapes(),
{
    let mut r: Vec<Rule> = Vec::new();
    r.push(Rule { open: chars_of("{{"), stop: '}', close: chars_of("}}"), keep: Keep::Nothing, runs: false });
    r.push(Rule { open: chars_of("[[Category:"), stop: ']', close: chars_of("]]"), keep: Keep::Nothing, runs: false });
    r.push(Rule { open: chars_of("[[File:"), stop: ']', close: chars_of("]]"), keep: Keep::Nothing, runs: false });
    r.push(Rule { open: chars_of("[["), stop: ']', close: chars_of("]]"), keep: Keep::AfterLastPipe, runs: false });
    r.push(Rule { open: chars_of("[["), stop: ']', close: chars_of("]]"), keep: Keep::Inner, runs: false });
    r.push(Rule { open: chars_of("\'\'\'"), stop: '\'', close: chars_of("\'\'\'"), keep: Keep::Inner, runs: false });
    r.push(Rule { open: chars_of("\'\'"), stop: '\'', close: chars_of("\'\'"), keep: Keep::Inner, runs: false });
    r.push(Rule { open: chars_of("<ref"), stop: '<', close: chars_of("</ref>"), keep: Keep::Nothing, runs: false });
    r.push(Rule { open: chars_of("<nowiki>"), stop: '<', close: chars_of("</nowiki>"), keep: Keep::Nothing, runs: false });
    r.push(Rule { open: chars_of("<"), stop: '>', close: chars_of(">"), keep: Keep::Nothing, runs: false });
    r.push(Rule { open: chars_of("=="), stop: '=', close: chars_of("=="), keep: Keep::Inner, runs: true });
    proof {
        assert(r@.map_values(|x: Rule| x.shape()) =~= rule_shapes());
    }
    r
}

/// Normalises raw markup into plain text: the rewrites of `rule_shapes` in order, then
/// the line pass.
pub fn clean_wikitext(content: &str) -> (r: String)
    ensures
        r@ == clean_spec(content@),
{
    let rules = rule_list();
    let ghost shapes = rule_shapes();
    let mut text = chars_of(content);
    let mut i: usize = 0;
    proof {
        assert(shapes.skip(0) =~= shapes);
    }
    while i < rules.len()
        invariant
            i <= rules@.len(),
            rules@.map_values(|x: Rule| x.shape()) == shapes,
            shapes == rule_shapes(),
            rewrite_all(text@, shapes.skip(i as int)) == rewrite_all(content@, shapes),
        decreases rules.len() - i,
    {
        proof {
            assert(shapes.skip(i as int)[0] == rules@[i as int].shape());
            assert(shapes.skip(i as int).skip(1) =~= shapes.skip(i + 1));
        }
        text = rewrite_exec(&text, &rules[i]);
        i += 1;
    }
    proof {
        assert(shapes.skip(i as int).len() == 0);
    }
    let tidied = tidy_lines(&text);
    string_from_chars(&tidied)
}

/// Two characters that open a rewrite together: a doubled brace, bracket, apostrophe or
/// equals sign.
pub open spec fn doubled_opener(a: char, b: char) -> bool {
    a == b && (a == '{' || a == '[' || a == '\'' || a == '=')
}

/// Text where no rewrite can open: no `<`, and no `{{`, `[[`, `''` or `==`.
pub open spec fn plain(s: Seq<char>) -> bool {
    &&& forall|j: int| 0 <= j < s.len() ==> #[trigger] s[j] != '<'
    &&& forall|j: int| 0 <= j < s.len() - 1 ==> !doubled_opener(#[trigger] s[j], s[j + 1])
}

/// A rule opens only on a `<`, on a doubled opener, or, in the heading form, on `==`.
pub open spec fn opens_with_markup(r: RuleShape) -> bool {
    ||| r.4
    ||| (r.0.len() >= 1 && r.0[0] == '<')
    ||| (r.0.len() >= 2 && doubled_opener(r.0[0], r.0[1]))
}

/// Text in the shape the line pass leaves: empty, or starting and ending with a visible
/// character, with a visible character on each side of every line break.
pub open spec fn tidy_shape(t: Seq<char>) -> bool {
    t.len() == 0 || {
        &&& !white(t[0])
        &&& !white(t[t.len() - 1])
        &&& forall|k: int|
            0 < k < t.len() - 1 && #[trigger] t[k] == '\n' ==> !white(t[k - 1]) && !white(t[k + 1])
    }
}

proof fn lemma_first_from_no_break(s: Seq<char>, i: int, j: int)
    requires
        0 <= i <= j < first_from(s, i, '\n'),
        first_from(s, i, '\n') <= s.len(),
    ensures
        s[j] != '\n',
    decreases j - i,
{
    if i < j {
        assert(s[i] != '\n');
        lemma_first_from_no_break(s, i + 1, j);
    }
}

proof fn lemma_first_from_hit(s: Seq<char>, i: int)
    requires
        0 <= i <= s.len(),
    ensures
        first_from(s, i, '\n') < s.len() ==> s[first_from(s, i, '\n')] == '\n',
    decreases s.len() - i,
{
    if i < s.len() && s[i] != '\n' {
        lemma_first_from_hit(s, i + 1);
    }
}

proof fn lemma_trim_visible(s: Seq<char>, lo: int, hi: int)
    requires
        0 <= lo <= hi <= s.len(),
    ensures
        trim_start(s, lo, hi) < hi ==> !white(s[trim_start(s, lo, hi)]),
        ({
            let a = trim_start(s, lo, hi);
            let b = trim_end(s, a, hi);
            b > a ==> !white(s[b - 1])
        }),
        trim_start(s, lo, hi) == hi ==> trim_end(s, hi, hi) == hi,
    decreases hi - lo,
{
    if lo < hi && white(s[lo]) {
        lemma_trim_visible(s, lo + 1, hi);
    }
    let a = trim_start(s, lo, hi);
    lemma_trim_bounds(s, lo, hi);
    lemma_trim_end_visible(s, a, hi);
}

proof fn lemma_trim_end_visible(s: Seq<char>, lo: int, hi: int)
    requires
        0 <= lo <= hi <= s.len(),
    ensures
        trim_end(s, lo, hi) > lo ==> !white(s[trim_end(s, lo, hi) - 1]),
    decreases hi - lo,
{
    if lo < hi && white(s[hi - 1]) {
        lemma_trim_end_visible(s, lo, hi - 1);
    }
}

/// The line pass leaves text in `tidy_shape`, and keeps plain text plain.
proof fn lemma_tidy_from_shape(s: Seq<char>, i: int)
    requires
        0 <= i <= s.len(),
    ensures
        tidy_shape(tidy_from(s, i)),
    decreases s.len() - i,
{
    let k = first_from(s, i, '\n');
    lemma_first_from_bounds(s, i, '\n');
    lemma_first_from_hit(s, i);
    lemma_trim_bounds(s, i, k);
    lemma_trim_visible(s, i, k);
    let a = trim_start(s, i, k);
    let b = trim_end(s, a, k);
    let line = trimmed(s, i, k);
    assert(line == s.subrange(a, b));
    assert forall|j: int| 0 <= j < line.len() implies line[j] != '\n' by {
        lemma_first_from_no_break(s, i, a + j);
    }
    if i <= k < s.len() {
        lemma_tidy_from_shape(s, k + 1);
        let rest = tidy_from(s, k + 1);
        let t = join2(line, rest);
        assert(tidy_from(s, i) == t);
        if line.len() > 0 && rest.len() > 0 {
            assert forall|m: int| 0 < m < t.len() - 1 && #[trigger] t[m] == '\n' implies !white(
                t[m - 1],
            ) && !white(t[m + 1]) by {
                if m < line.len() {
                    assert(t[m] == line[m]);
                } else if m == line.len() {
                    assert(t[m - 1] == line[line.len() - 1]);
                    assert(t[m + 1] == rest[0]);
                } else {
                    assert(t[m] == rest[m - line.len() - 1]);
                    assert(t[m + 1] == rest[m - line.len()]);
                    if m - line.len() - 1 > 0 {
                        assert(t[m - 1] == rest[m - line.len() - 2]);
                    } else {
                        assert(t[m - 1] == '\n');
                    }
                }
            }
        }
    } else {
        assert(tidy_from(s, i) == line);
        if line.len() > 0 {
            assert forall|m: int| 0 < m < line.len() - 1 && #[trigger] line[m] == '\n' implies !white(
                line[m - 1],
            ) && !white(line[m + 1]) by {}
        }
    }
}

/// The line pass keeps plain text plain.
proof fn lemma_tidy_from_plain(s: Seq<char>, i: int)
    requires
        0 <= i <= s.len(),
        plain(s),
    ensures
        plain(tidy_from(s, i)),
    decreases s.len() - i,
{
    let k = first_from(s, i, '\n');
    lemma_first_from_bounds(s, i, '\n');
    lemma_trim_bounds(s, i, k);
    let a = trim_start(s, i, k);
    let b = trim_end(s, a, k);
    let line = trimmed(s, i, k);
    assert(line == s.subrange(a, b));
    if i <= k < s.len() {
        lemma_tidy_from_plain(s, k + 1);
        let rest = tidy_from(s, k + 1);
        let t = join2(line, rest);
        assert(tidy_from(s, i) == t);
        assert forall|m: int| 0 <= m < t.len() - 1 implies !doubled_opener(
            #[trigger] t[m],
            t[m + 1],
        ) by {
            if line.len() == 0 {
                assert(t[m] == rest[m] && t[m + 1] == rest[m + 1]);
            } else if rest.len() == 0 {
                assert(t[m] == s[a + m] && t[m + 1] == s[a + m + 1]);
            } else if m + 1 < line.len() {
                assert(t[m] == s[a + m] && t[m + 1] == s[a + m + 1]);
            } else if m + 1 == line.len() {
                assert(t[m + 1] == '\n');
            } else if m == line.len() {
                assert(t[m] == '\n');
            } else {
                assert(t[m] == rest[m - line.len() - 1]);
                assert(t[m + 1] == rest[m - line.len()]);
            }
        }
        assert forall|m: int| 0 <= m < t.len() implies #[trigger] t[m] != '<' by {
            if line.len() == 0 {
                assert(t[m] == rest[m]);
            } else if rest.len() == 0 || m < line.len() {
                assert(t[m] == s[a + m]);
            } else if m > line.len() {
                assert(t[m] == rest[m - line.len() - 1]);
            }
        }
    } else {
        let t = line;
        assert(tidy_from(s, i) == t);
        assert forall|m: int| 0 <= m < t.len() - 1 implies !doubled_opener(#[trigger] t[m], t[m + 1]) by {
            assert(t[m] == s[a + m] && t[m + 1] == s[a + m + 1]);
        }
        assert forall|m: int| 0 <= m < t.len() implies #[trigger] t[m] != '<' by {
            assert(t[m] == s[a + m]);
        }
    }
}

proof fn lemma_tidy_keeps_shape(t: Seq<char>, i: int)
    requires
        tidy_shape(t),
        0 <= i <= t.len(),
        i == 0 || t[i - 1] == '\n',
    ensures
        tidy_from(t, i) == t.skip(i),
    decreases t.len() - i,
{
    let k = first_from(t, i, '\n');
    lemma_first_from_bounds(t, i, '\n');
    lemma_first_from_hit(t, i);
    if i == t.len() {
        assert(t.skip(i) =~= Seq::<char>::empty());
        assert(trimmed(t, i, k) =~= Seq::<char>::empty());
    } else {
        assert(!white(t[i])) by {
            if i > 0 {
                assert(t[i - 1] == '\n');
                assert(i - 1 > 0 || i - 1 == 0);
                if i - 1 == 0 {
                    assert(white(t[0]));
                }
            }
        }
        assert(k > i);
        assert(!white(t[k - 1])) by {
            if k < t.len() {
                assert(t[k] == '\n');
            }
        }
        assert(trim_start(t, i, k) == i);
        assert(trim_end(t, i, k) == k);
        let line = t.subrange(i, k);
        assert(trimmed(t, i, k) == line);
        if k < t.len() {
            assert(k + 1 < t.len()) by {
                assert(white(t[k]));
            }
            lemma_tidy_keeps_shape(t, k + 1);
            assert(line.len() > 0);
            assert(t.skip(k + 1).len() > 0);
            assert(t.skip(i) =~= line + seq!['\n'] + t.skip(k + 1));
        } else {
            assert(t.skip(i) =~= line);
        }
    }
}

proof fn lemma_rewrite_plain(s: Seq<char>, i: int, r: RuleShape)
    requires
        plain(s),
        opens_with_markup(r),
        0 <= i <= s.len(),
    ensures
        rewrite_from(s, i, r) == s.skip(i),
    decreases s.len() - i,
{
    if i < s.len() {
        if r.4 {
            if s[i] == '=' {
                assert(skip_run(s, i, '=') == skip_run(s, i + 1, '='));
                if i + 1 < s.len() {
                    assert(!doubled_opener(s[i], s[i + 1]));
                    assert(skip_run(s, i + 1, '=') == i + 1);
                } else {
                    assert(skip_run(s, i + 1, '=') == s.len());
                }
            } else {
                assert(skip_run(s, i, '=') == i);
            }
            assert(run_len(s, i, '=') < 2);
        } else if occurs_at(s, r.0, i) {
            assert(s.subrange(i, i + r.0.len())[0] == s[i]);
            if r.0.len() >= 2 {
                assert(s.subrange(i, i + r.0.len())[1] == s[i + 1]);
            }
        }
        assert(!span_at(s, i, r));
        lemma_rewrite_plain(s, i + 1, r);
        assert(s.skip(i) =~= seq![s[i]] + s.skip(i + 1));
    } else {
        assert(s.skip(i) =~= Seq::<char>::empty());
    }
}

proof fn lemma_rewrite_all_plain(s: Seq<char>, rules: Seq<RuleShape>)
    requires
        plain(s),
        forall|k: int| 0 <= k < rules.len() ==> opens_with_markup(#[trigger] rules[k]),
    ensures
        rewrite_all(s, rules) == s,
    decreases rules.len(),
{
    if rules.len() > 0 {
        lemma_rewrite_plain(s, 0, rules[0]);
        assert(s.skip(0) =~= s);
        let rest = rules.skip(1);
        assert forall|k: int| 0 <= k < rest.len() implies opens_with_markup(#[trigger] rest[k]) by {
            assert(rest[k] == rules[k + 1]);
        }
        lemma_rewrite_all_plain(s, rest);
    }
}

proof fn lemma_rules_open_with_markup()
    ensures
        forall|k: int|
            0 <= k < rule_shapes().len() ==> opens_with_markup(#[trigger] rule_shapes()[k]),
{
    reveal_strlit("{{");
    reveal_strlit("[[Category:");
    reveal_strlit("[[File:");
    reveal_strlit("[[");
    reveal_strlit("\'\'\'");
    reveal_strlit("\'\'");
    reveal_strlit("<ref");
    reveal_strlit("<nowiki>");
    reveal_strlit("<");
    reveal_strlit("==");
}

/// On plain text, where no rewrite can open (no `<`, `{{`, `[[`, `''` or `==`),
/// normalisation is the line pass alone, and normalising the result again changes nothing.
pub proof fn law_clean_idempotent_on_plain(s: Seq<char>)
    requires
        plain(s),
    ensures
        clean_spec(s) == tidy(s),
        clean_spec(clean_spec(s)) == clean_spec(s),
{
    lemma_rules_open_with_markup();
    lemma_rewrite_all_plain(s, rule_shapes());
    let t = tidy(s);
    lemma_tidy_from_shape(s, 0);
    lemma_tidy_from_plain(s, 0);
    lemma_rewrite_all_plain(t, rule_shapes());
    lemma_tidy_keeps_shape(t, 0);
    assert(t.skip(0) =~= t);
}

/// No `<` stands anywhere before a `>`: the text holds no tag.
pub open spec fn tag_free(t: Seq<char>) -> bool {
    forall|a: int, b: int| 0 <= a < b < t.len() && #[trigger] t[a] == '<' ==> #[trigger] t[b] != '>'
}

pub open spec fn tag_rule() -> RuleShape {
    ("<"@, '>', ">"@, Keep::Nothing, false)
}

proof fn lemma_first_from_miss(s: Seq<char>, from: int, c: char, k: int)
    requires
        0 <= from <= k < s.len(),
        first_from(s, from, c) == s.len(),
    ensures
        s[k] != c,
    decreases k - from,
{
    if from < k {
        lemma_first_from_miss(s, from + 1, c, k);
    }
}

proof fn lemma_no_close_stays_out(s: Seq<char>, i: int)
    requires
        0 <= i <= s.len(),
        forall|k: int| i <= k < s.len() ==> s[k] != '>',
    ensures
        forall|m: int|
            0 <= m < rewrite_from(s, i, tag_rule()).len() ==> #[trigger] rewrite_from(
                s,
                i,
                tag_rule(),
            )[m] != '>',
    decreases s.len() - i,
{
    reveal_strlit("<");
    reveal_strlit(">");
    let r = tag_rule();
    if i < s.len() {
        if span_at(s, i, r) {
            lemma_no_close_stays_out(s, span_end(s, i, r));
            assert(replacement(s, i, r) =~= Seq::<char>::empty());
            assert(rewrite_from(s, i, r) =~= rewrite_from(s, span_end(s, i, r), r));
        } else {
            lemma_no_close_stays_out(s, i + 1);
            let rest = rewrite_from(s, i + 1, r);
            assert forall|m: int| 0 <= m < rewrite_from(s, i, r).len() implies #[trigger] rewrite_from(
                s,
                i,
                r,
            )[m] != '>' by {
                if m > 0 {
                    assert(rewrite_from(s, i, r)[m] == rest[m - 1]);
                }
            }
        }
    }
}

proof fn lemma_tag_rule_from(s: Seq<char>, i: int)
    requires
        0 <= i <= s.len(),
    ensures
        tag_free(rewrite_from(s, i, tag_rule())),
    decreases s.len() - i,
{
    reveal_strlit("<");
    reveal_strlit(">");
    let r = tag_rule();
    if i < s.len() {
        if span_at(s, i, r) {
            lemma_tag_rule_from(s, span_end(s, i, r));
            assert(replacement(s, i, r) =~= Seq::<char>::empty());
            assert(rewrite_from(s, i, r) =~= rewrite_from(s, span_end(s, i, r), r));
        } else {
            lemma_tag_rule_from(s, i + 1);
            let rest = rewrite_from(s, i + 1, r);
            let t = rewrite_from(s, i, r);
            assert(t == seq![s[i]] + rest);
            if s[i] == '<' {
                let j = first_from(s, i + 1, '>');
                lemma_first_from_bounds(s, i + 1, '>');
                assert(occurs_at(s, r.0, i)) by {
                    assert(s.subrange(i, i + 1) =~= r.0);
                }
                if j < s.len() {
                    lemma_first_from_stop(s, i + 1, '>');
                    assert(s.subrange(j, j + 1) =~= r.2);
                    assert(span_at(s, i, r));
                }
                assert forall|k: int| i + 1 <= k < s.len() implies s[k] != '>' by {
                    lemma_first_from_miss(s, i + 1, '>', k);
                }
                lemma_no_close_stays_out(s, i + 1);
            }
            assert forall|a: int, b: int| 0 <= a < b < t.len() && #[trigger] t[a] == '<' implies #[trigger] t[b]
                != '>' by {
                assert(t[b] == rest[b - 1]);
                if a > 0 {
                    assert(t[a] == rest[a - 1]);
                }
            }
        }
    } else {
        assert(rewrite_from(s, i, r) =~= Seq::<char>::empty());
    }
}

proof fn lemma_first_from_stop(s: Seq<char>, from: int, c: char)
    requires
        0 <= from <= s.len(),
        first_from(s, from, c) < s.len(),
    ensures
        s[first_from(s, from, c)] == c,
    decreases s.len() - from,
{
    if from < s.len() && s[from] != c {
        lemma_first_from_stop(s, from + 1, c);
    }
}

/// Where the text that replaces a span at `i` begins.
pub open spec fn replacement_start(s: Seq<char>, i: int, r: RuleShape) -> int {
    if r.4 {
        inner_start(s, i, r)
    } else {
        match r.3 {
        Keep::Nothing => inner_end(s, i, r),
        Keep::Inner => inner_start(s, i, r),
        Keep::AfterLastPipe => last_in(s, inner_start(s, i, r), inner_end(s, i, r), '|') + 1,
        }
    }
}

proof fn lemma_last_in_bounds(s: Seq<char>, lo: int, hi: int, c: char)
    requires
        lo <= hi,
    ensures
        lo - 1 <= last_in(s, lo, hi, c) < hi,
    decreases hi - lo,
{
    if hi > lo && s[hi - 1] != c {
        lemma_last_in_bounds(s, lo, hi - 1, c);
    }
}

proof fn lemma_span_bounds(s: Seq<char>, i: int, r: RuleShape)
    requires
        0 <= i < s.len(),
        span_at(s, i, r),
    ensures
        i <= replacement_start(s, i, r) <= inner_end(s, i, r) <= span_end(s, i, r) <= s.len(),
        replacement(s, i, r) == s.subrange(replacement_start(s, i, r), inner_end(s, i, r)),
{
    let a = inner_start(s, i, r);
    let j = inner_end(s, i, r);
    if r.4 {
        lemma_heading_bounds(s, i);
    } else {
        lemma_first_from_bounds(s, a, r.1);
        lemma_last_in_bounds(s, a, j, '|');
        if r.3 == Keep::Nothing {
            assert(s.subrange(j, j) =~= Seq::<char>::empty());
        }
    }
}

proof fn lemma_heading_bounds(s: Seq<char>, i: int)
    requires
        0 <= i < s.len(),
    ensures
        ({
            let r: RuleShape = ("=="@, '=', "=="@, Keep::Inner, true);
            let m = run_len(s, i, '=');
            m >= 2 ==> i <= inner_start(s, i, r) <= inner_end(s, i, r) <= span_end(s, i, r)
                <= s.len()
        }),
{
    let m = run_len(s, i, '=');
    lemma_skip_run_bounds(s, i, '=');
    if m >= 2 {
        lemma_first_from_bounds(s, i + m, '=');
        let jj = first_from(s, i + m, '=');
        lemma_skip_run_bounds(s, jj, '=');
        let o = heading_open(s, i);
        lemma_skip_run_bounds(s, i + m - 2, '=');
        lemma_skip_run_bounds(s, i + o, '=');
        lemma_skip_run_suffix(s, i, i + o);
        lemma_skip_run_suffix(s, i, i + m - 2);
    }
}

/// Inside a run, the run from a later point ends where the whole run ends.
proof fn lemma_skip_run_suffix(s: Seq<char>, i: int, k: int)
    requires
        0 <= i <= k <= skip_run(s, i, '='),
        skip_run(s, i, '=') <= s.len(),
    ensures
        skip_run(s, k, '=') == skip_run(s, i, '='),
    decreases k - i,
{
    if i < k {
        assert(s[i] == '=');
        lemma_skip_run_suffix(s, i + 1, k);
    }
}

proof fn lemma_no_gt_preserved(s: Seq<char>, i: int, r: RuleShape)
    requires
        0 <= i <= s.len(),
        forall|k: int| i <= k < s.len() ==> s[k] != '>',
    ensures
        forall|m: int|
            0 <= m < rewrite_from(s, i, r).len() ==> #[trigger] rewrite_from(s, i, r)[m] != '>',
    decreases s.len() - i,
{
    if i < s.len() {
        let t = rewrite_from(s, i, r);
        if span_at(s, i, r) {
            let e = span_end(s, i, r);
            lemma_span_bounds(s, i, r);
            lemma_no_gt_preserved(s, e, r);
            let lo = replacement_start(s, i, r);
            let rep = replacement(s, i, r);
            let rest = rewrite_from(s, e, r);
            assert forall|m: int| 0 <= m < t.len() implies #[trigger] t[m] != '>' by {
                if m < rep.len() {
                    assert(t[m] == s[lo + m]);
                } else {
                    assert(t[m] == rest[m - rep.len()]);
                }
            }
        } else {
            lemma_no_gt_preserved(s, i + 1, r);
            let rest = rewrite_from(s, i + 1, r);
            assert forall|m: int| 0 <= m < t.len() implies #[trigger] t[m] != '>' by {
                if m > 0 {
                    assert(t[m] == rest[m - 1]);
                }
            }
        }
    }
}

proof fn lemma_tag_free_after_lt(s: Seq<char>, p: int)
    requires
        tag_free(s),
        0 <= p < s.len(),
        s[p] == '<',
    ensures
        forall|k: int| p < k < s.len() ==> s[k] != '>',
{
    assert forall|k: int| p < k < s.len() implies s[k] != '>' by {
        assert(s[p] == '<');
    }
}

/// Every rewrite keeps tag-free text tag-free.
proof fn lemma_tag_free_preserved(s: Seq<char>, i: int, r: RuleShape)
    requires
        tag_free(s),
        0 <= i <= s.len(),
    ensures
        tag_free(rewrite_from(s, i, r)),
    decreases s.len() - i,
{
    if i < s.len() {
        let t = rewrite_from(s, i, r);
        if span_at(s, i, r) {
            let e = span_end(s, i, r);
            lemma_span_bounds(s, i, r);
            lemma_tag_free_preserved(s, e, r);
            let lo = replacement_start(s, i, r);
            let rep = replacement(s, i, r);
            let rest = rewrite_from(s, e, r);
            assert(t == rep + rest);
            assert forall|a: int, b: int| 0 <= a < b < t.len() && #[trigger] t[a] == '<' implies #[trigger] t[b]
                != '>' by {
                if b < rep.len() {
                    assert(t[a] == s[lo + a]);
                    assert(t[b] == s[lo + b]);
                } else if a >= rep.len() {
                    assert(t[a] == rest[a - rep.len()]);
                    assert(t[b] == rest[b - rep.len()]);
                } else {
                    assert(t[a] == s[lo + a]);
                    lemma_tag_free_after_lt(s, lo + a);
                    lemma_no_gt_preserved(s, e, r);
                    assert(t[b] == rest[b - rep.len()]);
                }
            }
        } else {
            lemma_tag_free_preserved(s, i + 1, r);
            let rest = rewrite_from(s, i + 1, r);
            assert(t == seq![s[i]] + rest);
            assert forall|a: int, b: int| 0 <= a < b < t.len() && #[trigger] t[a] == '<' implies #[trigger] t[b]
                != '>' by {
                assert(t[b] == rest[b - 1]);
                if a > 0 {
                    assert(t[a] == rest[a - 1]);
                } else {
                    lemma_tag_free_after_lt(s, i);
                    lemma_no_gt_preserved(s, i + 1, r);
                }
            }
        }
    }
}

proof fn lemma_tidy_no_gt(s: Seq<char>, i: int)
    requires
        0 <= i <= s.len(),
        forall|k: int| i <= k < s.len() ==> s[k] != '>',
    ensures
        forall|m: int| 0 <= m < tidy_from(s, i).len() ==> #[trigger] tidy_from(s, i)[m] != '>',
    decreases s.len() - i,
{
    let k = first_from(s, i, '\n');
    lemma_first_from_bounds(s, i, '\n');
    lemma_trim_bounds(s, i, k);
    let a = trim_start(s, i, k);
    let b = trim_end(s, a, k);
    let line = trimmed(s, i, k);
    let t = tidy_from(s, i);
    if i <= k < s.len() {
        lemma_tidy_no_gt(s, k + 1);
        let rest = tidy_from(s, k + 1);
        assert forall|m: int| 0 <= m < t.len() implies #[trigger] t[m] != '>' by {
            if line.len() == 0 {
                assert(t[m] == rest[m]);
            } else if rest.len() == 0 {
                assert(t[m] == s[a + m]);
            } else if m < line.len() {
                assert(t[m] == s[a + m]);
            } else if m > line.len() {
                assert(t[m] == rest[m - line.len() - 1]);
            }
        }
    } else {
        assert forall|m: int| 0 <= m < t.len() implies #[trigger] t[m] != '>' by {
            assert(t[m] == s[a + m]);
        }
    }
}

proof fn lemma_tidy_tag_free(s: Seq<char>, i: int)
    requires
        tag_free(s),
        0 <= i <= s.len(),
    ensures
        tag_free(tidy_from(s, i)),
    decreases s.len() - i,
{
    let k = first_from(s, i, '\n');
    lemma_first_from_bounds(s, i, '\n');
    lemma_trim_bounds(s, i, k);
    let a = trim_start(s, i, k);
    let b = trim_end(s, a, k);
    let line = trimmed(s, i, k);
    let t = tidy_from(s, i);
    if i <= k < s.len() {
        lemma_tidy_tag_free(s, k + 1);
        let rest = tidy_from(s, k + 1);
        if line.len() > 0 && rest.len() > 0 {
            assert(t == line + seq!['\n'] + rest);
            assert forall|x: int, y: int| 0 <= x < y < t.len() && #[trigger] t[x] == '<' implies #[trigger] t[y]
                != '>' by {
                if y < line.len() {
                    assert(t[x] == s[a + x]);
                    assert(t[y] == s[a + y]);
                } else if x > line.len() {
                    assert(t[x] == rest[x - line.len() - 1]);
                    assert(t[y] == rest[y - line.len() - 1]);
                } else if x < line.len() && y > line.len() {
                    assert(t[x] == s[a + x]);
                    lemma_tag_free_after_lt(s, a + x);
                    lemma_tidy_no_gt(s, k + 1);
                    assert(t[y] == rest[y - line.len() - 1]);
                }
            }
        } else if line.len() > 0 {
            assert forall|x: int, y: int| 0 <= x < y < t.len() && #[trigger] t[x] == '<' implies #[trigger] t[y]
                != '>' by {
                assert(t[x] == s[a + x]);
                assert(t[y] == s[a + y]);
            }
        }
    } else {
        assert forall|x: int, y: int| 0 <= x < y < t.len() && #[trigger] t[x] == '<' implies #[trigger] t[y]
            != '>' by {
            assert(t[x] == s[a + x]);
            assert(t[y] == s[a + y]);
        }
    }
}

proof fn lemma_rewrite_all_split(s: Seq<char>, rules: Seq<RuleShape>, k: int)
    requires
        0 <= k <= rules.len(),
    ensures
        rewrite_all(s, rules) == rewrite_all(rewrite_all(s, rules.take(k)), rules.skip(k)),
    decreases k,
{
    if k == 0 {
        assert(rules.take(0).len() == 0);
        assert(rules.skip(0) =~= rules);
    } else {
        let first = rewrite(s, rules[0]);
        lemma_rewrite_all_split(first, rules.skip(1), k - 1);
        assert(rules.skip(1).take(k - 1) =~= rules.take(k).skip(1));
        assert(rules.take(k)[0] == rules[0]);
        assert(rules.skip(1).skip(k - 1) =~= rules.skip(k));
    }
}

proof fn lemma_rewrite_all_tag_free(s: Seq<char>, rules: Seq<RuleShape>)
    requires
        tag_free(s),
    ensures
        tag_free(rewrite_all(s, rules)),
    decreases rules.len(),
{
    if rules.len() > 0 {
        lemma_tag_free_preserved(s, 0, rules[0]);
        lemma_rewrite_all_tag_free(rewrite(s, rules[0]), rules.skip(1));
    }
}

/// Normalised text holds no tag: whatever the input, no `<` in the result stands before
/// a `>`.
pub proof fn law_clean_leaves_no_tag(s: Seq<char>)
    ensures
        tag_free(clean_spec(s)),
{
    let rules = rule_shapes();
    lemma_rewrite_all_split(s, rules, 9);
    let before = rewrite_all(s, rules.take(9));
    let rest = rules.skip(9);
    assert(rest[0] == tag_rule());
    lemma_tag_rule_from(before, 0);
    let tagged = rewrite(before, tag_rule());
    assert(rewrite_all(before, rest) == rewrite_all(tagged, rest.skip(1)));
    lemma_rewrite_all_tag_free(tagged, rest.skip(1));
    lemma_tidy_tag_free(rewrite_all(s, rules), 0);
}

} // verus!
