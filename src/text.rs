//! Character-level helpers shared by the encoder, the filters and the normaliser.
use vstd::prelude::*;
use vstd::utf8::{encode_scalar, encode_utf8};

verus! {

/// What `str::to_lowercase` makes of a string: Unicode's full lower-case mapping.
pub uninterp spec fn lower_of(s: Seq<char>) -> Seq<char>;

/// What `str::to_uppercase` makes of a string: Unicode's full upper-case mapping.
pub uninterp spec fn upper_of(s: Seq<char>) -> Seq<char>;

/// Relies on `str::to_lowercase`: the result depends on the characters of `s` alone.
#[verifier::external_body]
pub(crate) fn lowercase(s: &str) -> (r: String)
    ensures
        r@ == lower_of(s@),
{
    s.to_lowercase()
}

/// Relies on `str::to_uppercase`: the result depends on the characters of `s` alone.
#[verifier::external_body]
pub(crate) fn uppercase(s: &str) -> (r: String)
    ensures
        r@ == upper_of(s@),
{
    s.to_uppercase()
}

/// Relies on `String`'s `FromIterator<&char>`: the string holds exactly the given characters.
#[verifier::external_body]
pub(crate) fn string_from_chars(v: &Vec<char>) -> (r: String)
    ensures
        r@ == v@,
{
    v.iter().collect()
}

/// The characters of `s`, in order.
pub fn chars_of(s: &str) -> (r: Vec<char>)
    ensures
        r@ == s@,
{
    let mut out: Vec<char> = Vec::new();
    for c in it: s.chars()
        invariant
            out@ == it.seq().take(it.index() as int),
            it.seq() == s@,
    {
        out.push(c);
    }
    out
}

pub open spec fn starts_with(s: Seq<char>, prefix: Seq<char>) -> bool {
    prefix.len() <= s.len() && s.take(prefix.len() as int) == prefix
}

/// `part` occurs somewhere in `s`.
pub open spec fn contains(s: Seq<char>, part: Seq<char>) -> bool {
    exists|i: int| 0 <= i <= s.len() - part.len() && #[trigger] s.subrange(i, i + part.len()) == part
}

/// `s` up to, and without, its first line break.
pub open spec fn first_line(s: Seq<char>) -> Seq<char>
    decreases s.len(),
{
    if s.len() == 0 || s[0] == '\n' {
        Seq::empty()
    } else {
        seq![s[0]] + first_line(s.skip(1))
    }
}

pub proof fn lemma_first_line(s: Seq<char>, i: int)
    requires
        0 <= i <= s.len(),
        forall|j: int| 0 <= j < i ==> s[j] != '\n',
        i == s.len() || s[i] == '\n',
    ensures
        first_line(s) == s.take(i),
    decreases i,
{
    if i > 0 {
        lemma_first_line(s.skip(1), i - 1);
        assert(s.take(i) =~= seq![s[0]] + s.skip(1).take(i - 1));
    } else {
        assert(s.take(i) =~= Seq::<char>::empty());
    }
}

/// A line break inside `s`.
pub open spec fn has_line_break(s: Seq<char>) -> bool {
    exists|j: int| 0 <= j < s.len() && s[j] == '\n'
}

pub open spec fn decimal_digit(d: nat) -> char {
    ((d + '0' as nat) as u8) as char
}

/// The decimal rendering of `n`, without leading zeros.
pub open spec fn decimal_of(n: nat) -> Seq<char>
    decreases n,
{
    if n < 10 {
        seq![decimal_digit(n)]
    } else {
        decimal_of(n / 10).push(decimal_digit(n % 10))
    }
}

/// Whether `s` begins with `prefix`.
pub fn has_prefix(s: &str, prefix: &str) -> (r: bool)
    ensures
        r == starts_with(s@, prefix@),
{
    let a = chars_of(s);
    let b = chars_of(prefix);
    if b.len() > a.len() {
        return false;
    }
    let mut i: usize = 0;
    while i < b.len()
        invariant
            i <= b.len() <= a.len(),
            a@ == s@,
            b@ == prefix@,
            forall|j: int| 0 <= j < i ==> a@[j] == b@[j],
        decreases b.len() - i,
    {
        if a[i] != b[i] {
            proof {
                assert(a@.take(b@.len() as int)[i as int] != b@[i as int]);
            }
            return false;
        }
        i += 1;
    }
    proof {
        assert(a@.take(b@.len() as int) =~= b@);
    }
    true
}

/// The decimal rendering of `n`.
pub fn decimal_string(n: usize) -> (r: String)
    ensures
        r@ == decimal_of(n as nat),
{
    let v = decimal_chars(n);
    string_from_chars(&v)
}

fn decimal_chars(n: usize) -> (r: Vec<char>)
    ensures
        r@ == decimal_of(n as nat),
    decreases n,
{
    let d = (n % 10) as u8;
    let c = (d + 48) as char;
    if n < 10 {
        let mut v: Vec<char> = Vec::new();
        v.push(c);
        proof {
            assert(v@ =~= seq![decimal_digit(n as nat)]);
        }
        v
    } else {
        let mut v = decimal_chars(n / 10);
        v.push(c);
        v
    }
}

/// `part` stands in `s` at position `p`.
pub open spec fn occurs_at(s: Seq<char>, part: Seq<char>, p: int) -> bool {
    0 <= p && p + part.len() <= s.len() && s.subrange(p, p + part.len()) == part
}

/// Letters and digits of ASCII: what a word is made of when keywords are matched.
pub open spec fn word_char(c: char) -> bool {
    ('a' <= c && c <= 'z') || ('A' <= c && c <= 'Z') || ('0' <= c && c <= '9')
}

/// `word` stands in `s` at `p` with no letter or digit right before or after it.
pub open spec fn word_at(s: Seq<char>, word: Seq<char>, p: int) -> bool {
    &&& occurs_at(s, word, p)
    &&& (p == 0 || !word_char(s[p - 1]))
    &&& (p + word.len() == s.len() || !word_char(s[p + word.len()]))
}

/// `word` stands in `s` as a whole word.
pub open spec fn has_word(s: Seq<char>, word: Seq<char>) -> bool {
    exists|p: int| word_at(s, word, p)
}

pub fn is_word_char(c: char) -> (r: bool)
    ensures
        r == word_char(c),
{
    ('a' <= c && c <= 'z') || ('A' <= c && c <= 'Z') || ('0' <= c && c <= '9')
}

/// Whether `part` stands in `s` at position `p`.
pub fn matches_at(s: &Vec<char>, part: &Vec<char>, p: usize) -> (r: bool)
    ensures
        r == occurs_at(s@, part@, p as int),
{
    if p > s.len() || part.len() > s.len() - p {
        return false;
    }
    let mut i: usize = 0;
    while i < part.len()
        invariant
            i <= part.len(),
            p + part.len() <= s.len(),
            forall|j: int| 0 <= j < i ==> s@[p + j] == part@[j],
        decreases part.len() - i,
    {
        if s[p + i] != part[i] {
            proof {
                assert(s@.subrange(p as int, p + part@.len())[i as int] != part@[i as int]);
            }
            return false;
        }
        i += 1;
    }
    proof {
        assert(s@.subrange(p as int, p + part@.len()) =~= part@);
    }
    true
}

/// Whether `part` occurs anywhere in `s`.
pub fn contains_chars(s: &Vec<char>, part: &Vec<char>) -> (r: bool)
    ensures
        r == contains(s@, part@),
{
    if part.len() > s.len() {
        return false;
    }
    let last = s.len() - part.len();
    let mut p: usize = 0;
    while p < last
        invariant
            last == s.len() - part.len(),
            p <= last,
            forall|q: int| 0 <= q < p ==> !occurs_at(s@, part@, q),
        decreases last - p,
    {
        if matches_at(s, part, p) {
            return true;
        }
        p += 1;
    }
    if matches_at(s, part, last) {
        return true;
    }
    proof {
        if contains(s@, part@) {
            let q = choose|q: int|
                0 <= q <= s@.len() - part@.len() && #[trigger] s@.subrange(q, q + part@.len())
                    == part@;
            assert(occurs_at(s@, part@, q));
        }
    }
    false
}

/// Whether `word` stands in `s` at `p` as a whole word.
fn word_at_exec(s: &Vec<char>, word: &Vec<char>, p: usize) -> (r: bool)
    ensures
        r == word_at(s@, word@, p as int),
{
    if !matches_at(s, word, p) {
        return false;
    }
    assert(p + word@.len() <= s@.len());
    let end: usize = s.len() - word.len();
    let before_ok = p == 0 || !is_word_char(s[p - 1]);
    let after_ok = p == end || !is_word_char(s[p + word.len()]);
    before_ok && after_ok
}

/// Whether `word` stands in `s` as a whole word.
pub fn contains_word(s: &Vec<char>, word: &Vec<char>) -> (r: bool)
    ensures
        r == has_word(s@, word@),
{
    if word.len() > s.len() {
        proof {
            assert forall|p: int| !word_at(s@, word@, p) by {}
        }
        return false;
    }
    let last = s.len() - word.len();
    let mut p: usize = 0;
    while p < last
        invariant
            last == s.len() - word.len(),
            p <= last,
            forall|q: int| 0 <= q < p ==> !word_at(s@, word@, q),
        decreases last - p,
    {
        if word_at_exec(s, word, p) {
            return true;
        }
        p += 1;
    }
    if word_at_exec(s, word, last) {
        return true;
    }
    proof {
        assert forall|q: int| !word_at(s@, word@, q) by {
            if q > last {
                assert(!occurs_at(s@, word@, q));
            }
        }
    }
    false
}

/// Whether two strings hold the same characters.
pub fn same_text(a: &str, b: &str) -> (r: bool)
    ensures
        r == (a@ == b@),
{
    let x = chars_of(a);
    let y = chars_of(b);
    if x.len() != y.len() {
        return false;
    }
    let mut i: usize = 0;
    while i < x.len()
        invariant
            i <= x@.len(),
            x@.len() == y@.len(),
            x@ == a@,
            y@ == b@,
            forall|j: int| 0 <= j < i ==> x@[j] == y@[j],
        decreases x.len() - i,
    {
        if x[i] != y[i] {
            proof {
                assert(a@[i as int] != b@[i as int]);
            }
            return false;
        }
        i += 1;
    }
    proof {
        assert(x@ =~= y@);
    }
    true
}

proof fn lemma_utf8_suffix_grows(s: Seq<char>, j: int, i: int)
    requires
        0 <= j <= i <= s.len(),
    ensures
        encode_utf8(s.skip(j)).len() >= encode_utf8(s.skip(i)).len(),
    decreases i - j,
{
    if j < i {
        lemma_utf8_suffix_grows(s, j + 1, i);
        assert(s.skip(j).drop_first() =~= s.skip(j + 1));
    }
}

/// Whether the UTF-8 encoding of `s` takes at most `limit` bytes.
pub fn utf8_len_within(s: &str, limit: usize) -> (r: bool)
    ensures
        r == (encode_utf8(s@).len() <= limit),
{
    let v = chars_of(s);
    let mut total: usize = 0;
    let mut i: usize = v.len();
    proof {
        assert(v@.skip(i as int) =~= Seq::<char>::empty());
    }
    while i > 0
        invariant
            i <= v@.len(),
            v@ == s@,
            total == encode_utf8(v@.skip(i as int)).len(),
            total <= limit,
        decreases i,
    {
        let c = v[i - 1] as u32;
        let width: usize = if c <= 0x7F {
            1
        } else if c <= 0x7FF {
            2
        } else if c <= 0xFFFF && !(0xD800 <= c && c <= 0xDFFF) {
            3
        } else {
            4
        };
        proof {
            assert(v@.skip(i - 1).drop_first() =~= v@.skip(i as int));
            assert(v@.skip(i - 1)[0] == v@[i - 1]);
            assert(encode_scalar(c).len() == width);
        }
        if width > limit - total {
            proof {
                lemma_utf8_suffix_grows(v@, 0, i - 1);
                assert(v@.skip(0) =~= v@);
            }
            return false;
        }
        total = total + width;
        i -= 1;
    }
    proof {
        assert(v@.skip(0) =~= v@);
    }
    true
}

} // verus!
