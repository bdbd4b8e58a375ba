//! Title to filename-stem encoding: accent stripping, lower-casing, a safe
//! character set, and a hash-disambiguated fallback for overlong names.
use vstd::prelude::*;
use crate::text::{chars_of, lower_of, lowercase, string_from_chars};

verus! {

/// The longest stem the encoder produces.
pub const MAX_FILENAME_LENGTH: usize = 200;

/// Characters kept from the safe form when a hash suffix is appended.
pub const HASHED_PREFIX_LENGTH: usize = 183;

/// What `unicode_normalization`'s `nfd` makes of a string: its canonical decomposition.
pub uninterp spec fn nfd_of(s: Seq<char>) -> Seq<char>;

/// What the standard library's default hasher, built by `BuildHasherDefault`, gives for a title.
pub uninterp spec fn title_hash_of(s: Seq<char>) -> u64;

/// Relies on `UnicodeNormalization::nfd` of `unicode_normalization`: the canonical
/// decomposition, which depends on the characters of `s` alone.
#[verifier::external_body]
fn canonical_decomposition(s: &str) -> (r: Vec<char>)
    ensures
        r@ == nfd_of(s@),
{
    unicode_normalization::UnicodeNormalization::nfd(s).collect()
}

/// Relies on `BuildHasher::hash_one` over `BuildHasherDefault<DefaultHasher>`: such hashers
/// start from fixed keys (no per-process seed), so the value depends on the title alone.
#[verifier::external_body]
fn title_hash(s: &str) -> (r: u64)
    ensures
        r == title_hash_of(s@),
{
    std::hash::BuildHasher::hash_one(
        &std::hash::BuildHasherDefault::<std::collections::hash_map::DefaultHasher>::default(),
        s,
    )
}

/// Combining diacritical marks, in the blocks the encoder strips.
pub open spec fn combining_mark(c: char) -> bool {
    ('\u{0300}' <= c && c <= '\u{036F}') || ('\u{1AB0}' <= c && c <= '\u{1AFF}') || (
    '\u{1DC0}' <= c && c <= '\u{1DFF}') || ('\u{20D0}' <= c && c <= '\u{20FF}') || ('\u{FE20}'
        <= c && c <= '\u{FE2F}')
}

/// `s` without its combining marks.
pub open spec fn strip_marks(s: Seq<char>) -> Seq<char>
    decreases s.len(),
{
    if s.len() == 0 {
        s
    } else if combining_mark(s.last()) {
        strip_marks(s.drop_last())
    } else {
        strip_marks(s.drop_last()).push(s.last())
    }
}

/// The character a lower-cased character becomes in a filename.
pub open spec fn safe_char(c: char) -> char {
    if ('a' <= c && c <= 'z') || ('0' <= c && c <= '9') || c == '-' || c == '_' {
        c
    } else {
        '_'
    }
}

pub open spec fn safe_map(s: Seq<char>) -> Seq<char> {
    s.map_values(|c: char| safe_char(c))
}

/// The title decomposed, stripped of accents, lower-cased and reduced to the safe set.
pub open spec fn safe_form(title: Seq<char>) -> Seq<char> {
    safe_map(lower_of(strip_marks(nfd_of(title))))
}

pub open spec fn hex_digit(d: nat) -> char {
    if d < 10 {
        ((d + '0' as nat) as u8) as char
    } else {
        ((d - 10 + 'a' as nat) as u8) as char
    }
}

/// The last `width` hexadecimal digits of `n`, most significant first.
pub open spec fn hex_fixed(n: nat, width: nat) -> Seq<char>
    decreases width,
{
    if width == 0 {
        Seq::empty()
    } else {
        hex_fixed(n / 16, (width - 1) as nat).push(hex_digit(n % 16))
    }
}

pub open spec fn lower_hex_char(c: char) -> bool {
    ('0' <= c && c <= '9') || ('a' <= c && c <= 'f')
}

/// The stem for an overlong title: a prefix of its safe form, `_`, and its hash in 16 digits.
pub open spec fn hashed_form(title: Seq<char>) -> Seq<char> {
    safe_form(title).take(HASHED_PREFIX_LENGTH as int) + seq!['_'] + hex_fixed(
        title_hash_of(title) as nat,
        16,
    )
}

/// The filename stem of a title.
pub open spec fn encode_spec(title: Seq<char>) -> Seq<char> {
    if safe_form(title).len() <= MAX_FILENAME_LENGTH {
        safe_form(title)
    } else {
        hashed_form(title)
    }
}

/// Space, slash and underscore: the characters that all become `_`.
pub open spec fn separator(c: char) -> bool {
    c == ' ' || c == '/' || c == '_'
}

/// `a` and `b` agree but where both hold a separator.
pub open spec fn same_but_separators(a: Seq<char>, b: Seq<char>) -> bool {
    &&& a.len() == b.len()
    &&& forall|i: int| 0 <= i < a.len() ==> (a[i] == b[i] || (separator(a[i]) && separator(b[i])))
}

/// Fixed-width hexadecimal rendering has exactly `width` lower-case digits.
pub proof fn lemma_hex_fixed(n: nat, width: nat)
    ensures
        hex_fixed(n, width).len() == width,
        forall|i: int| 0 <= i < width ==> lower_hex_char(#[trigger] hex_fixed(n, width)[i]),
    decreases width,
{
    if width > 0 {
        lemma_hex_fixed(n / 16, (width - 1) as nat);
        let d = n % 16;
        assert(lower_hex_char(hex_digit(d)));
    }
}

/// An encoded stem never exceeds the bound, whatever the title.
pub proof fn law_encoded_length_bounded(title: Seq<char>)
    ensures
        encode_spec(title).len() <= MAX_FILENAME_LENGTH,
{
    lemma_hex_fixed(title_hash_of(title) as nat, 16);
}

/// A title whose safe form fits the bound is encoded as that form, with no hash suffix.
pub proof fn law_short_titles_unhashed(title: Seq<char>)
    requires
        safe_form(title).len() <= MAX_FILENAME_LENGTH,
    ensures
        encode_spec(title) == safe_form(title),
{
}

/// A title whose safe form exceeds the bound is encoded with `_` and exactly 16 lower-case
/// hexadecimal digits at its end.
pub proof fn law_long_titles_hashed(title: Seq<char>)
    requires
        safe_form(title).len() > MAX_FILENAME_LENGTH,
    ensures
        encode_spec(title).len() == MAX_FILENAME_LENGTH,
        encode_spec(title)[MAX_FILENAME_LENGTH - 17] == '_',
        forall|i: int|
            MAX_FILENAME_LENGTH - 16 <= i < MAX_FILENAME_LENGTH ==> lower_hex_char(
                #[trigger] encode_spec(title)[i],
            ),
{
    let h = hex_fixed(title_hash_of(title) as nat, 16);
    lemma_hex_fixed(title_hash_of(title) as nat, 16);
    let p = safe_form(title).take(HASHED_PREFIX_LENGTH as int);
    assert(encode_spec(title) == p + seq!['_'] + h);
    assert forall|i: int| MAX_FILENAME_LENGTH - 16 <= i < MAX_FILENAME_LENGTH implies lower_hex_char(
        #[trigger] encode_spec(title)[i],
    ) by {
        assert(encode_spec(title)[i] == h[i - 184]);
    }
}

/// Two titles whose decomposed, accent-stripped and lower-cased forms differ only where
/// both hold a space, a slash or an underscore get the same stem, unless the common safe
/// form is too long and the (title-dependent) hash suffix applies.
pub proof fn law_separators_collide(t1: Seq<char>, t2: Seq<char>)
    requires
        same_but_separators(lower_of(strip_marks(nfd_of(t1))), lower_of(strip_marks(nfd_of(t2)))),
        safe_form(t1).len() <= MAX_FILENAME_LENGTH,
    ensures
        encode_spec(t1) == encode_spec(t2),
{
    let a = lower_of(strip_marks(nfd_of(t1)));
    let b = lower_of(strip_marks(nfd_of(t2)));
    assert(safe_map(a) =~= safe_map(b)) by {
        assert forall|i: int| 0 <= i < a.len() implies safe_char(a[i]) == safe_char(b[i]) by {
            if a[i] != b[i] {
                assert(separator(a[i]) && separator(b[i]));
            }
        }
    }
}

/// Encodes a title as a filename stem.
pub fn encode_staticmcp_filename(name: &str) -> (r: String)
    ensures
        r@ == encode_spec(name@),
{
    let normalized = normalize_unicode(name);
    let safe_chars = make_filename_safe(&normalized);
    if safe_chars.unicode_len() <= MAX_FILENAME_LENGTH {
        safe_chars
    } else {
        create_short_filename(name, &safe_chars)
    }
}

/// Decomposes `text` and drops its combining marks.
pub fn normalize_unicode(text: &str) -> (r: String)
    ensures
        r@ == strip_marks(nfd_of(text@)),
{
    let decomposed = canonical_decomposition(text);
    let mut out: Vec<char> = Vec::new();
    let mut i: usize = 0;
    while i < decomposed.len()
        invariant
            i <= decomposed.len(),
            out@ == strip_marks(decomposed@.take(i as int)),
        decreases decomposed.len() - i,
    {
        let c = decomposed[i];
        proof {
            assert(decomposed@.take(i + 1).drop_last() =~= decomposed@.take(i as int));
        }
        if !is_combining_mark(c) {
            out.push(c);
        }
        i += 1;
    }
    proof {
        assert(decomposed@.take(i as int) =~= decomposed@);
    }
    string_from_chars(&out)
}

pub fn is_combining_mark(c: char) -> (r: bool)
    ensures
        r == combining_mark(c),
{
    ('\u{0300}' <= c && c <= '\u{036F}') || ('\u{1AB0}' <= c && c <= '\u{1AFF}') || ('\u{1DC0}'
        <= c && c <= '\u{1DFF}') || ('\u{20D0}' <= c && c <= '\u{20FF}') || ('\u{FE20}' <= c && c
        <= '\u{FE2F}')
}

/// Lower-cases `text` and maps each character into the safe set.
pub fn make_filename_safe(text: &str) -> (r: String)
    ensures
        r@ == safe_map(lower_of(text@)),
{
    let lower = lowercase(text);
    let chars = chars_of(lower.as_str());
    let mut out: Vec<char> = Vec::new();
    let mut i: usize = 0;
    while i < chars.len()
        invariant
            i <= chars.len(),
            chars@ == lower_of(text@),
            out@ == safe_map(chars@.take(i as int)),
        decreases chars.len() - i,
    {
        let c = chars[i];
        let mapped = if ('a' <= c && c <= 'z') || ('0' <= c && c <= '9') || c == '-' || c == '_' {
            c
        } else {
            '_'
        };
        out.push(mapped);
        i += 1;
        proof {
            assert(out@ =~= safe_map(chars@.take(i as int)));
        }
    }
    proof {
        assert(chars@.take(i as int) =~= chars@);
    }
    string_from_chars(&out)
}

/// The last `width` hexadecimal digits of `n`.
pub fn hex_digits(n: u64, width: usize) -> (r: Vec<char>)
    ensures
        r@ == hex_fixed(n as nat, width as nat),
    decreases width,
{
    if width == 0 {
        Vec::new()
    } else {
        let mut v = hex_digits(n / 16, width - 1);
        let d = (n % 16) as u8;
        let c = if d < 10 {
            (d + 48) as char
        } else {
            (d - 10 + 97) as char
        };
        v.push(c);
        v
    }
}

/// The stem of an overlong title: the first characters of its safe form, then `_` and a
/// 64-bit hash of the title as given in 16 lower-case hexadecimal digits.
pub fn create_short_filename(title: &str, encoded: &str) -> (r: String)
    ensures
        r@ == encoded@.take(
            if encoded@.len() < HASHED_PREFIX_LENGTH {
                encoded@.len() as int
            } else {
                HASHED_PREFIX_LENGTH as int
            },
        ) + seq!['_'] + hex_fixed(title_hash_of(title@) as nat, 16),
{
    let hash = title_hash(title);
    let chars = chars_of(encoded);
    let prefix_len = if chars.len() < HASHED_PREFIX_LENGTH {
        chars.len()
    } else {
        HASHED_PREFIX_LENGTH
    };
    let mut out: Vec<char> = Vec::new();
    let mut i: usize = 0;
    while i < prefix_len
        invariant
            i <= prefix_len <= chars.len(),
            out@ == chars@.take(i as int),
        decreases prefix_len - i,
    {
        out.push(chars[i]);
        i += 1;
        proof {
            assert(out@ =~= chars@.take(i as int));
        }
    }
    out.push('_');
    let digits = hex_digits(hash, 16);
    let mut j: usize = 0;
    let ghost head = out@;
    while j < digits.len()
        invariant
            j <= digits.len(),
            out@ == head + digits@.take(j as int),
        decreases digits.len() - j,
    {
        out.push(digits[j]);
        j += 1;
        proof {
            assert(out@ =~= head + digits@.take(j as int));
        }
    }
    proof {
        assert(digits@.take(j as int) =~= digits@);
    }
    string_from_chars(&out)
}

} // verus!
