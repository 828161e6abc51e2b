//! Character-level text primitives shared by the extractor, the classifier
//! and the document-claim recognisers.
//!
//! Text is modelled by its `Seq<char>` view. Byte offsets, which is what the
//! library reports in spans and what length thresholds are measured in, are
//! the length of the UTF-8 encoding of a prefix (`byte_len`).
use vstd::prelude::*;
use vstd::utf8::*;

verus! {

// ---------------------------------------------------------------------------
// UTF-8 byte lengths
// ---------------------------------------------------------------------------

/// Number of bytes in the UTF-8 encoding of `s`.
pub open spec fn byte_len(s: Seq<char>) -> nat {
    encode_utf8(s).len()
}

/// Number of bytes in the UTF-8 encoding of one character.
pub open spec fn char_width(c: char) -> nat {
    let v = c as u32;
    if v <= 0x7f {
        1
    } else if v <= 0x7ff {
        2
    } else if v <= 0xffff {
        3
    } else {
        4
    }
}

/// Byte offset of the character index `k` in `s`.
pub open spec fn byte_offset(s: Seq<char>, k: int) -> nat {
    byte_len(s.take(k))
}

pub proof fn lemma_byte_len_single(c: char)
    ensures
        byte_len(seq![c]) == char_width(c),
        char_width(c) >= 1,
{
    char_is_scalar(c);
    let s = seq![c];
    assert(s.drop_first() =~= Seq::<char>::empty());
    assert(encode_utf8(s) == encode_scalar(c as u32) + encode_utf8(s.drop_first()));
}

pub proof fn lemma_byte_len_concat(a: Seq<char>, b: Seq<char>)
    ensures
        byte_len(a + b) == byte_len(a) + byte_len(b),
    decreases a.len(),
{
    if a.len() == 0 {
        assert(a + b =~= b);
    } else {
        lemma_byte_len_concat(a.drop_first(), b);
        assert((a + b).drop_first() =~= a.drop_first() + b);
        assert((a + b)[0] == a[0]);
    }
}

pub proof fn lemma_byte_len_push(s: Seq<char>, c: char)
    ensures
        byte_len(s.push(c)) == byte_len(s) + char_width(c),
{
    assert(s.push(c) =~= s + seq![c]);
    lemma_byte_len_concat(s, seq![c]);
    lemma_byte_len_single(c);
}

/// Byte offsets grow strictly with the character index.
pub proof fn lemma_byte_offset_strict(s: Seq<char>, i: int, j: int)
    requires
        0 <= i < j <= s.len(),
    ensures
        byte_offset(s, i) < byte_offset(s, j),
        byte_offset(s, i) + char_width(s[i]) <= byte_offset(s, j),
{
    assert(s.take(j) =~= s.take(i) + s.subrange(i, j));
    lemma_byte_len_concat(s.take(i), s.subrange(i, j));
    let rest = s.subrange(i, j);
    assert(rest =~= seq![s[i]] + rest.drop_first());
    lemma_byte_len_concat(seq![s[i]], rest.drop_first());
    lemma_byte_len_single(s[i]);
}

pub proof fn lemma_byte_offset_mono(s: Seq<char>, i: int, j: int)
    requires
        0 <= i <= j <= s.len(),
    ensures
        byte_offset(s, i) <= byte_offset(s, j),
{
    if i < j {
        lemma_byte_offset_strict(s, i, j);
    }
}

/// The byte length of a subrange is the difference of the byte offsets.
pub proof fn lemma_byte_len_subrange(s: Seq<char>, i: int, j: int)
    requires
        0 <= i <= j <= s.len(),
    ensures
        byte_len(s.subrange(i, j)) == byte_offset(s, j) - byte_offset(s, i),
{
    assert(s.take(j) =~= s.take(i) + s.subrange(i, j));
    lemma_byte_len_concat(s.take(i), s.subrange(i, j));
}

/// UTF-8 width of a character.
pub fn char_width_of(c: char) -> (w: usize)
    ensures
        w == char_width(c),
        1 <= w <= 4,
{
    let v = c as u32;
    if v <= 0x7f {
        1
    } else if v <= 0x7ff {
        2
    } else if v <= 0xffff {
        3
    } else {
        4
    }
}

/// The byte offset of every character index of `cs`, including the end.
pub fn byte_offsets(cs: &Vec<char>) -> (r: Vec<usize>)
    requires
        byte_len(cs@) <= usize::MAX,
    ensures
        r.len() == cs.len() + 1,
        forall|k: int| 0 <= k <= cs.len() ==> #[trigger] r@[k] == byte_offset(cs@, k),
{
    let mut r: Vec<usize> = Vec::new();
    let mut acc: usize = 0;
    let mut i: usize = 0;
    proof {
        assert(cs@.take(0) =~= Seq::<char>::empty());
    }
    r.push(0);
    while i < cs.len()
        invariant
            i <= cs.len(),
            byte_len(cs@) <= usize::MAX,
            r.len() == i + 1,
            acc == byte_offset(cs@, i as int),
            forall|k: int| 0 <= k <= i ==> #[trigger] r@[k] == byte_offset(cs@, k),
        decreases cs.len() - i,
    {
        let w = char_width_of(cs[i]);
        proof {
            assert(cs@.take(i + 1) =~= cs@.take(i as int).push(cs@[i as int]));
            lemma_byte_len_push(cs@.take(i as int), cs@[i as int]);
            assert(cs@.take(cs.len() as int) =~= cs@);
            lemma_byte_offset_mono(cs@, i + 1, cs.len() as int);
        }
        acc = acc + w;
        i = i + 1;
        r.push(acc);
    }
    r
}

// ---------------------------------------------------------------------------
// Strings and character vectors
// ---------------------------------------------------------------------------

/// `String::push`: appends one character at the end of the string.
#[verifier::external_body]
fn push_char(s: &mut String, c: char)
    ensures
        final(s)@ == old(s)@.push(c),
{
    s.push(c);
}

/// The characters of a string slice.
pub fn chars_of(s: &str) -> (r: Vec<char>)
    ensures
        r@ == s@,
{
    broadcast use vstd::string::axiom_spec_iter;

    let mut out: Vec<char> = Vec::new();
    for c in it: s.chars()
        invariant
            out@ == it.seq().take(it.index() as int),
            it.seq() == s@,
    {
        out.push(c);
    }
    out
}

/// A string holding `cs[lo..hi]`.
pub fn string_of(cs: &Vec<char>, lo: usize, hi: usize) -> (r: String)
    requires
        lo <= hi <= cs.len(),
    ensures
        r@ == cs@.subrange(lo as int, hi as int),
{
    let mut out = String::new();
    let mut i = lo;
    while i < hi
        invariant
            lo <= i <= hi <= cs.len(),
            out@ == cs@.subrange(lo as int, i as int),
        decreases hi - i,
    {
        push_char(&mut out, cs[i]);
        proof {
            assert(cs@.subrange(lo as int, i + 1) =~= cs@.subrange(lo as int, i as int).push(
                cs@[i as int],
            ));
        }
        i = i + 1;
    }
    out
}

/// Appends every character of `t` to `s`.
pub fn append_chars(s: &mut String, t: &Vec<char>)
    ensures
        final(s)@ == old(s)@ + t@,
{
    let mut i: usize = 0;
    while i < t.len()
        invariant
            i <= t.len(),
            s@ == old(s)@ + t@.take(i as int),
        decreases t.len() - i,
    {
        proof {
            assert(t@.take(i + 1) =~= t@.take(i as int).push(t@[i as int]));
        }
        push_char(s, t[i]);
        i = i + 1;
    }
    proof {
        assert(t@.take(t.len() as int) =~= t@);
    }
}

/// Appends the characters of a string slice.
pub fn append_str(s: &mut String, t: &str)
    ensures
        final(s)@ == old(s)@ + t@,
{
    let cs = chars_of(t);
    append_chars(s, &cs);
}

/// Whether two character vectors are equal.
pub fn same_chars(a: &Vec<char>, b: &Vec<char>) -> (r: bool)
    ensures
        r == (a@ == b@),
{
    if a.len() != b.len() {
        return false;
    }
    let mut i: usize = 0;
    while i < a.len()
        invariant
            i <= a.len(),
            a.len() == b.len(),
            forall|k: int| 0 <= k < i ==> a@[k] == b@[k],
        decreases a.len() - i,
    {
        if a[i] != b[i] {
            return false;
        }
        i = i + 1;
    }
    proof {
        assert(a@ =~= b@);
    }
    true
}

/// Whether two string slices hold the same text.
pub fn same_text(a: &str, b: &str) -> (r: bool)
    ensures
        r == (a@ == b@),
{
    let ca = chars_of(a);
    let cb = chars_of(b);
    same_chars(&ca, &cb)
}


/// A vector holding `cs[lo..hi]`.
pub fn sub_vec(cs: &Vec<char>, lo: usize, hi: usize) -> (r: Vec<char>)
    requires
        lo <= hi <= cs.len(),
    ensures
        r@ == cs@.subrange(lo as int, hi as int),
{
    let mut out: Vec<char> = Vec::new();
    let mut i = lo;
    while i < hi
        invariant
            lo <= i <= hi <= cs.len(),
            out@ == cs@.subrange(lo as int, i as int),
        decreases hi - i,
    {
        out.push(cs[i]);
        proof {
            assert(cs@.subrange(lo as int, i + 1) =~= cs@.subrange(lo as int, i as int).push(
                cs@[i as int],
            ));
        }
        i = i + 1;
    }
    out
}

/// Whether the UTF-8 encoding of `cs` has at least `n` bytes.
pub fn byte_len_at_least(cs: &Vec<char>, n: usize) -> (r: bool)
    requires
        n <= 4096,
    ensures
        r == (byte_len(cs@) >= n),
{
    if n == 0 {
        return true;
    }
    let mut acc: usize = 0;
    let mut i: usize = 0;
    proof {
        assert(cs@.take(0) =~= Seq::<char>::empty());
    }
    while i < cs.len()
        invariant
            i <= cs.len(),
            n <= 4096,
            acc == byte_offset(cs@, i as int),
            acc < n,
        decreases cs.len() - i,
    {
        let w = char_width_of(cs[i]);
        proof {
            assert(cs@.take(i + 1) =~= cs@.take(i as int).push(cs@[i as int]));
            lemma_byte_len_push(cs@.take(i as int), cs@[i as int]);
        }
        acc = acc + w;
        i = i + 1;
        if acc >= n {
            proof {
                lemma_byte_offset_mono(cs@, i as int, cs.len() as int);
                assert(cs@.take(cs.len() as int) =~= cs@);
            }
            return true;
        }
    }
    proof {
        assert(cs@.take(cs.len() as int) =~= cs@);
    }
    false
}

/// The length of a string slice in bytes.
pub fn utf8_len(s: &str) -> (r: usize)
    ensures
        r == byte_len(s@),
{
    s.as_bytes().len()
}

// ---------------------------------------------------------------------------
// Outside character and string functions
// ---------------------------------------------------------------------------

/// The Unicode White_Space property, which `char::is_whitespace` answers:
/// the 25 code points U+0009–U+000D, U+0020, U+0085, U+00A0, U+1680,
/// U+2000–U+200A, U+2028, U+2029, U+202F, U+205F and U+3000.
pub open spec fn white_space(c: char) -> bool {
    let v = c as u32;
    ||| 0x09 <= v <= 0x0d
    ||| v == 0x20
    ||| v == 0x85
    ||| v == 0xa0
    ||| v == 0x1680
    ||| 0x2000 <= v <= 0x200a
    ||| v == 0x2028
    ||| v == 0x2029
    ||| v == 0x202f
    ||| v == 0x205f
    ||| v == 0x3000
}

/// Whether `c` is white space (`white_space`).
pub fn is_white_space(c: char) -> (r: bool)
    ensures
        r == white_space(c),
{
    let v = c as u32;
    (0x09 <= v && v <= 0x0d) || v == 0x20 || v == 0x85 || v == 0xa0 || v == 0x1680 || (0x2000 <= v
        && v <= 0x200a) || v == 0x2028 || v == 0x2029 || v == 0x202f || v == 0x205f || v == 0x3000
}

/// ASCII letters in lowercase, everything else unchanged
/// (`str::to_ascii_lowercase`).
pub open spec fn ascii_lower(s: Seq<char>) -> Seq<char> {
    s.map_values(|c: char| if 'A' <= c && c <= 'Z' { (((c as u8) + 32) as u8) as char } else { c })
}

/// ASCII letters in uppercase, everything else unchanged
/// (`str::to_ascii_uppercase`).
pub open spec fn ascii_upper(s: Seq<char>) -> Seq<char> {
    s.map_values(|c: char| if 'a' <= c && c <= 'z' { (((c as u8) - 32) as u8) as char } else { c })
}

/// Every character is ASCII.
pub open spec fn ascii_text(s: Seq<char>) -> bool {
    forall|i: int| 0 <= i < s.len() ==> (#[trigger] s[i] as u32) < 128
}

/// What `str::to_lowercase` returns for a text (Unicode lowercase mapping).
pub uninterp spec fn lowercase(s: Seq<char>) -> Seq<char>;

/// `str::to_lowercase`: the Unicode lowercase form of the text, as a new
/// string. The contract names the result, and states what std's
/// documentation gives of ASCII text (`str::to_ascii_lowercase` points to
/// `to_lowercase` as lowercasing ASCII letters as well): on ASCII text it is
/// the ASCII lowercase. The Unicode mapping of other characters is not
/// stated.
#[verifier::external_body]
pub(crate) fn to_lowercase(s: &str) -> (r: String)
    ensures
        r@ == lowercase(s@),
        ascii_text(s@) ==> r@ == ascii_lower(s@),
{
    s.to_lowercase()
}

// ---------------------------------------------------------------------------
// Trimming
// ---------------------------------------------------------------------------

/// The classes of characters that the library strips from the ends of text.
#[derive(Clone, Copy, PartialEq, Eq)]
pub enum CharClass {
    /// Unicode white space, as `str::trim` strips it.
    Space,
    /// The punctuation `,`, `;`, `:` and `.`.
    Punct,
}

pub open spec fn in_class(k: CharClass, c: char) -> bool {
    match k {
        CharClass::Space => white_space(c),
        CharClass::Punct => c == ',' || c == ';' || c == ':' || c == '.',
    }
}

/// Number of leading characters of `s` that belong to `k`.
pub open spec fn lead_run(s: Seq<char>, k: CharClass) -> nat
    decreases s.len(),
{
    if s.len() > 0 && in_class(k, s[0]) {
        1 + lead_run(s.drop_first(), k)
    } else {
        0
    }
}

/// Number of trailing characters of `s` that belong to `k`.
pub open spec fn trail_run(s: Seq<char>, k: CharClass) -> nat
    decreases s.len(),
{
    if s.len() > 0 && in_class(k, s.last()) {
        1 + trail_run(s.drop_last(), k)
    } else {
        0
    }
}

/// `s` without its leading characters of class `k`.
pub open spec fn strip_start(s: Seq<char>, k: CharClass) -> Seq<char> {
    s.skip(lead_run(s, k) as int)
}

/// `s` without its trailing characters of class `k`.
pub open spec fn strip_end(s: Seq<char>, k: CharClass) -> Seq<char> {
    s.take(s.len() - trail_run(s, k))
}

/// `s` without its leading and trailing characters of class `k`.
pub open spec fn strip(s: Seq<char>, k: CharClass) -> Seq<char> {
    strip_end(strip_start(s, k), k)
}

/// `str::trim`.
pub open spec fn trim(s: Seq<char>) -> Seq<char> {
    strip(s, CharClass::Space)
}

/// `trim()` followed by `trim_matches(&[',', ';', ':', '.'])`.
pub open spec fn clean(s: Seq<char>) -> Seq<char> {
    strip(trim(s), CharClass::Punct)
}

pub fn in_class_of(k: CharClass, c: char) -> (r: bool)
    ensures
        r == in_class(k, c),
{
    match k {
        CharClass::Space => is_white_space(c),
        CharClass::Punct => c == ',' || c == ';' || c == ':' || c == '.',
    }
}

pub proof fn lemma_lead_run_bounded(s: Seq<char>, k: CharClass)
    ensures
        lead_run(s, k) <= s.len(),
    decreases s.len(),
{
    if s.len() > 0 && in_class(k, s[0]) {
        lemma_lead_run_bounded(s.drop_first(), k);
    }
}

pub proof fn lemma_trail_run_bounded(s: Seq<char>, k: CharClass)
    ensures
        trail_run(s, k) <= s.len(),
    decreases s.len(),
{
    if s.len() > 0 && in_class(k, s.last()) {
        lemma_trail_run_bounded(s.drop_last(), k);
    }
}

/// `lead_run` is the index of the first character outside the class.
/// A leading run shorter than the text stops at a character outside the
/// class.
pub proof fn lemma_lead_run_stops(s: Seq<char>, k: CharClass)
    ensures
        lead_run(s, k) < s.len() ==> !in_class(k, s[lead_run(s, k) as int]),
    decreases s.len(),
{
    if s.len() > 0 && in_class(k, s[0]) {
        lemma_lead_run_stops(s.drop_first(), k);
        let l = lead_run(s.drop_first(), k);
        if l < s.drop_first().len() {
            assert(s.drop_first()[l as int] == s[l as int + 1]);
        }
    }
}

pub proof fn lemma_lead_run_is(s: Seq<char>, k: CharClass, i: int)
    requires
        0 <= i <= s.len(),
        forall|j: int| 0 <= j < i ==> in_class(k, #[trigger] s[j]),
        i == s.len() || !in_class(k, s[i]),
    ensures
        lead_run(s, k) == i,
    decreases i,
{
    if i > 0 {
        let t = s.drop_first();
        assert forall|j: int| 0 <= j < i - 1 implies in_class(k, #[trigger] t[j]) by {
            assert(t[j] == s[j + 1]);
        }
        if i < s.len() {
            assert(t[i - 1] == s[i]);
        }
        lemma_lead_run_is(t, k, i - 1);
        assert(in_class(k, s[0]));
    }
}

/// `trail_run` is the distance from the end to the last character outside
/// the class.
pub proof fn lemma_trail_run_is(s: Seq<char>, k: CharClass, i: int)
    requires
        0 <= i <= s.len(),
        forall|j: int| i <= j < s.len() ==> in_class(k, #[trigger] s[j]),
        i == 0 || !in_class(k, s[i - 1]),
    ensures
        trail_run(s, k) == s.len() - i,
    decreases s.len() - i,
{
    if i < s.len() {
        let t = s.drop_last();
        assert forall|j: int| i <= j < t.len() implies in_class(k, #[trigger] t[j]) by {
            assert(t[j] == s[j]);
        }
        if i > 0 {
            assert(t[i - 1] == s[i - 1]);
        }
        lemma_trail_run_is(t, k, i);
        assert(in_class(k, s.last()));
    }
}

/// Narrows `cs[lo..hi]` to `strip(cs[lo..hi], k)`.
pub fn strip_range(cs: &Vec<char>, lo: usize, hi: usize, k: CharClass) -> (r: (usize, usize))
    requires
        lo <= hi <= cs.len(),
    ensures
        lo <= r.0 <= r.1 <= hi,
        r.0 - lo == lead_run(cs@.subrange(lo as int, hi as int), k),
        cs@.subrange(r.0 as int, hi as int) == strip_start(cs@.subrange(lo as int, hi as int), k),
        cs@.subrange(r.0 as int, r.1 as int) == strip(cs@.subrange(lo as int, hi as int), k),
{
    let ghost sub = cs@.subrange(lo as int, hi as int);
    let mut a = lo;
    while a < hi && in_class_of(k, cs[a])
        invariant
            lo <= a <= hi <= cs.len(),
            forall|j: int| lo <= j < a ==> in_class(k, #[trigger] cs@[j]),
        decreases hi - a,
    {
        a = a + 1;
    }
    proof {
        assert forall|j: int| 0 <= j < a - lo implies in_class(k, #[trigger] sub[j]) by {
            assert(sub[j] == cs@[lo + j]);
        }
        if a < hi {
            assert(sub[a - lo] == cs@[a as int]);
        }
        lemma_lead_run_is(sub, k, a - lo);
        assert(sub.skip(a - lo) =~= cs@.subrange(a as int, hi as int));
    }
    let ghost mid = cs@.subrange(a as int, hi as int);
    let mut b = hi;
    while b > a && in_class_of(k, cs[b - 1])
        invariant
            lo <= a <= b <= hi <= cs.len(),
            forall|j: int| b <= j < hi ==> in_class(k, #[trigger] cs@[j]),
        decreases b - a,
    {
        b = b - 1;
    }
    proof {
        assert forall|j: int| b - a <= j < mid.len() implies in_class(k, #[trigger] mid[j]) by {
            assert(mid[j] == cs@[a + j]);
        }
        if b > a {
            assert(mid[b - a - 1] == cs@[b - 1]);
        }
        lemma_trail_run_is(mid, k, b - a);
        assert(mid.take(mid.len() - trail_run(mid, k)) =~= cs@.subrange(a as int, b as int));
    }
    (a, b)
}

/// Narrows `cs[lo..hi]` to `clean(cs[lo..hi])`.
pub fn clean_range(cs: &Vec<char>, lo: usize, hi: usize) -> (r: (usize, usize))
    requires
        lo <= hi <= cs.len(),
    ensures
        lo <= r.0 <= r.1 <= hi,
        cs@.subrange(r.0 as int, r.1 as int) == clean(cs@.subrange(lo as int, hi as int)),
{
    let (a, b) = strip_range(cs, lo, hi, CharClass::Space);
    let (c, d) = strip_range(cs, a, b, CharClass::Punct);
    (c, d)
}

// ---------------------------------------------------------------------------
// Searching
// ---------------------------------------------------------------------------

/// The first character index at or after `i` where `p` occurs in `h`.
pub open spec fn find_from(h: Seq<char>, p: Seq<char>, i: nat) -> Option<nat>
    decreases h.len() - i,
{
    if i + p.len() > h.len() {
        None
    } else if p.len() == 0 || h.subrange(i as int, (i + p.len()) as int) == p {
        Some(i)
    } else {
        find_from(h, p, i + 1)
    }
}

/// The character index of the first occurrence of `p` in `h` (`str::find`).
pub open spec fn find(h: Seq<char>, p: Seq<char>) -> Option<nat> {
    find_from(h, p, 0)
}

/// Whether `p` occurs in `h` (`str::contains`).
pub open spec fn contains(h: Seq<char>, p: Seq<char>) -> bool {
    find(h, p) is Some
}

pub proof fn lemma_find_from_bounds(h: Seq<char>, p: Seq<char>, i: nat)
    ensures
        find_from(h, p, i) matches Some(j) ==> i <= j && j + p.len() <= h.len()
            && h.subrange(j as int, (j + p.len()) as int) == p,
    decreases h.len() - i,
{
    if i + p.len() > h.len() {
    } else if p.len() == 0 || h.subrange(i as int, (i + p.len()) as int) == p {
        if p.len() == 0 {
            assert(h.subrange(i as int, i as int) =~= p);
        }
    } else {
        lemma_find_from_bounds(h, p, i + 1);
    }
}

/// Whether `p` occurs in `h` at index `i`.
/// `find_from` finds the first occurrence from `i` on: none starts before
/// the position it gives, and none at all where it gives nothing.
pub proof fn lemma_find_from_first(h: Seq<char>, p: Seq<char>, i: nat)
    ensures
        find_from(h, p, i) matches Some(j) ==> forall|m: int|
            i <= m < j ==> #[trigger] h.subrange(m, m + p.len()) != p,
        find_from(h, p, i) is None ==> forall|m: int|
            i <= m && m + p.len() <= h.len() ==> #[trigger] h.subrange(m, m + p.len()) != p,
    decreases h.len() - i,
{
    if i + p.len() > h.len() {
    } else if p.len() == 0 || h.subrange(i as int, (i + p.len()) as int) == p {
        if p.len() == 0 {
            assert(h.subrange(i as int, i as int) =~= p);
        }
    } else {
        lemma_find_from_first(h, p, i + 1);
    }
}

pub fn matches_at(h: &Vec<char>, p: &Vec<char>, i: usize) -> (r: bool)
    requires
        i + p.len() <= h.len(),
    ensures
        r == (h@.subrange(i as int, i + p.len()) == p@),
{
    let mut j: usize = 0;
    while j < p.len()
        invariant
            j <= p.len(),
            i + p.len() <= h.len(),
            forall|k: int| 0 <= k < j ==> h@[i + k] == p@[k],
        decreases p.len() - j,
    {
        if h[i + j] != p[j] {
            proof {
                assert(h@.subrange(i as int, i + p.len())[j as int] == h@[i + j]);
            }
            return false;
        }
        j = j + 1;
    }
    proof {
        assert(h@.subrange(i as int, i + p.len()) =~= p@);
    }
    true
}

/// `find` on character vectors.
pub fn find_chars(h: &Vec<char>, p: &Vec<char>) -> (r: Option<usize>)
    ensures
        r matches Some(i) ==> find(h@, p@) == Some(i as nat),
        r is None ==> find(h@, p@) is None,
{
    if p.len() > h.len() {
        return None;
    }
    let mut i: usize = 0;
    while i <= h.len() - p.len()
        invariant
            p.len() <= h.len(),
            i <= h.len(),
            find_from(h@, p@, 0) == find_from(h@, p@, i as nat),
        decreases h.len() - i,
    {
        if p.len() == 0 || matches_at(h, p, i) {
            return Some(i);
        }
        i = i + 1;
    }
    None
}

/// `contains` on character vectors.
pub fn contains_chars(h: &Vec<char>, p: &Vec<char>) -> (r: bool)
    ensures
        r == contains(h@, p@),
{
    find_chars(h, p).is_some()
}

// ---------------------------------------------------------------------------
// Byte offsets back to characters
// ---------------------------------------------------------------------------

/// The character index of `s` at which the byte offset `b` falls, if `b` is
/// a character boundary of `s`.
pub open spec fn char_at_byte_from(s: Seq<char>, b: int, k: nat) -> Option<nat>
    decreases s.len() - k,
{
    if k > s.len() {
        None
    } else if byte_offset(s, k as int) == b {
        Some(k)
    } else if k == s.len() {
        None
    } else {
        char_at_byte_from(s, b, k + 1)
    }
}

pub open spec fn char_at_byte(s: Seq<char>, b: int) -> Option<nat> {
    char_at_byte_from(s, b, 0)
}

pub proof fn lemma_char_at_byte_from(s: Seq<char>, b: int, k: nat)
    ensures
        char_at_byte_from(s, b, k) matches Some(j) ==> k <= j <= s.len() && byte_offset(s, j as int)
            == b,
    decreases s.len() - k,
{
    if k > s.len() {
    } else if byte_offset(s, k as int) == b {
    } else if k == s.len() {
    } else {
        lemma_char_at_byte_from(s, b, k + 1);
    }
}

proof fn lemma_char_at_byte_from_offset(s: Seq<char>, k: int, j: nat)
    requires
        0 <= j <= k <= s.len(),
    ensures
        char_at_byte_from(s, byte_offset(s, k) as int, j) == Some(k as nat),
    decreases k - j,
{
    if j < k {
        lemma_byte_offset_strict(s, j as int, k);
        lemma_char_at_byte_from_offset(s, k, j + 1);
    }
}

/// The byte offset of a character index leads back to that index.
pub proof fn lemma_char_at_byte_offset(s: Seq<char>, k: int)
    requires
        0 <= k <= s.len(),
    ensures
        char_at_byte(s, byte_offset(s, k) as int) == Some(k as nat),
{
    lemma_char_at_byte_from_offset(s, k, 0);
}

/// Byte offsets inside a slice `s[a..c]` are offsets of `s` less the offset
/// of `a`.
pub proof fn lemma_byte_offset_shift(s: Seq<char>, a: int, c: int, k: int)
    requires
        0 <= a <= c <= s.len(),
        0 <= k <= c - a,
    ensures
        byte_offset(s, a + k) == byte_offset(s, a) + byte_offset(s.subrange(a, c), k),
{
    assert(s.take(a + k) =~= s.take(a) + s.subrange(a, c).take(k));
    lemma_byte_len_concat(s.take(a), s.subrange(a, c).take(k));
}

/// A character boundary of the slice `s[a..c]` is one of `s`, shifted by
/// the byte offset of `a`.
pub proof fn lemma_char_at_byte_shift(s: Seq<char>, a: int, c: int, b: int)
    requires
        0 <= a <= c <= s.len(),
        char_at_byte(s.subrange(a, c), b) is Some,
    ensures
        char_at_byte(s, byte_offset(s, a) + b) == Some(
            (a + char_at_byte(s.subrange(a, c), b)->0) as nat,
        ),
{
    let sub = s.subrange(a, c);
    let k = char_at_byte(sub, b)->0;
    lemma_char_at_byte_from(sub, b, 0);
    lemma_byte_offset_shift(s, a, c, k as int);
    lemma_char_at_byte_offset(s, a + k);
}

/// Distinct character boundaries keep their order.
pub proof fn lemma_char_at_byte_order(s: Seq<char>, b1: int, b2: int)
    requires
        b1 <= b2,
        char_at_byte(s, b1) is Some,
        char_at_byte(s, b2) is Some,
    ensures
        char_at_byte(s, b1)->0 <= char_at_byte(s, b2)->0,
{
    lemma_char_at_byte_from(s, b1, 0);
    lemma_char_at_byte_from(s, b2, 0);
    let k1 = char_at_byte(s, b1)->0;
    let k2 = char_at_byte(s, b2)->0;
    if k2 < k1 {
        lemma_byte_offset_strict(s, k2 as int, k1 as int);
    }
}

/// The text between two byte offsets of `s` that fall on character
/// boundaries.
pub open spec fn text_between(s: Seq<char>, b1: int, b2: int) -> Seq<char> {
    match char_at_byte(s, b1) {
        Some(k1) => match char_at_byte(s, b2) {
            Some(k2) => s.subrange(k1 as int, k2 as int),
            None => Seq::empty(),
        },
        None => Seq::empty(),
    }
}

/// `char_at_byte` on a precomputed offset table (see `byte_offsets`).
pub(crate) fn char_at_byte_of(offsets: &Vec<usize>, b: usize, Ghost(s): Ghost<Seq<char>>) -> (r: Option<
    usize,
>)
    requires
        offsets.len() == s.len() + 1,
        forall|k: int| 0 <= k <= s.len() ==> #[trigger] offsets@[k] == byte_offset(s, k),
    ensures
        r matches Some(k) ==> char_at_byte(s, b as int) == Some(k as nat) && k <= s.len(),
        r is None ==> char_at_byte(s, b as int) is None,
{
    let mut k: usize = 0;
    while k < offsets.len()
        invariant
            k <= offsets.len(),
            offsets.len() == s.len() + 1,
            forall|j: int| 0 <= j <= s.len() ==> #[trigger] offsets@[j] == byte_offset(s, j),
            char_at_byte(s, b as int) == char_at_byte_from(s, b as int, k as nat),
        decreases offsets.len() - k,
    {
        if offsets[k] == b {
            return Some(k);
        }
        k = k + 1;
    }
    None
}

} // verus!
