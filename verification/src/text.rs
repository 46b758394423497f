//! Text: blanks at the ends, case, and bytes that may not be text.

use vstd::prelude::*;

verus! {

/// Blank characters, as Unicode has them.
pub open spec fn white(c: char) -> bool {
    let n = c as u32;
    ||| 0x09 <= n <= 0x0D
    ||| n == 0x20
    ||| n == 0x85
    ||| n == 0xA0
    ||| n == 0x1680
    ||| 0x2000 <= n <= 0x200A
    ||| n == 0x2028
    ||| n == 0x2029
    ||| n == 0x202F
    ||| n == 0x205F
    ||| n == 0x3000
}

/// The text without the blanks at its front.
pub open spec fn trim_front(s: Seq<char>) -> Seq<char>
    decreases s.len(),
{
    if s.len() > 0 && white(s[0]) {
        trim_front(s.skip(1))
    } else {
        s
    }
}

/// The text without the blanks at its back.
pub open spec fn trim_back(s: Seq<char>) -> Seq<char>
    decreases s.len(),
{
    if s.len() > 0 && white(s.last()) {
        trim_back(s.drop_last())
    } else {
        s
    }
}

/// The text without the blanks at its ends.
pub open spec fn trimmed_of(s: Seq<char>) -> Seq<char> {
    trim_back(trim_front(s))
}

fn is_white(c: char) -> (r: bool)
    ensures
        r == white(c),
{
    let n: u32 = c as u32;
    (0x09 <= n && n <= 0x0D) || n == 0x20 || n == 0x85 || n == 0xA0 || n == 0x1680 || (0x2000 <= n
        && n <= 0x200A) || n == 0x2028 || n == 0x2029 || n == 0x202F || n == 0x205F || n == 0x3000
}

/// The text without the blanks at its ends.
pub fn trimmed(s: &str) -> (r: String)
    ensures
        r@ == trimmed_of(s@),
{
    let n: usize = s.unicode_len();
    let mut i: usize = 0;
    assert(s@.skip(0) =~= s@);
    while i < n && is_white(s.get_char(i))
        invariant
            i <= n,
            n == s@.len(),
            trim_front(s@) == trim_front(s@.skip(i as int)),
        decreases n - i,
    {
        assert(s@.skip(i as int).skip(1) =~= s@.skip(i + 1));
        i += 1;
    }
    let ghost front = s@.skip(i as int);
    assert(trim_front(s@) == front);
    let mut j: usize = n;
    assert(s@.subrange(i as int, j as int) =~= front);
    while j > i && is_white(s.get_char(j - 1))
        invariant
            i <= j <= n,
            n == s@.len(),
            trim_back(front) == trim_back(s@.subrange(i as int, j as int)),
        decreases j,
    {
        assert(s@.subrange(i as int, j as int).drop_last() =~= s@.subrange(i as int, j - 1));
        j -= 1;
    }
    let r: &str = s.substring_char(i, j);
    r.to_owned()
}

/// The text holds nothing but blanks.
pub fn is_blank(s: &str) -> (r: bool)
    ensures
        r <==> trimmed_of(s@).len() == 0,
{
    let t: String = trimmed(s);
    t.as_str().unicode_len() == 0
}

/// The text without a character that repeats at its back.
pub open spec fn trim_end_of(s: Seq<char>, c: char) -> Seq<char>
    decreases s.len(),
{
    if s.len() > 0 && s.last() == c {
        trim_end_of(s.drop_last(), c)
    } else {
        s
    }
}

/// The text without a character that repeats at its back.
pub fn trim_end(s: &str, c: char) -> (r: String)
    ensures
        r@ == trim_end_of(s@, c),
{
    let mut j: usize = s.unicode_len();
    assert(s@.take(j as int) =~= s@);
    while j > 0 && s.get_char(j - 1) == c
        invariant
            j <= s@.len(),
            trim_end_of(s@, c) == trim_end_of(s@.take(j as int), c),
        decreases j,
    {
        assert(s@.take(j as int).drop_last() =~= s@.take(j - 1));
        j -= 1;
    }
    let r: &str = s.substring_char(0, j);
    r.to_owned()
}

/// The small letter for a capital of the Latin alphabet; any other character itself.
pub open spec fn small(c: char) -> char {
    if 'A' <= c && c <= 'Z' {
        (c as u32 + 32) as char
    } else {
        c
    }
}

/// A text in small letters.
pub open spec fn small_letters(s: Seq<char>) -> Seq<char> {
    Seq::new(s.len(), |i: int| small(s[i]))
}

proof fn lemma_alphabet(k: int)
    requires
        0 <= k < 26,
    ensures
        "abcdefghijklmnopqrstuvwxyz"@.len() == 26,
        "abcdefghijklmnopqrstuvwxyz"@[k] == (97 + k) as char,
{
    reveal_strlit("abcdefghijklmnopqrstuvwxyz");
    let alphabet = seq![
        'a', 'b', 'c', 'd', 'e', 'f', 'g', 'h', 'i', 'j', 'k', 'l', 'm', 'n', 'o', 'p', 'q', 'r',
        's', 't', 'u', 'v', 'w', 'x', 'y', 'z',
    ];
    assert("abcdefghijklmnopqrstuvwxyz"@ =~= alphabet);
}

/// A text in small letters: each of the letters A to Z becomes its small letter, and every other
/// character stays.
pub fn lowercase(s: &str) -> (r: String)
    ensures
        r@ == small_letters(s@),
{
    let n: usize = s.unicode_len();
    let mut r: String = String::new();
    let mut i: usize = 0;
    while i < n
        invariant
            i <= n,
            n == s@.len(),
            r@ == small_letters(s@.take(i as int)),
        decreases n - i,
    {
        let c: char = s.get_char(i);
        let ghost before = r@;
        if 'A' <= c && c <= 'Z' {
            let k: usize = c as usize - 65;
            proof {
                lemma_alphabet(k as int);
            }
            r.append("abcdefghijklmnopqrstuvwxyz".substring_char(k, k + 1));
        } else {
            r.append(s.substring_char(i, i + 1));
        }
        assert(r@ =~= before.push(small(c)));
        assert(r@ =~= small_letters(s@.take(i + 1)));
        i += 1;
    }
    assert(s@.take(i as int) =~= s@);
    r
}

/// What `String::from_utf8_lossy` makes of bytes that are not well-formed UTF-8.
pub uninterp spec fn repaired(bytes: Seq<u8>) -> Seq<char>;

/// Bytes as text, whether they are or not.
pub open spec fn lossy_of(bytes: Seq<u8>) -> Seq<char> {
    if vstd::utf8::valid_utf8(bytes) {
        vstd::utf8::decode_utf8(bytes)
    } else {
        repaired(bytes)
    }
}

/// Calls `String::from_utf8_lossy`: well-formed bytes give the text they encode. What becomes of
/// others, in which a replacement character stands for what is not text, is only named.
#[verifier::external_body]
pub(crate) fn lossy(bytes: &[u8]) -> (r: String)
    ensures
        vstd::utf8::valid_utf8(bytes@) ==> r@ == vstd::utf8::decode_utf8(bytes@),
        !vstd::utf8::valid_utf8(bytes@) ==> r@ == repaired(bytes@),
{
    String::from_utf8_lossy(bytes).into_owned()
}

/// Bytes below 128 as the characters with those numbers.
pub open spec fn ascii_chars(bytes: Seq<u8>) -> Seq<char> {
    Seq::new(bytes.len(), |i: int| bytes[i] as char)
}

/// Bytes below 128 are text, and each is a character.
pub proof fn lemma_ascii(bytes: Seq<u8>)
    requires
        forall|i: int| 0 <= i < bytes.len() ==> #[trigger] bytes[i] < 128,
    ensures
        lossy_of(bytes) == ascii_chars(bytes),
{
    lemma_ascii_encodes(bytes);
    let chars = ascii_chars(bytes);
    vstd::utf8::encode_utf8_valid_utf8(chars);
    vstd::utf8::encode_utf8_decode_utf8(chars);
}

pub proof fn lemma_ascii_encodes(bytes: Seq<u8>)
    requires
        forall|i: int| 0 <= i < bytes.len() ==> #[trigger] bytes[i] < 128,
    ensures
        vstd::utf8::encode_utf8(ascii_chars(bytes)) == bytes,
    decreases bytes.len(),
{
    let chars = ascii_chars(bytes);
    if bytes.len() == 0 {
        assert(vstd::utf8::encode_utf8(chars) =~= bytes);
    } else {
        let rest = bytes.drop_first();
        lemma_ascii_encodes(rest);
        assert(chars.drop_first() =~= ascii_chars(rest));
        let b = bytes[0];
        let z = chars[0] as u32;
        assert(z == b);
        assert((z & 0x7F) as u8 == b) by (bit_vector)
            requires
                z == b,
                b < 128,
        ;
        assert(vstd::utf8::encode_scalar(z) =~= seq![b]);
        assert(vstd::utf8::encode_utf8(chars) =~= bytes);
    }
}

/// Below 128 the blanks are the characters nine to thirteen and the space; above there are the
/// next line, the spaces of typography and the separators of lines and paragraphs.
pub proof fn law_which_characters_are_blank(c: char)
    ensures
        (c as u32) < 128 ==> (white(c) <==> c == ' ' || 9 <= c as u32 <= 13),
        (c as u32) >= 128 ==> (white(c) <==> c as u32 == 0x85 || c as u32 == 0xA0 || c as u32
            == 0x1680 || 0x2000 <= c as u32 <= 0x200A || c as u32 == 0x2028 || c as u32 == 0x2029
            || c as u32 == 0x202F || c as u32 == 0x205F || c as u32 == 0x3000),
{
}

proof fn lemma_trim_front(s: Seq<char>) -> (i: int)
    ensures
        0 <= i <= s.len(),
        trim_front(s) == s.skip(i),
        forall|k: int| 0 <= k < i ==> white(#[trigger] s[k]),
        i < s.len() ==> !white(s[i]),
    decreases s.len(),
{
    if s.len() > 0 && white(s[0]) {
        let j = lemma_trim_front(s.skip(1));
        assert(s.skip(1).skip(j) =~= s.skip(j + 1));
        assert forall|k: int| 0 <= k < j + 1 implies white(#[trigger] s[k]) by {
            if k > 0 {
                assert(s.skip(1)[k - 1] == s[k]);
            }
        }
        if j + 1 < s.len() {
            assert(s.skip(1)[j] == s[j + 1]);
        }
        j + 1
    } else {
        assert(s.skip(0) =~= s);
        0
    }
}

proof fn lemma_trim_back(s: Seq<char>) -> (n: int)
    ensures
        0 <= n <= s.len(),
        trim_back(s) == s.take(n),
        forall|k: int| n <= k < s.len() ==> white(#[trigger] s[k]),
        n > 0 ==> !white(s[n - 1]),
    decreases s.len(),
{
    if s.len() > 0 && white(s.last()) {
        let m = lemma_trim_back(s.drop_last());
        assert(s.drop_last().take(m) =~= s.take(m));
        assert forall|k: int| m <= k < s.len() implies white(#[trigger] s[k]) by {
            if k < s.len() - 1 {
                assert(s.drop_last()[k] == s[k]);
            }
        }
        if m > 0 {
            assert(s.drop_last()[m - 1] == s[m - 1]);
        }
        m
    } else {
        assert(s.take(s.len() as int) =~= s);
        s.len() as int
    }
}

/// Trimming cuts blanks at both ends, all of them and nothing else: the rest begins and ends with
/// characters that are not blank.
pub proof fn law_only_blanks_are_trimmed(s: Seq<char>) -> (cut: (int, int))
    ensures
        0 <= cut.0 <= cut.1 <= s.len(),
        trimmed_of(s) == s.subrange(cut.0, cut.1),
        forall|k: int| 0 <= k < cut.0 ==> white(#[trigger] s[k]),
        forall|k: int| cut.1 <= k < s.len() ==> white(#[trigger] s[k]),
        cut.0 < cut.1 ==> !white(s[cut.0]) && !white(s[cut.1 - 1]),
{
    let i = lemma_trim_front(s);
    let front = s.skip(i);
    let n = lemma_trim_back(front);
    assert(front.take(n) =~= s.subrange(i, i + n));
    assert forall|k: int| i + n <= k < s.len() implies white(#[trigger] s[k]) by {
        assert(front[k - i] == s[k]);
    }
    if n > 0 {
        assert(front[n - 1] == s[i + n - 1]);
    }
    (i, i + n)
}

/// Only repetitions of the character are cut at the back, and all of them.
pub proof fn law_only_repetitions_are_cut(s: Seq<char>, c: char, k: int)
    ensures
        trim_end_of(s, c).len() <= s.len(),
        trim_end_of(s, c) == s.take(trim_end_of(s, c).len() as int),
        trim_end_of(s, c).len() <= k < s.len() ==> s[k] == c,
        trim_end_of(s, c).len() > 0 ==> trim_end_of(s, c).last() != c,
    decreases s.len(),
{
    if s.len() > 0 && s.last() == c {
        law_only_repetitions_are_cut(s.drop_last(), c, k);
        let n = trim_end_of(s, c).len() as int;
        assert(s.drop_last().take(n) =~= s.take(n));
        if n <= k < s.len() - 1 {
            assert(s.drop_last()[k] == s[k]);
        }
    } else {
        assert(s.take(s.len() as int) =~= s);
    }
}

/// A capital of the Latin alphabet becomes the letter 32 further on, and every other character
/// stays, each in its place.
pub proof fn law_only_capitals_change(s: Seq<char>, i: int)
    requires
        0 <= i < s.len(),
    ensures
        small_letters(s).len() == s.len(),
        65 <= s[i] as u32 <= 90 ==> small_letters(s)[i] as u32 == s[i] as u32 + 32,
        !(65 <= s[i] as u32 <= 90) ==> small_letters(s)[i] == s[i],
{
}

} // verus!
