use vstd::prelude::*;

verus! {

/// Collects the characters of a string slice.
pub fn chars_of(s: &str) -> (v: Vec<char>)
    ensures
        v@ == s@,
{
    let mut v: Vec<char> = Vec::new();
    for c in it: s.chars()
        invariant
            v@ == it.seq().take(it.index() as int),
            it.seq() == s@,
    {
        v.push(c);
    }
    v
}

/// Whether two character sequences are equal.
pub fn chars_eq(a: &[char], b: &[char]) -> (r: bool)
    ensures
        r == (a@ == b@),
{
    if a.len() != b.len() {
        return false;
    }
    let mut i: usize = 0;
    while i < a.len()
        invariant
            a@.len() == b@.len(),
            i <= a@.len(),
            forall|j: int| 0 <= j < i ==> a@[j] == b@[j],
        decreases a@.len() - i,
    {
        if a[i] != b[i] {
            return false;
        }
        i = i + 1;
    }
    proof {
        assert(a@ =~= b@);
    }
    true
}

/// Whether two strings are equal.
pub fn str_eq(a: &str, b: &str) -> (r: bool)
    ensures
        r == (a@ == b@),
{
    let ca = chars_of(a);
    let cb = chars_of(b);
    chars_eq(ca.as_slice(), cb.as_slice())
}

/// Whether the character has the Unicode property `White_Space`.
pub open spec fn is_whitespace(c: char) -> bool {
    ('\u{9}' <= c <= '\u{d}') || c == ' ' || c == '\u{85}' || c == '\u{a0}' || c == '\u{1680}'
        || ('\u{2000}' <= c <= '\u{200a}') || c == '\u{2028}' || c == '\u{2029}' || c
        == '\u{202f}' || c == '\u{205f}' || c == '\u{3000}'
}

pub fn is_whitespace_char(c: char) -> (r: bool)
    ensures
        r == is_whitespace(c),
{
    ('\u{9}' <= c && c <= '\u{d}') || c == ' ' || c == '\u{85}' || c == '\u{a0}' || c
        == '\u{1680}' || ('\u{2000}' <= c && c <= '\u{200a}') || c == '\u{2028}' || c
        == '\u{2029}' || c == '\u{202f}' || c == '\u{205f}' || c == '\u{3000}'
}

/// The position of the first character that is no whitespace (or the length).
pub open spec fn trim_start_pos(s: Seq<char>) -> int
    decreases s.len(),
{
    if s.len() == 0 {
        0
    } else if is_whitespace(s[0]) {
        1 + trim_start_pos(s.drop_first())
    } else {
        0
    }
}

/// The position behind the last character that is no whitespace (or zero).
pub open spec fn trim_end_pos(s: Seq<char>) -> int
    decreases s.len(),
{
    if s.len() == 0 {
        0
    } else if is_whitespace(s.last()) {
        trim_end_pos(s.drop_last())
    } else {
        s.len() as int
    }
}

/// The characters without leading and trailing whitespace.
pub open spec fn trim(s: Seq<char>) -> Seq<char> {
    if trim_start_pos(s) >= trim_end_pos(s) {
        Seq::empty()
    } else {
        s.subrange(trim_start_pos(s), trim_end_pos(s))
    }
}

proof fn lemma_trim_start_pos(s: Seq<char>)
    ensures
        0 <= trim_start_pos(s) <= s.len(),
        forall|i: int| 0 <= i < trim_start_pos(s) ==> is_whitespace(#[trigger] s[i]),
        trim_start_pos(s) < s.len() ==> !is_whitespace(s[trim_start_pos(s)]),
    decreases s.len(),
{
    if s.len() > 0 && is_whitespace(s[0]) {
        lemma_trim_start_pos(s.drop_first());
        assert forall|i: int| 0 <= i < trim_start_pos(s) implies is_whitespace(#[trigger] s[i]) by {
            if i > 0 {
                assert(s[i] == s.drop_first()[i - 1]);
            }
        }
    }
}

proof fn lemma_trim_end_pos(s: Seq<char>)
    ensures
        0 <= trim_end_pos(s) <= s.len(),
        forall|i: int| trim_end_pos(s) <= i < s.len() ==> is_whitespace(#[trigger] s[i]),
        trim_end_pos(s) > 0 ==> !is_whitespace(s[trim_end_pos(s) - 1]),
    decreases s.len(),
{
    if s.len() > 0 && is_whitespace(s.last()) {
        lemma_trim_end_pos(s.drop_last());
        assert forall|i: int| trim_end_pos(s) <= i < s.len() implies is_whitespace(#[trigger] s[i]) by {
            if i < s.len() - 1 {
                assert(s[i] == s.drop_last()[i]);
            }
        }
    }
}

/// The characters without leading and trailing whitespace.
pub fn trim_chars(s: &[char]) -> (r: Vec<char>)
    ensures
        r@ == trim(s@),
{
    proof {
        lemma_trim_start_pos(s@);
        lemma_trim_end_pos(s@);
    }
    let mut start: usize = 0;
    while start < s.len() && is_whitespace_char(s[start])
        invariant
            start <= s@.len(),
            forall|i: int| 0 <= i < start ==> is_whitespace(#[trigger] s@[i]),
            start <= trim_start_pos(s@),
            0 <= trim_start_pos(s@) <= s@.len(),
            trim_start_pos(s@) < s@.len() ==> !is_whitespace(s@[trim_start_pos(s@)]),
        decreases s@.len() - start,
    {
        start = start + 1;
    }
    let mut end: usize = s.len();
    while end > start && is_whitespace_char(s[end - 1])
        invariant
            start <= end <= s@.len(),
            start == trim_start_pos(s@) || start == s@.len(),
            forall|i: int| end <= i < s@.len() ==> is_whitespace(#[trigger] s@[i]),
            end >= trim_end_pos(s@),
            0 <= trim_end_pos(s@) <= s@.len(),
            trim_end_pos(s@) > 0 ==> !is_whitespace(s@[trim_end_pos(s@) - 1]),
            0 <= trim_start_pos(s@) <= s@.len(),
            trim_start_pos(s@) < s@.len() ==> !is_whitespace(s@[trim_start_pos(s@)]),
            forall|i: int| 0 <= i < trim_start_pos(s@) ==> is_whitespace(#[trigger] s@[i]),
        decreases end - start,
    {
        end = end - 1;
    }
    proof {
        if start < s@.len() {
            assert(start == trim_start_pos(s@));
        }
        if end < s@.len() && end > start {
            assert(!is_whitespace(s@[end - 1]));
        }
    }
    let mut r: Vec<char> = Vec::new();
    let mut i: usize = start;
    while i < end
        invariant
            start <= i <= end <= s@.len(),
            r@ == s@.subrange(start as int, i as int),
        decreases end - i,
    {
        r.push(s[i]);
        i = i + 1;
        proof {
            assert(r@ =~= s@.subrange(start as int, i as int));
        }
    }
    proof {
        if start >= end {
            assert(r@ =~= Seq::<char>::empty());
            if trim_start_pos(s@) < trim_end_pos(s@) {
                assert(start == trim_start_pos(s@) || start == s@.len());
            }
        } else {
            assert(start == trim_start_pos(s@));
            assert(end == trim_end_pos(s@));
        }
    }
    r
}

/// The ASCII-lowercase of a character.
pub open spec fn ascii_lower(c: char) -> char {
    if 'A' <= c <= 'Z' {
        ((c as u32) + 32) as char
    } else {
        c
    }
}

/// The characters, with ASCII-letters in lowercase.
pub fn to_ascii_lowercase(s: &[char]) -> (r: Vec<char>)
    ensures
        r@ == s@.map_values(|c: char| ascii_lower(c)),
{
    let mut r: Vec<char> = Vec::new();
    let mut i: usize = 0;
    while i < s.len()
        invariant
            i <= s@.len(),
            r@ == s@.take(i as int).map_values(|c: char| ascii_lower(c)),
        decreases s@.len() - i,
    {
        let c = s[i];
        let lower = if 'A' <= c && c <= 'Z' {
            let code: u32 = (c as u32) + 32;
            proof {
                assert(0x61 <= code <= 0x7a);
            }
            char_from_ascii_code(code)
        } else {
            c
        };
        r.push(lower);
        i = i + 1;
        proof {
            assert(r@ =~= s@.take(i as int).map_values(|c: char| ascii_lower(c)));
        }
    }
    proof {
        assert(s@.take(s@.len() as int) =~= s@);
    }
    r
}

/// The ASCII-character of a lowercase letter's code.
fn char_from_ascii_code(code: u32) -> (c: char)
    requires
        0x61 <= code <= 0x7a,
    ensures
        c == code as char,
{
    let b: u8 = code as u8;
    b as char
}

/// The first word (characters up to the first whitespace after any leading whitespace).
pub open spec fn first_word(s: Seq<char>) -> Seq<char>
    decreases s.len(),
{
    let t = s.subrange(trim_start_pos(s), s.len() as int);
    t.take(word_end(t))
}

/// The number of leading characters that are no whitespace.
pub open spec fn word_end(s: Seq<char>) -> int
    decreases s.len(),
{
    if s.len() == 0 || is_whitespace(s[0]) {
        0
    } else {
        1 + word_end(s.drop_first())
    }
}

/// The first word, if the characters are not all whitespace.
pub fn first_word_chars(s: &[char]) -> (r: Option<Vec<char>>)
    ensures
        r is Some <==> trim_start_pos(s@) < s@.len(),
        r matches Some(w) ==> w@ == first_word(s@) && w@.len() > 0,
{
    proof {
        lemma_trim_start_pos(s@);
    }
    let mut start: usize = 0;
    while start < s.len() && is_whitespace_char(s[start])
        invariant
            start <= s@.len(),
            forall|i: int| 0 <= i < start ==> is_whitespace(#[trigger] s@[i]),
            start <= trim_start_pos(s@),
            0 <= trim_start_pos(s@) <= s@.len(),
            trim_start_pos(s@) < s@.len() ==> !is_whitespace(s@[trim_start_pos(s@)]),
        decreases s@.len() - start,
    {
        start = start + 1;
    }
    if start >= s.len() {
        return None;
    }
    let ghost t = s@.subrange(start as int, s@.len() as int);
    let mut w: Vec<char> = Vec::new();
    let mut i: usize = start;
    while i < s.len() && !is_whitespace_char(s[i])
        invariant
            start <= i <= s@.len(),
            start == trim_start_pos(s@),
            t == s@.subrange(start as int, s@.len() as int),
            w@ == t.take(i - start),
            forall|j: int| 0 <= j < i - start ==> !is_whitespace(#[trigger] t[j]),
        decreases s@.len() - i,
    {
        w.push(s[i]);
        i = i + 1;
        proof {
            assert(w@ =~= t.take(i - start));
        }
    }
    proof {
        lemma_word_end(t, i - start);
        assert(t[0] == s@[start as int]);
    }
    Some(w)
}

/// The word ends at the first whitespace.
proof fn lemma_word_end(t: Seq<char>, k: int)
    requires
        0 <= k <= t.len(),
        forall|j: int| 0 <= j < k ==> !is_whitespace(#[trigger] t[j]),
        k == t.len() || is_whitespace(t[k]),
    ensures
        word_end(t) == k,
    decreases k,
{
    if k > 0 {
        lemma_word_end(t.drop_first(), k - 1);
    }
}

/// Appends the characters to each other.
pub fn concat_chars(a: &[char], b: &[char]) -> (r: Vec<char>)
    ensures
        r@ == a@ + b@,
{
    let mut r: Vec<char> = Vec::new();
    let mut i: usize = 0;
    while i < a.len()
        invariant
            i <= a@.len(),
            r@ == a@.take(i as int),
        decreases a@.len() - i,
    {
        r.push(a[i]);
        i = i + 1;
        proof {
            assert(r@ =~= a@.take(i as int));
        }
    }
    let mut j: usize = 0;
    while j < b.len()
        invariant
            j <= b@.len(),
            r@ == a@ + b@.take(j as int),
        decreases b@.len() - j,
    {
        r.push(b[j]);
        j = j + 1;
        proof {
            assert(r@ =~= a@ + b@.take(j as int));
        }
    }
    proof {
        assert(a@.take(a@.len() as int) =~= a@);
        assert(b@.take(b@.len() as int) =~= b@);
    }
    r
}

/// Whether the characters spell the given text.
pub fn is_text(s: &[char], text: &str) -> (r: bool)
    ensures
        r == (s@ == text@),
{
    let t = chars_of(text);
    chars_eq(s, t.as_slice())
}

/// The string of the given characters.
///
/// Calls `FromIterator<char>` of `String`, whose documentation says that it collects the
/// characters in order.
#[verifier::external_body]
pub(crate) fn string_from_chars(s: &[char]) -> (r: String)
    ensures
        r@ == s@,
{
    s.iter().collect()
}

pub proof fn lemma_word_end_bounds(s: Seq<char>)
    ensures
        0 <= word_end(s) <= s.len(),
        s.len() > 0 && !is_whitespace(s[0]) ==> word_end(s) >= 1,
    decreases s.len(),
{
    if s.len() > 0 && !is_whitespace(s[0]) {
        lemma_word_end_bounds(s.drop_first());
    }
}

/// The words of the text: the maximal runs of characters that are no whitespace.
pub open spec fn words(s: Seq<char>) -> Seq<Seq<char>>
    decreases s.len(),
{
    if s.len() == 0 {
        Seq::empty()
    } else if is_whitespace(s[0]) {
        words(s.drop_first())
    } else {
        let e = word_end(s);
        proof {
            lemma_word_end_bounds(s);
        }
        seq![s.take(e)] + words(s.skip(e))
    }
}

/// The words of the text, split at whitespace.
pub fn split_whitespace_chars(s: &[char]) -> (r: Vec<Vec<char>>)
    ensures
        r@.map_values(|w: Vec<char>| w@) == words(s@),
{
    let mut r: Vec<Vec<char>> = Vec::new();
    let mut i: usize = 0;
    proof {
        assert(s@.skip(0) =~= s@);
    }
    while i < s.len()
        invariant
            i <= s@.len(),
            words(s@) == r@.map_values(|w: Vec<char>| w@) + words(s@.skip(i as int)),
        decreases s@.len() - i,
    {
        if is_whitespace_char(s[i]) {
            proof {
                assert(s@.skip(i as int).drop_first() =~= s@.skip(i + 1));
            }
            i = i + 1;
        } else {
            let mut w: Vec<char> = Vec::new();
            let mut j: usize = i;
            while j < s.len() && !is_whitespace_char(s[j])
                invariant
                    i <= j <= s@.len(),
                    w@ == s@.subrange(i as int, j as int),
                    forall|k: int| i <= k < j ==> !is_whitespace(#[trigger] s@[k]),
                decreases s@.len() - j,
            {
                w.push(s[j]);
                j = j + 1;
                proof {
                    assert(w@ =~= s@.subrange(i as int, j as int));
                }
            }
            proof {
                let t = s@.skip(i as int);
                assert forall|k: int| 0 <= k < j - i implies !is_whitespace(#[trigger] t[k]) by {
                    assert(t[k] == s@[i + k]);
                }
                if j < s@.len() {
                    assert(t[j - i] == s@[j as int]);
                }
                lemma_word_end(t, j - i);
                assert(t.take(j - i) =~= w@);
                assert(t.skip(j - i) =~= s@.skip(j as int));
                let old_r = r@.map_values(|w: Vec<char>| w@);
                assert(words(t) == seq![w@] + words(s@.skip(j as int)));
            }
            let ghost old_r = r@;
            r.push(w);
            proof {
                assert(r@.map_values(|w: Vec<char>| w@) =~= old_r.map_values(|w: Vec<char>| w@).push(
                    s@.subrange(i as int, j as int),
                ));
            }
            i = j;
        }
    }
    proof {
        assert(s@.skip(i as int) =~= Seq::<char>::empty());
        assert(r@.map_values(|w: Vec<char>| w@) + Seq::<Seq<char>>::empty() =~= r@.map_values(|w: Vec<char>| w@));
    }
    r
}

} // verus!
