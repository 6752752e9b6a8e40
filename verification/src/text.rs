//! Text as sequences of characters: conversion, comparison and the small
//! pieces that parsing and printing share.
use vstd::prelude::*;

verus! {

/// `String::push` appends one character.
pub assume_specification[ std::string::String::push ](s: &mut std::string::String, c: char)
    ensures
        final(s)@ == old(s)@.push(c),
;

/// What `String::from_utf8_lossy` makes of a byte sequence.
pub uninterp spec fn lossy_text(bytes: Seq<u8>) -> Seq<char>;

/// `String::from_utf8_lossy`: the text of valid UTF-8 bytes. Invalid
/// sequences are replaced by U+FFFD; how many bytes each replacement covers
/// is left to the name.
#[verifier::external_body]
fn from_utf8_lossy(bytes: &[u8]) -> (text: String)
    ensures
        text@ == lossy_text(bytes@),
        vstd::utf8::valid_utf8(bytes@) ==> text@ == vstd::utf8::decode_utf8(bytes@),
{
    String::from_utf8_lossy(bytes).into_owned()
}

/// `String::from_utf8`: the text of valid UTF-8 bytes, an error for others.
#[verifier::external_body]
fn from_utf8(bytes: Vec<u8>) -> (text: Option<String>)
    ensures
        match text {
            Some(t) => vstd::utf8::valid_utf8(bytes@) && t@ == vstd::utf8::decode_utf8(bytes@),
            None => !vstd::utf8::valid_utf8(bytes@),
        },
{
    String::from_utf8(bytes).ok()
}

/// The text of bytes that are UTF-8, and of no others.
pub open spec fn strict_text(bytes: Seq<u8>) -> Option<Seq<char>> {
    if vstd::utf8::valid_utf8(bytes) {
        Some(vstd::utf8::decode_utf8(bytes))
    } else {
        None
    }
}

/// Decodes bytes as text, if they are UTF-8.
pub fn decode_strict(bytes: &[u8]) -> (text: Option<String>)
    ensures
        match text {
            Some(t) => strict_text(bytes@) == Some(t@),
            None => strict_text(bytes@) is None,
        },
{
    from_utf8(crate::bytes::copy_bytes(bytes))
}

/// The text that bytes stand for: their UTF-8 decoding where they have one,
/// a lossy one otherwise.
pub open spec fn text_of(bytes: Seq<u8>) -> Seq<char> {
    if vstd::utf8::valid_utf8(bytes) {
        vstd::utf8::decode_utf8(bytes)
    } else {
        lossy_text(bytes)
    }
}

/// Decodes bytes as text, replacing what is not UTF-8.
pub fn decode_text(bytes: &[u8]) -> (text: String)
    ensures
        text@ == text_of(bytes@),
{
    from_utf8_lossy(bytes)
}

/// Text written as UTF-8 decodes to itself.
pub proof fn law_text_round_trip(text: Seq<char>)
    ensures
        text_of(vstd::utf8::encode_utf8(text)) == text,
{
    vstd::utf8::encode_utf8_valid_utf8(text);
    vstd::utf8::encode_utf8_decode_utf8(text);
}

/// The characters of a string.
pub fn chars_of(text: &str) -> (chars: Vec<char>)
    ensures
        chars@ == text@,
{
    let mut chars: Vec<char> = Vec::new();
    for c in iter: text.chars()
        invariant
            iter.seq() == text@,
            chars@ == text@.take(iter.index() as int),
    {
        chars.push(c);
        assert(chars@ =~= text@.take(iter.index() + 1));
    }
    assert(text@.take(text@.len() as int) =~= text@);
    chars
}

/// The string of a run of characters.
pub fn text_between(chars: &[char], from: usize, to: usize) -> (text: String)
    requires
        from <= to <= chars@.len(),
    ensures
        text@ == chars@.subrange(from as int, to as int),
{
    let mut text = String::new();
    let mut i: usize = from;
    while i < to
        invariant
            from <= i <= to <= chars@.len(),
            text@ == chars@.subrange(from as int, i as int),
        decreases to - i,
    {
        text.push(chars[i]);
        i += 1;
        assert(text@ =~= chars@.subrange(from as int, i as int));
    }
    text
}

/// The string of a sequence of characters.
pub fn string_of(chars: &[char]) -> (text: String)
    ensures
        text@ == chars@,
{
    let text = text_between(chars, 0, chars.len());
    assert(chars@.subrange(0, chars@.len() as int) =~= chars@);
    text
}

/// Appends `more` to `text`.
pub fn push_text(text: &mut String, more: &str)
    ensures
        final(text)@ == old(text)@ + more@,
{
    text.append(more);
}

/// Whether two texts are the same.
pub fn same_text(a: &str, b: &str) -> (same: bool)
    ensures
        same == (a@ == b@),
{
    let x = chars_of(a);
    let y = chars_of(b);
    if x.len() != y.len() {
        return false;
    }
    let mut i: usize = 0;
    while i < x.len()
        invariant
            i <= x@.len(),
            x@.len() == y@.len(),
            x@ == a@,
            y@ == b@,
            forall|k: int| 0 <= k < i ==> x@[k] == y@[k],
        decreases x@.len() - i,
    {
        if x[i] != y[i] {
            return false;
        }
        i += 1;
    }
    assert(x@ =~= y@);
    true
}

/// Text order: the first differing character decides, and a prefix comes
/// first. Code points order as their UTF-8 bytes do.
pub open spec fn text_before(a: Seq<char>, b: Seq<char>) -> bool
    decreases a.len(),
{
    if b.len() == 0 {
        false
    } else if a.len() == 0 {
        true
    } else if a[0] != b[0] {
        (a[0] as int) < (b[0] as int)
    } else {
        text_before(a.skip(1), b.skip(1))
    }
}

/// Text order is a strict total order.
pub proof fn lemma_text_order(a: Seq<char>, b: Seq<char>)
    ensures
        !text_before(a, a),
        text_before(a, b) ==> !text_before(b, a),
        a != b ==> text_before(a, b) || text_before(b, a),
    decreases a.len(),
{
    if a.len() == 0 {
        if b.len() == 0 {
            assert(a =~= b);
        }
    } else if b.len() > 0 {
        lemma_text_order(a.skip(1), b.skip(1));
        if a[0] == b[0] && a.skip(1) == b.skip(1) {
            assert(a =~= seq![a[0]] + a.skip(1));
            assert(b =~= seq![b[0]] + b.skip(1));
        }
        if a[0] != b[0] {
            assert(a[0] as int != b[0] as int);
        }
    } else {
        lemma_text_order(a.skip(1), a.skip(1));
    }
}

/// Text order is transitive.
pub proof fn lemma_text_order_transitive(a: Seq<char>, b: Seq<char>, c: Seq<char>)
    requires
        text_before(a, b),
        text_before(b, c),
    ensures
        text_before(a, c),
    decreases a.len(),
{
    if a.len() > 0 && b.len() > 0 && c.len() > 0 {
        if a[0] == b[0] && b[0] == c[0] {
            lemma_text_order_transitive(a.skip(1), b.skip(1), c.skip(1));
        }
    }
}

/// Whether `a` comes before `b` in text order.
pub fn is_before(a: &str, b: &str) -> (before: bool)
    ensures
        before == text_before(a@, b@),
{
    let x = chars_of(a);
    let y = chars_of(b);
    let mut i: usize = 0;
    assert(x@.skip(0) =~= x@);
    assert(y@.skip(0) =~= y@);
    loop
        invariant
            i <= x@.len(),
            i <= y@.len(),
            a@ == x@,
            b@ == y@,
            text_before(a@, b@) == text_before(x@.skip(i as int), y@.skip(i as int)),
        decreases x@.len() - i,
    {
        if i >= y.len() {
            return false;
        }
        if i >= x.len() {
            return true;
        }
        if x[i] != y[i] {
            return x[i] < y[i];
        }
        assert(x@.skip(i as int).skip(1) =~= x@.skip(i + 1));
        assert(y@.skip(i as int).skip(1) =~= y@.skip(i + 1));
        i += 1;
    }
}

/// Whether a character is white space (the Unicode property).
pub open spec fn white(c: char) -> bool {
    let code = c as int;
    ||| 0x09 <= code <= 0x0D
    ||| code == 0x20
    ||| code == 0x85
    ||| code == 0xA0
    ||| code == 0x1680
    ||| 0x2000 <= code <= 0x200A
    ||| code == 0x2028
    ||| code == 0x2029
    ||| code == 0x202F
    ||| code == 0x205F
    ||| code == 0x3000
}

/// Whether a character is white space.
pub fn is_white(c: char) -> (result: bool)
    ensures
        result == white(c),
{
    let code: u32 = c as u32;
    (0x09 <= code && code <= 0x0D) || code == 0x20 || code == 0x85 || code == 0xA0 || code == 0x1680
        || (0x2000 <= code && code <= 0x200A) || code == 0x2028 || code == 0x2029 || code == 0x202F
        || code == 0x205F || code == 0x3000
}

/// Text without the white space at its start.
pub open spec fn trimmed_start(s: Seq<char>) -> Seq<char>
    decreases s.len(),
{
    if s.len() > 0 && white(s[0]) {
        trimmed_start(s.skip(1))
    } else {
        s
    }
}

/// Text without the white space at its end.
pub open spec fn trimmed_end(s: Seq<char>) -> Seq<char>
    decreases s.len(),
{
    if s.len() > 0 && white(s.last()) {
        trimmed_end(s.drop_last())
    } else {
        s
    }
}

/// Text without the white space around it.
pub open spec fn trimmed(s: Seq<char>) -> Seq<char> {
    trimmed_start(trimmed_end(s))
}

/// Trimming does not lengthen.
pub proof fn lemma_trimmed_len(s: Seq<char>)
    ensures
        trimmed(s).len() <= s.len(),
{
    lemma_trimmed_end_len(s);
    lemma_trimmed_start_len(trimmed_end(s));
}

/// Trimming the end does not lengthen.
pub proof fn lemma_trimmed_end_len(s: Seq<char>)
    ensures
        trimmed_end(s).len() <= s.len(),
    decreases s.len(),
{
    if s.len() > 0 && white(s.last()) {
        lemma_trimmed_end_len(s.drop_last());
    }
}

/// Trimming the start does not lengthen.
pub proof fn lemma_trimmed_start_len(s: Seq<char>)
    ensures
        trimmed_start(s).len() <= s.len(),
    decreases s.len(),
{
    if s.len() > 0 && white(s[0]) {
        lemma_trimmed_start_len(s.skip(1));
    }
}

/// Where the text of `chars` ends before its trailing white space.
fn content_end(chars: &[char], from: usize) -> (end: usize)
    requires
        from <= chars@.len(),
    ensures
        from <= end <= chars@.len(),
        chars@.subrange(from as int, end as int) == trimmed_end(chars@.skip(from as int)),
{
    let mut end: usize = chars.len();
    assert(chars@.subrange(from as int, end as int) =~= chars@.skip(from as int));
    while end > from && is_white(chars[end - 1])
        invariant
            from <= end <= chars@.len(),
            trimmed_end(chars@.subrange(from as int, end as int)) == trimmed_end(
                chars@.skip(from as int),
            ),
        decreases end,
    {
        assert(chars@.subrange(from as int, end as int).drop_last() =~= chars@.subrange(
            from as int,
            end - 1,
        ));
        end = end - 1;
    }
    end
}

/// Where the text of `chars[..end]` starts behind its leading white space.
fn content_start(chars: &[char], end: usize) -> (start: usize)
    requires
        end <= chars@.len(),
    ensures
        start <= end,
        chars@.subrange(start as int, end as int) == trimmed_start(chars@.take(end as int)),
{
    let mut start: usize = 0;
    assert(chars@.subrange(0, end as int) =~= chars@.take(end as int));
    while start < end && is_white(chars[start])
        invariant
            start <= end <= chars@.len(),
            trimmed_start(chars@.subrange(start as int, end as int)) == trimmed_start(
                chars@.take(end as int),
            ),
        decreases end - start,
    {
        assert(chars@.subrange(start as int, end as int).skip(1) =~= chars@.subrange(
            start + 1,
            end as int,
        ));
        start = start + 1;
    }
    start
}

/// The text without the white space around it.
pub fn trim(text: &str) -> (result: String)
    ensures
        result@ == trimmed(text@),
{
    let chars = chars_of(text);
    let end: usize = content_end(&chars, 0);
    let start: usize = content_start(&chars, end);
    assert(chars@.skip(0) =~= chars@);
    assert(chars@.subrange(0, end as int) =~= chars@.take(end as int));
    text_between(&chars, start, end)
}

/// The text without the white space at its end.
pub fn trim_end(text: &str) -> (result: String)
    ensures
        result@ == trimmed_end(text@),
{
    let chars = chars_of(text);
    let end: usize = content_end(&chars, 0);
    assert(chars@.skip(0) =~= chars@);
    text_between(&chars, 0, end)
}

/// The text without the white space at its start.
pub fn trim_start(text: &str) -> (result: String)
    ensures
        result@ == trimmed_start(text@),
{
    let chars = chars_of(text);
    let start: usize = content_start(&chars, chars.len());
    assert(chars@.take(chars@.len() as int) =~= chars@);
    text_between(&chars, start, chars.len())
}

/// Where a character first occurs.
pub open spec fn first_index(s: Seq<char>, c: char) -> Option<int>
    decreases s.len(),
{
    if s.len() == 0 {
        None
    } else if s[0] == c {
        Some(0)
    } else {
        match first_index(s.skip(1), c) {
            Some(i) => Some(i + 1),
            None => None,
        }
    }
}

/// The first occurrence is an occurrence, and there is none before it.
pub proof fn lemma_first_index(s: Seq<char>, c: char)
    ensures
        first_index(s, c) matches Some(i) ==> 0 <= i < s.len() && s[i] == c && forall|k: int|
            0 <= k < i ==> s[k] != c,
        first_index(s, c) is None <==> !s.contains(c),
    decreases s.len(),
{
    if s.len() > 0 {
        lemma_first_index(s.skip(1), c);
        if s[0] != c {
            if let Some(i) = first_index(s.skip(1), c) {
                assert forall|k: int| 0 <= k < i + 1 implies s[k] != c by {
                    if k > 0 {
                        assert(s[k] == s.skip(1)[k - 1]);
                    }
                }
                assert(s[i + 1] == c);
            } else {
                assert forall|k: int| 0 <= k < s.len() implies s[k] != c by {
                    if k > 0 {
                        assert(s[k] == s.skip(1)[k - 1]);
                        assert(s.skip(1).contains(s.skip(1)[k - 1]));
                    }
                }
            }
        }
    }
}

/// The pieces of a text between the occurrences of a separator.
pub open spec fn pieces(s: Seq<char>, separator: char) -> Seq<Seq<char>>
    decreases s.len(),
{
    match first_index(s, separator) {
        None => seq![s],
        Some(i) => if 0 <= i < s.len() {
            seq![s.take(i)] + pieces(s.skip(i + 1), separator)
        } else {
            seq![s]
        },
    }
}

/// What the strings of a vector hold.
pub open spec fn texts(strings: Seq<String>) -> Seq<Seq<char>> {
    strings.map_values(|text: String| text@)
}

/// Where a character first occurs at or behind `from`.
fn find_from(chars: &[char], from: usize, c: char) -> (found: Option<usize>)
    requires
        from <= chars@.len(),
    ensures
        match found {
            Some(i) => from <= i < chars.len() && first_index(chars@.skip(from as int), c) == Some(
                i - from,
            ),
            None => first_index(chars@.skip(from as int), c) is None,
        },
{
    let mut i: usize = from;
    while i < chars.len()
        invariant
            from <= i <= chars@.len(),
            first_index(chars@.skip(from as int), c) == (match first_index(
                chars@.skip(i as int),
                c,
            ) {
                Some(k) => Some(k + (i - from)),
                None => None,
            }),
        decreases chars@.len() - i,
    {
        assert(chars@.skip(i as int)[0] == chars@[i as int]);
        assert(chars@.skip(i as int).skip(1) =~= chars@.skip(i + 1));
        if chars[i] == c {
            return Some(i);
        }
        i += 1;
    }
    None
}

/// The pieces of a text between the occurrences of a separator.
pub fn split(text: &str, separator: char) -> (result: Vec<String>)
    ensures
        texts(result@) == pieces(text@, separator),
        result@.len() >= 1,
{
    let chars = chars_of(text);
    let mut result: Vec<String> = Vec::new();
    let mut from: usize = 0;
    assert(chars@.skip(0) =~= chars@);
    assert(texts(result@) + pieces(chars@, separator) =~= pieces(text@, separator));
    loop
        invariant
            from <= chars@.len(),
            texts(result@) + pieces(chars@.skip(from as int), separator) == pieces(
                text@,
                separator,
            ),
        decreases chars@.len() - from,
    {
        let ghost before = texts(result@);
        let ghost rest = chars@.skip(from as int);
        match find_from(&chars, from, separator) {
            None => {
                let piece = text_between(&chars, from, chars.len());
                assert(piece@ =~= rest);
                result.push(piece);
                assert(texts(result@) =~= before + seq![rest]);
                return result;
            },
            Some(i) => {
                let piece = text_between(&chars, from, i);
                assert(piece@ =~= rest.take(i - from));
                assert(rest.skip(i - from + 1) =~= chars@.skip(i + 1));
                result.push(piece);
                assert(texts(result@) =~= before + seq![rest.take(i - from)]);
                assert(texts(result@) + pieces(chars@.skip(i + 1), separator) =~= before + pieces(
                    rest,
                    separator,
                ));
                from = i + 1;
            },
        }
    }
}

/// A line without the carriage return at its end.
pub open spec fn without_return(line: Seq<char>) -> Seq<char> {
    if line.len() > 0 && line.last() == '\r' {
        line.drop_last()
    } else {
        line
    }
}

/// The lines of a text: each ends at a line feed, or at a carriage return and
/// a line feed; the last may end with the text.
pub open spec fn lines_of(s: Seq<char>) -> Seq<Seq<char>>
    decreases s.len(),
{
    match first_index(s, '\n') {
        None => if s.len() == 0 {
            Seq::empty()
        } else {
            seq![s]
        },
        Some(i) => if 0 <= i < s.len() {
            seq![without_return(s.take(i))] + lines_of(s.skip(i + 1))
        } else {
            seq![s]
        },
    }
}

/// The lines of a text.
pub fn split_lines(text: &str) -> (result: Vec<String>)
    ensures
        texts(result@) == lines_of(text@),
{
    let chars = chars_of(text);
    let mut result: Vec<String> = Vec::new();
    let mut from: usize = 0;
    assert(chars@.skip(0) =~= chars@);
    assert(texts(result@) + lines_of(chars@) =~= lines_of(text@));
    loop
        invariant
            from <= chars@.len(),
            texts(result@) + lines_of(chars@.skip(from as int)) == lines_of(text@),
        decreases chars@.len() - from,
    {
        let ghost before = texts(result@);
        let ghost rest = chars@.skip(from as int);
        match find_from(&chars, from, '\n') {
            None => {
                if from < chars.len() {
                    let line = text_between(&chars, from, chars.len());
                    assert(line@ =~= rest);
                    result.push(line);
                    assert(texts(result@) =~= before + seq![rest]);
                } else {
                    assert(texts(result@) =~= before + Seq::<Seq<char>>::empty());
                }
                return result;
            },
            Some(i) => {
                let to: usize = if i > from && chars[i - 1] == '\r' {
                    i - 1
                } else {
                    i
                };
                let line = text_between(&chars, from, to);
                assert(line@ =~= without_return(rest.take(i - from)));
                assert(rest.skip(i - from + 1) =~= chars@.skip(i + 1));
                result.push(line);
                assert(texts(result@) =~= before + seq![line@]);
                assert(texts(result@) + lines_of(chars@.skip(i + 1)) =~= before + lines_of(rest));
                from = i + 1;
            },
        }
    }
}

/// The text before and behind the first occurrence of a separator.
pub fn split_once(text: &str, separator: char) -> (result: Option<(String, String)>)
    ensures
        match result {
            Some((front, back)) => first_index(text@, separator) matches Some(i) && front@
                == text@.take(i) && back@ == text@.skip(i + 1),
            None => first_index(text@, separator) is None,
        },
{
    let chars = chars_of(text);
    assert(chars@.skip(0) =~= chars@);
    match find_from(&chars, 0, separator) {
        None => None,
        Some(i) => {
            let front = text_between(&chars, 0, i);
            let back = text_between(&chars, i + 1, chars.len());
            assert(front@ =~= text@.take(i as int));
            assert(back@ =~= text@.skip(i + 1));
            Some((front, back))
        },
    }
}

/// Whether a character occurs in a text.
pub fn contains_char(text: &str, c: char) -> (result: bool)
    ensures
        result == text@.contains(c),
{
    let chars = chars_of(text);
    assert(chars@.skip(0) =~= chars@);
    proof {
        lemma_first_index(text@, c);
    }
    match find_from(&chars, 0, c) {
        Some(_) => true,
        None => false,
    }
}

/// Whether a text starts with a character.
pub fn starts_with_char(text: &str, c: char) -> (result: bool)
    ensures
        result == (text@.len() > 0 && text@[0] == c),
{
    let chars = chars_of(text);
    chars.len() > 0 && chars[0] == c
}

/// The text between two marks, if it starts with one and ends with the
/// other.
pub open spec fn between_marks(s: Seq<char>, open_mark: char, close_mark: char) -> Option<
    Seq<char>,
> {
    if s.len() >= 2 && s[0] == open_mark && s.last() == close_mark {
        Some(s.subrange(1, s.len() - 1))
    } else {
        None
    }
}

/// The text between two marks, if it starts with one and ends with the
/// other.
pub fn strip_marks(text: &str, open_mark: char, close_mark: char) -> (result: Option<String>)
    ensures
        match result {
            Some(inner) => between_marks(text@, open_mark, close_mark) == Some(inner@),
            None => between_marks(text@, open_mark, close_mark) is None,
        },
{
    let chars = chars_of(text);
    if chars.len() >= 2 && chars[0] == open_mark && chars[chars.len() - 1] == close_mark {
        Some(text_between(&chars, 1, chars.len() - 1))
    } else {
        None
    }
}

/// The words of a text: its longest runs without white space.
pub open spec fn words(s: Seq<char>) -> Seq<Seq<char>>
    decreases s.len(),
{
    if s.len() == 0 {
        Seq::empty()
    } else if white(s[0]) {
        words(s.skip(1))
    } else {
        let n = word_len(s);
        if 0 < n <= s.len() {
            seq![s.take(n as int)] + words(s.skip(n as int))
        } else {
            Seq::empty()
        }
    }
}

/// How many characters stand before the first white space.
pub open spec fn word_len(s: Seq<char>) -> nat
    decreases s.len(),
{
    if s.len() == 0 || white(s[0]) {
        0
    } else {
        1 + word_len(s.skip(1))
    }
}

proof fn lemma_word_len(s: Seq<char>)
    ensures
        word_len(s) <= s.len(),
    decreases s.len(),
{
    if s.len() > 0 && !white(s[0]) {
        lemma_word_len(s.skip(1));
    }
}

/// The words of a text.
pub fn split_words(text: &str) -> (result: Vec<String>)
    ensures
        texts(result@) == words(text@),
{
    let chars = chars_of(text);
    let mut result: Vec<String> = Vec::new();
    let mut i: usize = 0;
    assert(chars@.skip(0) =~= chars@);
    assert(texts(result@) + words(chars@) =~= words(text@));
    while i < chars.len()
        invariant
            i <= chars@.len(),
            texts(result@) + words(chars@.skip(i as int)) == words(text@),
        decreases chars@.len() - i,
    {
        let ghost rest = chars@.skip(i as int);
        assert(rest[0] == chars@[i as int]);
        if is_white(chars[i]) {
            assert(rest.skip(1) =~= chars@.skip(i + 1));
            i += 1;
        } else {
            let start: usize = i;
            assert(rest =~= chars@.skip(start as int));
            while i < chars.len() && !is_white(chars[i])
                invariant
                    start <= i <= chars@.len(),
                    rest == chars@.skip(start as int),
                    word_len(rest) == (i - start) + word_len(chars@.skip(i as int)),
                decreases chars@.len() - i,
            {
                assert(chars@.skip(i as int)[0] == chars@[i as int]);
                assert(chars@.skip(i as int).skip(1) =~= chars@.skip(i + 1));
                i += 1;
            }
            proof {
                lemma_word_len(rest);
                if i < chars@.len() {
                    assert(chars@.skip(i as int)[0] == chars@[i as int]);
                }
            }
            let ghost before = texts(result@);
            let word = text_between(&chars, start, i);
            assert(word@ =~= rest.take(i - start));
            assert(rest.skip(i - start) =~= chars@.skip(i as int));
            result.push(word);
            assert(texts(result@) =~= before + seq![rest.take(i - start)]);
            assert(texts(result@) + words(chars@.skip(i as int)) =~= before + words(rest));
        }
    }
    assert(words(chars@.skip(i as int)) =~= Seq::<Seq<char>>::empty());
    assert(texts(result@) + words(chars@.skip(i as int)) =~= texts(result@));
    result
}

/// Whether a character is a decimal digit.
pub open spec fn digit(c: char) -> bool {
    0x30 <= c as int <= 0x39
}

/// The number that decimal digits spell, most significant first.
pub open spec fn decimal(s: Seq<char>) -> int
    decreases s.len(),
{
    if s.len() == 0 {
        0
    } else {
        decimal(s.drop_last()) * 10 + (s.last() as int - 0x30)
    }
}

/// Whether a text is one or more decimal digits.
pub open spec fn all_digits(s: Seq<char>) -> bool {
    s.len() > 0 && forall|i: int| 0 <= i < s.len() ==> digit(#[trigger] s[i])
}

/// The number that a text spells: digits behind an optional sign.
pub open spec fn signed_number(s: Seq<char>) -> Option<int> {
    if all_digits(s) {
        Some(decimal(s))
    } else if s.len() > 0 && s[0] == '-' && all_digits(s.skip(1)) {
        Some(-decimal(s.skip(1)))
    } else if s.len() > 0 && s[0] == '+' && all_digits(s.skip(1)) {
        Some(decimal(s.skip(1)))
    } else {
        None
    }
}

/// The 64-bit integer that a text spells.
pub open spec fn integer_of(s: Seq<char>) -> Option<i64> {
    match signed_number(s) {
        Some(n) => if i64::MIN <= n <= i64::MAX {
            Some(n as i64)
        } else {
            None
        },
        None => None,
    }
}

/// The value of a decimal digit.
pub fn digit_value(c: char) -> (value: Option<u64>)
    ensures
        match value {
            Some(d) => digit(c) && d == c as int - 0x30,
            None => !digit(c),
        },
{
    let code: u32 = c as u32;
    if 0x30 <= code && code <= 0x39 {
        Some((code - 0x30) as u64)
    } else {
        None
    }
}

/// The digits from `from` on as a number, capped one past 2^63; `None` where
/// they are not all digits or there is none.
fn digits_value(chars: &[char], from: usize) -> (result: Option<u64>)
    requires
        from <= chars@.len(),
    ensures
        match result {
            Some(value) => {
                &&& all_digits(chars@.skip(from as int))
                &&& value <= 0x8000_0000_0000_0001
                &&& value <= 0x8000_0000_0000_0000 ==> value == decimal(chars@.skip(from as int))
                &&& value > 0x8000_0000_0000_0000 ==> decimal(chars@.skip(from as int))
                    > 0x8000_0000_0000_0000
            },
            None => !all_digits(chars@.skip(from as int)),
        },
{
    let ghost digits = chars@.skip(from as int);
    if from == chars.len() {
        return None;
    }
    let mut value: u64 = 0;
    let mut i: usize = from;
    assert(digits.take(0) =~= Seq::<char>::empty());
    while i < chars.len()
        invariant
            from <= i <= chars@.len(),
            digits == chars@.skip(from as int),
            forall|k: int| 0 <= k < i - from ==> digit(#[trigger] digits[k]),
            value <= 0x8000_0000_0000_0001,
            value <= 0x8000_0000_0000_0000 ==> value == decimal(digits.take(i - from)),
            value > 0x8000_0000_0000_0000 ==> decimal(digits.take(i - from))
                > 0x8000_0000_0000_0000,
        decreases chars@.len() - i,
    {
        assert(digits[i - from] == chars@[i as int]);
        let d: u64 = match digit_value(chars[i]) {
            Some(d) => d,
            None => {
                return None;
            },
        };
        let ghost longer = digits.take(i - from + 1);
        assert(longer.drop_last() =~= digits.take(i - from));
        assert(longer.last() == chars@[i as int]);
        if value > 0x0CCC_CCCC_CCCC_CCCC || value * 10 + d > 0x8000_0000_0000_0000 {
            value = 0x8000_0000_0000_0001;
        } else {
            value = value * 10 + d;
        }
        i += 1;
    }
    assert(digits.take(digits.len() as int) =~= digits);
    Some(value)
}

/// Parses a 64-bit integer: digits behind an optional sign, in range.
pub fn parse_i64(text: &str) -> (result: Option<i64>)
    ensures
        result == integer_of(text@),
{
    let chars = chars_of(text);
    if chars.len() == 0 {
        return None;
    }
    assert(chars@.skip(0) =~= chars@);
    if chars[0] == '-' {
        assert(!digit(chars@[0]));
        match digits_value(&chars, 1) {
            None => None,
            Some(value) => if value < 0x8000_0000_0000_0000 {
                Some(-(value as i64))
            } else if value == 0x8000_0000_0000_0000 {
                Some(i64::MIN)
            } else {
                None
            },
        }
    } else {
        let from: usize = if chars[0] == '+' {
            1
        } else {
            0
        };
        assert(from == 1 ==> !digit(chars@[0]));
        match digits_value(&chars, from) {
            None => None,
            Some(value) => if value < 0x8000_0000_0000_0000 {
                Some(value as i64)
            } else {
                None
            },
        }
    }
}

/// The decimal digits of a number.
pub open spec fn decimal_text(n: nat) -> Seq<char>
    decreases n,
{
    if n < 10 {
        seq![(0x30 + n) as char]
    } else {
        decimal_text(n / 10).push((0x30 + n % 10) as char)
    }
}

/// The decimal digits of a number read as the number.
pub proof fn law_decimal_round_trip(n: nat)
    ensures
        decimal(decimal_text(n)) == n,
        all_digits(decimal_text(n)),
    decreases n,
{
    let c = (0x30 + n % 10) as char;
    if n < 10 {
        let text = seq![(0x30 + n) as char];
        assert(text.drop_last() =~= Seq::<char>::empty());
        assert(decimal(text.drop_last()) == 0);
    } else {
        law_decimal_round_trip(n / 10);
        let front = decimal_text(n / 10);
        assert(front.push(c).drop_last() =~= front);
        assert forall|i: int| 0 <= i < front.push(c).len() implies digit(
            #[trigger] front.push(c)[i],
        ) by {
            if i < front.len() {
                assert(digit(front[i]));
            }
        }
    }
}

/// The decimal digits of a number, behind a minus sign where it is negative.
pub open spec fn integer_text(n: int) -> Seq<char> {
    if n < 0 {
        seq!['-'] + decimal_text((-n) as nat)
    } else {
        decimal_text(n as nat)
    }
}

/// The digits of a 64-bit integer, behind its sign, read as the integer.
pub proof fn law_integer_round_trip(n: i64)
    ensures
        integer_of(integer_text(n as int)) == Some(n),
{
    if n < 0 {
        let digits = decimal_text((-n) as nat);
        law_decimal_round_trip((-n) as nat);
        let text = seq!['-'] + digits;
        assert(text.skip(1) =~= digits);
        assert(!digit(text[0]));
    } else {
        law_decimal_round_trip(n as nat);
    }
}

/// A digit's character.
fn digit_char(d: u8) -> (c: char)
    requires
        d < 10,
    ensures
        c == (0x30 + d) as char,
{
    (0x30 + d) as char
}

/// Appends the decimal digits of a number.
pub fn push_decimal(text: &mut String, n: u64)
    ensures
        final(text)@ == old(text)@ + decimal_text(n as nat),
    decreases n,
{
    if n >= 10 {
        push_decimal(text, n / 10);
    }
    text.push(digit_char((n % 10) as u8));
    assert(text@ =~= old(text)@ + decimal_text(n as nat));
}

/// Appends a wide number in decimal.
pub fn push_wide_decimal(text: &mut String, n: u128)
    ensures
        final(text)@ == old(text)@ + decimal_text(n as nat),
    decreases n,
{
    if n >= 10 {
        push_wide_decimal(text, n / 10);
    }
    text.push(digit_char((n % 10) as u8));
    assert(text@ =~= old(text)@ + decimal_text(n as nat));
}

/// Appends an integer in decimal.
pub fn push_integer(text: &mut String, n: i64)
    ensures
        final(text)@ == old(text)@ + integer_text(n as int),
{
    if n < 0 {
        text.push('-');
        let magnitude: u64 = if n == i64::MIN {
            0x8000_0000_0000_0000
        } else {
            (-n) as u64
        };
        push_decimal(text, magnitude);
        assert(text@ =~= old(text)@ + integer_text(n as int));
    } else {
        push_decimal(text, n as u64);
    }
}

} // verus!
