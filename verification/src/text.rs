//! Text: UTF-16 conversion, ASCII case folding, trimming, splitting and decimal numbers.
//!
//! Strings are modelled by the sequence of their characters; names coming from the file
//! system are sequences of UTF-16 units.

use vstd::prelude::*;
use vstd::slice::slice_subrange;

verus! {

/// `String::push` appends one character to the end of the string.
pub assume_specification[ String::push ](s: &mut String, c: char)
    ensures
        final(s)@ == old(s)@.push(c),
;

/// `char::from_u32` yields the character with the given code point, and `None` exactly for the
/// numbers that are no Unicode scalar value.
pub assume_specification[ char::from_u32 ](i: u32) -> (r: Option<char>)
    ensures
        r is Some <==> (i <= 0xD7FF || 0xE000 <= i <= 0x10FFFF),
        r matches Some(c) ==> c as int == i,
;

/// The character that stands for an unpaired surrogate.
pub const REPLACEMENT: char = '\u{FFFD}';

pub open spec fn is_high_surrogate(u: u16) -> bool {
    0xD800 <= u <= 0xDBFF
}

pub open spec fn is_low_surrogate(u: u16) -> bool {
    0xDC00 <= u <= 0xDFFF
}

/// The character encoded by a surrogate pair.
pub open spec fn pair_char(high: u16, low: u16) -> char {
    (0x10000 + (high - 0xD800) * 0x400 + (low - 0xDC00)) as char
}

/// The UTF-16 units of one character.
pub open spec fn utf16_units(c: char) -> Seq<u16> {
    if c as int <= 0xFFFF {
        seq![(c as int) as u16]
    } else {
        seq![
            (0xD800 + (c as int - 0x10000) / 0x400) as u16,
            (0xDC00 + (c as int - 0x10000) % 0x400) as u16,
        ]
    }
}

/// The UTF-16 encoding of a text.
pub open spec fn utf16(s: Seq<char>) -> Seq<u16>
    decreases s.len(),
{
    if s.len() == 0 {
        seq![]
    } else {
        utf16(s.drop_last()) + utf16_units(s.last())
    }
}

/// The text that a sequence of UTF-16 units stands for, unpaired surrogates replaced.
pub open spec fn utf16_lossy(u: Seq<u16>) -> Seq<char>
    decreases u.len(),
{
    if u.len() == 0 {
        seq![]
    } else if is_high_surrogate(u[0]) && u.len() >= 2 && is_low_surrogate(u[1]) {
        seq![pair_char(u[0], u[1])] + utf16_lossy(u.skip(2))
    } else if is_high_surrogate(u[0]) || is_low_surrogate(u[0]) {
        seq![REPLACEMENT] + utf16_lossy(u.skip(1))
    } else {
        seq![u[0] as char] + utf16_lossy(u.skip(1))
    }
}

/// The characters of a string.
pub fn chars_of(s: &str) -> (r: Vec<char>)
    ensures
        r@ == s@,
{
    let mut out: Vec<char> = Vec::new();
    for c in it: s.chars()
        invariant
            it.seq() == s@,
            out@ == it.seq().take(it.index()),
    {
        out.push(c);
    }
    out
}

/// The string of the given characters.
pub fn string_of(chars: &[char]) -> (r: String)
    ensures
        r@ == chars@,
{
    let mut out = String::new();
    for i in 0..chars.len()
        invariant
            out@ == chars@.take(i as int),
    {
        out.push(chars[i]);
        assert(chars@.take(i + 1) == chars@.take(i as int).push(chars@[i as int]));
    }
    assert(chars@.take(chars@.len() as int) == chars@);
    out
}

/// Whether two texts are the same.
pub fn chars_eq(a: &[char], b: &[char]) -> (r: bool)
    ensures
        r == (a@ == b@),
{
    if a.len() != b.len() {
        return false;
    }
    for i in 0..a.len()
        invariant
            a@.len() == b@.len(),
            forall|j: int| 0 <= j < i ==> a@[j] == b@[j],
    {
        if a[i] != b[i] {
            return false;
        }
    }
    assert(a@ =~= b@);
    true
}

/// Whether two strings are the same.
pub fn str_eq(a: &str, b: &str) -> (r: bool)
    ensures
        r == (a@ == b@),
{
    chars_eq(chars_of(a).as_slice(), chars_of(b).as_slice())
}

/// The UTF-16 encoding of a string.
pub fn to_utf16(s: &str) -> (r: Vec<u16>)
    ensures
        r@ == utf16(s@),
{
    let mut out: Vec<u16> = Vec::new();
    for c in it: s.chars()
        invariant
            it.seq() == s@,
            out@ == utf16(s@.take(it.index())),
    {
        let ghost k = it.index();
        assert(s@.take(k + 1).drop_last() == s@.take(k));
        let code: u32 = char_code(c);
        if code <= 0xFFFF {
            out.push(code as u16);
            assert(out@ == utf16(s@.take(k)) + utf16_units(c));
        } else {
            let rest: u32 = code - 0x10000;
            out.push((0xD800 + rest / 0x400) as u16);
            out.push((0xDC00 + rest % 0x400) as u16);
            assert(out@ == utf16(s@.take(k)) + utf16_units(c));
        }
    }
    assert(s@.take(s@.len() as int) == s@);
    out
}

/// The code point of a character.
pub fn char_code(c: char) -> (r: u32)
    ensures
        r == c as int,
        r <= 0xD7FF || 0xE000 <= r <= 0x10FFFF,
{
    c as u32
}

/// The text of a sequence of UTF-16 units; an unpaired surrogate becomes U+FFFD.
pub fn from_utf16_lossy(u: &[u16]) -> (r: String)
    ensures
        r@ == utf16_lossy(u@),
{
    let mut out = String::new();
    let mut i: usize = 0;
    assert(u@.skip(0) == u@);
    assert(out@ + utf16_lossy(u@) == utf16_lossy(u@));
    while i < u.len()
        invariant
            i <= u@.len(),
            utf16_lossy(u@) == out@ + utf16_lossy(u@.skip(i as int)),
        decreases u@.len() - i,
    {
        let a: u16 = u[i];
        let ghost rest = u@.skip(i as int);
        let ghost before = out@;
        if a >= 0xD800 && a <= 0xDBFF && i + 1 < u.len() && u[i + 1] >= 0xDC00 && u[i + 1]
            <= 0xDFFF {
            let b: u16 = u[i + 1];
            let code: u32 = 0x10000 + (a as u32 - 0xD800) * 0x400 + (b as u32 - 0xDC00);
            assert(code <= 0x10FFFF);
            match char::from_u32(code) {
                Some(c) => {
                    out.push(c);
                    assert(c == pair_char(a, b));
                },
                None => {},
            }
            assert(rest.skip(2) == u@.skip(i + 2));
            assert(out@ == before.push(pair_char(a, b)));
            assert(out@ + utf16_lossy(u@.skip(i + 2)) == before + (seq![pair_char(a, b)]
                + utf16_lossy(u@.skip(i + 2))));
            i = i + 2;
        } else {
            let c: char = if a >= 0xD800 && a <= 0xDFFF {
                REPLACEMENT
            } else {
                match char::from_u32(a as u32) {
                    Some(c) => c,
                    None => REPLACEMENT,
                }
            };
            out.push(c);
            assert(rest.skip(1) == u@.skip(i + 1));
            assert(out@ + utf16_lossy(u@.skip(i + 1)) == before + (seq![c] + utf16_lossy(
                u@.skip(i + 1),
            )));
            i = i + 1;
        }
    }
    assert(out@ + utf16_lossy(u@.skip(u@.len() as int)) == out@);
    out
}

/// The lower-case form of an ASCII letter; any other character itself.
pub open spec fn lower_char(c: char) -> char {
    if 'A' <= c <= 'Z' {
        (c as int + 32) as char
    } else {
        c
    }
}

/// The upper-case form of an ASCII letter; any other character itself.
pub open spec fn upper_char(c: char) -> char {
    if 'a' <= c <= 'z' {
        (c as int - 32) as char
    } else {
        c
    }
}

/// The text with its ASCII letters in lower case.
pub open spec fn ascii_lower(s: Seq<char>) -> Seq<char> {
    s.map_values(|c: char| lower_char(c))
}

/// The UTF-16 unit with an ASCII letter in lower case.
pub open spec fn folded(c: u16) -> u16 {
    if 0x41 <= c <= 0x5A {
        (c + 32) as u16
    } else {
        c
    }
}

/// The UTF-16 units with their ASCII letters in lower case.
pub open spec fn fold_units(u: Seq<u16>) -> Seq<u16> {
    u.map_values(|c: u16| folded(c))
}

/// The UTF-16 unit with an ASCII letter in lower case.
pub fn fold(c: u16) -> (r: u16)
    ensures
        r == folded(c),
{
    if c >= 0x41 && c <= 0x5A {
        c + 32
    } else {
        c
    }
}

/// The lower-case form of an ASCII letter; any other character itself.
pub fn to_lower_char(c: char) -> (r: char)
    ensures
        r == lower_char(c),
{
    if c >= 'A' && c <= 'Z' {
        (c as u8 + 32) as char
    } else {
        c
    }
}

/// The upper-case form of an ASCII letter; any other character itself.
pub fn to_upper_char(c: char) -> (r: char)
    ensures
        r == upper_char(c),
{
    if c >= 'a' && c <= 'z' {
        (c as u8 - 32) as char
    } else {
        c
    }
}

/// The string with its ASCII letters in lower case.
pub fn to_ascii_lowercase(s: &str) -> (r: String)
    ensures
        r@ == ascii_lower(s@),
{
    let chars = chars_of(s);
    let mut out = String::new();
    for i in 0..chars.len()
        invariant
            chars@ == s@,
            out@ == ascii_lower(s@.take(i as int)),
    {
        out.push(to_lower_char(chars[i]));
        assert(ascii_lower(s@.take(i + 1)) =~= ascii_lower(s@.take(i as int)).push(
            lower_char(s@[i as int]),
        ));
    }
    assert(s@.take(s@.len() as int) == s@);
    out
}

proof fn lemma_lossy_units(c: char, rest: Seq<u16>)
    ensures
        utf16_lossy(utf16_units(c) + rest) == seq![c] + utf16_lossy(rest),
{
    let all = utf16_units(c) + rest;
    if c as int <= 0xFFFF {
        assert(all.skip(1) == rest);
        assert(all[0] == c as int);
    } else {
        assert(all.skip(2) == rest);
        let r = c as int - 0x10000;
        assert(r / 0x400 < 0x400);
        assert(all[0] == 0xD800 + r / 0x400);
        assert(all[1] == 0xDC00 + r % 0x400);
        assert(pair_char(all[0], all[1]) == c);
    }
}

pub proof fn lemma_utf16_concat(a: Seq<char>, b: Seq<char>)
    ensures
        utf16(a + b) == utf16(a) + utf16(b),
    decreases b.len(),
{
    if b.len() == 0 {
        assert(a + b == a);
        assert(utf16(a) + utf16(b) == utf16(a));
    } else {
        assert((a + b).drop_last() == a + b.drop_last());
        lemma_utf16_concat(a, b.drop_last());
        assert(utf16(a) + (utf16(b.drop_last()) + utf16_units(b.last())) == utf16(a) + utf16(
            b.drop_last(),
        ) + utf16_units(b.last()));
    }
}

/// A character takes one unit or two.
pub proof fn lemma_utf16_size(s: Seq<char>)
    ensures
        s.len() <= utf16(s).len() <= 2 * s.len(),
    decreases s.len(),
{
    if s.len() > 0 {
        lemma_utf16_size(s.drop_last());
    }
}

/// A unit gives one character at most.
pub proof fn lemma_lossy_size(u: Seq<u16>)
    ensures
        utf16_lossy(u).len() <= u.len(),
    decreases u.len(),
{
    if u.len() > 0 {
        lemma_lossy_size(u.skip(1));
        if u.len() >= 2 {
            lemma_lossy_size(u.skip(2));
        }
    }
}

/// Decoding the encoding of a text gives the text back.
pub proof fn law_utf16_round_trip(s: Seq<char>)
    ensures
        utf16_lossy(utf16(s)) == s,
    decreases s.len(),
{
    if s.len() > 0 {
        let head = seq![s[0]];
        let tail = s.drop_first();
        assert(s == head + tail);
        lemma_utf16_concat(head, tail);
        assert(head.drop_last() == Seq::<char>::empty());
        assert(utf16(head.drop_last()) == Seq::<u16>::empty());
        assert(utf16(head) == utf16_units(s[0]));
        lemma_lossy_units(s[0], utf16(tail));
        law_utf16_round_trip(tail);
    }
}

/// A decimal digit.
pub open spec fn digit(d: nat) -> char {
    (0x30 + d) as char
}

/// A number in decimal.
pub open spec fn decimal(n: nat) -> Seq<char>
    decreases n,
{
    if n < 10 {
        seq![digit(n)]
    } else {
        decimal(n / 10).push(digit(n % 10))
    }
}

fn to_digit(d: u64) -> (r: char)
    requires
        d < 10,
    ensures
        r == digit(d as nat),
{
    (0x30 + d as u8) as char
}

/// Writes a number in decimal.
pub fn to_decimal(n: u64) -> (r: String)
    ensures
        r@ == decimal(n as nat),
    decreases n,
{
    let mut out = if n < 10 {
        String::new()
    } else {
        to_decimal(n / 10)
    };
    out.push(to_digit(n % 10));
    assert(n < 10 ==> out@ =~= seq![digit(n as nat)]);
    out
}

/// A copy of a text.
pub fn copy_str(s: &str) -> (r: String)
    ensures
        r@ == s@,
{
    let mut out = String::new();
    out.append(s);
    assert(out@ =~= s@);
    out
}

/// One text after another.
pub fn concat(a: &str, b: &str) -> (r: String)
    ensures
        r@ == a@ + b@,
{
    let mut out = copy_str(a);
    out.append(b);
    out
}

/// The text in lower case, with `\` for `/`.
pub open spec fn path_key(s: Seq<char>) -> Seq<char> {
    ascii_lower(s).map_values(
        |c: char|
            if c == '/' {
                '\\'
            } else {
                c
            },
    )
}

/// Brings a path into lower case, with `\` for `/`.
pub fn to_path_key(s: &str) -> (r: Vec<char>)
    ensures
        r@ == path_key(s@),
{
    let chars = chars_of(s);
    let mut out: Vec<char> = Vec::new();
    for i in 0..chars.len()
        invariant
            chars@ == s@,
            out@ == path_key(s@.take(i as int)),
    {
        let c = to_lower_char(chars[i]);
        out.push(
            if c == '/' {
                '\\'
            } else {
                c
            },
        );
        assert(out@ =~= path_key(s@.take(i + 1)));
    }
    assert(s@.take(s@.len() as int) =~= s@);
    out
}

/// Whether a text begins with another.
pub fn chars_start_with(s: &[char], prefix: &[char]) -> (r: bool)
    ensures
        r == prefix@.is_prefix_of(s@),
{
    if s.len() < prefix.len() {
        return false;
    }
    for i in 0..prefix.len()
        invariant
            prefix@.len() <= s@.len(),
            forall|j: int| 0 <= j < i ==> s@[j] == prefix@[j],
    {
        if s[i] != prefix[i] {
            assert(s@.subrange(0, prefix@.len() as int)[i as int] != prefix@[i as int]);
            return false;
        }
    }
    assert(prefix@ =~= s@.subrange(0, prefix@.len() as int));
    true
}

/// The non-empty pieces of a text between separators.
pub open spec fn pieces(s: Seq<char>, sep: char) -> Seq<Seq<char>>
    decreases s.len(),
{
    if s.len() == 0 {
        seq![]
    } else {
        let rest = s.drop_last();
        let before = pieces(rest, sep);
        if s.last() == sep {
            before
        } else if rest.len() == 0 || rest.last() == sep {
            before.push(seq![s.last()])
        } else {
            before.drop_last().push(before.last().push(s.last()))
        }
    }
}

/// The texts of a list of strings.
pub open spec fn texts(s: Seq<String>) -> Seq<Seq<char>> {
    s.map_values(|x: String| x@)
}

/// Cuts a text into its non-empty pieces between separators.
pub fn split_pieces(s: &str, sep: char) -> (r: Vec<String>)
    ensures
        texts(r@) == pieces(s@, sep),
{
    let chars = chars_of(s);
    let mut out: Vec<String> = Vec::new();
    let mut piece: Vec<char> = Vec::new();
    assert(texts(out@) =~= seq![]);
    for i in 0..chars.len()
        invariant
            chars@ == s@,
            piece@.len() == 0 ==> pieces(s@.take(i as int), sep) == texts(out@),
            piece@.len() > 0 ==> pieces(s@.take(i as int), sep) == texts(out@).push(piece@),
            piece@.len() == 0 <==> (i == 0 || s@[i - 1] == sep),
    {
        let ghost upto = s@.take(i + 1);
        assert(upto.drop_last() =~= s@.take(i as int));
        assert(upto.last() == s@[i as int]);
        let c = chars[i];
        if c == sep {
            if piece.len() > 0 {
                let ghost had = texts(out@);
                out.push(string_of(piece.as_slice()));
                assert(texts(out@) =~= had.push(piece@));
                piece = Vec::new();
            }
        } else {
            let ghost was = piece@;
            piece.push(c);
            assert(was.len() == 0 ==> piece@ =~= seq![c]);
            assert(was.len() > 0 ==> texts(out@).push(was).drop_last() =~= texts(out@));
            assert(i > 0 ==> s@.take(i as int).last() == s@[i - 1]);
        }
    }
    assert(s@.take(s@.len() as int) =~= s@);
    if piece.len() > 0 {
        let ghost had = texts(out@);
        out.push(string_of(piece.as_slice()));
        assert(texts(out@) =~= had.push(piece@));
    }
    out
}

/// Whether a text is in a list.
pub fn list_contains(list: &[String], s: &str) -> (r: bool)
    ensures
        r == texts(list@).contains(s@),
{
    for i in 0..list.len()
        invariant
            forall|j: int| 0 <= j < i ==> #[trigger] texts(list@)[j] != s@,
    {
        assert(texts(list@)[i as int] == list@[i as int]@);
        if str_eq(list[i].as_str(), s) {
            return true;
        }
    }
    assert(!texts(list@).contains(s@)) by {
        if texts(list@).contains(s@) {
            let j = choose|j: int| 0 <= j < texts(list@).len() && texts(list@)[j] == s@;
            assert(texts(list@)[j] != s@);
        }
    }
    false
}

/// Whether a character is in a list.
pub fn chars_contain(list: &[char], c: char) -> (r: bool)
    ensures
        r == list@.contains(c),
{
    for i in 0..list.len()
        invariant
            forall|j: int| 0 <= j < i ==> list@[j] != c,
    {
        if list[i] == c {
            assert(list@[i as int] == c);
            return true;
        }
    }
    false
}

/// A text in UTF-16 with a terminating zero, as the system's interfaces want it.
pub fn to_pcw(s: &str) -> (r: Vec<u16>)
    ensures
        r@ == utf16(s@).push(0),
{
    let mut out = to_utf16(s);
    out.push(0);
    out
}

/// The place of the first zero from a given one on.
pub open spec fn zero_from(u: Seq<u16>, i: int) -> Option<int>
    decreases u.len() - i,
{
    if i < 0 || i >= u.len() {
        None
    } else if u[i] == 0 {
        Some(i)
    } else {
        zero_from(u, i + 1)
    }
}

pub proof fn lemma_zero_from(u: Seq<u16>, i: int)
    ensures
        zero_from(u, i) matches Some(end) ==> i <= end < u.len(),
    decreases u.len() - i,
{
    if 0 <= i < u.len() && u[i] != 0 {
        lemma_zero_from(u, i + 1);
    }
}

pub(crate) fn find_zero(u: &[u16], from: usize) -> (r: Option<usize>)
    requires
        from <= u@.len(),
    ensures
        match r {
            Some(i) => zero_from(u@, from as int) == Some(i as int) && from <= i < u@.len(),
            None => zero_from(u@, from as int) is None,
        },
{
    let mut i: usize = from;
    while i < u.len()
        invariant
            from <= i <= u@.len(),
            zero_from(u@, from as int) == zero_from(u@, i as int),
        decreases u@.len() - i,
    {
        if u[i] == 0 {
            return Some(i);
        }
        i = i + 1;
    }
    None
}

/// Where a name in a buffer ends: at the first zero, or with the buffer.
pub open spec fn name_end(buf: Seq<u16>) -> int {
    match zero_from(buf, 0) {
        Some(n) => n,
        None => buf.len() as int,
    }
}

/// The name at the start of a buffer.
pub fn name_in(buf: &[u16]) -> (r: &[u16])
    ensures
        r@ == buf@.take(name_end(buf@)),
{
    let n: usize = match find_zero(buf, 0) {
        Some(n) => n,
        None => buf.len(),
    };
    assert(buf@.subrange(0, n as int) =~= buf@.take(n as int));
    slice_subrange(buf, 0, n)
}

/// The text before the first zero of a buffer; nothing where there is no zero.
pub fn text_before_zero(buf: &[u16]) -> (r: String)
    ensures
        r@ == match zero_from(buf@, 0) {
            Some(n) => utf16_lossy(buf@.take(n)),
            None => seq![],
        },
{
    match find_zero(buf, 0) {
        Some(n) => {
            assert(buf@.subrange(0, n as int) =~= buf@.take(n as int));
            from_utf16_lossy(slice_subrange(buf, 0, n))
        },
        None => String::new(),
    }
}

/// White space, as Unicode's property `White_Space` has it.
pub open spec fn is_space(c: char) -> bool {
    0x09 <= c as int <= 0x0D || c as int == 0x20 || c as int == 0x85 || c as int == 0xA0 || c as int
        == 0x1680 || 0x2000 <= c as int <= 0x200A || c as int == 0x2028 || c as int == 0x2029
        || c as int == 0x202F || c as int == 0x205F || c as int == 0x3000
}

fn is_space_char(c: char) -> (r: bool)
    ensures
        r == is_space(c),
{
    let u = char_code(c);
    (0x09 <= u && u <= 0x0D) || u == 0x20 || u == 0x85 || u == 0xA0 || u == 0x1680 || (0x2000 <= u
        && u <= 0x200A) || u == 0x2028 || u == 0x2029 || u == 0x202F || u == 0x205F || u == 0x3000
}

/// The text without white space at its start.
pub open spec fn trim_start(s: Seq<char>) -> Seq<char>
    decreases s.len(),
{
    if s.len() > 0 && is_space(s.first()) {
        trim_start(s.drop_first())
    } else {
        s
    }
}

/// The text without the given character at its end.
pub open spec fn trim_end_char(s: Seq<char>, c: char) -> Seq<char>
    decreases s.len(),
{
    if s.len() > 0 && s.last() == c {
        trim_end_char(s.drop_last(), c)
    } else {
        s
    }
}

/// The text without white space at its end.
pub open spec fn trim_end(s: Seq<char>) -> Seq<char>
    decreases s.len(),
{
    if s.len() > 0 && is_space(s.last()) {
        trim_end(s.drop_last())
    } else {
        s
    }
}

/// The text without white space at its ends.
pub open spec fn trimmed(s: Seq<char>) -> Seq<char> {
    trim_end(trim_start(s))
}

/// Cuts white space off both ends of a text.
pub fn trim(s: &[char]) -> (r: &[char])
    ensures
        r@ == trimmed(s@),
{
    let n: usize = s.len();
    let mut a: usize = 0;
    assert(s@.skip(0) =~= s@);
    while a < n && is_space_char(s[a])
        invariant
            n == s@.len(),
            a <= n,
            trim_start(s@) == trim_start(s@.skip(a as int)),
        decreases n - a,
    {
        assert(s@.skip(a as int).drop_first() =~= s@.skip(a + 1));
        a = a + 1;
    }
    assert(trim_start(s@) == s@.skip(a as int));
    let mut b: usize = n;
    assert(s@.subrange(a as int, n as int) =~= s@.skip(a as int));
    while b > a && is_space_char(s[b - 1])
        invariant
            n == s@.len(),
            a <= b <= n,
            trim_start(s@) == s@.skip(a as int),
            trimmed(s@) == trim_end(s@.subrange(a as int, b as int)),
        decreases b,
    {
        assert(s@.subrange(a as int, b as int).drop_last() =~= s@.subrange(a as int, b - 1));
        b = b - 1;
    }
    assert(b > a ==> s@.subrange(a as int, b as int).last() == s@[b - 1]);
    slice_subrange(s, a, b)
}

/// Cuts a character off the end of a text, as often as it stands there.
pub fn trim_end_of(s: &[char], c: char) -> (r: &[char])
    ensures
        r@ == trim_end_char(s@, c),
{
    let mut b: usize = s.len();
    assert(s@.subrange(0, b as int) =~= s@);
    while b > 0 && s[b - 1] == c
        invariant
            b <= s@.len(),
            trim_end_char(s@, c) == trim_end_char(s@.subrange(0, b as int), c),
        decreases b,
    {
        assert(s@.subrange(0, b as int).drop_last() =~= s@.subrange(0, b - 1));
        b = b - 1;
    }
    assert(b > 0 ==> s@.subrange(0, b as int).last() == s@[b - 1]);
    slice_subrange(s, 0, b)
}

/// Whether a text is nothing but white space.
pub fn is_blank(s: &str) -> (r: bool)
    ensures
        r == (trimmed(s@).len() == 0),
{
    trim(chars_of(s).as_slice()).len() == 0
}

/// The parts of a text between separators, empty ones too.
pub open spec fn split(s: Seq<char>, sep: char) -> Seq<Seq<char>>
    decreases s.len(),
{
    if s.len() == 0 {
        seq![seq![]]
    } else {
        let before = split(s.drop_last(), sep);
        if s.last() == sep {
            before.push(seq![])
        } else {
            before.drop_last().push(before.last().push(s.last()))
        }
    }
}

/// The texts of a list of character lists.
pub open spec fn char_lists(s: Seq<Vec<char>>) -> Seq<Seq<char>> {
    s.map_values(|x: Vec<char>| x@)
}

/// Cuts a text into its parts between separators.
pub fn split_all(s: &str, sep: char) -> (r: Vec<Vec<char>>)
    ensures
        char_lists(r@) == split(s@, sep),
{
    let chars = chars_of(s);
    let mut out: Vec<Vec<char>> = Vec::new();
    let mut part: Vec<char> = Vec::new();
    assert(char_lists(out@).push(part@) =~= seq![seq![]]);
    for i in 0..chars.len()
        invariant
            chars@ == s@,
            split(s@.take(i as int), sep) == char_lists(out@).push(part@),
    {
        assert(s@.take(i + 1).drop_last() =~= s@.take(i as int));
        let ghost before = char_lists(out@);
        let ghost was = part@;
        if chars[i] == sep {
            out.push(part);
            part = Vec::new();
            assert(char_lists(out@) =~= before.push(was));
            assert(part@ =~= seq![]);
        } else {
            part.push(chars[i]);
            assert(before.push(was).drop_last() =~= before);
        }
    }
    assert(s@.take(s@.len() as int) =~= s@);
    let ghost before = char_lists(out@);
    let ghost was = part@;
    out.push(part);
    assert(char_lists(out@) =~= before.push(was));
    out
}

} // verus!
