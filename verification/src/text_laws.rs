//! What holds of texts: the case of letters, separators, blanks, UTF-16 and numbers.

use vstd::prelude::*;

use crate::hotkey;
use crate::key_laws;
use crate::text;

verus! {

/// Two characters are one in lower case exactly if they are the same but for the case of an ASCII
/// letter; no ASCII letter is left in upper case, and what is none stays.
pub proof fn law_lower_case(a: char, b: char)
    ensures
        text::lower_char(a) == text::lower_char(b) <==> key_laws::same_letter(a, b),
        key_laws::same_letter(a, text::lower_char(a)),
        !('A' <= text::lower_char(a) <= 'Z'),
{
}

/// The same for upper case.
pub proof fn law_upper_case(a: char, b: char)
    ensures
        text::upper_char(a) == text::upper_char(b) <==> key_laws::same_letter(a, b),
        key_laws::same_letter(a, text::upper_char(a)),
        !('a' <= text::upper_char(a) <= 'z'),
{
}

/// Two texts are one in lower case exactly if they are the same but for the case of ASCII letters.
pub proof fn law_texts_in_lower_case(a: Seq<char>, b: Seq<char>)
    ensures
        text::ascii_lower(a) == text::ascii_lower(b) <==> key_laws::same_letters(a, b),
        key_laws::same_letters(a, text::ascii_lower(a)),
        forall|i: int| #![trigger text::ascii_lower(a)[i]]
            0 <= i < a.len() ==> !('A' <= text::ascii_lower(a)[i] <= 'Z'),
{
    let x = text::ascii_lower(a);
    let y = text::ascii_lower(b);
    if x == y {
        assert(x.len() == a.len() && y.len() == b.len());
        assert forall|i: int| 0 <= i < a.len() implies key_laws::same_letter(a[i], b[i]) by {
            assert(x[i] == y[i]);
            law_lower_case(a[i], b[i]);
        }
    }
    if key_laws::same_letters(a, b) {
        assert forall|i: int| 0 <= i < a.len() implies x[i] == y[i] by {
            assert(key_laws::same_letter(a[i], b[i]));
            law_lower_case(a[i], b[i]);
        }
        assert(x =~= y);
    }
}

/// Two UTF-16 units are the same but for the case of an ASCII letter.
pub open spec fn same_unit(a: u16, b: u16) -> bool {
    ||| a == b
    ||| 0x41 <= a <= 0x5A && b == a + 32
    ||| 0x41 <= b <= 0x5A && a == b + 32
}

/// Two units are one when folded exactly if they are the same but for the case of an ASCII letter; no
/// ASCII letter is left in upper case.
pub proof fn law_folding(a: u16, b: u16)
    ensures
        text::folded(a) == text::folded(b) <==> same_unit(a, b),
        same_unit(a, text::folded(a)),
        !(0x41 <= text::folded(a) <= 0x5A),
{
}

/// Two characters of paths are the same but for the case of an ASCII letter and the kind of a
/// separator.
pub open spec fn same_in_path(a: char, b: char) -> bool {
    key_laws::same_letter(a, b) || (a == '/' || a == '\\') && (b == '/' || b == '\\')
}

/// Two paths are compared as one exactly if they are the same but for the case of ASCII letters and
/// the kind of separators; neither `/` nor an ASCII letter in upper case is left.
pub proof fn law_paths_as_compared(a: Seq<char>, b: Seq<char>)
    ensures
        text::path_key(a) == text::path_key(b) <==> a.len() == b.len() && forall|i: int|
            #![trigger a[i]]
            0 <= i < a.len() ==> same_in_path(a[i], b[i]),
        text::path_key(a).len() == a.len(),
        forall|i: int| #![trigger text::path_key(a)[i]]
            0 <= i < a.len() ==> {
                let c = text::path_key(a)[i];
                same_in_path(a[i], c) && c != '/' && !('A' <= c <= 'Z')
            },
{
    let x = text::path_key(a);
    let y = text::path_key(b);
    if x == y {
        assert(x.len() == a.len() && y.len() == b.len());
        assert forall|i: int| #![trigger a[i]] 0 <= i < a.len() implies same_in_path(a[i], b[i]) by {
            assert(x[i] == y[i]);
        }
    }
    if a.len() == b.len() && forall|i: int| #![trigger a[i]]
        0 <= i < a.len() ==> same_in_path(a[i], b[i]) {
        assert forall|i: int| 0 <= i < a.len() implies x[i] == y[i] by {
            assert(same_in_path(a[i], b[i]));
        }
        assert(x =~= y);
    }
}

/// Blanks are what Unicode calls white space: tabs and line ends, the space and the spaces of other
/// widths, and the separators of lines and paragraphs.
pub proof fn law_blanks(c: char)
    ensures
        text::is_space(c) <==> {
            ||| 0x2000 <= c as int && c as int <= 0x200A
            ||| seq![
                '\t',
                '\n',
                '\u{B}',
                '\u{C}',
                '\r',
                ' ',
                '\u{85}',
                '\u{A0}',
                '\u{1680}',
                '\u{2028}',
                '\u{2029}',
                '\u{202F}',
                '\u{205F}',
                '\u{3000}',
            ].contains(c)
        },
{
    let all = seq![
        '\t',
        '\n',
        '\u{B}',
        '\u{C}',
        '\r',
        ' ',
        '\u{85}',
        '\u{A0}',
        '\u{1680}',
        '\u{2028}',
        '\u{2029}',
        '\u{202F}',
        '\u{205F}',
        '\u{3000}',
    ];
    assert(all[0] as int == 0x09 && all[1] as int == 0x0A && all[2] as int == 0x0B && all[3] as int
        == 0x0C && all[4] as int == 0x0D && all[5] as int == 0x20 && all[6] as int == 0x85 && all[7] as int
        == 0xA0 && all[8] as int == 0x1680 && all[9] as int == 0x2028 && all[10] as int == 0x2029
        && all[11] as int == 0x202F && all[12] as int == 0x205F && all[13] as int == 0x3000);
    if all.contains(c) {
        let k = choose|k: int| 0 <= k < all.len() && all[k] == c;
        assert(0 <= k < 14);
    }
}

proof fn lemma_trim_start(s: Seq<char>) -> (i: int)
    ensures
        0 <= i <= s.len(),
        text::trim_start(s) == s.skip(i),
        forall|k: int| #![trigger s[k]] 0 <= k < i ==> text::is_space(s[k]),
        i < s.len() ==> !text::is_space(s[i]),
    decreases s.len(),
{
    if s.len() > 0 && text::is_space(s.first()) {
        let j = lemma_trim_start(s.drop_first());
        assert(s.drop_first().skip(j) =~= s.skip(j + 1));
        assert forall|k: int| #![trigger s[k]] 0 <= k < j + 1 implies text::is_space(s[k]) by {
            if k > 0 {
                assert(s.drop_first()[k - 1] == s[k]);
            }
        }
        if j + 1 < s.len() {
            assert(s.drop_first()[j] == s[j + 1]);
        }
        j + 1
    } else {
        assert(s.skip(0) =~= s);
        0
    }
}

proof fn lemma_trim_end(s: Seq<char>) -> (j: int)
    ensures
        0 <= j <= s.len(),
        text::trim_end(s) == s.take(j),
        forall|k: int| #![trigger s[k]] j <= k < s.len() ==> text::is_space(s[k]),
        j > 0 ==> !text::is_space(s[j - 1]),
    decreases s.len(),
{
    if s.len() > 0 && text::is_space(s.last()) {
        let j = lemma_trim_end(s.drop_last());
        assert(s.drop_last().take(j) =~= s.take(j));
        assert forall|k: int| #![trigger s[k]] j <= k < s.len() implies text::is_space(s[k]) by {
            if k < s.len() - 1 {
                assert(s.drop_last()[k] == s[k]);
            }
        }
        if j > 0 {
            assert(s.drop_last()[j - 1] == s[j - 1]);
        }
        j
    } else {
        assert(s.take(s.len() as int) =~= s);
        s.len() as int
    }
}

/// A text without the blanks at its ends is a part of it: what was cut off on either side is nothing
/// but blanks, and what is left neither begins nor ends with one.
pub proof fn law_trimmed(s: Seq<char>) -> (ends: (int, int))
    ensures
        0 <= ends.0 <= ends.1 <= s.len(),
        text::trimmed(s) == s.subrange(ends.0, ends.1),
        forall|k: int| #![trigger s[k]]
            0 <= k < ends.0 || ends.1 <= k < s.len() ==> text::is_space(s[k]),
        ends.0 < ends.1 ==> !text::is_space(s[ends.0]) && !text::is_space(s[ends.1 - 1]),
{
    let i = lemma_trim_start(s);
    let rest = s.skip(i);
    let j = lemma_trim_end(rest);
    assert(rest.take(j) =~= s.subrange(i, i + j));
    assert forall|k: int| #![trigger s[k]] 0 <= k < i || i + j <= k < s.len() implies text::is_space(
        s[k],
    ) by {
        if k >= i + j {
            assert(rest[k - i] == s[k]);
        }
    }
    if j > 0 {
        assert(rest[j - 1] == s[i + j - 1]);
        assert(rest[0] == s[i]);
    }
    (i, i + j)
}

/// A text without a character at its end is the text, but for nothing but this character, and does
/// not end with it.
pub proof fn law_trimmed_of_one_character(s: Seq<char>, c: char) -> (n: int)
    ensures
        0 <= n <= s.len(),
        text::trim_end_char(s, c) == s.take(n),
        forall|k: int| #![trigger s[k]] n <= k < s.len() ==> s[k] == c,
        n > 0 ==> s[n - 1] != c,
    decreases s.len(),
{
    if s.len() > 0 && s.last() == c {
        let n = law_trimmed_of_one_character(s.drop_last(), c);
        assert(s.drop_last().take(n) =~= s.take(n));
        assert forall|k: int| #![trigger s[k]] n <= k < s.len() implies s[k] == c by {
            if k < s.len() - 1 {
                assert(s.drop_last()[k] == s[k]);
            }
        }
        if n > 0 {
            assert(s.drop_last()[n - 1] == s[n - 1]);
        }
        n
    } else {
        assert(s.take(s.len() as int) =~= s);
        s.len() as int
    }
}

/// A character below U+10000 is one unit of UTF-16, itself; any other is a pair of a high and a low
/// surrogate that hold the upper and the lower ten bits of what it has beyond that.
pub proof fn law_utf16_of_a_character(c: char)
    ensures
        c as int <= 0xFFFF ==> text::utf16(seq![c]) == seq![(c as int) as u16],
        c as int > 0xFFFF ==> {
            let u = text::utf16(seq![c]);
            &&& u.len() == 2
            &&& 0xD800 <= u[0] <= 0xDBFF
            &&& 0xDC00 <= u[1] <= 0xDFFF
            &&& 0x10000 + (u[0] - 0xD800) * 0x400 + (u[1] - 0xDC00) == c as int
        },
{
    assert(seq![c].drop_last() =~= seq![]);
    assert(text::utf16(seq![c].drop_last()) =~= seq![]);
    assert(seq![c].last() == c);
    assert(text::utf16(seq![c]) =~= text::utf16_units(c));
    if c as int > 0xFFFF {
        let over = c as int - 0x10000;
        assert(0 <= over / 0x400 < 0x400);
    }
}

/// UTF-16 is put together of its characters.
pub proof fn law_utf16_of_two_texts(a: Seq<char>, b: Seq<char>)
    ensures
        text::utf16(a + b) == text::utf16(a) + text::utf16(b),
        text::utf16_lossy(text::utf16(a)) == a,
{
    text::lemma_utf16_concat(a, b);
    text::law_utf16_round_trip(a);
}

/// A surrogate without its other half is read as U+FFFD, and what follows is read as if it stood
/// alone; so is what follows a unit that is none.
pub proof fn law_units_read_one_by_one(u: u16, rest: Seq<u16>)
    ensures
        !(0xD800 <= u <= 0xDFFF) ==> text::utf16_lossy(seq![u] + rest) == seq![u as char]
            + text::utf16_lossy(rest),
        0xDC00 <= u <= 0xDFFF || 0xD800 <= u <= 0xDBFF && !(rest.len() > 0 && 0xDC00 <= rest[0]
            <= 0xDFFF) ==> text::utf16_lossy(seq![u] + rest) == seq!['\u{FFFD}'] + text::utf16_lossy(
            rest,
        ),
{
    let all = seq![u] + rest;
    assert(all.skip(1) =~= rest);
    assert(all[0] == u);
    if rest.len() > 0 {
        assert(all[1] == rest[0]);
    }
}

/// The name in a buffer ends before the first zero, or with the buffer.
pub proof fn law_name_ends_at_zero(buf: Seq<u16>)
    ensures
        0 <= text::name_end(buf) <= buf.len(),
        forall|i: int| #![trigger buf[i]] 0 <= i < text::name_end(buf) ==> buf[i] != 0,
        text::name_end(buf) < buf.len() ==> buf[text::name_end(buf)] == 0,
{
    lemma_first_zero(buf, 0);
}

proof fn lemma_first_zero(u: Seq<u16>, from: int)
    requires
        0 <= from,
    ensures
        match text::zero_from(u, from) {
            Some(end) => from <= end < u.len() && u[end] == 0 && forall|i: int| #![trigger u[i]]
                from <= i < end ==> u[i] != 0,
            None => forall|i: int| #![trigger u[i]] from <= i < u.len() ==> u[i] != 0,
        },
    decreases u.len() - from,
{
    if from < u.len() && u[from] != 0 {
        lemma_first_zero(u, from + 1);
    }
}

/// A number in decimal is written in digits that stand for it, and does not begin with a zero unless
/// it is one.
pub proof fn law_decimal(n: nat)
    ensures
        hotkey::digits_value(text::decimal(n)) == n,
        hotkey::all_digits(text::decimal(n)),
        text::decimal(n).len() > 0,
        n > 0 ==> text::decimal(n)[0] != '0',
    decreases n,
{
    let d = text::decimal(n);
    if n < 10 {
        assert(d.drop_last() =~= seq![]);
        assert(hotkey::digits_value(d.drop_last()) == 0);
        assert(d.last() as int == 0x30 + n);
    } else {
        law_decimal(n / 10);
        assert(d.drop_last() =~= text::decimal(n / 10));
        assert(d.last() as int == 0x30 + n % 10);
        assert forall|i: int| #![trigger d[i]] 0 <= i < d.len() implies '0' <= d[i] <= '9' by {
            if i < d.len() - 1 {
                assert(d[i] == text::decimal(n / 10)[i]);
            }
        }
        assert(d[0] == text::decimal(n / 10)[0]);
    }
}

/// Digits stand for a number by their places.
pub proof fn law_digits(s: Seq<char>, d: char)
    requires
        '0' <= d <= '9',
    ensures
        hotkey::digits_value(s.push(d)) == 10 * hotkey::digits_value(s) + (d as int - '0' as int),
        hotkey::digits_value(seq![]) == 0,
{
    assert(s.push(d).drop_last() =~= s);
}

proof fn lemma_pieces_join(a: Seq<char>, b: Seq<char>, sep: char)
    ensures
        text::pieces(a.push(sep) + b, sep) == text::pieces(a, sep) + text::pieces(b, sep),
        b.len() > 0 && b.last() != sep ==> text::pieces(b, sep).len() > 0,
    decreases b.len(),
{
    let all = a.push(sep) + b;
    let before = text::pieces(a, sep);
    if b.len() == 0 {
        assert(all =~= a.push(sep));
        assert(all.drop_last() =~= a);
        assert(before + text::pieces(b, sep) =~= before);
    } else {
        let c = b.drop_last();
        lemma_pieces_join(a, c, sep);
        assert(all.drop_last() =~= a.push(sep) + c);
        assert(all.last() == b.last());
        let rest = text::pieces(c, sep);
        if b.last() != sep {
            if c.len() == 0 {
                assert(all.drop_last().last() == sep);
                assert((before + rest).push(seq![b.last()]) =~= before + rest.push(seq![b.last()]));
            } else {
                assert(all.drop_last().last() == c.last());
                if c.last() == sep {
                    assert((before + rest).push(seq![b.last()]) =~= before + rest.push(
                        seq![b.last()],
                    ));
                } else {
                    let longer = rest.last().push(b.last());
                    assert((before + rest).last() == rest.last());
                    assert((before + rest).drop_last().push(longer) =~= before
                        + rest.drop_last().push(longer));
                }
            }
        }
    }
}

proof fn lemma_one_piece(a: Seq<char>, sep: char)
    requires
        !a.contains(sep),
        a.len() > 0,
    ensures
        text::pieces(a, sep) == seq![a],
    decreases a.len(),
{
    let rest = a.drop_last();
    assert(a.contains(a[a.len() - 1]));
    if rest.len() == 0 {
        assert(text::pieces(rest, sep) =~= seq![]);
        assert(seq![a.last()] =~= a);
        assert(text::pieces(a, sep) =~= seq![a]);
    } else {
        assert forall|i: int| 0 <= i < rest.len() implies rest[i] != sep by {
            assert(a.contains(a[i]));
        }
        lemma_one_piece(rest, sep);
        assert(rest.push(a.last()) =~= a);
        assert(text::pieces(a, sep) =~= seq![a]);
    }
}

/// The pieces of two texts with a separator between them are those of each; a text without a
/// separator is one piece, and an empty one is none.
pub proof fn law_pieces(a: Seq<char>, b: Seq<char>, sep: char)
    ensures
        text::pieces(a.push(sep) + b, sep) == text::pieces(a, sep) + text::pieces(b, sep),
        !a.contains(sep) && a.len() > 0 ==> text::pieces(a, sep) == seq![a],
        text::pieces(seq![], sep).len() == 0,
{
    lemma_pieces_join(a, b, sep);
    if !a.contains(sep) && a.len() > 0 {
        lemma_one_piece(a, sep);
    }
}

} // verus!
