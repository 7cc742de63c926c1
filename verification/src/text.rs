//! Characters, digits and fields: the small text vocabulary that the wire
//! formats share. Text is modelled as a sequence of characters.

use vstd::prelude::*;
use vstd::string::{StrSliceExecFns, StringExecFns};

verus! {

/// `String::push` appends one character at the end of the string.
pub assume_specification[ String::push ](s: &mut String, c: char)
    ensures
        final(s)@ == old(s)@.push(c),
;

/// The Unicode `White_Space` property.
pub open spec fn is_space(c: char) -> bool {
    ||| '\u{9}' <= c <= '\u{d}'
    ||| c == ' '
    ||| c == '\u{85}'
    ||| c == '\u{a0}'
    ||| c == '\u{1680}'
    ||| '\u{2000}' <= c <= '\u{200a}'
    ||| '\u{2028}' <= c <= '\u{2029}'
    ||| c == '\u{202f}'
    ||| c == '\u{205f}'
    ||| c == '\u{3000}'
}

/// `s` without the white space at its end.
pub open spec fn trimmed_end(s: Seq<char>) -> Seq<char>
    decreases s.len(),
{
    if s.len() > 0 && is_space(s.last()) {
        trimmed_end(s.drop_last())
    } else {
        s
    }
}

/// `s` without the white space at its start.
pub open spec fn trimmed_start(s: Seq<char>) -> Seq<char>
    decreases s.len(),
{
    if s.len() > 0 && is_space(s[0]) {
        trimmed_start(s.drop_first())
    } else {
        s
    }
}

/// `s` without the white space at either end.
pub open spec fn trimmed(s: Seq<char>) -> Seq<char> {
    trimmed_start(trimmed_end(s))
}

pub fn is_whitespace(c: char) -> (r: bool)
    ensures
        r == is_space(c),
{
    (c >= '\u{9}' && c <= '\u{d}') || c == ' ' || c == '\u{85}' || c == '\u{a0}' || c == '\u{1680}'
        || (c >= '\u{2000}' && c <= '\u{200a}') || (c >= '\u{2028}' && c <= '\u{2029}') || c
        == '\u{202f}' || c == '\u{205f}' || c == '\u{3000}'
}

/// The characters of a string, in order.
pub fn chars_of(s: &str) -> (r: Vec<char>)
    ensures
        r@ == s@,
{
    let mut out: Vec<char> = Vec::new();
    for c in it: s.chars()
        invariant
            out@ == it.seq().take(it.index() as int),
    {
        out.push(c);
    }
    out
}

/// The string that a run of characters spells.
pub fn string_of(v: &[char]) -> (r: String)
    ensures
        r@ == v@,
{
    let mut out = String::new();
    let mut i: usize = 0;
    while i < v.len()
        invariant
            i <= v.len(),
            out@ == v@.take(i as int),
        decreases v.len() - i,
    {
        out.push(v[i]);
        proof {
            assert(v@.take(i + 1) =~= v@.take(i as int).push(v@[i as int]));
        }
        i = i + 1;
    }
    assert(v@.take(v.len() as int) =~= v@);
    out
}

/// The value of a hexadecimal digit, either case.
pub open spec fn hex_digit(c: char) -> Option<int> {
    if '0' <= c <= '9' {
        Some(c as int - '0' as int)
    } else if 'a' <= c <= 'f' {
        Some(c as int - 'a' as int + 10)
    } else if 'A' <= c <= 'F' {
        Some(c as int - 'A' as int + 10)
    } else {
        None
    }
}

/// The lower-case hexadecimal digit of a value below sixteen.
pub open spec fn hex_char(n: int) -> char {
    if n < 10 {
        ('0' as int + n) as char
    } else {
        ('a' as int + n - 10) as char
    }
}

/// Every character of `s` is a hexadecimal digit.
pub open spec fn all_hex(s: Seq<char>) -> bool {
    forall|i: int| 0 <= i < s.len() ==> hex_digit(#[trigger] s[i]) is Some
}

/// The number that a run of hexadecimal digits writes.
pub open spec fn hex_number(s: Seq<char>) -> int
    decreases s.len(),
{
    if s.len() == 0 {
        0
    } else {
        16 * hex_number(s.drop_last()) + hex_digit(s.last()).unwrap_or(0)
    }
}

/// Hexadecimal number syntax: an optional plus sign and at least one digit.
/// `None` where the text is anything else.
pub open spec fn parse_hex(s: Seq<char>) -> Option<int> {
    let digits = if s.len() > 0 && s[0] == '+' { s.drop_first() } else { s };
    if digits.len() > 0 && all_hex(digits) {
        Some(hex_number(digits))
    } else {
        None
    }
}

/// What hexadecimal digits write is not negative.
pub proof fn lemma_hex_number(s: Seq<char>)
    ensures
        0 <= hex_number(s),
    decreases s.len(),
{
    if s.len() > 0 {
        lemma_hex_number(s.drop_last());
    }
}

/// `width` hexadecimal digits of `n`, most significant first.
pub open spec fn hex_digits(n: int, width: nat) -> Seq<char>
    decreases width,
{
    if width == 0 {
        seq![]
    } else {
        hex_digits(n / 16, (width - 1) as nat).push(hex_char(n % 16))
    }
}

pub fn hex_digit_value(c: char) -> (r: Option<u8>)
    ensures
        r is Some <==> hex_digit(c) is Some,
        r matches Some(v) ==> v as int == hex_digit(c)->0 && v < 16,
{
    if c >= '0' && c <= '9' {
        Some((c as u32 - '0' as u32) as u8)
    } else if c >= 'a' && c <= 'f' {
        Some((c as u32 - 'a' as u32 + 10) as u8)
    } else if c >= 'A' && c <= 'F' {
        Some((c as u32 - 'A' as u32 + 10) as u8)
    } else {
        None
    }
}

pub fn hex_char_of(n: u8) -> (r: char)
    requires
        n < 16,
    ensures
        r == hex_char(n as int),
        hex_digit(r) == Some(n as int),
{
    if n < 10 {
        (48u8 + n) as char
    } else {
        (97u8 + (n - 10)) as char
    }
}

/// The lowest `width` hexadecimal digits of a number.
pub fn hex_of(n: u32, width: u8) -> (r: String)
    ensures
        r@ == hex_digits(n as int, width as nat),
    decreases width,
{
    if width == 0 {
        let r = String::new();
        assert(r@ =~= Seq::<char>::empty());
        r
    } else {
        let mut r = hex_of(n / 16, width - 1);
        r.push(hex_char_of((n % 16) as u8));
        r
    }
}

/// Reading back `width` digits of `n` gives `n` modulo sixteen to the `width`.
pub proof fn lemma_hex_digits(n: int, width: nat)
    requires
        0 <= n,
    ensures
        hex_digits(n, width).len() == width,
        all_hex(hex_digits(n, width)),
        hex_number(hex_digits(n, width)) == n % vstd::arithmetic::power::pow(16, width),
    decreases width,
{
    vstd::arithmetic::power::lemma_pow_positive(16, width);
    if width == 0 {
        assert(vstd::arithmetic::power::pow(16, 0) == 1) by {
            vstd::arithmetic::power::lemma_pow0(16);
        }
    } else {
        let w = (width - 1) as nat;
        lemma_hex_digits(n / 16, w);
        let d = hex_digits(n, width);
        assert(d.drop_last() =~= hex_digits(n / 16, w));
        assert(hex_digit(d.last()) == Some(n % 16));
        vstd::arithmetic::power::lemma_pow_positive(16, w);
        let p = vstd::arithmetic::power::pow(16, w);
        assert(vstd::arithmetic::power::pow(16, width) == 16 * p) by {
            reveal(vstd::arithmetic::power::pow);
        }
        vstd::arithmetic::div_mod::lemma_mod_breakdown(n, 16, p);
    }
}

/// The text without white space at its end.
pub fn trim_end(s: &[char]) -> (r: Vec<char>)
    ensures
        r@ == trimmed_end(s@),
{
    let mut end: usize = s.len();
    assert(s@.take(s.len() as int) =~= s@);
    while end > 0 && is_whitespace(s[end - 1])
        invariant
            end <= s.len(),
            trimmed_end(s@) == trimmed_end(s@.take(end as int)),
        decreases end,
    {
        proof {
            assert(s@.take(end as int).drop_last() =~= s@.take(end - 1));
        }
        end = end - 1;
    }
    let mut out: Vec<char> = Vec::new();
    out.extend_from_slice(vstd::slice::slice_subrange(s, 0, end));
    assert(out@ =~= s@.take(end as int));
    out
}

/// The text without white space at either end.
pub fn trim(s: &[char]) -> (r: Vec<char>)
    ensures
        r@ == trimmed(s@),
{
    let t = trim_end(s);
    assert(t@.skip(0) =~= t@);
    let mut start: usize = 0;
    while start < t.len() && is_whitespace(t[start])
        invariant
            start <= t@.len(),
            trimmed_start(t@) == trimmed_start(t@.skip(start as int)),
        decreases t@.len() - start,
    {
        proof {
            assert(t@.skip(start as int).drop_first() =~= t@.skip(start + 1));
        }
        start = start + 1;
    }
    let mut out: Vec<char> = Vec::new();
    out.extend_from_slice(vstd::slice::slice_subrange(t.as_slice(), start, t.len()));
    assert(out@ =~= t@.skip(start as int));
    out
}

/// Reads a hexadecimal number below 2^32; see `parse_hex`.
pub fn parse_hex_u32(s: &[char]) -> (r: Option<u32>)
    ensures
        r is Some <==> (parse_hex(s@) is Some && parse_hex(s@)->0 <= u32::MAX),
        r matches Some(v) ==> v as int == parse_hex(s@)->0,
{
    let start: usize = if s.len() > 0 && s[0] == '+' {
        1
    } else {
        0
    };
    let ghost digits = if s@.len() > 0 && s@[0] == '+' {
        s@.drop_first()
    } else {
        s@
    };
    assert(digits =~= s@.skip(start as int));
    if s.len() == start {
        return None;
    }
    let mut acc: u64 = 0;
    let mut big: bool = false;
    let mut i: usize = start;
    while i < s.len()
        invariant
            start <= i <= s.len(),
            digits == s@.skip(start as int),
            digits == (if s@.len() > 0 && s@[0] == '+' { s@.drop_first() } else { s@ }),
            all_hex(digits.take(i - start)),
            0 <= hex_number(digits.take(i - start)),
            big ==> hex_number(digits.take(i - start)) > u32::MAX,
            !big ==> acc as int == hex_number(digits.take(i - start)) && acc <= u32::MAX,
        decreases s.len() - i,
    {
        proof {
            assert(digits.take(i + 1 - start).drop_last() =~= digits.take(i - start));
            assert(digits.take(i + 1 - start).last() == s@[i as int]);
            assert(digits[i - start] == s@[i as int]);
        }
        match hex_digit_value(s[i]) {
            None => {
                assert(!all_hex(digits));
                return None;
            },
            Some(d) => {
                if !big {
                    acc = acc * 16 + d as u64;
                    if acc > 0xFFFF_FFFF {
                        big = true;
                    }
                }
                assert(all_hex(digits.take(i + 1 - start))) by {
                    assert forall|k: int| 0 <= k < i + 1 - start implies hex_digit(
                        #[trigger] digits.take(i + 1 - start)[k],
                    ) is Some by {
                        if k < i - start {
                            assert(digits.take(i - start)[k] == digits.take(i + 1 - start)[k]);
                        }
                    }
                }
            },
        }
        i = i + 1;
    }
    assert(digits.take(s.len() - start) =~= digits);
    if big {
        None
    } else {
        Some(acc as u32)
    }
}

/// The decimal digits of a number, most significant first, without leading zeros.
pub open spec fn decimal(n: nat) -> Seq<char>
    decreases n,
{
    if n < 10 {
        seq![hex_char(n as int)]
    } else {
        decimal(n / 10).push(hex_char((n % 10) as int))
    }
}

/// The decimal text of a number.
pub fn decimal_of(n: u64) -> (r: String)
    ensures
        r@ == decimal(n as nat),
    decreases n,
{
    let mut out = if n < 10 {
        String::new()
    } else {
        decimal_of(n / 10)
    };
    out.push(hex_char_of((n % 10) as u8));
    out
}

/// The decimal text of an integer.
pub open spec fn signed_decimal(n: int) -> Seq<char> {
    if n < 0 {
        seq!['-'] + decimal((-n) as nat)
    } else {
        decimal(n as nat)
    }
}

/// A run of zeros.
pub open spec fn zeros(n: int) -> Seq<char> {
    Seq::new(
        (if n > 0 {
            n
        } else {
            0
        }) as nat,
        |i: int| '0',
    )
}

/// The decimal text of an integer, filled with zeros behind the sign up to a
/// width.
pub open spec fn padded(n: int, width: int) -> Seq<char> {
    if n < 0 {
        let d = decimal((-n) as nat);
        seq!['-'] + zeros(width - 1 - d.len()) + d
    } else {
        let d = decimal(n as nat);
        zeros(width - d.len()) + d
    }
}

fn push_all(out: &mut String, s: &str)
    ensures
        final(out)@ == old(out)@ + s@,
{
    out.append(s);
}

/// The decimal text of an integer.
pub fn signed_decimal_of(n: i64) -> (r: String)
    ensures
        r@ == signed_decimal(n as int),
{
    padded_of(n, 0)
}

/// The decimal text of an integer with leading zeros; see `padded`.
pub fn padded_of(n: i64, width: usize) -> (r: String)
    ensures
        r@ == padded(n as int, width as int),
        width == 0 ==> r@ == signed_decimal(n as int),
{
    let mut out = String::new();
    let magnitude: u64 = if n < 0 {
        out.push('-');
        (-(n + 1)) as u64 + 1
    } else {
        n as u64
    };
    let d = decimal_of(magnitude);
    let used: usize = d.as_str().unicode_len();
    let sign: usize = if n < 0 {
        1
    } else {
        0
    };
    let room: usize = width.saturating_sub(sign).saturating_sub(used);
    let ghost start = out@;
    let mut i: usize = 0;
    assert(start + zeros(0) =~= start);
    while i < room
        invariant
            i <= room,
            out@ == start + zeros(i as int),
        decreases room - i,
    {
        out.push('0');
        assert(out@ =~= start + zeros(i + 1));
        i = i + 1;
    }
    push_all(&mut out, d.as_str());
    proof {
        if n < 0 {
            assert(start =~= seq!['-']);
            assert(zeros(room as int) =~= zeros(width - 1 - d@.len()));
            assert(width == 0 ==> zeros(room as int) =~= seq![]);
            assert(width == 0 ==> out@ =~= seq!['-'] + d@);
        } else {
            assert(start =~= seq![]);
            assert(zeros(room as int) =~= zeros(width - d@.len()));
            assert(out@ =~= zeros(room as int) + d@);
            assert(width == 0 ==> out@ =~= d@);
        }
    }
    out
}

/// The lower-case form of a text, as `str::to_lowercase` gives it.
pub uninterp spec fn lowercase_of(s: Seq<char>) -> Seq<char>;

/// Every character of a text is an ASCII character.
pub open spec fn all_ascii(s: Seq<char>) -> bool {
    forall|i: int| 0 <= i < s.len() ==> (#[trigger] s[i]) < '\u{80}'
}

/// `str::to_lowercase`: the lower-case equivalent of a text by the Unicode
/// property `Lowercase`, a function of the text alone. In an ASCII text the Latin
/// letters become lower-case, and nothing else changes.
#[verifier::external_body]
pub(crate) fn to_lowercase(s: &str) -> (r: String)
    ensures
        r@ == lowercase_of(s@),
        all_ascii(s@) ==> r@ == lowered(s@),
{
    s.to_lowercase()
}

/// The text in lower case.
pub open spec fn in_lower_case(s: Seq<char>) -> Seq<char> {
    if all_ascii(s) {
        lowered(s)
    } else {
        lowercase_of(s)
    }
}

/// The text in lower case; see `in_lower_case`.
pub(crate) fn lowercase(s: &str) -> (r: String)
    ensures
        r@ == in_lower_case(s@),
{
    to_lowercase(s)
}

/// Lower-case Latin letters made upper-case.
pub open spec fn upper(c: char) -> char {
    if 'a' <= c <= 'z' {
        (c as int - 'a' as int + 'A' as int) as char
    } else {
        c
    }
}

/// The text with its lower-case Latin letters made upper-case.
pub open spec fn uppered(s: Seq<char>) -> Seq<char> {
    s.map_values(|c: char| upper(c))
}

/// The text with its lower-case Latin letters made upper-case.
pub fn uppercase(s: &str) -> (r: String)
    ensures
        r@ == uppered(s@),
{
    let chars = chars_of(s);
    let mut out = String::new();
    let mut i: usize = 0;
    while i < chars.len()
        invariant
            chars@ == s@,
            i <= chars@.len(),
            out@ =~= uppered(s@).take(i as int),
        decreases chars@.len() - i,
    {
        let c: char = chars[i];
        let u: char = if c >= 'a' && c <= 'z' {
            ((c as u8 - 97) + 65) as char
        } else {
            c
        };
        assert(u == upper(s@[i as int]));
        out.push(u);
        i = i + 1;
    }
    assert(out@ =~= uppered(s@));
    out
}

/// Whether two strings are the same text.
pub fn same_text(a: &str, b: &str) -> (r: bool)
    ensures
        r == (a@ == b@),
{
    let x = chars_of(a);
    let y = chars_of(b);
    if x.len() != y.len() {
        return false;
    }
    let mut i: usize = 0;
    while i < x.len()
        invariant
            i <= x.len(),
            x@ == a@,
            y@ == b@,
            x.len() == y.len(),
            forall|k: int| 0 <= k < i ==> x@[k] == y@[k],
        decreases x.len() - i,
    {
        if x[i] != y[i] {
            return false;
        }
        i = i + 1;
    }
    assert(x@ =~= y@);
    true
}

/// Whether a text holds a character.
pub fn has_char(s: &str, c: char) -> (r: bool)
    ensures
        r == s@.contains(c),
{
    let chars = chars_of(s);
    let mut i: usize = 0;
    while i < chars.len()
        invariant
            chars@ == s@,
            i <= chars@.len(),
            forall|k: int| 0 <= k < i ==> s@[k] != c,
        decreases chars@.len() - i,
    {
        if chars[i] == c {
            assert(s@[i as int] == c);
            return true;
        }
        i = i + 1;
    }
    false
}

/// Whether a text begins with another.
pub fn starts_with(s: &str, p: &str) -> (r: bool)
    ensures
        r == (s@.len() >= p@.len() && s@.take(p@.len() as int) == p@),
{
    let a = chars_of(s);
    let b = chars_of(p);
    if a.len() < b.len() {
        return false;
    }
    let mut i: usize = 0;
    while i < b.len()
        invariant
            a@ == s@,
            b@ == p@,
            b@.len() <= a@.len(),
            i <= b@.len(),
            forall|k: int| 0 <= k < i ==> a@[k] == b@[k],
        decreases b@.len() - i,
    {
        if a[i] != b[i] {
            assert(s@.take(p@.len() as int)[i as int] != p@[i as int]);
            return false;
        }
        i = i + 1;
    }
    assert(s@.take(p@.len() as int) =~= p@);
    true
}

/// `std::str::from_utf8`: accepts exactly the byte strings that are UTF-8, and gives
/// the text that they encode.
#[verifier::external_body]
pub(crate) fn text_in(b: &[u8]) -> (r: Option<&str>)
    ensures
        r is Some <==> vstd::utf8::valid_utf8(b@),
        r matches Some(s) ==> s@ == vstd::utf8::decode_utf8(b@),
{
    std::str::from_utf8(b).ok()
}

/// The views of a run of strings.
pub open spec fn texts(v: Seq<String>) -> Seq<Seq<char>> {
    v.map_values(|s: String| s@)
}

/// The pieces of a text between the occurrences of a character: one more than there
/// are occurrences.
pub open spec fn pieces(s: Seq<char>, c: char) -> Seq<Seq<char>>
    decreases s.len(),
{
    if s.len() == 0 {
        seq![seq![]]
    } else {
        let p = pieces(s.drop_last(), c);
        if s.last() == c {
            p.push(seq![])
        } else {
            p.update(p.len() - 1, p.last().push(s.last()))
        }
    }
}

/// The views of a run of texts.
pub open spec fn char_rows(v: Seq<Vec<char>>) -> Seq<Seq<char>> {
    v.map_values(|x: Vec<char>| x@)
}

proof fn lemma_pieces_nonempty(s: Seq<char>, c: char)
    ensures
        pieces(s, c).len() > 0,
    decreases s.len(),
{
    if s.len() > 0 {
        lemma_pieces_nonempty(s.drop_last(), c);
    }
}

/// Splits a text at a character; see `pieces`.
pub fn split_on(s: &[char], c: char) -> (r: Vec<Vec<char>>)
    ensures
        char_rows(r@) == pieces(s@, c),
        r@.len() > 0,
{
    let mut done: Vec<Vec<char>> = Vec::new();
    let mut open: Vec<char> = Vec::new();
    let mut i: usize = 0;
    assert(s@.take(0) =~= seq![]);
    assert(char_rows(done@).push(open@) =~= pieces(s@.take(0), c));
    while i < s.len()
        invariant
            i <= s.len(),
            char_rows(done@).push(open@) =~= pieces(s@.take(i as int), c),
        decreases s.len() - i,
    {
        let ghost before = pieces(s@.take(i as int), c);
        proof {
            assert(s@.take(i + 1).drop_last() =~= s@.take(i as int));
            assert(s@.take(i + 1).last() == s@[i as int]);
            assert(before.last() == open@);
        }
        if s[i] == c {
            let ghost prev = done@;
            let mut full: Vec<char> = Vec::new();
            std::mem::swap(&mut full, &mut open);
            done.push(full);
            assert(char_rows(done@) =~= before);
        } else {
            open.push(s[i]);
        }
        i = i + 1;
    }
    assert(s@.take(s.len() as int) =~= s@);
    let ghost prev = done@;
    let ghost last = open@;
    done.push(open);
    assert(char_rows(done@) =~= char_rows(prev).push(last));
    done
}

/// A line without the carriage return at its end.
pub open spec fn without_return(s: Seq<char>) -> Seq<char> {
    if s.len() > 0 && s.last() == '\r' {
        s.drop_last()
    } else {
        s
    }
}

/// The lines of a text: what stands between line feeds, without a carriage return
/// before them. A line feed at the end opens no further line.
pub open spec fn lines(s: Seq<char>) -> Seq<Seq<char>> {
    let p = pieces(s, '\n');
    let front = p.drop_last().map_values(|l: Seq<char>| without_return(l));
    if p.last().len() == 0 {
        front
    } else {
        front.push(p.last())
    }
}

/// The lines of a text; see `lines`.
pub fn lines_of(s: &[char]) -> (r: Vec<Vec<char>>)
    ensures
        char_rows(r@) == lines(s@),
{
    let mut rows = split_on(s, '\n');
    let ghost p = pieces(s@, '\n');
    assert(char_rows(rows@).len() == rows@.len());
    assert(rows@.last()@ == p.last());
    let n: usize = rows.len();
    let mut i: usize = 0;
    while i + 1 < n
        invariant
            n == rows@.len(),
            n == p.len(),
            n >= 1,
            i < n,
            forall|k: int| 0 <= k < i ==> (#[trigger] rows@[k])@ == without_return(p[k]),
            forall|k: int| i <= k < n ==> (#[trigger] rows@[k])@ == p[k],
        decreases n - i,
    {
        let mut row: Vec<char> = Vec::new();
        std::mem::swap(&mut row, &mut rows[i]);
        if row.len() > 0 && row[row.len() - 1] == '\r' {
            let _dropped = row.pop();
        }
        assert(row@ =~= without_return(p[i as int]));
        std::mem::swap(&mut row, &mut rows[i]);
        i = i + 1;
    }
    if rows[n - 1].len() == 0 {
        let _dropped = rows.pop();
    }
    assert(char_rows(rows@) =~= lines(s@));
    rows
}

/// Every character of `s` is a decimal digit.
pub open spec fn all_digits(s: Seq<char>) -> bool {
    forall|i: int| 0 <= i < s.len() ==> '0' <= #[trigger] s[i] <= '9'
}

/// The number that a run of decimal digits writes.
pub open spec fn digits_number(s: Seq<char>) -> int
    decreases s.len(),
{
    if s.len() == 0 {
        0
    } else {
        10 * digits_number(s.drop_last()) + (s.last() as int - '0' as int)
    }
}

/// Decimal number syntax: an optional plus sign and at least one digit. `None` where
/// the text is anything else.
pub open spec fn parse_decimal(s: Seq<char>) -> Option<int> {
    let digits = if s.len() > 0 && s[0] == '+' { s.drop_first() } else { s };
    if digits.len() > 0 && all_digits(digits) {
        Some(digits_number(digits))
    } else {
        None
    }
}

/// Reading the decimal text of a number gives the number back.
pub proof fn law_decimal_reads_back(n: nat)
    ensures
        all_digits(decimal(n)),
        digits_number(decimal(n)) == n,
        parse_decimal(decimal(n)) == Some(n as int),
    decreases n,
{
    let d = decimal(n);
    if n < 10 {
        assert(d.drop_last() =~= seq![]);
        assert(digits_number(d.drop_last()) == 0);
    } else {
        law_decimal_reads_back(n / 10);
        assert(d.drop_last() =~= decimal(n / 10));
    }
    crate::proto::json::lemma_decimal_digits(n);
    assert('0' <= d[0] <= '9');
}

/// Reads a decimal number below 2^64; see `parse_decimal`.
pub fn parse_u64(s: &[char]) -> (r: Option<u64>)
    ensures
        r is Some <==> (parse_decimal(s@) is Some && parse_decimal(s@)->0 <= u64::MAX),
        r matches Some(v) ==> v as int == parse_decimal(s@)->0,
{
    let start: usize = if s.len() > 0 && s[0] == '+' {
        1
    } else {
        0
    };
    let ghost digits = if s@.len() > 0 && s@[0] == '+' {
        s@.drop_first()
    } else {
        s@
    };
    assert(digits =~= s@.skip(start as int));
    if s.len() == start {
        return None;
    }
    let mut acc: u128 = 0;
    let mut big: bool = false;
    let mut i: usize = start;
    while i < s.len()
        invariant
            start <= i <= s.len(),
            digits == s@.skip(start as int),
            digits == (if s@.len() > 0 && s@[0] == '+' { s@.drop_first() } else { s@ }),
            all_digits(digits.take(i - start)),
            0 <= digits_number(digits.take(i - start)),
            big ==> digits_number(digits.take(i - start)) > u64::MAX,
            !big ==> acc as int == digits_number(digits.take(i - start)) && acc <= u64::MAX,
        decreases s.len() - i,
    {
        let c: char = s[i];
        proof {
            assert(digits.take(i + 1 - start).drop_last() =~= digits.take(i - start));
            assert(digits.take(i + 1 - start).last() == c);
            assert(digits[i - start] == c);
        }
        if !(c >= '0' && c <= '9') {
            assert(!all_digits(digits));
            return None;
        }
        let d: u32 = c as u32 - '0' as u32;
        if !big {
            acc = acc * 10 + d as u128;
            if acc > 0xFFFF_FFFF_FFFF_FFFF {
                big = true;
            }
        }
        assert(all_digits(digits.take(i + 1 - start))) by {
            assert forall|k: int| 0 <= k < i + 1 - start implies '0' <= #[trigger] digits.take(
                i + 1 - start,
            )[k] <= '9' by {
                if k < i - start {
                    assert(digits.take(i - start)[k] == digits.take(i + 1 - start)[k]);
                }
            }
        }
        i = i + 1;
    }
    assert(digits.take(s.len() - start) =~= digits);
    if big {
        None
    } else {
        Some(acc as u64)
    }
}

/// The end of the run of decimal digits that starts at `i`.
pub open spec fn run_end(s: Seq<char>, i: int) -> int
    decreases s.len() - i,
{
    if 0 <= i < s.len() && '0' <= s[i] <= '9' {
        run_end(s, i + 1)
    } else {
        i
    }
}

/// Lower-case Latin letters in place of upper-case ones.
pub open spec fn lowered(s: Seq<char>) -> Seq<char> {
    s.map_values(
        |c: char|
            if 'A' <= c <= 'Z' {
                (c as int - 'A' as int + 'a' as int) as char
            } else {
                c
            },
    )
}

/// Where an optional sign at `i` ends.
pub open spec fn after_sign(s: Seq<char>, i: int) -> int {
    if 0 <= i < s.len() && (s[i] == '+' || s[i] == '-') {
        i + 1
    } else {
        i
    }
}

/// The text of a floating-point number: an optional sign, and a named value or
/// digits with an optional fraction and exponent. At least one digit stands before
/// or behind the point.
pub open spec fn is_double(s: Seq<char>) -> bool {
    let a = after_sign(s, 0);
    let word = lowered(s.skip(a));
    let b = run_end(s, a);
    let point = b < s.len() && s[b] == '.';
    let c = if point {
        run_end(s, b + 1)
    } else {
        b
    };
    let digits = a < b || (point && b + 1 < c);
    let exp = c < s.len() && (s[c] == 'e' || s[c] == 'E');
    let d = after_sign(s, c + 1);
    let e = run_end(s, d);
    ||| word == "inf"@
    ||| word == "infinity"@
    ||| word == "nan"@
    ||| digits && !exp && c == s.len()
    ||| digits && exp && d < e && e == s.len()
}

pub(crate) fn find_run_end(s: &[char], from: usize) -> (r: usize)
    requires
        from <= s.len(),
    ensures
        r == run_end(s@, from as int),
        from <= r <= s.len(),
{
    let mut i: usize = from;
    while i < s.len() && s[i] >= '0' && s[i] <= '9'
        invariant
            from <= i <= s.len(),
            run_end(s@, from as int) == run_end(s@, i as int),
        decreases s.len() - i,
    {
        i = i + 1;
    }
    i
}

fn is_word(s: &[char], from: usize, word: &str) -> (r: bool)
    requires
        from <= s.len(),
    ensures
        r == (lowered(s@.skip(from as int)) == word@),
{
    let w = chars_of(word);
    let ghost low = lowered(s@.skip(from as int));
    if w.len() != s.len() - from {
        assert(low.len() != word@.len());
        return false;
    }
    let mut i: usize = 0;
    while i < w.len()
        invariant
            w@ == word@,
            from <= s.len(),
            w@.len() == s@.len() - from,
            i <= w@.len(),
            low == lowered(s@.skip(from as int)),
            forall|k: int| 0 <= k < i ==> low[k] == w@[k],
        decreases w@.len() - i,
    {
        let c: char = s[from + i];
        let l: char = if c >= 'A' && c <= 'Z' {
            ((c as u8 - 65) + 97) as char
        } else {
            c
        };
        assert(l == low[i as int]);
        if l != w[i] {
            return false;
        }
        i = i + 1;
    }
    assert(low =~= w@);
    true
}

/// Whether a text is that of a floating-point number; see `is_double`.
pub fn check_double(s: &[char]) -> (r: bool)
    ensures
        r == is_double(s@),
{
    let n: usize = s.len();
    let a: usize = if n > 0 && (s[0] == '+' || s[0] == '-') {
        1
    } else {
        0
    };
    if is_word(s, a, "inf") || is_word(s, a, "infinity") || is_word(s, a, "nan") {
        return true;
    }
    let b: usize = find_run_end(s, a);
    let point: bool = b < n && s[b] == '.';
    let c: usize = if point {
        find_run_end(s, b + 1)
    } else {
        b
    };
    let digits: bool = a < b || (point && b + 1 < c);
    let exp: bool = c < n && (s[c] == 'e' || s[c] == 'E');
    if !exp {
        return digits && c == n;
    }
    let d: usize = if c + 1 < n && (s[c + 1] == '+' || s[c + 1] == '-') {
        c + 2
    } else {
        c + 1
    };
    let e: usize = find_run_end(s, d);
    digits && d < e && e == n
}

/// The text of a number with white space around it, if it is one.
pub open spec fn double_in(s: Seq<char>) -> Option<Seq<char>> {
    if is_double(trimmed(s)) {
        Some(trimmed(s))
    } else {
        None
    }
}

/// The text of a number with white space around it; see `double_in`.
pub fn find_double(s: &[char]) -> (r: Option<String>)
    ensures
        match r {
            Some(t) => double_in(s@) == Some(t@),
            None => double_in(s@) is None,
        },
{
    let t = trim(s);
    if check_double(t.as_slice()) {
        Some(string_of(t.as_slice()))
    } else {
        None
    }
}

/// The words of a text so far, and the word that is not ended yet.
pub open spec fn words_so_far(s: Seq<char>) -> (Seq<Seq<char>>, Seq<char>)
    decreases s.len(),
{
    if s.len() == 0 {
        (seq![], seq![])
    } else {
        let p = words_so_far(s.drop_last());
        if !is_space(s.last()) {
            (p.0, p.1.push(s.last()))
        } else if p.1.len() > 0 {
            (p.0.push(p.1), seq![])
        } else {
            p
        }
    }
}

/// The words of a text: what stands between white space.
pub open spec fn words(s: Seq<char>) -> Seq<Seq<char>> {
    let p = words_so_far(s);
    if p.1.len() > 0 {
        p.0.push(p.1)
    } else {
        p.0
    }
}

/// The words of a text; see `words`.
pub fn words_of(s: &[char]) -> (r: Vec<Vec<char>>)
    ensures
        char_rows(r@) == words(s@),
{
    let mut done: Vec<Vec<char>> = Vec::new();
    let mut open: Vec<char> = Vec::new();
    let mut i: usize = 0;
    while i < s.len()
        invariant
            i <= s.len(),
            char_rows(done@) =~= words_so_far(s@.take(i as int)).0,
            open@ =~= words_so_far(s@.take(i as int)).1,
        decreases s.len() - i,
    {
        proof {
            assert(s@.take(i + 1).drop_last() =~= s@.take(i as int));
            assert(s@.take(i + 1).last() == s@[i as int]);
        }
        if !is_whitespace(s[i]) {
            open.push(s[i]);
        } else if open.len() > 0 {
            let ghost prev = char_rows(done@);
            let ghost word = open@;
            let mut full: Vec<char> = Vec::new();
            std::mem::swap(&mut full, &mut open);
            done.push(full);
            assert(char_rows(done@) =~= prev.push(word));
        }
        i = i + 1;
    }
    assert(s@.take(s.len() as int) =~= s@);
    if open.len() > 0 {
        let ghost prev = char_rows(done@);
        let ghost word = open@;
        done.push(open);
        assert(char_rows(done@) =~= prev.push(word));
    }
    done
}

// ------------------------------------------------------------ fields of a line

/// The text can stand as a field: it holds no comma and no white space.
pub open spec fn is_field(s: Seq<char>) -> bool {
    forall|i: int| 0 <= i < s.len() ==> (#[trigger] s[i]) != ',' && !is_space(s[i])
}

pub proof fn lemma_field_add(a: Seq<char>, b: Seq<char>)
    requires
        is_field(a),
        is_field(b),
    ensures
        is_field(a + b),
{
    let s = a + b;
    assert forall|i: int| 0 <= i < s.len() implies (#[trigger] s[i]) != ',' && !is_space(s[i]) by {
        if i < a.len() {
            assert(s[i] == a[i]);
        } else {
            assert(s[i] == b[i - a.len()]);
        }
    }
}

/// What has no white space at its ends is left as it is.
pub proof fn lemma_field_stays(s: Seq<char>)
    requires
        is_field(s),
    ensures
        trimmed(s) == s,
        trimmed_end(s) == s,
{
    if s.len() > 0 {
        assert(!is_space(s[s.len() - 1]));
        assert(!is_space(s[0]));
    }
}

/// The pieces of two texts with a separator between them are those of the one and then those of
/// the other.
pub proof fn law_pieces_join(a: Seq<char>, b: Seq<char>, c: char)
    ensures
        pieces(a.push(c) + b, c) == pieces(a, c) + pieces(b, c),
    decreases b.len(),
{
    lemma_pieces_nonempty(b, c);
    let s = a.push(c) + b;
    if b.len() == 0 {
        assert(s =~= a.push(c));
        assert(s.drop_last() =~= a);
        assert(pieces(s, c) =~= pieces(a, c) + pieces(b, c));
    } else {
        law_pieces_join(a, b.drop_last(), c);
        lemma_pieces_nonempty(b.drop_last(), c);
        assert(s.drop_last() =~= a.push(c) + b.drop_last());
        assert(pieces(s, c) =~= pieces(a, c) + pieces(b, c));
    }
}

/// A text without the separator is one piece.
pub proof fn law_pieces_of_one(a: Seq<char>, c: char)
    requires
        !a.contains(c),
    ensures
        pieces(a, c) == seq![a],
    decreases a.len(),
{
    if a.len() > 0 {
        let r = a.drop_last();
        assert(!r.contains(c)) by {
            if r.contains(c) {
                let i = choose|i: int| 0 <= i < r.len() && r[i] == c;
                assert(a[i] == c);
            }
        }
        law_pieces_of_one(r, c);
        assert(a[a.len() - 1] != c);
        assert(r.push(a.last()) =~= a);
        assert(pieces(a, c) =~= seq![a]);
    } else {
        assert(a =~= seq![]);
    }
}

/// A field in front of a line is its first piece.
pub proof fn lemma_first_field(a: Seq<char>, b: Seq<char>)
    requires
        is_field(a),
    ensures
        pieces(a.push(',') + b, ',') == seq![a] + pieces(b, ','),
{
    assert(!a.contains(','));
    law_pieces_of_one(a, ',');
    law_pieces_join(a, b, ',');
}

proof fn lemma_run_to_end(s: Seq<char>, i: int)
    requires
        0 <= i <= s.len(),
        forall|k: int| i <= k < s.len() ==> '0' <= #[trigger] s[k] <= '9',
    ensures
        run_end(s, i) == s.len(),
    decreases s.len() - i,
{
    if i < s.len() {
        lemma_run_to_end(s, i + 1);
    }
}

/// The text of an integer is a number, and can stand as a field.
pub proof fn lemma_signed_field(n: int)
    ensures
        is_field(signed_decimal(n)),
        is_double(signed_decimal(n)),
        double_in(signed_decimal(n)) == Some(signed_decimal(n)),
        signed_decimal(n).len() > 0,
{
    let s = signed_decimal(n);
    let d = decimal(if n < 0 {
        (-n) as nat
    } else {
        n as nat
    });
    crate::proto::json::lemma_decimal_digits(
        if n < 0 {
            (-n) as nat
        } else {
            n as nat
        },
    );
    let a = if n < 0 {
        1int
    } else {
        0
    };
    assert forall|k: int| a <= k < s.len() implies '0' <= #[trigger] s[k] <= '9' by {
        assert(s[k] == d[k - a]);
    }
    assert('0' <= d[0] <= '9');
    assert(after_sign(s, 0) == a);
    lemma_run_to_end(s, a);
    assert(is_field(s));
    lemma_field_stays(s);
}

/// Decimal digits can stand as a field, and so can hexadecimal ones.
pub proof fn lemma_hex_field(s: Seq<char>)
    requires
        all_hex(s),
    ensures
        is_field(s),
{
    assert forall|i: int| 0 <= i < s.len() implies (#[trigger] s[i]) != ',' && !is_space(s[i]) by {
        assert(hex_digit(s[i]) is Some);
    }
}

pub proof fn lemma_decimal_field(n: nat)
    ensures
        is_field(decimal(n)),
        all_hex(decimal(n)),
{
    crate::proto::json::lemma_decimal_digits(n);
    let d = decimal(n);
    assert forall|i: int| 0 <= i < d.len() implies hex_digit(#[trigger] d[i]) is Some by {
        assert('0' <= d[i] <= '9');
    }
    lemma_hex_field(d);
}

/// Digits are written with small letters, so that making them large and small again leaves them
/// as they are.
pub proof fn law_case_of_digits(n: int, width: nat)
    requires
        0 <= n,
    ensures
        in_lower_case(uppered(hex_digits(n, width))) == hex_digits(n, width),
        all_hex(uppered(hex_digits(n, width))),
        uppered(hex_digits(n, width)).len() == width,
{
    let h = hex_digits(n, width);
    let u = uppered(h);
    lemma_hex_digits(n, width);
    lemma_small_digits(n, width);
    assert forall|i: int| 0 <= i < u.len() implies hex_digit(#[trigger] u[i]) is Some && u[i]
        < '\u{80}' by {
        assert('0' <= h[i] <= '9' || 'a' <= h[i] <= 'f');
    }
    assert(all_ascii(u));
    assert forall|i: int| 0 <= i < h.len() implies lowered(u)[i] == h[i] by {
        assert('0' <= h[i] <= '9' || 'a' <= h[i] <= 'f');
    }
    assert(lowered(u) =~= h);
}

proof fn lemma_small_digits(n: int, width: nat)
    requires
        0 <= n,
    ensures
        forall|i: int|
            0 <= i < hex_digits(n, width).len() ==> '0' <= (#[trigger] hex_digits(n, width)[i])
                <= '9' || 'a' <= hex_digits(n, width)[i] <= 'f',
    decreases width,
{
    if width > 0 {
        lemma_small_digits(n / 16, (width - 1) as nat);
        let (h, r) = (hex_digits(n, width), hex_digits(n / 16, (width - 1) as nat));
        assert forall|i: int| 0 <= i < h.len() implies '0' <= (#[trigger] h[i]) <= '9' || 'a' <= h[i]
            <= 'f' by {
            if i < r.len() {
                assert(h[i] == r[i]);
            }
        }
    }
}

/// A number filled with zeros can stand as a field.
pub proof fn lemma_padded_field(n: int, width: int)
    ensures
        is_field(padded(n, width)),
{
    if n < 0 {
        let d = decimal((-n) as nat);
        lemma_decimal_field((-n) as nat);
        assert(is_field(seq!['-']));
        assert(is_field(zeros(width - 1 - d.len())));
        lemma_field_add(seq!['-'], zeros(width - 1 - d.len()));
        lemma_field_add(seq!['-'] + zeros(width - 1 - d.len()), d);
    } else {
        let d = decimal(n as nat);
        lemma_decimal_field(n as nat);
        assert(is_field(zeros(width - d.len())));
        lemma_field_add(zeros(width - d.len()), d);
    }
}

/// A field, a comma and what follows.
pub open spec fn with_field(a: Seq<char>, rest: Seq<char>) -> Seq<char> {
    a.push(',') + rest
}

/// A line whose first fields these are.
pub open spec fn ten_fields(f: Seq<Seq<char>>, rest: Seq<char>) -> Seq<char> {
    with_field(
        f[0],
        with_field(
            f[1],
            with_field(
                f[2],
                with_field(
                    f[3],
                    with_field(
                        f[4],
                        with_field(
                            f[5],
                            with_field(
                                f[6],
                                with_field(f[7], with_field(f[8], with_field(f[9], rest))),
                            ),
                        ),
                    ),
                ),
            ),
        ),
    )
}

pub proof fn lemma_ten_fields(f: Seq<Seq<char>>, rest: Seq<char>)
    requires
        f.len() == 10,
        forall|i: int| 0 <= i < 10 ==> is_field(#[trigger] f[i]),
    ensures
        pieces(ten_fields(f, rest), ',') == f + pieces(rest, ','),
{
    let r9 = with_field(f[9], rest);
    let r8 = with_field(f[8], r9);
    let r7 = with_field(f[7], r8);
    let r6 = with_field(f[6], r7);
    let r5 = with_field(f[5], r6);
    let r4 = with_field(f[4], r5);
    let r3 = with_field(f[3], r4);
    let r2 = with_field(f[2], r3);
    let r1 = with_field(f[1], r2);
    lemma_first_field(f[9], rest);
    lemma_first_field(f[8], r9);
    lemma_first_field(f[7], r8);
    lemma_first_field(f[6], r7);
    lemma_first_field(f[5], r6);
    lemma_first_field(f[4], r5);
    lemma_first_field(f[3], r4);
    lemma_first_field(f[2], r3);
    lemma_first_field(f[1], r2);
    lemma_first_field(f[0], r1);
    let p = pieces(rest, ',');
    let all = seq![f[0]] + (seq![f[1]] + (seq![f[2]] + (seq![f[3]] + (seq![f[4]] + (seq![f[5]] + (
    seq![f[6]] + (seq![f[7]] + (seq![f[8]] + (seq![f[9]] + p)))))))));
    assert(all =~= f + p);
}

} // verus!
