//! JSON on the wire: number tokens, quoted strings and parsed values.

use vstd::prelude::*;

use crate::text::{chars_of, find_run_end, string_of};

verus! {

/// What a JSON value is, as a mathematical tree. A number stands as its text.
pub enum JsonView {
    Null,
    Bool(bool),
    Number(Seq<char>),
    Text(Seq<char>),
    Array(Seq<JsonView>),
    Object(Map<Seq<char>, JsonView>),
}

impl JsonView {
    /// The member of an object under a key; `None` for any other value.
    pub open spec fn member(self, key: Seq<char>) -> Option<JsonView> {
        match self {
            JsonView::Object(m) => if m.dom().contains(key) {
                Some(m[key])
            } else {
                None
            },
            _ => None,
        }
    }

    pub open spec fn text(self) -> Option<Seq<char>> {
        match self {
            JsonView::Text(s) => Some(s),
            _ => None,
        }
    }

    pub open spec fn boolean(self) -> Option<bool> {
        match self {
            JsonView::Bool(b) => Some(b),
            _ => None,
        }
    }

    pub open spec fn number(self) -> Option<Seq<char>> {
        match self {
            JsonView::Number(t) => Some(t),
            _ => None,
        }
    }
}

/// `serde_json::Value`: a parsed JSON value.
#[verifier::external_type_specification]
#[verifier::external_body]
pub struct ExJsonValue(serde_json::Value);

/// `serde_json::Error`: why a text is not JSON.
#[verifier::external_type_specification]
#[verifier::external_body]
pub struct ExJsonError(serde_json::Error);

/// The tree that a `serde_json::Value` holds.
pub uninterp spec fn value_view(v: serde_json::Value) -> JsonView;

/// The tree that `serde_json::from_slice` reads in a byte string; `None` where
/// it reports an error.
pub uninterp spec fn json_of(bytes: Seq<u8>) -> Option<JsonView>;

/// The compact text that `serde_json` prints for a value.
pub uninterp spec fn json_text(v: JsonView) -> Seq<char>;

/// `serde_json::from_slice` into a `Value`: a function of the bytes alone.
#[verifier::external_body]
pub(crate) fn parse_json(bytes: &[u8]) -> (r: Result<serde_json::Value, serde_json::Error>)
    ensures
        r is Ok <==> json_of(bytes@) is Some,
        r matches Ok(v) ==> Some(value_view(v)) == json_of(bytes@),
{
    serde_json::from_slice(bytes)
}

/// `serde_json::Value::get` with a string index: the member of an object under
/// that key, `None` for a missing key or a value that is no object.
#[verifier::external_body]
pub(crate) fn member<'a>(v: &'a serde_json::Value, key: &str) -> (r: Option<&'a serde_json::Value>)
    ensures
        r is Some <==> value_view(*v).member(key@) is Some,
        r matches Some(m) ==> Some(value_view(*m)) == value_view(*v).member(key@),
{
    v.get(key)
}

/// `serde_json::Value::as_str`: the characters of a string value.
pub assume_specification[ serde_json::Value::as_str ](v: &serde_json::Value) -> (r: Option<&str>)
    ensures
        r is Some <==> value_view(*v).text() is Some,
        r matches Some(s) ==> Some(s@) == value_view(*v).text(),
;

/// `serde_json::Value::as_bool`: the truth value of a boolean value.
pub assume_specification[ serde_json::Value::as_bool ](v: &serde_json::Value) -> (r: Option<bool>)
    ensures
        r == value_view(*v).boolean(),
;

/// `serde_json::Value::as_array`: the items of an array value, in order.
pub assume_specification[ serde_json::Value::as_array ](v: &serde_json::Value) -> (r: Option<
    &Vec<serde_json::Value>,
>)
    ensures
        r is Some <==> value_view(*v) is Array,
        r matches Some(items) ==> value_view(*v) == JsonView::Array(
            items@.map_values(|x: serde_json::Value| value_view(x)),
        ),
;

/// `serde_json::Value::is_object`: whether a value is an object.
pub assume_specification[ serde_json::Value::is_object ](v: &serde_json::Value) -> (r: bool)
    ensures
        r == (value_view(*v) is Object),
;

/// One text comes before another: by their first characters that differ, a text
/// before its continuations. This is how std orders strings.
pub open spec fn text_before(a: Seq<char>, b: Seq<char>) -> bool
    decreases a.len(),
{
    if b.len() == 0 {
        false
    } else if a.len() == 0 {
        true
    } else if a[0] != b[0] {
        a[0] < b[0]
    } else {
        text_before(a.skip(1), b.skip(1))
    }
}

/// `k` are the keys of an object, each once, in ascending order.
pub open spec fn are_keys(v: JsonView, k: Seq<Seq<char>>) -> bool {
    &&& forall|key: Seq<char>| k.contains(key) <==> (#[trigger] v.member(key)) is Some
    &&& forall|i: int, j: int|
        0 <= i < j < k.len() ==> text_before(#[trigger] k[i], #[trigger] k[j])
}

/// The keys of an object in ascending order.
pub open spec fn keys_of(v: JsonView) -> Seq<Seq<char>> {
    choose|k: Seq<Seq<char>>| are_keys(v, k)
}

/// No two texts come before each other, and none before itself.
proof fn lemma_text_before(a: Seq<char>, b: Seq<char>)
    ensures
        !(text_before(a, b) && text_before(b, a)),
    decreases a.len(),
{
    if a.len() > 0 && b.len() > 0 && a[0] == b[0] {
        lemma_text_before(a.skip(1), b.skip(1));
    }
}

/// An object has one list of keys.
proof fn lemma_keys_are_unique(v: JsonView, a: Seq<Seq<char>>, b: Seq<Seq<char>>)
    requires
        are_keys(v, a),
        are_keys(v, b),
    ensures
        a == b,
{
    let n = if a.len() < b.len() {
        a.len() as int
    } else {
        b.len() as int
    };
    assert forall|i: int| 0 <= i < n implies a[i] == b[i] by {
        lemma_same_keys(v, a, b, i);
    }
    if n < a.len() {
        lemma_key_has_place(v, a, b, n);
    } else if n < b.len() {
        lemma_key_has_place(v, b, a, n);
    }
    assert(a =~= b);
}

/// Where two lists agree up to `n`, the key at `n` in one stands at `n` or later in the
/// other.
proof fn lemma_key_has_place(v: JsonView, a: Seq<Seq<char>>, b: Seq<Seq<char>>, n: int) -> (j: int)
    requires
        are_keys(v, a),
        are_keys(v, b),
        0 <= n < a.len(),
        n <= b.len(),
        forall|i: int| 0 <= i < n ==> a[i] == b[i],
    ensures
        n <= j < b.len(),
        b[j] == a[n],
{
    assert(a.contains(a[n]));
    assert(v.member(a[n]) is Some);
    assert(b.contains(a[n]));
    let j = choose|j: int| 0 <= j < b.len() && b[j] == a[n];
    if j < n {
        assert(a[j] == b[j]);
        lemma_text_before(a[j], a[n]);
    }
    j
}

proof fn lemma_same_keys(v: JsonView, a: Seq<Seq<char>>, b: Seq<Seq<char>>, n: int)
    requires
        are_keys(v, a),
        are_keys(v, b),
        0 <= n < a.len(),
        n < b.len(),
    ensures
        a[n] == b[n],
    decreases n,
{
    assert forall|i: int| 0 <= i < n implies a[i] == b[i] by {
        lemma_same_keys(v, a, b, i);
    }
    let j = lemma_key_has_place(v, a, b, n);
    let k = lemma_key_has_place(v, b, a, n);
    if j > n && k > n {
        lemma_text_before(a[n], b[n]);
    }
}

/// The keys of an object value in ascending order.
pub(crate) fn sorted_keys(v: &serde_json::Value) -> (r: Option<Vec<String>>)
    ensures
        r is Some <==> value_view(*v) is Object,
        r matches Some(k) ==> crate::text::texts(k@) == keys_of(value_view(*v)),
{
    let r = object_keys(v);
    proof {
        if r is Some {
            let view = value_view(*v);
            let k = crate::text::texts(r->0@);
            assert(are_keys(view, k));
            lemma_keys_are_unique(view, k, keys_of(view));
        }
    }
    r
}

/// `serde_json::Map::keys` of an object value: every key of the object once. The map
/// is a `BTreeMap` (`preserve_order` is off), so the keys ascend.
#[verifier::external_body]
fn object_keys(v: &serde_json::Value) -> (r: Option<Vec<String>>)
    ensures
        r is Some <==> value_view(*v) is Object,
        r matches Some(k) ==> are_keys(value_view(*v), crate::text::texts(k@)),
{
    v.as_object().map(|m| m.keys().cloned().collect())
}

/// `serde_json::Value::clone`: a value with the same tree.
pub assume_specification[ <serde_json::Value as Clone>::clone ](v: &serde_json::Value) -> (r:
    serde_json::Value)
    ensures
        value_view(r) == value_view(*v),
;

/// `serde_json::Value::as_number`, printed: the text of a number value.
#[verifier::external_body]
pub(crate) fn number_text(v: &serde_json::Value) -> (r: Option<String>)
    ensures
        r is Some <==> value_view(*v).number() is Some,
        r matches Some(t) ==> Some(t@) == value_view(*v).number(),
{
    v.as_number().map(|n| n.to_string())
}

/// `serde_json::Value::to_string`: compact JSON text. It prints every line feed
/// of a string escaped and adds no white space, so the text holds none.
#[verifier::external_body]
pub(crate) fn value_text(v: &serde_json::Value) -> (r: String)
    ensures
        r@ == json_text(value_view(*v)),
        !r@.contains('\n'),
{
    v.to_string()
}

/// `serde_json::Map::new`, as a value: the object without members.
#[verifier::external_body]
pub(crate) fn empty_object() -> (r: serde_json::Value)
    ensures
        value_view(r) == JsonView::Object(Map::empty()),
{
    serde_json::Value::Object(serde_json::Map::new())
}

/// `serde_json::Value::Null`.
#[verifier::external_body]
pub(crate) fn null_value() -> (r: serde_json::Value)
    ensures
        value_view(r) == JsonView::Null,
{
    serde_json::Value::Null
}

/// `serde_json::Value::from` of a text: a string value.
#[verifier::external_body]
pub(crate) fn text_value(s: &str) -> (r: serde_json::Value)
    ensures
        value_view(r) == JsonView::Text(s@),
{
    serde_json::Value::from(s)
}

/// `serde_json::Value::from` of a counting number: a number value, whose text is in
/// decimal digits.
#[verifier::external_body]
pub(crate) fn integer_value(n: u64) -> (r: serde_json::Value)
    ensures
        value_view(r) == JsonView::Number(crate::text::decimal(n as nat)),
{
    serde_json::Value::from(n)
}

/// The indented text that `serde_json` prints for a value.
pub uninterp spec fn pretty_text(v: JsonView) -> Seq<char>;

/// `serde_json::to_string_pretty` of a value. It fails only for types that refuse to be
/// printed and for maps with keys that are no strings, so never for a `Value`.
#[verifier::external_body]
pub(crate) fn value_pretty(v: &serde_json::Value) -> (r: Result<String, serde_json::Error>)
    ensures
        r is Ok,
        r matches Ok(s) ==> s@ == pretty_text(value_view(*v)),
{
    serde_json::to_string_pretty(v)
}

/// `serde_json::Map::insert` on an object value: the object with that member in place
/// of any other under the key. A value that is no object stays as it is.
#[verifier::external_body]
pub(crate) fn set_member(v: &mut serde_json::Value, key: &str, m: serde_json::Value) -> (r: bool)
    ensures
        r == (value_view(*old(v)) is Object),
        value_view(*old(v)) matches JsonView::Object(o) ==> value_view(*final(v))
            == JsonView::Object(o.insert(key@, value_view(m))),
        !r ==> *final(v) == *old(v),
{
    v.as_object_mut().map(|o| o.insert(key.to_owned(), m)).is_some()
}

/// The strings of an array, in order; items of another type are left out.
pub open spec fn text_items(v: Seq<JsonView>) -> Seq<Seq<char>>
    decreases v.len(),
{
    if v.len() == 0 {
        seq![]
    } else {
        let rest = text_items(v.drop_last());
        match v.last().text() {
            Some(t) => rest.push(t),
            None => rest,
        }
    }
}

/// The strings of a member that is an array; none for anything else.
pub open spec fn text_list(v: Option<JsonView>) -> Seq<Seq<char>> {
    match v {
        Some(JsonView::Array(items)) => text_items(items),
        _ => seq![],
    }
}

/// A member that is a number, as its token.
pub open spec fn number_member(v: JsonView, key: Seq<char>) -> Option<
    Seq<char>,
> {
    match v.member(key) {
        Some(m) => m.number(),
        None => None,
    }
}

/// A member that is a string.
pub open spec fn text_member(v: JsonView, key: Seq<char>) -> Option<
    Seq<char>,
> {
    match v.member(key) {
        Some(m) => m.text(),
        None => None,
    }
}

/// A member that is true.
pub open spec fn is_true(v: JsonView, key: Seq<char>) -> bool {
    match v.member(key) {
        Some(m) => m.boolean() == Some(true),
        None => false,
    }
}

pub(crate) fn member_number(v: &serde_json::Value, key: &str) -> (r: Option<String>)
    ensures
        match r {
            Some(t) => number_member(value_view(*v), key@) == Some(t@),
            None => number_member(value_view(*v), key@) is None,
        },
{
    match member(v, key) {
        Some(m) => number_text(m),
        None => None,
    }
}

pub(crate) fn member_text(v: &serde_json::Value, key: &str) -> (r: Option<String>)
    ensures
        match r {
            Some(t) => text_member(value_view(*v), key@) == Some(t@),
            None => text_member(value_view(*v), key@) is None,
        },
{
    match member(v, key) {
        Some(m) => match m.as_str() {
            Some(t) => Some(t.to_owned()),
            None => None,
        },
        None => None,
    }
}

pub(crate) fn member_true(v: &serde_json::Value, key: &str) -> (r: bool)
    ensures
        r == is_true(value_view(*v), key@),
{
    match member(v, key) {
        Some(m) => match m.as_bool() {
            Some(b) => b,
            None => false,
        },
        None => false,
    }
}

/// One character inside a JSON string: quotes, backslashes and control
/// characters are escaped, everything else stands as it is.
pub open spec fn escaped(c: char) -> Seq<char> {
    if c == '"' {
        seq!['\\', '"']
    } else if c == '\\' {
        seq!['\\', '\\']
    } else if c == '\u{8}' {
        seq!['\\', 'b']
    } else if c == '\u{9}' {
        seq!['\\', 't']
    } else if c == '\u{a}' {
        seq!['\\', 'n']
    } else if c == '\u{c}' {
        seq!['\\', 'f']
    } else if c == '\u{d}' {
        seq!['\\', 'r']
    } else if '\u{20}' > c {
        seq![
            '\\',
            'u',
            '0',
            '0',
            crate::text::hex_char(c as int / 16),
            crate::text::hex_char(c as int % 16),
        ]
    } else {
        seq![c]
    }
}

/// The characters of a JSON string between its quotes.
pub open spec fn escaped_all(s: Seq<char>) -> Seq<char>
    decreases s.len(),
{
    if s.len() == 0 {
        seq![]
    } else {
        escaped_all(s.drop_last()) + escaped(s.last())
    }
}

/// A JSON string.
pub open spec fn quoted(s: Seq<char>) -> Seq<char> {
    seq!['"'] + escaped_all(s) + seq!['"']
}

/// `serde_json::to_string` of a string: quoted, with the escapes of `escaped`.
/// Serialising a string into memory does not fail.
#[verifier::external_body]
pub(crate) fn quote(s: &str) -> (r: String)
    ensures
        r@ == quoted(s@),
{
    serde_json::to_string(s).unwrap_or_default()
}

/// Hexadecimal digits stand in a JSON string as they are.
pub proof fn lemma_hex_stays(s: Seq<char>)
    requires
        crate::text::all_hex(s),
    ensures
        escaped_all(s) == s,
        quoted(s) == seq!['"'] + s + seq!['"'],
    decreases s.len(),
{
    if s.len() > 0 {
        let r = s.drop_last();
        assert forall|i: int| 0 <= i < r.len() implies crate::text::hex_digit(
            #[trigger] r[i],
        ) is Some by {
            assert(crate::text::hex_digit(s[i]) is Some);
        }
        lemma_hex_stays(r);
        assert(crate::text::hex_digit(s[s.len() - 1]) is Some);
        assert(escaped(s.last()) == seq![s.last()]);
        assert(escaped_all(s) =~= s);
    } else {
        assert(escaped_all(s) =~= s);
    }
}

pub proof fn lemma_quoted_one_line(s: Seq<char>)
    ensures
        !quoted(s).contains('\n'),
{
    lemma_escaped_one_line(s);
    let q = quoted(s);
    if q.contains('\n') {
        let i = choose|i: int| 0 <= i < q.len() && q[i] == '\n';
        assert(escaped_all(s)[i - 1] == '\n');
    }
}

proof fn lemma_escaped_char(c: char)
    ensures
        !escaped(c).contains('\n'),
{
    if '\u{20}' > c {
        assert(crate::text::hex_digit(crate::text::hex_char(c as int / 16)) is Some);
        assert(crate::text::hex_digit(crate::text::hex_char(c as int % 16)) is Some);
    }
}

proof fn lemma_escaped_one_line(s: Seq<char>)
    ensures
        !escaped_all(s).contains('\n'),
    decreases s.len(),
{
    if s.len() > 0 {
        lemma_escaped_one_line(s.drop_last());
        let a = escaped_all(s.drop_last());
        let b = escaped(s.last());
        lemma_escaped_char(s.last());
        if (a + b).contains('\n') {
            let i = choose|i: int| 0 <= i < (a + b).len() && (a + b)[i] == '\n';
            if i < a.len() {
                assert(a[i] == '\n');
            } else {
                assert(b[i - a.len()] == '\n');
            }
        }
    }
}

/// The end of the integer part at `i`: a lone zero, or a run of digits.
pub open spec fn int_end(s: Seq<char>, i: int) -> int {
    if 0 <= i < s.len() && s[i] == '0' {
        i + 1
    } else {
        crate::text::run_end(s, i)
    }
}

/// The end of an optional sign at `i`, where `plus` says that a plus sign counts.
pub open spec fn sign_end(s: Seq<char>, i: int, plus: bool) -> int {
    if 0 <= i < s.len() && (s[i] == '-' || (plus && s[i] == '+')) {
        i + 1
    } else {
        i
    }
}

/// JSON number grammar: sign, integer part, fraction, exponent.
pub open spec fn is_number(s: Seq<char>) -> bool {
    let a = sign_end(s, 0, false);
    let b = int_end(s, a);
    let frac = b < s.len() && s[b] == '.';
    let c = if frac {
        crate::text::run_end(s, b + 1)
    } else {
        b
    };
    let exp = c < s.len() && (s[c] == 'e' || s[c] == 'E');
    let d = sign_end(s, c + 1, true);
    let e = if exp {
        crate::text::run_end(s, d)
    } else {
        c
    };
    a < b && (frac ==> b + 1 < c) && (exp ==> d < e) && e == s.len()
}

fn check_number(s: &[char]) -> (r: bool)
    ensures
        r == is_number(s@),
{
    let n: usize = s.len();
    let a: usize = if n > 0 && s[0] == '-' {
        1
    } else {
        0
    };
    let b: usize = if a < n && s[a] == '0' {
        a + 1
    } else {
        find_run_end(s, a)
    };
    let frac: bool = b < n && s[b] == '.';
    let c: usize = if frac {
        find_run_end(s, b + 1)
    } else {
        b
    };
    let exp: bool = c < n && (s[c] == 'e' || s[c] == 'E');
    let mut d: usize = 0;
    let e: usize = if exp {
        d = if c + 1 < n && (s[c + 1] == '-' || s[c + 1] == '+') {
            c + 2
        } else {
            c + 1
        };
        find_run_end(s, d)
    } else {
        c
    };
    a < b && (!frac || b + 1 < c) && (!exp || d < e) && e == n
}

/// Every character of a run of digits is a digit, and the run is maximal.
proof fn lemma_digits_end(s: Seq<char>, i: int)
    requires
        0 <= i <= s.len(),
    ensures
        i <= crate::text::run_end(s, i) <= s.len(),
        forall|k: int| i <= k < crate::text::run_end(s, i) ==> '0' <= #[trigger] s[k] <= '9',
    decreases s.len() - i,
{
    if i < s.len() && '0' <= s[i] <= '9' {
        lemma_digits_end(s, i + 1);
    }
}

/// A number token holds no line feed.
proof fn lemma_number_one_line(s: Seq<char>)
    requires
        is_number(s),
    ensures
        !s.contains('\n'),
{
    let a = sign_end(s, 0, false);
    let b = int_end(s, a);
    let frac = b < s.len() && s[b] == '.';
    let c = if frac {
        crate::text::run_end(s, b + 1)
    } else {
        b
    };
    let exp = c < s.len() && (s[c] == 'e' || s[c] == 'E');
    let d = sign_end(s, c + 1, true);
    lemma_digits_end(s, a);
    if frac {
        lemma_digits_end(s, b + 1);
    }
    if exp && d <= s.len() {
        lemma_digits_end(s, d);
    }
}

/// The decimal text of a natural number is a number token of digits alone.
proof fn lemma_decimal_is_number(n: nat)
    ensures
        is_number(crate::text::decimal(n)),
{
    let s = crate::text::decimal(n);
    lemma_decimal_digits(n);
    lemma_all_digits_end(s, 0);
    assert(crate::text::run_end(s, 0) == s.len());
}

proof fn lemma_all_digits_end(s: Seq<char>, i: int)
    requires
        0 <= i <= s.len(),
        forall|k: int| 0 <= k < s.len() ==> '0' <= #[trigger] s[k] <= '9',
    ensures
        crate::text::run_end(s, i) == s.len(),
    decreases s.len() - i,
{
    if i < s.len() {
        lemma_all_digits_end(s, i + 1);
    }
}

/// Decimal digits are digits, and only zero starts with a zero.
pub proof fn lemma_decimal_digits(n: nat)
    ensures
        crate::text::decimal(n).len() > 0,
        forall|k: int|
            0 <= k < crate::text::decimal(n).len() ==> '0' <= #[trigger] crate::text::decimal(n)[k]
                <= '9',
        n > 0 ==> crate::text::decimal(n)[0] != '0',
        n == 0 ==> crate::text::decimal(n).len() == 1,
    decreases n,
{
    if n >= 10 {
        lemma_decimal_digits(n / 10);
    }
}

/// A JSON number as it stands on the wire. The token is carried unchanged, so
/// an integer stays an integer and a fraction keeps its digits.
#[derive(Debug)]
pub struct Number {
    token: String,
}

impl Number {
    pub closed spec fn text(&self) -> Seq<char> {
        self.token@
    }

    #[verifier::type_invariant]
    spec fn grammar(self) -> bool {
        is_number(self.token@)
    }

    /// The token of a counter value.
    pub fn from_u64(n: u64) -> (r: Self)
        ensures
            r.text() == crate::text::decimal(n as nat),
    {
        proof {
            lemma_decimal_is_number(n as nat);
        }
        Number { token: crate::text::decimal_of(n) }
    }

    /// A token in the JSON grammar; `None` for any other text.
    pub fn from_text(s: &str) -> (r: Option<Self>)
        ensures
            r is Some <==> is_number(s@),
            r matches Some(n) ==> n.text() == s@,
    {
        let chars = chars_of(s);
        if check_number(chars.as_slice()) {
            Some(Number { token: string_of(chars.as_slice()) })
        } else {
            None
        }
    }

    pub fn as_text(&self) -> (r: &str)
        ensures
            r@ == self.text(),
            is_number(r@),
            !r@.contains('\n'),
    {
        proof {
            use_type_invariant(self);
            lemma_number_one_line(self.token@);
        }
        self.token.as_str()
    }
}

/// The tree of a number token; `None` where the number is out of range.
pub open spec fn number_tree(n: Number) -> Option<JsonView> {
    json_of(vstd::utf8::encode_utf8(n.text()))
}

/// The value of a number token; see `number_tree`.
pub(crate) fn number_value(n: &Number) -> (r: Option<serde_json::Value>)
    ensures
        r is Some <==> number_tree(*n) is Some,
        r matches Some(v) ==> Some(value_view(v)) == number_tree(*n),
{
    match parse_json(n.as_text().as_bytes()) {
        Ok(v) => Some(v),
        Err(_) => None,
    }
}

/// A counting number, or null.
pub open spec fn integer_or_null(n: Option<u64>) -> JsonView {
    match n {
        Some(x) => JsonView::Number(crate::text::decimal(x as nat)),
        None => JsonView::Null,
    }
}

/// The value of a counting number, or null.
pub(crate) fn integer_or_null_value(n: Option<u64>) -> (r: serde_json::Value)
    ensures
        value_view(r) == integer_or_null(n),
{
    match n {
        Some(x) => integer_value(x),
        None => null_value(),
    }
}

} // verus!
