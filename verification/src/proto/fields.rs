//! Finding the members of a message in its text by their names.

use vstd::prelude::*;

verus! {

/// `piece` stands in `s` at `i`.
pub open spec fn stands_at(s: Seq<char>, piece: Seq<char>, i: int) -> bool {
    &&& 0 <= i
    &&& i + piece.len() <= s.len()
    &&& forall|j: int| 0 <= j < piece.len() ==> s[i + j] == #[trigger] piece[j]
}

/// Where the first `piece` at or behind `i` ends.
pub open spec fn behind(s: Seq<char>, piece: Seq<char>, i: int) -> Option<int>
    decreases s.len() - i,
{
    if i >= s.len() {
        None
    } else if stands_at(s, piece, i) {
        Some(i + piece.len())
    } else {
        behind(s, piece, i + 1)
    }
}

/// The name of a member, quoted, and the colon behind it.
pub open spec fn key_of(name: Seq<char>) -> Seq<char> {
    seq!['"'] + name + seq!['"', ':']
}

/// The place of the next quote.
pub open spec fn quote_from(s: Seq<char>, i: int) -> int
    decreases s.len() - i,
{
    if 0 <= i < s.len() && s[i] != '"' {
        quote_from(s, i + 1)
    } else {
        i
    }
}

/// The counting number that stands behind a member's name.
pub open spec fn number_in(s: Seq<char>, name: Seq<char>) -> Option<int> {
    match behind(s, key_of(name), 0) {
        Some(i) => crate::text::parse_decimal(s.subrange(i, crate::text::run_end(s, i))),
        None => None,
    }
}

/// What stands between the quotes behind a member's name.
pub open spec fn string_in(s: Seq<char>, name: Seq<char>) -> Option<Seq<char>> {
    match behind(s, key_of(name), 0) {
        Some(i) => if i < s.len() && s[i] == '"' {
            Some(s.subrange(i + 1, quote_from(s, i + 1)))
        } else {
            None
        },
        None => None,
    }
}

/// No quote from `i` to `j` is followed by `a` and `b`.
#[verifier::opaque]
spec fn calm(s: Seq<char>, i: int, j: int, a: char, b: char) -> bool {
    forall|k: int| i <= k < j && #[trigger] s[k] == '"' ==> s[k + 1] != a || s[k + 2] != b
}

proof fn lemma_behind(s: Seq<char>, piece: Seq<char>, i: int, k: int)
    requires
        0 <= i <= k,
        piece.len() >= 3,
        piece[0] == '"',
        calm(s, i, k, piece[1], piece[2]),
        stands_at(s, piece, k),
    ensures
        behind(s, piece, i) == Some(k + piece.len()),
    decreases k - i,
{
    reveal(calm);
    if i < k {
        lemma_behind(s, piece, i + 1, k);
        if stands_at(s, piece, i) {
            assert(s[i + 0] == piece[0]);
            assert(s[i + 1] == piece[1]);
            assert(s[i + 2] == piece[2]);
            assert(s[i] == '"');
        }
    }
}

/// Digits and hexadecimal digits hold no quote.
proof fn lemma_calm_part(s: Seq<char>, part: Seq<char>, i: int, a: char, b: char)
    requires
        stands_at(s, part, i),
        crate::text::all_hex(part),
    ensures
        calm(s, i, i + part.len(), a, b),
{
    reveal(calm);
    assert forall|k: int| i <= k < i + part.len() && #[trigger] s[k] == '"' implies s[k + 1] != a
        || s[k + 2] != b by {
        assert(s[i + (k - i)] == part[k - i]);
        assert(crate::text::hex_digit(part[k - i]) is Some);
    }
}

proof fn lemma_calm_add(s: Seq<char>, i: int, j: int, k: int, a: char, b: char)
    requires
        calm(s, i, j, a, b),
        calm(s, j, k, a, b),
    ensures
        calm(s, i, k, a, b),
{
    reveal(calm);
}

proof fn lemma_run(s: Seq<char>, d: Seq<char>, i: int, k: int)
    requires
        stands_at(s, d, i),
        crate::text::all_digits(d),
        i + d.len() < s.len(),
        !('0' <= s[i + d.len()] <= '9'),
        i <= k <= i + d.len(),
    ensures
        crate::text::run_end(s, k) == i + d.len(),
    decreases i + d.len() - k,
{
    if k < i + d.len() {
        assert(s[i + (k - i)] == d[k - i]);
        lemma_run(s, d, i, k + 1);
    }
}

proof fn lemma_quote(s: Seq<char>, d: Seq<char>, i: int, k: int)
    requires
        stands_at(s, d, i),
        crate::text::all_hex(d),
        i + d.len() < s.len(),
        s[i + d.len()] == '"',
        i <= k <= i + d.len(),
    ensures
        quote_from(s, k) == i + d.len(),
    decreases i + d.len() - k,
{
    if k < i + d.len() {
        assert(s[i + (k - i)] == d[k - i]);
        assert(crate::text::hex_digit(d[k - i]) is Some);
        lemma_quote(s, d, i, k + 1);
    }
}

/// A member that holds a counting number is read where nothing before it looks like
/// its name.
proof fn lemma_number(s: Seq<char>, name: Seq<char>, k: int, n: nat)
    requires
        name.len() >= 1,
        calm(s, 0, k, key_of(name)[1], key_of(name)[2]),
        stands_at(s, key_of(name), k),
        stands_at(s, crate::text::decimal(n), k + key_of(name).len()),
        k + key_of(name).len() + crate::text::decimal(n).len() < s.len(),
        !('0' <= s[k + key_of(name).len() + crate::text::decimal(n).len()] <= '9'),
    ensures
        number_in(s, name) == Some(n as int),
{
    let d = crate::text::decimal(n);
    let i = k + key_of(name).len();
    crate::text::law_decimal_reads_back(n);
    lemma_behind(s, key_of(name), 0, k);
    lemma_run(s, d, i, i);
    assert forall|j: int| 0 <= j < d.len() implies s.subrange(i, i + d.len())[j] == d[j] by {
        assert(s[i + j] == d[j]);
    }
    assert(s.subrange(i, i + d.len()) =~= d);
}

/// So is a member that holds hexadecimal digits in quotes.
proof fn lemma_string(s: Seq<char>, name: Seq<char>, k: int, h: Seq<char>)
    requires
        name.len() >= 1,
        crate::text::all_hex(h),
        calm(s, 0, k, key_of(name)[1], key_of(name)[2]),
        stands_at(s, key_of(name), k),
        k + key_of(name).len() < s.len(),
        s[k + key_of(name).len()] == '"',
        stands_at(s, h, k + key_of(name).len() + 1),
        k + key_of(name).len() + 1 + h.len() < s.len(),
        s[k + key_of(name).len() + 1 + h.len()] == '"',
    ensures
        string_in(s, name) == Some(h),
{
    let i = k + key_of(name).len() + 1;
    lemma_behind(s, key_of(name), 0, k);
    lemma_quote(s, h, i, i);
    assert forall|j: int| 0 <= j < h.len() implies s.subrange(i, i + h.len())[j] == h[j] by {
        assert(s[i + j] == h[j]);
    }
    assert(s.subrange(i, i + h.len()) =~= h);
}

/// The start of a sync message.
proof fn lemma_calm_sync(s: Seq<char>, a: char, b: char)
    requires
        stands_at(s, "{\"sync\":{\"et\":"@, 0),
        a == 'e' || a == 'o',
    ensures
        "{\"sync\":{\"et\":"@.len() == 14,
        a == 'o' || b != 't' ==> calm(s, 0, 14, a, b),
        calm(s, 0, 9, a, b),
        stands_at(s, key_of("et"@), 9),
        key_of("et"@).len() == 5,
        key_of("et"@)[1] == 'e',
        key_of("et"@)[2] == 't',
{
    reveal(calm);
    reveal_strlit("{\"sync\":{\"et\":");
    reveal_strlit("et");
    let l = "{\"sync\":{\"et\":"@;
    assert forall|j: int| 0 <= j < 14 implies s[j] == #[trigger] l[j] by {
        assert(s[0 + j] == l[j]);
    }
    assert(l[0] != '"' && l[1] == '"' && l[2] == 's' && l[3] == 'y' && l[4] == 'n' && l[5] == 'c'
        && l[6] == '"' && l[7] == ':' && l[8] == '{' && l[9] == '"' && l[10] == 'e' && l[11] == 't'
        && l[12] == '"' && l[13] == ':');
    assert forall|k: int| 0 <= k < 14 && #[trigger] s[k] == '"' && (k < 9 || a == 'o' || b
        != 't') implies s[k + 1] != a || s[k + 2] != b by {
        assert(k == 0 || k == 1 || k == 2 || k == 3 || k == 4 || k == 5 || k == 6 || k == 7 || k
            == 8 || k == 9 || k == 10 || k == 11 || k == 12 || k == 13);
    }
    let p = key_of("et"@);
    assert forall|j: int| 0 <= j < p.len() implies s[9 + j] == #[trigger] p[j] by {
        assert(j == 0 || j == 1 || j == 2 || j == 3 || j == 4);
    }
}

/// A comma, a name of two letters in quotes and a colon.
pub open spec fn is_name_at(s: Seq<char>, i: int, x: char, y: char) -> bool {
    &&& 0 <= i
    &&& i + 6 < s.len()
    &&& s[i] == ','
    &&& s[i + 1] == '"'
    &&& s[i + 2] == x
    &&& s[i + 3] == y
    &&& s[i + 4] == '"'
    &&& s[i + 5] == ':'
}

proof fn lemma_digits_are_hex(n: nat)
    ensures
        crate::text::all_hex(crate::text::decimal(n)),
{
    crate::proto::json::lemma_decimal_digits(n);
    let d = crate::text::decimal(n);
    assert forall|k: int| 0 <= k < d.len() implies crate::text::hex_digit(
        #[trigger] d[k],
    ) is Some by {
        assert('0' <= d[k] <= '9');
    }
}

/// The name of a later member.
proof fn lemma_calm_name(s: Seq<char>, i: int, name: Seq<char>, a: char, b: char)
    requires
        name.len() == 2,
        name[0] != '"',
        name[1] != '"',
        is_name_at(s, i, name[0], name[1]),
        a != ':',
    ensures
        calm(s, i, i + 1, a, b),
        a != name[0] || b != name[1] ==> calm(s, i, i + 6, a, b),
        stands_at(s, key_of(name), i + 1),
        key_of(name).len() == 5,
        key_of(name)[1] == name[0],
        key_of(name)[2] == name[1],
{
    reveal(calm);
    assert forall|k: int| i <= k < i + 6 && #[trigger] s[k] == '"' && (a != name[0] || b
        != name[1]) implies s[k + 1] != a || s[k + 2] != b by {
        assert(k == i || k == i + 1 || k == i + 2 || k == i + 3 || k == i + 4 || k == i + 5);
    }
    let p = key_of(name);
    assert forall|j: int| 0 <= j < p.len() implies s[i + 1 + j] == #[trigger] p[j] by {
        assert(j == 0 || j == 1 || j == 2 || j == 3 || j == 4);
    }
}

/// Hexadecimal digits in quotes.
proof fn lemma_calm_string(s: Seq<char>, i: int, h: Seq<char>, a: char, b: char)
    requires
        0 <= i,
        i + 2 + h.len() < s.len(),
        crate::text::all_hex(h),
        s[i] == '"',
        stands_at(s, h, i + 1),
        s[i + 1 + h.len()] == '"',
        s[i + 2 + h.len()] == ',',
        a == 'e' || a == 'o',
        b == 't' || b == 'm',
    ensures
        calm(s, i, i + 2 + h.len(), a, b),
{
    reveal(calm);
    lemma_calm_part(s, h, i + 1, a, b);
    if h.len() >= 1 {
        assert(s[i + 1 + 0] == h[0]);
    }
    if h.len() >= 2 {
        assert(s[i + 1 + 1] == h[1]);
        assert(crate::text::hex_digit(h[1]) is Some);
    }
    assert(s[i + 1] != a || s[i + 2] != b);
    assert(calm(s, i, i + 1, a, b));
    assert(calm(s, i + 1 + h.len(), i + 2 + h.len(), a, b));
}

/// Where the members of a sync message stand.
spec fn is_sync_layout(s: Seq<char>, et: nat, ot: nat, em: Seq<char>, om: Seq<char>) -> bool {
    let e = crate::text::decimal(et);
    let o = crate::text::decimal(ot);
    let p1 = 14 + e.len() as int;
    let p2 = p1 + 6 + o.len();
    let p3 = p2 + 8 + em.len();
    &&& s.len() == p3 + 8 + om.len() + 2
    &&& stands_at(s, "{\"sync\":{\"et\":"@, 0)
    &&& stands_at(s, e, 14)
    &&& is_name_at(s, p1, 'o', 't')
    &&& stands_at(s, o, p1 + 6)
    &&& is_name_at(s, p2, 'e', 'm')
    &&& s[p2 + 6] == '"'
    &&& stands_at(s, em, p2 + 7)
    &&& s[p3 - 1] == '"'
    &&& is_name_at(s, p3, 'o', 'm')
    &&& s[p3 + 6] == '"'
    &&& stands_at(s, om, p3 + 7)
    &&& s[p3 + 7 + om.len()] == '"'
}

proof fn lemma_sync_layout(et: nat, ot: nat, em: Seq<char>, om: Seq<char>)
    requires
        crate::text::all_hex(em),
        crate::text::all_hex(om),
    ensures
        is_sync_layout(
            crate::proto::messages::msg_text(
                crate::proto::messages::MsgView::Sync {
                    et: crate::text::decimal(et),
                    ot: crate::text::decimal(ot),
                    em,
                    om,
                },
            ),
            et,
            ot,
            em,
            om,
        ),
{
    let e = crate::text::decimal(et);
    let o = crate::text::decimal(ot);
    reveal_strlit("{\"sync\":{\"et\":");
    reveal_strlit(",\"ot\":");
    reveal_strlit(",\"em\":");
    reveal_strlit(",\"om\":");
    reveal_strlit("}}");
    crate::proto::json::lemma_hex_stays(em);
    crate::proto::json::lemma_hex_stays(om);
}

proof fn lemma_sync_counters(s: Seq<char>, et: nat, ot: nat, em: Seq<char>, om: Seq<char>)
    requires
        is_sync_layout(s, et, ot, em, om),
    ensures
        number_in(s, "et"@) == Some(et as int),
        number_in(s, "ot"@) == Some(ot as int),
{
    let e = crate::text::decimal(et);
    let p1 = 14 + e.len() as int;
    reveal_strlit("ot");
    lemma_digits_are_hex(et);
    lemma_calm_sync(s, 'e', 't');
    lemma_number(s, "et"@, 9, et);
    lemma_calm_sync(s, 'o', 't');
    lemma_calm_part(s, e, 14, 'o', 't');
    lemma_calm_name(s, p1, "ot"@, 'o', 't');
    lemma_calm_add(s, 0, 14, p1, 'o', 't');
    lemma_calm_add(s, 0, p1, p1 + 1, 'o', 't');
    lemma_number(s, "ot"@, p1 + 1, ot);
}

proof fn lemma_sync_frames(s: Seq<char>, et: nat, ot: nat, em: Seq<char>, om: Seq<char>)
    requires
        crate::text::all_hex(em),
        crate::text::all_hex(om),
        is_sync_layout(s, et, ot, em, om),
    ensures
        string_in(s, "em"@) == Some(em),
        string_in(s, "om"@) == Some(om),
{
    let e = crate::text::decimal(et);
    let o = crate::text::decimal(ot);
    let p1 = 14 + e.len() as int;
    let p2 = p1 + 6 + o.len();
    let p3 = p2 + 8 + em.len();
    reveal_strlit("ot");
    reveal_strlit("em");
    reveal_strlit("om");
    lemma_digits_are_hex(et);
    lemma_digits_are_hex(ot);
    lemma_calm_sync(s, 'e', 'm');
    lemma_calm_part(s, e, 14, 'e', 'm');
    lemma_calm_name(s, p1, "ot"@, 'e', 'm');
    lemma_calm_part(s, o, p1 + 6, 'e', 'm');
    lemma_calm_name(s, p2, "em"@, 'e', 'm');
    lemma_calm_add(s, 0, 14, p1, 'e', 'm');
    lemma_calm_add(s, 0, p1, p1 + 6, 'e', 'm');
    lemma_calm_add(s, 0, p1 + 6, p2, 'e', 'm');
    lemma_calm_add(s, 0, p2, p2 + 1, 'e', 'm');
    lemma_string(s, "em"@, p2 + 1, em);
    lemma_calm_sync(s, 'o', 'm');
    lemma_calm_part(s, e, 14, 'o', 'm');
    lemma_calm_name(s, p1, "ot"@, 'o', 'm');
    lemma_calm_part(s, o, p1 + 6, 'o', 'm');
    lemma_calm_name(s, p2, "em"@, 'o', 'm');
    lemma_calm_string(s, p2 + 6, em, 'o', 'm');
    lemma_calm_name(s, p3, "om"@, 'o', 'm');
    lemma_calm_add(s, 0, 14, p1, 'o', 'm');
    lemma_calm_add(s, 0, p1, p1 + 6, 'o', 'm');
    lemma_calm_add(s, 0, p1 + 6, p2, 'o', 'm');
    lemma_calm_add(s, 0, p2, p2 + 6, 'o', 'm');
    lemma_calm_add(s, 0, p2 + 6, p3, 'o', 'm');
    lemma_calm_add(s, 0, p3, p3 + 1, 'o', 'm');
    lemma_string(s, "om"@, p3 + 1, om);
}

/// The members of a sync message are found under their names: the counters under `et`
/// and `ot`, the frames under `em` and `om`.
pub proof fn law_sync_text_reads_back(et: nat, ot: nat, em: Seq<char>, om: Seq<char>)
    requires
        crate::text::all_hex(em),
        crate::text::all_hex(om),
    ensures
        ({
            let s = crate::proto::messages::msg_text(
                crate::proto::messages::MsgView::Sync {
                    et: crate::text::decimal(et),
                    ot: crate::text::decimal(ot),
                    em,
                    om,
                },
            );
            &&& number_in(s, "et"@) == Some(et as int)
            &&& number_in(s, "ot"@) == Some(ot as int)
            &&& string_in(s, "em"@) == Some(em)
            &&& string_in(s, "om"@) == Some(om)
        }),
{
    let s = crate::proto::messages::msg_text(
        crate::proto::messages::MsgView::Sync {
            et: crate::text::decimal(et),
            ot: crate::text::decimal(ot),
            em,
            om,
        },
    );
    lemma_sync_layout(et, ot, em, om);
    lemma_sync_counters(s, et, ot, em, om);
    lemma_sync_frames(s, et, ot, em, om);
}

/// Where the members of a sync message stand that has each frame behind its counter.
pub open spec fn is_pair_layout(s: Seq<char>, et: nat, em: Seq<char>, ot: nat, om: Seq<char>) -> bool {
    let e = crate::text::decimal(et);
    let o = crate::text::decimal(ot);
    let p1 = 14 + e.len() as int;
    let p2 = p1 + 8 + em.len();
    let p3 = p2 + 6 + o.len();
    &&& s.len() == p3 + 8 + om.len() + 2
    &&& stands_at(s, "{\"sync\":{\"et\":"@, 0)
    &&& stands_at(s, e, 14)
    &&& is_name_at(s, p1, 'e', 'm')
    &&& s[p1 + 6] == '"'
    &&& stands_at(s, em, p1 + 7)
    &&& s[p2 - 1] == '"'
    &&& is_name_at(s, p2, 'o', 't')
    &&& stands_at(s, o, p2 + 6)
    &&& is_name_at(s, p3, 'o', 'm')
    &&& s[p3 + 6] == '"'
    &&& stands_at(s, om, p3 + 7)
    &&& s[p3 + 7 + om.len()] == '"'
}

pub(crate) proof fn lemma_pair_even(s: Seq<char>, et: nat, em: Seq<char>, ot: nat, om: Seq<char>)
    requires
        crate::text::all_hex(em),
        is_pair_layout(s, et, em, ot, om),
    ensures
        number_in(s, "et"@) == Some(et as int),
        string_in(s, "em"@) == Some(em),
{
    let e = crate::text::decimal(et);
    let p1 = 14 + e.len() as int;
    reveal_strlit("em");
    lemma_digits_are_hex(et);
    lemma_calm_sync(s, 'e', 't');
    lemma_number(s, "et"@, 9, et);
    lemma_calm_sync(s, 'e', 'm');
    lemma_calm_part(s, e, 14, 'e', 'm');
    lemma_calm_name(s, p1, "em"@, 'e', 'm');
    lemma_calm_add(s, 0, 14, p1, 'e', 'm');
    lemma_calm_add(s, 0, p1, p1 + 1, 'e', 'm');
    lemma_string(s, "em"@, p1 + 1, em);
}

pub(crate) proof fn lemma_pair_odd(s: Seq<char>, et: nat, em: Seq<char>, ot: nat, om: Seq<char>)
    requires
        crate::text::all_hex(em),
        crate::text::all_hex(om),
        is_pair_layout(s, et, em, ot, om),
    ensures
        number_in(s, "ot"@) == Some(ot as int),
        string_in(s, "om"@) == Some(om),
{
    let e = crate::text::decimal(et);
    let o = crate::text::decimal(ot);
    let p1 = 14 + e.len() as int;
    let p2 = p1 + 8 + em.len();
    let p3 = p2 + 6 + o.len();
    reveal_strlit("ot");
    reveal_strlit("em");
    reveal_strlit("om");
    lemma_digits_are_hex(et);
    lemma_digits_are_hex(ot);
    lemma_calm_sync(s, 'o', 't');
    lemma_calm_part(s, e, 14, 'o', 't');
    lemma_calm_name(s, p1, "em"@, 'o', 't');
    lemma_calm_string(s, p1 + 6, em, 'o', 't');
    lemma_calm_name(s, p2, "ot"@, 'o', 't');
    lemma_calm_add(s, 0, 14, p1, 'o', 't');
    lemma_calm_add(s, 0, p1, p1 + 6, 'o', 't');
    lemma_calm_add(s, 0, p1 + 6, p2, 'o', 't');
    lemma_calm_add(s, 0, p2, p2 + 1, 'o', 't');
    lemma_number(s, "ot"@, p2 + 1, ot);
    lemma_calm_sync(s, 'o', 'm');
    lemma_calm_part(s, e, 14, 'o', 'm');
    lemma_calm_name(s, p1, "em"@, 'o', 'm');
    lemma_calm_string(s, p1 + 6, em, 'o', 'm');
    lemma_calm_name(s, p2, "ot"@, 'o', 'm');
    lemma_calm_part(s, o, p2 + 6, 'o', 'm');
    lemma_calm_name(s, p3, "om"@, 'o', 'm');
    lemma_calm_add(s, 0, 14, p1, 'o', 'm');
    lemma_calm_add(s, 0, p1, p1 + 6, 'o', 'm');
    lemma_calm_add(s, 0, p1 + 6, p2, 'o', 'm');
    lemma_calm_add(s, 0, p2, p2 + 6, 'o', 'm');
    lemma_calm_add(s, 0, p2 + 6, p3, 'o', 'm');
    lemma_calm_add(s, 0, p3, p3 + 1, 'o', 'm');
    lemma_string(s, "om"@, p3 + 1, om);
}

/// The members of an mlat message are found under their names: the counter under `t`,
/// the frame under `m`.
pub proof fn law_mlat_text_reads_back(t: nat, m: Seq<char>)
    requires
        crate::text::all_hex(m),
    ensures
        ({
            let s = crate::proto::messages::msg_text(
                crate::proto::messages::MsgView::Mlat { t: crate::text::decimal(t), m },
            );
            &&& number_in(s, "t"@) == Some(t as int)
            &&& string_in(s, "m"@) == Some(m)
        }),
{
    let d = crate::text::decimal(t);
    let s = crate::proto::messages::msg_text(crate::proto::messages::MsgView::Mlat { t: d, m });
    let l = "{\"mlat\":{\"t\":"@;
    let p = 13 + d.len() as int;
    reveal_strlit("{\"mlat\":{\"t\":");
    reveal_strlit(",\"m\":");
    reveal_strlit("}}");
    reveal_strlit("t");
    reveal_strlit("m");
    crate::proto::json::lemma_hex_stays(m);
    lemma_digits_are_hex(t);
    assert(s.len() == p + 5 + 2 + m.len() + 2);
    assert forall|j: int| 0 <= j < 13 implies s[j] == #[trigger] l[j] by {}
    assert(l[0] != '"' && l[1] == '"' && l[2] == 'm' && l[3] == 'l' && l[4] == 'a' && l[5] == 't'
        && l[6] == '"' && l[7] == ':' && l[8] == '{' && l[9] == '"' && l[10] == 't' && l[11] == '"'
        && l[12] == ':');
    assert(stands_at(s, d, 13));
    assert(s[p] == ',' && s[p + 1] == '"' && s[p + 2] == 'm' && s[p + 3] == '"' && s[p + 4] == ':'
        && s[p + 5] == '"');
    assert(stands_at(s, m, p + 6));
    assert(s[p + 6 + m.len()] == '"');
    assert(calm(s, 0, 9, 't', '"') && calm(s, 0, 13, 'm', '"')) by {
        reveal(calm);
        assert forall|k: int| 0 <= k < 13 && #[trigger] s[k] == '"' implies s[k + 1] != 'm' || s[k
            + 2] != '"' by {
            assert(k == 0 || k == 1 || k == 2 || k == 3 || k == 4 || k == 5 || k == 6 || k == 7 || k
                == 8 || k == 9 || k == 10 || k == 11 || k == 12);
        }
        assert forall|k: int| 0 <= k < 9 && #[trigger] s[k] == '"' implies s[k + 1] != 't' || s[k
            + 2] != '"' by {
            assert(k == 0 || k == 1 || k == 2 || k == 3 || k == 4 || k == 5 || k == 6 || k == 7 || k
                == 8);
        }
    }
    let kt = key_of("t"@);
    assert forall|j: int| 0 <= j < kt.len() implies s[9 + j] == #[trigger] kt[j] by {
        assert(j == 0 || j == 1 || j == 2 || j == 3);
    }
    lemma_number(s, "t"@, 9, t);
    let km = key_of("m"@);
    assert forall|j: int| 0 <= j < km.len() implies s[p + 1 + j] == #[trigger] km[j] by {
        assert(j == 0 || j == 1 || j == 2 || j == 3);
    }
    lemma_calm_part(s, d, 13, 'm', '"');
    lemma_calm_add(s, 0, 13, p, 'm', '"');
    assert(calm(s, p, p + 1, 'm', '"')) by {
        reveal(calm);
    }
    lemma_calm_add(s, 0, p, p + 1, 'm', '"');
    lemma_string(s, "m"@, p + 1, m);
}

/// The hexadecimal text under a name writes these bytes.
pub open spec fn writes_under(s: Seq<char>, name: Seq<char>, bytes: Seq<u8>) -> bool {
    string_in(s, name) matches Some(h) && crate::proto::messages::hex_bytes(h) == Some(bytes)
}

/// The text tells of a pair: the even frame stands under `em` and its counter under
/// `et`, the odd frame under `om` and its counter under `ot`.
pub open spec fn tells_pair(
    s: Seq<char>,
    even_count: u64,
    even: Seq<u8>,
    odd_count: u64,
    odd: Seq<u8>,
) -> bool {
    &&& number_in(s, "et"@) == Some(even_count as int)
    &&& writes_under(s, "em"@, even)
    &&& number_in(s, "ot"@) == Some(odd_count as int)
    &&& writes_under(s, "om"@, odd)
}

/// The text tells of one frame: it stands under `m` and its counter under `t`.
pub open spec fn tells_frame(s: Seq<char>, count: u64, frame: Seq<u8>) -> bool {
    &&& number_in(s, "t"@) == Some(count as int)
    &&& writes_under(s, "m"@, frame)
}

/// A sync message of two counters and two frames tells of that pair.
pub proof fn law_sync_tells_pair(even_count: u64, even: Seq<u8>, odd_count: u64, odd: Seq<u8>)
    ensures
        tells_pair(
            crate::proto::messages::msg_text(
                crate::proto::messages::MsgView::Sync {
                    et: crate::text::decimal(even_count as nat),
                    ot: crate::text::decimal(odd_count as nat),
                    em: crate::proto::messages::hex_text(even),
                    om: crate::proto::messages::hex_text(odd),
                },
            ),
            even_count,
            even,
            odd_count,
            odd,
        ),
{
    crate::proto::messages::law_hex_text_round_trip(even);
    crate::proto::messages::law_hex_text_round_trip(odd);
    law_sync_text_reads_back(
        even_count as nat,
        odd_count as nat,
        crate::proto::messages::hex_text(even),
        crate::proto::messages::hex_text(odd),
    );
}

/// An mlat message of a counter and a frame tells of that frame.
pub proof fn law_mlat_tells_frame(count: u64, frame: Seq<u8>)
    ensures
        tells_frame(
            crate::proto::messages::msg_text(
                crate::proto::messages::MsgView::Mlat {
                    t: crate::text::decimal(count as nat),
                    m: crate::proto::messages::hex_text(frame),
                },
            ),
            count,
            frame,
        ),
{
    crate::proto::messages::law_hex_text_round_trip(frame);
    law_mlat_text_reads_back(count as nat, crate::proto::messages::hex_text(frame));
}

} // verus!
