use vstd::prelude::*;
use crate::graph::Wikipedia;

verus! {

/// Why the page table or the link list could not be read.
#[derive(Debug, Clone, Copy, PartialEq, Eq, Structural)]
pub enum LoadError {
    /// The page line at this index (from 0) has no integer id and title.
    BadPageLine(usize),
    /// The link line at this index (from 0) has no two integer ids.
    BadLinkLine(usize),
}

/// Field separators: the characters of Unicode's White_Space property.
pub open spec fn is_space(c: char) -> bool {
    ('\u{9}' <= c <= '\u{D}') || c == ' ' || c == '\u{85}' || c == '\u{A0}' || c == '\u{1680}'
        || ('\u{2000}' <= c <= '\u{200A}') || c == '\u{2028}' || c == '\u{2029}' || c == '\u{202F}'
        || c == '\u{205F}' || c == '\u{3000}'
}

/// The first index at or after `i` that is not a separator (or the end).
pub open spec fn skip_space(s: Seq<char>, i: int) -> int
    decreases s.len() - i,
{
    if 0 <= i < s.len() && is_space(s[i]) {
        skip_space(s, i + 1)
    } else {
        i
    }
}

/// The first index at or after `i` that is a separator (or the end).
pub open spec fn skip_token(s: Seq<char>, i: int) -> int
    decreases s.len() - i,
{
    if 0 <= i < s.len() && !is_space(s[i]) {
        skip_token(s, i + 1)
    } else {
        i
    }
}

/// The first whitespace-separated field of `s` (empty when there is none).
pub open spec fn first_field(s: Seq<char>) -> Seq<char> {
    let a = skip_space(s, 0);
    s.subrange(a, skip_token(s, a))
}

/// The second whitespace-separated field of `s` (empty when there is none).
pub open spec fn second_field(s: Seq<char>) -> Seq<char> {
    let c = skip_space(s, skip_token(s, skip_space(s, 0)));
    s.subrange(c, skip_token(s, c))
}

/// An ASCII decimal digit.
pub open spec fn is_digit(c: char) -> bool {
    '0' <= c <= '9'
}

/// The value of a string of decimal digits.
pub open spec fn digits_value(s: Seq<char>) -> int
    decreases s.len(),
{
    if s.len() == 0 {
        0
    } else {
        digits_value(s.drop_last()) * 10 + (s.last() as int - '0' as int)
    }
}

/// The digits of a decimal integer, after an optional sign.
pub open spec fn unsigned_part(t: Seq<char>) -> Seq<char> {
    if t.len() > 0 && (t[0] == '-' || t[0] == '+') {
        t.drop_first()
    } else {
        t
    }
}

/// The `i32` that the decimal text `t` denotes: an optional `+` or `-`, then
/// one or more digits, with a value in range.
pub open spec fn int_of(t: Seq<char>) -> Option<i32> {
    let d = unsigned_part(t);
    let v = if t.len() > 0 && t[0] == '-' {
        -digits_value(d)
    } else {
        digits_value(d)
    };
    if d.len() > 0 && (forall|i: int| 0 <= i < d.len() ==> is_digit(#[trigger] d[i])) && i32::MIN
        <= v <= i32::MAX {
        Some(v as i32)
    } else {
        None
    }
}

/// A page line: an id, then a title; further fields are ignored.
pub open spec fn page_fields(line: Seq<char>) -> Option<(i32, Seq<char>)> {
    match int_of(first_field(line)) {
        Some(id) => if second_field(line).len() > 0 {
            Some((id, second_field(line)))
        } else {
            None
        },
        None => None,
    }
}

/// A link line: the id of the linking page, then the id of the linked page;
/// further fields are ignored.
pub open spec fn link_fields(line: Seq<char>) -> Option<(i32, i32)> {
    match (int_of(first_field(line)), int_of(second_field(line))) {
        (Some(from), Some(to)) => Some((from, to)),
        _ => None,
    }
}

/// The id and title that a page line gives (a fixed pair where it gives none).
pub open spec fn page_of_line(l: String) -> (i32, Seq<char>) {
    match page_fields(l@) {
        Some(p) => p,
        None => (0, Seq::empty()),
    }
}

/// The two ids that a link line gives (a fixed pair where it gives none).
pub open spec fn link_of_line(l: String) -> (i32, i32) {
    match link_fields(l@) {
        Some(p) => p,
        None => (0, 0),
    }
}

/// The id and title of each page line, in order.
pub open spec fn page_pairs(pages: Seq<String>) -> Seq<(i32, Seq<char>)> {
    pages.map_values(|l: String| page_of_line(l))
}

/// The two ids of each link line, in order.
pub open spec fn link_pairs(links: Seq<String>) -> Seq<(i32, i32)> {
    links.map_values(|l: String| link_of_line(l))
}

/// Some pair of `ps` carries the id `id`.
pub open spec fn listed(ps: Seq<(i32, Seq<char>)>, id: i32) -> bool {
    exists|k: int| 0 <= k < ps.len() && #[trigger] ps[k].0 == id
}

/// The title of the last pair of `ps` that carries the id `id`.
pub open spec fn last_title(ps: Seq<(i32, Seq<char>)>, id: i32) -> Seq<char>
    decreases ps.len(),
{
    if ps.len() == 0 {
        Seq::empty()
    } else if ps.last().0 == id {
        ps.last().1
    } else {
        last_title(ps.drop_last(), id)
    }
}

/// The position of `id` in `ids`.
pub open spec fn index_in(ids: Seq<i32>, id: i32) -> int {
    choose|j: int| 0 <= j < ids.len() && ids[j] == id
}

/// The pages that the links `ls` lead to from the page with id `from`, in
/// order, as positions in `ids`; a link to an id not in `ids` is dropped.
pub open spec fn link_targets(ids: Seq<i32>, ls: Seq<(i32, i32)>, from: i32) -> Seq<usize>
    decreases ls.len(),
{
    if ls.len() == 0 {
        Seq::empty()
    } else {
        let rest = link_targets(ids, ls.drop_last(), from);
        if ls.last().0 == from && ids.contains(ls.last().1) {
            rest.push(index_in(ids, ls.last().1) as usize)
        } else {
            rest
        }
    }
}

/// Digits never lose value when more digits follow.
proof fn lemma_digits_prefix(s: Seq<char>, k: int)
    requires
        0 <= k <= s.len(),
        forall|i: int| 0 <= i < s.len() ==> is_digit(#[trigger] s[i]),
    ensures
        0 <= digits_value(s.subrange(0, k)) <= digits_value(s),
    decreases s.len(),
{
    if k < s.len() {
        let t = s.drop_last();
        assert(t.subrange(0, k) =~= s.subrange(0, k));
        assert forall|i: int| 0 <= i < t.len() implies is_digit(#[trigger] t[i]) by {
            assert(t[i] == s[i]);
        }
        lemma_digits_prefix(t, k);
        lemma_digits_prefix(t, t.len() as int);
        assert(t.subrange(0, t.len() as int) =~= t);
    } else {
        assert(s.subrange(0, k) =~= s);
        if s.len() > 0 {
            let t = s.drop_last();
            assert forall|i: int| 0 <= i < t.len() implies is_digit(#[trigger] t[i]) by {
                assert(t[i] == s[i]);
            }
            lemma_digits_prefix(t, t.len() as int);
            assert(t.subrange(0, t.len() as int) =~= t);
        }
    }
}

fn skip_space_at(line: &str, len: usize, i: usize) -> (r: usize)
    requires
        len == line@.len(),
        i <= len,
    ensures
        r == skip_space(line@, i as int),
        i <= r <= len,
{
    let mut j = i;
    while j < len && is_space_char(line.get_char(j))
        invariant
            len == line@.len(),
            i <= j <= len,
            skip_space(line@, j as int) == skip_space(line@, i as int),
        decreases len - j,
    {
        j += 1;
    }
    j
}

fn skip_token_at(line: &str, len: usize, i: usize) -> (r: usize)
    requires
        len == line@.len(),
        i <= len,
    ensures
        r == skip_token(line@, i as int),
        i <= r <= len,
{
    let mut j = i;
    while j < len && !is_space_char(line.get_char(j))
        invariant
            len == line@.len(),
            i <= j <= len,
            skip_token(line@, j as int) == skip_token(line@, i as int),
        decreases len - j,
    {
        j += 1;
    }
    j
}

fn is_space_char(c: char) -> (r: bool)
    ensures
        r == is_space(c),
{
    ('\u{9}' <= c && c <= '\u{D}') || c == ' ' || c == '\u{85}' || c == '\u{A0}' || c
        == '\u{1680}' || ('\u{2000}' <= c && c <= '\u{200A}') || c == '\u{2028}' || c == '\u{2029}'
        || c == '\u{202F}' || c == '\u{205F}' || c == '\u{3000}'
}

/// The `i32` that characters `a..b` of `line` denote, if any.
fn int_at(line: &str, len: usize, a: usize, b: usize) -> (r: Option<i32>)
    requires
        len == line@.len(),
        a <= b <= len,
    ensures
        r == int_of(line@.subrange(a as int, b as int)),
{
    let ghost t = line@.subrange(a as int, b as int);
    let mut k = a;
    let mut neg = false;
    if a < b {
        let c = line.get_char(a);
        if c == '-' {
            neg = true;
            k = a + 1;
        } else if c == '+' {
            k = a + 1;
        }
    }
    let ghost d = line@.subrange(k as int, b as int);
    assert(d =~= unsigned_part(t));
    assert(neg == (t.len() > 0 && t[0] == '-'));
    if k == b {
        return None;
    }
    let mut j = k;
    while j < b
        invariant
            len == line@.len(),
            a <= k <= j <= b <= len,
            d == line@.subrange(k as int, b as int),
            t == line@.subrange(a as int, b as int),
            d == unsigned_part(t),
            neg == (t.len() > 0 && t[0] == '-'),
            forall|i: int| 0 <= i < j - k ==> is_digit(#[trigger] d[i]),
        decreases b - j,
    {
        let c = line.get_char(j);
        if !('0' <= c && c <= '9') {
            assert(!is_digit(d[j - k]));
            return None;
        }
        j += 1;
    }
    let mut acc: u64 = 0;
    j = k;
    while j < b
        invariant
            len == line@.len(),
            a <= k <= j <= b <= len,
            d == line@.subrange(k as int, b as int),
            t == line@.subrange(a as int, b as int),
            d == unsigned_part(t),
            neg == (t.len() > 0 && t[0] == '-'),
            forall|i: int| 0 <= i < d.len() ==> is_digit(#[trigger] d[i]),
            acc == digits_value(d.subrange(0, j - k)),
            acc <= 2147483648,
        decreases b - j,
    {
        let c = line.get_char(j);
        assert(d.subrange(0, j + 1 - k).drop_last() =~= d.subrange(0, j - k));
        assert(d[j - k] == c);
        let next = acc * 10 + (c as u64 - 48);
        if next > 2147483648 {
            proof {
                lemma_digits_prefix(d, j + 1 - k);
            }
            return None;
        }
        acc = next;
        j += 1;
    }
    assert(d.subrange(0, d.len() as int) =~= d);
    if neg {
        Some((0 - acc as i64) as i32)
    } else if acc <= 2147483647 {
        Some(acc as i32)
    } else {
        None
    }
}

/// Reads a page line: a page id, then its title.
pub fn parse_page_line(line: &str) -> (r: Option<(i32, String)>)
    ensures
        match r {
            None => page_fields(line@) is None,
            Some((id, title)) => page_fields(line@) == Some((id, title@)),
        },
{
    let len = line.unicode_len();
    let a = skip_space_at(line, len, 0);
    let b = skip_token_at(line, len, a);
    let c = skip_space_at(line, len, b);
    let d = skip_token_at(line, len, c);
    match int_at(line, len, a, b) {
        Some(id) => {
            if c < d {
                Some((id, line.substring_char(c, d).to_owned()))
            } else {
                None
            }
        },
        None => None,
    }
}

/// Reads a link line: the id of the linking page, then the id of the linked
/// page.
pub fn parse_link_line(line: &str) -> (r: Option<(i32, i32)>)
    ensures
        r == link_fields(line@),
{
    let len = line.unicode_len();
    let a = skip_space_at(line, len, 0);
    let b = skip_token_at(line, len, a);
    let c = skip_space_at(line, len, b);
    let d = skip_token_at(line, len, c);
    match (int_at(line, len, a, b), int_at(line, len, c, d)) {
        (Some(from), Some(to)) => Some((from, to)),
        _ => None,
    }
}

} // verus!
