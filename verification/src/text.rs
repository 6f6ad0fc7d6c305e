//! Moving between strings and their characters.

use vstd::prelude::*;

verus! {

/// `String::push` appends one character.
pub assume_specification[ String::push ](s: &mut String, c: char)
    ensures
        final(s)@ == old(s)@.push(c),
;

/// The characters of `s`, in order.
pub fn chars_of(s: &str) -> (v: Vec<char>)
    ensures
        v@ == s@,
{
    let mut v: Vec<char> = Vec::new();
    for c in it: s.chars()
        invariant
            v@ == it.seq().take(it.index() as int),
            it.seq() == s@,
    {
        v.push(c);
    }
    v
}

/// The string made of `v[from..to]`.
pub fn text_of(v: &Vec<char>, from: usize, to: usize) -> (s: String)
    requires
        from <= to <= v.len(),
    ensures
        s@ == v@.subrange(from as int, to as int),
{
    let mut s = String::new();
    let mut i: usize = from;
    while i < to
        invariant
            from <= i <= to <= v.len(),
            s@ == v@.subrange(from as int, i as int),
        decreases to - i,
    {
        s.push(v[i]);
        i += 1;
    }
    s
}

/// Whether `hay` holds `needle` at position `at`.
pub open spec fn occurs_at(hay: Seq<char>, needle: Seq<char>, at: int) -> bool {
    0 <= at && at + needle.len() <= hay.len() && hay.subrange(at, at + needle.len()) == needle
}

/// Tests whether `hay` holds `needle` at position `at`.
pub fn matches_at(hay: &Vec<char>, needle: &Vec<char>, at: usize) -> (b: bool)
    ensures
        b == occurs_at(hay@, needle@, at as int),
{
    if needle.len() > hay.len() || at > hay.len() - needle.len() {
        return false;
    }
    let mut k: usize = 0;
    while k < needle.len()
        invariant
            k <= needle.len(),
            at + needle.len() <= hay.len(),
            forall|j: int| 0 <= j < k ==> hay@[at + j] == needle@[j],
        decreases needle.len() - k,
    {
        if hay[at + k] != needle[k] {
            assert(hay@.subrange(at as int, at + needle.len())[k as int] != needle@[k as int]);
            return false;
        }
        k += 1;
    }
    assert(hay@.subrange(at as int, at + needle.len()) =~= needle@);
    true
}

/// The first position at or after `from` where `hay` holds `needle`, or
/// `hay.len() + 1` when there is none.
pub open spec fn first_at(hay: Seq<char>, needle: Seq<char>, from: int) -> int
    decreases hay.len() + 1 - from,
{
    if from > hay.len() {
        hay.len() as int + 1
    } else if occurs_at(hay, needle, from) {
        from
    } else {
        first_at(hay, needle, from + 1)
    }
}

/// Finds the first position at or after `from` where `hay` holds `needle`.
pub fn find_from(hay: &Vec<char>, needle: &Vec<char>, from: usize) -> (r: Option<usize>)
    ensures
        match r {
            Some(i) => i as int == first_at(hay@, needle@, from as int) && i <= hay.len(),
            None => first_at(hay@, needle@, from as int) > hay.len(),
        },
{
    if from > hay.len() {
        return None;
    }
    let mut i: usize = from;
    loop
        invariant
            from <= i <= hay.len(),
            first_at(hay@, needle@, from as int) == first_at(hay@, needle@, i as int),
        decreases hay.len() - i,
    {
        if matches_at(hay, needle, i) {
            return Some(i);
        }
        if i == hay.len() {
            assert(first_at(hay@, needle@, i + 1) == hay.len() + 1);
            return None;
        }
        i += 1;
    }
}

/// [`first_at`] gives the first occurrence: it lies at or after `from`,
/// `needle` is there, and nowhere between.
pub proof fn lemma_first_at(hay: Seq<char>, needle: Seq<char>, from: int)
    requires
        0 <= from <= hay.len() + 1,
    ensures
        from <= first_at(hay, needle, from),
        first_at(hay, needle, from) <= hay.len() ==> occurs_at(
            hay,
            needle,
            first_at(hay, needle, from),
        ),
        forall|j: int|
            from <= j < first_at(hay, needle, from) && j <= hay.len() ==> !occurs_at(
                hay,
                needle,
                j,
            ),
    decreases hay.len() + 1 - from,
{
    if from <= hay.len() && !occurs_at(hay, needle, from) {
        lemma_first_at(hay, needle, from + 1);
    }
}

/// The characters `v[from..to]`.
pub fn slice_of(v: &Vec<char>, from: usize, to: usize) -> (r: Vec<char>)
    requires
        from <= to <= v.len(),
    ensures
        r@ == v@.subrange(from as int, to as int),
{
    let mut r: Vec<char> = Vec::new();
    let mut i: usize = from;
    while i < to
        invariant
            from <= i <= to <= v.len(),
            r@ == v@.subrange(from as int, i as int),
        decreases to - i,
    {
        r.push(v[i]);
        i += 1;
    }
    r
}

/// Whether `c` is white space: a character with the Unicode property
/// `White_Space`.
pub open spec fn is_space(c: char) -> bool {
    ||| c == ' '
    ||| '\t' <= c <= '\r'
    ||| c == '\u{85}'
    ||| c == '\u{a0}'
    ||| c == '\u{1680}'
    ||| '\u{2000}' <= c <= '\u{200a}'
    ||| c == '\u{2028}'
    ||| c == '\u{2029}'
    ||| c == '\u{202f}'
    ||| c == '\u{205f}'
    ||| c == '\u{3000}'
}

/// Tests whether `c` is white space.
pub fn space(c: char) -> (b: bool)
    ensures
        b == is_space(c),
{
    c == ' ' || ('\t' <= c && c <= '\r') || c == '\u{85}' || c == '\u{a0}' || c == '\u{1680}' || (
    '\u{2000}' <= c && c <= '\u{200a}') || c == '\u{2028}' || c == '\u{2029}' || c == '\u{202f}'
        || c == '\u{205f}' || c == '\u{3000}'
}

/// How many characters of `s` are left when the white space at its end is
/// dropped.
pub open spec fn kept_len(s: Seq<char>) -> nat
    decreases s.len(),
{
    if s.len() > 0 && is_space(s.last()) {
        kept_len(s.drop_last())
    } else {
        s.len()
    }
}

/// How many characters of white space `s` begins with.
pub open spec fn lead_len(s: Seq<char>) -> nat
    decreases s.len(),
{
    if s.len() > 0 && is_space(s.first()) {
        1 + lead_len(s.drop_first())
    } else {
        0
    }
}

/// `s` without the white space at either end.
pub open spec fn trimmed(s: Seq<char>) -> Seq<char> {
    let body = s.take(kept_len(s) as int);
    body.skip(lead_len(body) as int)
}

/// The string made of `v` without the white space at either end.
pub fn trim(v: &Vec<char>) -> (r: String)
    ensures
        r@ == trimmed(v@),
{
    let mut end: usize = v.len();
    assert(v@.take(end as int) =~= v@);
    while end > 0 && space(v[end - 1])
        invariant
            end <= v.len(),
            kept_len(v@) == kept_len(v@.take(end as int)),
        decreases end,
    {
        assert(v@.take(end as int).drop_last() =~= v@.take(end - 1));
        end -= 1;
    }
    let ghost body = v@.take(end as int);
    let mut start: usize = 0;
    assert(body.skip(0) =~= body);
    while start < end && space(v[start])
        invariant
            start <= end <= v.len(),
            body == v@.take(end as int),
            lead_len(body) == start + lead_len(body.skip(start as int)),
        decreases end - start,
    {
        assert(body.skip(start as int).drop_first() =~= body.skip(start + 1));
        start += 1;
    }
    assert(body.skip(start as int) =~= v@.subrange(start as int, end as int));
    text_of(v, start, end)
}

/// The character that stands for the digit `d`.
pub open spec fn digit(d: nat) -> char {
    (48 + d) as char
}

/// `n` written in decimal.
pub open spec fn decimal(n: nat) -> Seq<char>
    decreases n,
{
    if n < 10 {
        seq![digit(n)]
    } else {
        decimal(n / 10).push(digit(n % 10))
    }
}

/// Appends `n`, written in decimal, to `s`.
pub fn push_decimal(s: &mut String, n: usize)
    ensures
        final(s)@ == old(s)@ + decimal(n as nat),
    decreases n,
{
    if n >= 10 {
        push_decimal(s, n / 10);
    }
    let d: u8 = (n % 10) as u8;
    s.push((48 + d) as char);
    assert(s@ =~= old(s)@ + decimal(n as nat));
}

} // verus!
