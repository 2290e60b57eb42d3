//! Text helpers shared by the rest of the library: character access,
//! comparison, searching, splitting, joining and decimal numerals, each
//! specified over `Seq<char>`.

use vstd::prelude::*;

verus! {

/// The views of a sequence of strings.
pub open spec fn texts(v: Seq<String>) -> Seq<Seq<char>> {
    v.map_values(|s: String| s@)
}

/// `p` is a prefix of `s`.
pub open spec fn has_prefix(s: Seq<char>, p: Seq<char>) -> bool {
    p.len() <= s.len() && s.take(p.len() as int) == p
}

/// `needle` stands in `hay` at position `i`.
pub open spec fn occurs_at(hay: Seq<char>, needle: Seq<char>, i: int) -> bool {
    0 <= i && i + needle.len() <= hay.len() && hay.subrange(i, i + needle.len()) == needle
}

/// `needle` stands somewhere in `hay`.
pub open spec fn contains_text(hay: Seq<char>, needle: Seq<char>) -> bool {
    exists|i: int| occurs_at(hay, needle, i)
}

/// The pieces of `s` between occurrences of `sep`. There is always at least
/// one piece; an empty text has the single empty piece.
pub open spec fn split_on(s: Seq<char>, sep: char) -> Seq<Seq<char>>
    decreases s.len(),
{
    if s.len() == 0 {
        seq![Seq::<char>::empty()]
    } else {
        let rest = split_on(s.drop_last(), sep);
        if s.last() == sep {
            rest.push(Seq::<char>::empty())
        } else {
            rest.update(rest.len() - 1, rest.last().push(s.last()))
        }
    }
}

/// The pieces joined with `sep` between them; the empty text for no pieces.
pub open spec fn join_with(pieces: Seq<Seq<char>>, sep: Seq<char>) -> Seq<char>
    decreases pieces.len(),
{
    if pieces.len() == 0 {
        Seq::<char>::empty()
    } else if pieces.len() == 1 {
        pieces[0]
    } else {
        join_with(pieces.drop_last(), sep) + sep + pieces.last()
    }
}

/// The decimal digit for `d`, which is below ten.
pub open spec fn digit_char(d: nat) -> char {
    if d == 0 {
        '0'
    } else if d == 1 {
        '1'
    } else if d == 2 {
        '2'
    } else if d == 3 {
        '3'
    } else if d == 4 {
        '4'
    } else if d == 5 {
        '5'
    } else if d == 6 {
        '6'
    } else if d == 7 {
        '7'
    } else if d == 8 {
        '8'
    } else {
        '9'
    }
}

/// The decimal numeral of `n`, without leading zeros.
pub open spec fn decimal(n: nat) -> Seq<char>
    decreases n,
{
    if n < 10 {
        seq![digit_char(n)]
    } else {
        decimal(n / 10).push(digit_char(n % 10))
    }
}

/// The first `n` characters of `s`, or all of it where it has fewer.
pub open spec fn clipped(s: Seq<char>, n: nat) -> Seq<char> {
    if s.len() <= n {
        s
    } else {
        s.take(n as int)
    }
}

/// A blank character: one with the Unicode property White_Space.
pub open spec fn is_blank(c: char) -> bool {
    let n = c as u32;
    (0x09 <= n <= 0x0D) || n == 0x20 || n == 0x85 || n == 0xA0 || n == 0x1680 || (0x2000 <= n
        <= 0x200A) || n == 0x2028 || n == 0x2029 || n == 0x202F || n == 0x205F || n == 0x3000
}

/// Whether `c` is stripped: a slash where `slash` is set, else a blank.
pub open spec fn is_stripped(c: char, slash: bool) -> bool {
    if slash {
        c == '/'
    } else {
        is_blank(c)
    }
}

/// `s` without the stripped characters at its start.
pub open spec fn strip_start(s: Seq<char>, slash: bool) -> Seq<char>
    decreases s.len(),
{
    if s.len() > 0 && is_stripped(s[0], slash) {
        strip_start(s.skip(1), slash)
    } else {
        s
    }
}

/// `s` without the stripped characters at its end.
pub open spec fn strip_end(s: Seq<char>, slash: bool) -> Seq<char>
    decreases s.len(),
{
    if s.len() > 0 && is_stripped(s.last(), slash) {
        strip_end(s.drop_last(), slash)
    } else {
        s
    }
}

/// `s` without the blanks at its start and at its end.
pub open spec fn trimmed(s: Seq<char>) -> Seq<char> {
    strip_end(strip_start(s, false), false)
}

/// The value of a decimal digit.
pub open spec fn digit_value(c: char) -> Option<nat> {
    if '0' <= c <= '9' {
        Some((c as u32 - '0' as u32) as nat)
    } else {
        None
    }
}

/// The number that a run of decimal digits writes; zero for no digits,
/// `None` where a character is no digit.
pub open spec fn digits_value(s: Seq<char>) -> Option<nat>
    decreases s.len(),
{
    if s.len() == 0 {
        Some(0)
    } else {
        match (digits_value(s.drop_last()), digit_value(s.last())) {
            (Some(high), Some(low)) => Some(high * 10 + low),
            _ => None,
        }
    }
}

/// The `u64` that `s` writes in decimal digits, with or without a plus sign
/// before them; `None` where `s` is no such numeral or the number is too
/// large.
pub open spec fn parsed_u64(s: Seq<char>) -> Option<u64> {
    let digits = if s.len() > 0 && s[0] == '+' {
        s.skip(1)
    } else {
        s
    };
    if digits.len() == 0 {
        None
    } else {
        match digits_value(digits) {
            Some(v) => if v <= u64::MAX {
                Some(v as u64)
            } else {
                None
            },
            None => None,
        }
    }
}

/// The lower-case form of a text, as `str::to_lowercase` of the standard
/// library gives it.
pub uninterp spec fn lowercase_of(s: Seq<char>) -> Seq<char>;

/// Calls `str::to_lowercase`, which maps each character by the Unicode
/// lower-case tables; the result depends on the text alone. The contract
/// gives it its name and claims nothing else of it.
#[verifier::external_body]
pub(crate) fn lowercase(s: &str) -> (r: String)
    ensures
        r@ == lowercase_of(s@),
{
    s.to_lowercase()
}

/// The pieces of a text, joined again with the separator, give the text.
pub proof fn lemma_join_split(s: Seq<char>, sep: char)
    ensures
        join_with(split_on(s, sep), seq![sep]) == s,
    decreases s.len(),
{
    if s.len() == 0 {
        assert(s =~= Seq::<char>::empty());
    } else {
        let rest = split_on(s.drop_last(), sep);
        lemma_split_nonempty(s.drop_last(), sep);
        lemma_join_split(s.drop_last(), sep);
        assert(s.drop_last().push(s.last()) =~= s);
        if s.last() == sep {
            let pieces = rest.push(Seq::<char>::empty());
            assert(pieces.drop_last() =~= rest);
            assert(join_with(pieces, seq![sep]) =~= s.drop_last() + seq![sep]);
            assert(s.drop_last() + seq![sep] =~= s);
        } else {
            let longer = rest.last().push(s.last());
            let pieces = rest.update(rest.len() - 1, longer);
            if rest.len() == 1 {
                assert(join_with(pieces, seq![sep]) == longer);
                assert(join_with(rest, seq![sep]) == rest[0]);
            } else {
                assert(pieces.drop_last() =~= rest.drop_last());
                assert(join_with(pieces, seq![sep]) =~= (join_with(rest.drop_last(), seq![sep])
                    + seq![sep] + rest.last()).push(s.last()));
            }
        }
    }
}

/// A text has at least one piece.
pub proof fn lemma_split_nonempty(s: Seq<char>, sep: char)
    ensures
        split_on(s, sep).len() >= 1,
    decreases s.len(),
{
    if s.len() > 0 {
        lemma_split_nonempty(s.drop_last(), sep);
    }
}

/// A longer run of digits writes no smaller number.
pub proof fn lemma_digits_grow(s: Seq<char>, j: int, k: int)
    requires
        0 <= j <= k <= s.len(),
        digits_value(s.take(k)) is Some,
    ensures
        digits_value(s.take(j)) is Some,
        digits_value(s.take(j))->0 <= digits_value(s.take(k))->0,
    decreases k,
{
    if j < k {
        assert(s.take(k).drop_last() =~= s.take(k - 1));
        lemma_digits_grow(s, j, k - 1);
    }
}

/// Whether `c` is a blank.
pub fn blank(c: char) -> (r: bool)
    ensures
        r == is_blank(c),
{
    let n = c as u32;
    (0x09 <= n && n <= 0x0D) || n == 0x20 || n == 0x85 || n == 0xA0 || n == 0x1680 || (0x2000 <= n
        && n <= 0x200A) || n == 0x2028 || n == 0x2029 || n == 0x202F || n == 0x205F || n == 0x3000
}

/// Whether `c` is stripped.
fn stripped(c: char, slash: bool) -> (r: bool)
    ensures
        r == is_stripped(c, slash),
{
    if slash {
        c == '/'
    } else {
        blank(c)
    }
}

/// The bounds of `chars[from..to]` without the stripped characters at its
/// start, where `front` is set, and at its end.
fn strip_bounds(chars: &Vec<char>, from: usize, to: usize, front: bool, slash: bool) -> (r: (
    usize,
    usize,
))
    requires
        from <= to <= chars@.len(),
    ensures
        from <= r.0 <= r.1 <= to,
        chars@.subrange(r.0 as int, r.1 as int) == strip_end(
            if front {
                strip_start(chars@.subrange(from as int, to as int), slash)
            } else {
                chars@.subrange(from as int, to as int)
            },
            slash,
        ),
{
    let mut a: usize = from;
    if front {
        while a < to && stripped(chars[a], slash)
            invariant
                from <= a <= to <= chars@.len(),
                strip_start(chars@.subrange(from as int, to as int), slash) == strip_start(
                    chars@.subrange(a as int, to as int),
                    slash,
                ),
            decreases to - a,
        {
            assert(chars@.subrange(a as int, to as int).skip(1) =~= chars@.subrange(
                a + 1,
                to as int,
            ));
            a += 1;
        }
    }
    let ghost middle = chars@.subrange(a as int, to as int);
    assert(front ==> strip_start(chars@.subrange(from as int, to as int), slash) == middle);
    let mut b: usize = to;
    while b > a && stripped(chars[b - 1], slash)
        invariant
            a <= b <= to <= chars@.len(),
            strip_end(middle, slash) == strip_end(chars@.subrange(a as int, b as int), slash),
        decreases b - a,
    {
        assert(chars@.subrange(a as int, b as int).drop_last() =~= chars@.subrange(
            a as int,
            b - 1,
        ));
        b -= 1;
    }
    (a, b)
}

/// `s` without the blanks at its start and at its end.
pub fn trim(s: &str) -> (r: String)
    ensures
        r@ == trimmed(s@),
{
    let chars = chars_of(s);
    assert(chars@.subrange(0, chars@.len() as int) =~= chars@);
    let (a, b) = strip_bounds(&chars, 0, chars.len(), true, false);
    s.substring_char(a, b).to_owned()
}

/// `s` without the slashes at its end.
pub fn trim_end_slashes(s: &str) -> (r: String)
    ensures
        r@ == strip_end(s@, true),
{
    let chars = chars_of(s);
    assert(chars@.subrange(0, chars@.len() as int) =~= chars@);
    let (a, b) = strip_bounds(&chars, 0, chars.len(), false, true);
    s.substring_char(a, b).to_owned()
}

/// Reads a `u64` written in decimal digits, with or without a plus sign
/// before them.
pub fn parse_u64(s: &str) -> (r: Option<u64>)
    ensures
        r == parsed_u64(s@),
{
    let chars = chars_of(s);
    let start: usize = if chars.len() > 0 && chars[0] == '+' {
        1
    } else {
        0
    };
    let ghost digits = s@.skip(start as int);
    if start == chars.len() {
        return None;
    }
    let mut value: u64 = 0;
    let mut i: usize = start;
    assert(digits.take(0) =~= Seq::<char>::empty());
    while i < chars.len()
        invariant
            start <= i <= chars.len(),
            chars@ == s@,
            digits == s@.skip(start as int),
            start <= 1,
            start == 1 <==> (s@.len() > 0 && s@[0] == '+'),
            start < chars.len(),
            digits_value(digits.take(i - start)) == Some(value as nat),
        decreases chars.len() - i,
    {
        let c = chars[i];
        let ghost now = digits.take(i - start + 1);
        proof {
            assert(now.drop_last() =~= digits.take(i - start));
            assert(now.last() == c);
            assert(digits.take(digits.len() as int) =~= digits);
        }
        if !('0' <= c && c <= '9') {
            proof {
                assert(digits_value(now) is None);
                if digits_value(digits) is Some {
                    lemma_digits_grow(digits, i - start + 1, digits.len() as int);
                }
                assert(digits == if s@.len() > 0 && s@[0] == '+' {
                    s@.skip(1)
                } else {
                    s@
                });
            }
            return None;
        }
        let low = (c as u32 - '0' as u32) as u64;
        let next = match value.checked_mul(10) {
            Some(high) => high.checked_add(low),
            None => None,
        };
        match next {
            Some(v) => {
                value = v;
            },
            None => {
                proof {
                    assert(digits_value(now) == Some((value * 10 + low) as nat));
                    if digits_value(digits) is Some {
                        lemma_digits_grow(digits, i - start + 1, digits.len() as int);
                    }
                    assert(digits == if s@.len() > 0 && s@[0] == '+' {
                        s@.skip(1)
                    } else {
                        s@
                    });
                }
                return None;
            },
        }
        i += 1;
    }
    assert(digits.take(digits.len() as int) =~= digits);
    assert(digits.len() == chars.len() - start);
    assert(i - start == digits.len());
    assert(digits_value(digits) == Some(value as nat));
    assert(digits == if s@.len() > 0 && s@[0] == '+' { s@.skip(1) } else { s@ });
    Some(value)
}

/// The characters of `s`, in order.
pub fn chars_of(s: &str) -> (v: Vec<char>)
    ensures
        v@ == s@,
{
    let mut v: Vec<char> = Vec::new();
    for c in it: s.chars()
        invariant
            v@ == it.seq().take(it.index() as int),
    {
        v.push(c);
    }
    v
}

/// Whether two texts hold the same characters.
pub fn same_text(a: &str, b: &str) -> (r: bool)
    ensures
        r == (a@ == b@),
{
    let x = a.to_owned();
    let y = b.to_owned();
    x == y
}

/// Whether `s` begins with `prefix`.
pub fn starts_with(s: &str, prefix: &str) -> (r: bool)
    ensures
        r == has_prefix(s@, prefix@),
{
    let sc = chars_of(s);
    let pc = chars_of(prefix);
    if pc.len() > sc.len() {
        return false;
    }
    let mut i: usize = 0;
    while i < pc.len()
        invariant
            i <= pc.len() <= sc.len(),
            sc@ == s@,
            pc@ == prefix@,
            s@.take(i as int) == prefix@.take(i as int),
        decreases pc.len() - i,
    {
        if sc[i] != pc[i] {
            assert(s@.take(prefix@.len() as int)[i as int] != prefix@[i as int]);
            return false;
        }
        assert(s@.take(i + 1) == s@.take(i as int).push(s@[i as int]));
        assert(prefix@.take(i + 1) == prefix@.take(i as int).push(prefix@[i as int]));
        i += 1;
    }
    assert(prefix@.take(prefix@.len() as int) == prefix@);
    true
}

/// Whether `needle` occurs in `hay`. The empty text occurs in every text.
pub fn contains(hay: &str, needle: &str) -> (r: bool)
    ensures
        r == contains_text(hay@, needle@),
{
    let h = chars_of(hay);
    let n = chars_of(needle);
    if n.len() > h.len() {
        assert forall|i: int| !occurs_at(hay@, needle@, i) by {}
        return false;
    }
    let last: usize = h.len() - n.len();
    let mut i: usize = 0;
    while i <= last
        invariant
            i <= last + 1,
            last == h.len() - n.len(),
            h@ == hay@,
            n@ == needle@,
            forall|j: int| 0 <= j < i ==> !occurs_at(hay@, needle@, j),
        decreases last + 1 - i,
    {
        let mut k: usize = 0;
        while k < n.len() && h[i + k] == n[k]
            invariant
                i <= last,
                last == h.len() - n.len(),
                k <= n.len(),
                h@ == hay@,
                n@ == needle@,
                forall|m: int| 0 <= m < k ==> hay@[i + m] == needle@[m],
            decreases n.len() - k,
        {
            k += 1;
        }
        if k == n.len() {
            assert(hay@.subrange(i as int, i + needle@.len()) =~= needle@);
            assert(occurs_at(hay@, needle@, i as int));
            return true;
        }
        assert(!occurs_at(hay@, needle@, i as int)) by {
            if occurs_at(hay@, needle@, i as int) {
                assert(hay@.subrange(i as int, i + needle@.len())[k as int] == needle@[k as int]);
            }
        }
        i += 1;
    }
    assert forall|j: int| !occurs_at(hay@, needle@, j) by {}
    false
}

/// The pieces of `s` between occurrences of `sep`, as owned strings.
pub fn split(s: &str, sep: char) -> (parts: Vec<String>)
    ensures
        texts(parts@) == split_on(s@, sep),
{
    let chars = chars_of(s);
    let mut parts: Vec<String> = Vec::new();
    let mut start: usize = 0;
    let mut i: usize = 0;
    assert(s@.take(0) =~= Seq::<char>::empty());
    assert(texts(parts@).push(s@.subrange(0, 0)) =~= seq![Seq::<char>::empty()]);
    while i < chars.len()
        invariant
            start <= i <= chars.len(),
            chars@ == s@,
            split_on(s@.take(i as int), sep) == texts(parts@).push(
                s@.subrange(start as int, i as int),
            ),
        decreases chars.len() - i,
    {
        let ghost before = s@.take(i as int);
        let ghost now = s@.take(i + 1);
        assert(now.drop_last() =~= before);
        assert(now.last() == s@[i as int]);
        if chars[i] == sep {
            let piece = s.substring_char(start, i).to_owned();
            proof {
                assert(texts(parts@.push(piece)) =~= texts(parts@).push(piece@));
                assert(s@.subrange(i + 1, i + 1) =~= Seq::<char>::empty());
            }
            parts.push(piece);
            start = i + 1;
        } else {
            proof {
                let rest = texts(parts@).push(s@.subrange(start as int, i as int));
                assert(rest.update(rest.len() - 1, rest.last().push(s@[i as int])) =~= texts(
                    parts@,
                ).push(s@.subrange(start as int, i + 1))) by {
                    assert(s@.subrange(start as int, i as int).push(s@[i as int]) =~= s@.subrange(
                        start as int,
                        i + 1,
                    ));
                }
            }
        }
        i += 1;
    }
    let piece = s.substring_char(start, i).to_owned();
    proof {
        assert(s@.take(i as int) =~= s@);
        assert(texts(parts@.push(piece)) =~= texts(parts@).push(piece@));
    }
    parts.push(piece);
    parts
}

/// The first `n` characters of `s`, or all of it where it has fewer.
pub fn clip(s: &str, n: usize) -> (r: String)
    ensures
        r@ == clipped(s@, n as nat),
{
    let len = s.unicode_len();
    if len <= n {
        s.to_owned()
    } else {
        let r = s.substring_char(0, n).to_owned();
        assert(s@.subrange(0, n as int) =~= s@.take(n as int));
        r
    }
}

/// `a` followed by `b`.
pub fn append(a: &str, b: &str) -> (r: String)
    ensures
        r@ == a@ + b@,
{
    let mut r = a.to_owned();
    r.append(b);
    r
}

/// The strings of `pieces` joined with `sep` between them.
pub fn join(pieces: &Vec<String>, sep: &str) -> (r: String)
    ensures
        r@ == join_with(texts(pieces@), sep@),
{
    let mut r = String::new();
    let mut i: usize = 0;
    while i < pieces.len()
        invariant
            i <= pieces.len(),
            r@ == join_with(texts(pieces@).take(i as int), sep@),
        decreases pieces.len() - i,
    {
        let ghost done = texts(pieces@).take(i as int);
        let ghost next = texts(pieces@).take(i + 1);
        assert(next.drop_last() =~= done);
        assert(next.last() == pieces@[i as int]@);
        if i > 0 {
            r.append(sep);
        }
        r.append(pieces[i].as_str());
        proof {
            if i == 0 {
                assert(r@ =~= pieces@[0]@);
            }
        }
        i += 1;
    }
    assert(texts(pieces@).take(pieces@.len() as int) =~= texts(pieces@));
    r
}

/// The digit `d` as a one-character text.
fn digit_text(d: u64) -> (r: &'static str)
    requires
        d < 10,
    ensures
        r@ == seq![digit_char(d as nat)],
{
    proof {
        reveal_strlit("0");
        reveal_strlit("1");
        reveal_strlit("2");
        reveal_strlit("3");
        reveal_strlit("4");
        reveal_strlit("5");
        reveal_strlit("6");
        reveal_strlit("7");
        reveal_strlit("8");
        reveal_strlit("9");
    }
    let r = if d == 0 {
        "0"
    } else if d == 1 {
        "1"
    } else if d == 2 {
        "2"
    } else if d == 3 {
        "3"
    } else if d == 4 {
        "4"
    } else if d == 5 {
        "5"
    } else if d == 6 {
        "6"
    } else if d == 7 {
        "7"
    } else if d == 8 {
        "8"
    } else {
        "9"
    };
    assert(r@ =~= seq![digit_char(d as nat)]);
    r
}

/// The decimal numeral of `n`.
pub fn decimal_text(n: u64) -> (r: String)
    ensures
        r@ == decimal(n as nat),
    decreases n,
{
    if n < 10 {
        digit_text(n).to_owned()
    } else {
        let mut r = decimal_text(n / 10);
        r.append(digit_text(n % 10));
        assert(r@ =~= decimal((n / 10) as nat).push(digit_char((n % 10) as nat)));
        r
    }
}

} // verus!
