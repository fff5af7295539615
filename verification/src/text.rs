//! Character-level helpers on strings: the views of `&str` and `String` are
//! sequences of `char`, and every helper here is stated over those sequences.
use vstd::prelude::*;
use vstd::string::*;

verus! {

/// ASCII lower-casing of one character; other characters are left alone.
pub open spec fn ascii_lower_char(c: char) -> char {
    if 'A' <= c && c <= 'Z' {
        ((c as u32) + 32) as char
    } else {
        c
    }
}

/// ASCII lower-casing of a whole sequence, as `str::to_ascii_lowercase` does.
pub open spec fn ascii_lower(s: Seq<char>) -> Seq<char> {
    s.map_values(|c: char| ascii_lower_char(c))
}

/// The characters that `char::is_whitespace` accepts (Unicode `White_Space`).
pub open spec fn is_unicode_space(c: char) -> bool {
    ||| c == ' '
    ||| ('\u{9}' <= c && c <= '\u{d}')
    ||| c == '\u{85}'
    ||| c == '\u{a0}'
    ||| c == '\u{1680}'
    ||| ('\u{2000}' <= c && c <= '\u{200a}')
    ||| c == '\u{2028}'
    ||| c == '\u{2029}'
    ||| c == '\u{202f}'
    ||| c == '\u{205f}'
    ||| c == '\u{3000}'
}

/// `s` with leading white space removed.
pub open spec fn trim_start(s: Seq<char>) -> Seq<char>
    decreases s.len(),
{
    if s.len() > 0 && is_unicode_space(s[0]) {
        trim_start(s.drop_first())
    } else {
        s
    }
}

/// `s` with trailing white space removed.
pub open spec fn trim_end(s: Seq<char>) -> Seq<char>
    decreases s.len(),
{
    if s.len() > 0 && is_unicode_space(s.last()) {
        trim_end(s.drop_last())
    } else {
        s
    }
}

/// `str::trim`: white space removed at both ends.
pub open spec fn trim(s: Seq<char>) -> Seq<char> {
    trim_end(trim_start(s))
}

/// The pieces of `s` between occurrences of `d`, as `str::split(d)` yields
/// them: `n` separators give `n + 1` pieces, empty ones included.
pub open spec fn split_on<T>(s: Seq<T>, d: T) -> Seq<Seq<T>>
    decreases s.len(),
{
    if s.len() == 0 {
        seq![Seq::<T>::empty()]
    } else {
        let r = split_on(s.drop_last(), d);
        if s.last() == d {
            r.push(Seq::<T>::empty())
        } else {
            r.update(r.len() - 1, r.last().push(s.last()))
        }
    }
}

/// `needle` occurs in `hay` as a contiguous run of characters.
pub open spec fn has_infix(hay: Seq<char>, needle: Seq<char>) -> bool {
    exists|i: int|
        0 <= i && i + needle.len() <= hay.len() && #[trigger] hay.subrange(i, i + needle.len())
            == needle
}

/// The decimal digit character for `d < 10`.
pub open spec fn digit_char(d: nat) -> char {
    ((d + 48) as u32) as char
}

/// The decimal representation of `n`, without sign or leading zeros.
pub open spec fn decimal(n: nat) -> Seq<char>
    decreases n,
{
    if n < 10 {
        seq![digit_char(n)]
    } else {
        decimal(n / 10).push(digit_char(n % 10))
    }
}

/// The position of the first `x` in `s`.
pub open spec fn first_index<T>(s: Seq<T>, x: T) -> Option<int>
    decreases s.len(),
{
    if s.len() == 0 {
        None
    } else if s[0] == x {
        Some(0)
    } else {
        match first_index(s.drop_first(), x) {
            Some(i) => Some(i + 1),
            None => None,
        }
    }
}

/// `x` first occurs at `k`.
pub proof fn lemma_first_index_at<T>(s: Seq<T>, x: T, k: int)
    requires
        0 <= k < s.len(),
        s[k] == x,
        forall|q: int| 0 <= q < k ==> s[q] != x,
    ensures
        first_index(s, x) == Some(k),
    decreases k,
{
    if k > 0 {
        assert(s[0] != x);
        lemma_first_index_at(s.drop_first(), x, k - 1);
    }
}

/// `x` does not occur.
pub proof fn lemma_first_index_absent<T>(s: Seq<T>, x: T)
    requires
        forall|q: int| 0 <= q < s.len() ==> s[q] != x,
    ensures
        first_index(s, x) is None,
    decreases s.len(),
{
    if s.len() > 0 {
        assert(s[0] != x);
        lemma_first_index_absent(s.drop_first(), x);
    }
}

/// A position `first_index` reports holds `x`.
pub proof fn lemma_first_index_in_range<T>(s: Seq<T>, x: T)
    ensures
        first_index(s, x) matches Some(i) ==> 0 <= i < s.len() && s[i] == x,
    decreases s.len(),
{
    if s.len() > 0 && s[0] != x {
        lemma_first_index_in_range(s.drop_first(), x);
    }
}

/// The parts written one after another with `sep` between neighbours.
pub open spec fn join(parts: Seq<Seq<char>>, sep: Seq<char>) -> Seq<char>
    decreases parts.len(),
{
    if parts.len() == 0 {
        Seq::<char>::empty()
    } else if parts.len() == 1 {
        parts[0]
    } else {
        join(parts.drop_last(), sep) + sep + parts.last()
    }
}

/// The parts written one after another.
pub open spec fn flatten(parts: Seq<Seq<char>>) -> Seq<char>
    decreases parts.len(),
{
    if parts.len() == 0 {
        Seq::<char>::empty()
    } else {
        flatten(parts.drop_last()) + parts.last()
    }
}

/// Joining one more part onto the first `i` parts.
pub proof fn lemma_join_step(parts: Seq<Seq<char>>, sep: Seq<char>, i: int)
    requires
        0 <= i < parts.len(),
    ensures
        join(parts.take(i + 1), sep) == if i == 0 {
            parts[0]
        } else {
            join(parts.take(i), sep) + sep + parts[i]
        },
{
    assert(parts.take(i + 1).drop_last() =~= parts.take(i));
}

/// Flattening one more part onto the first `i` parts.
pub proof fn lemma_flatten_step(parts: Seq<Seq<char>>, i: int)
    requires
        0 <= i < parts.len(),
    ensures
        flatten(parts.take(i + 1)) == flatten(parts.take(i)) + parts[i],
{
    assert(parts.take(i + 1).drop_last() =~= parts.take(i));
}

pub proof fn lemma_split_on_nonempty<T>(s: Seq<T>, d: T)
    ensures
        split_on(s, d).len() >= 1,
    decreases s.len(),
{
    if s.len() > 0 {
        lemma_split_on_nonempty(s.drop_last(), d);
    }
}

/// The trimmed text is what lies between the white space at the two ends: a
/// stretch of `s` with only white space before and after it, itself neither
/// starting nor ending with white space.
pub open spec fn is_trim_of(r: Seq<char>, s: Seq<char>) -> bool {
    exists|a: int, b: int|
        0 <= a <= b <= s.len() && r == #[trigger] s.subrange(a, b) && (forall|k: int|
            0 <= k < a ==> is_unicode_space(#[trigger] s[k])) && (forall|k: int|
            b <= k < s.len() ==> is_unicode_space(#[trigger] s[k])) && (r.len() > 0
            ==> !is_unicode_space(r[0]) && !is_unicode_space(r.last()))
}

proof fn lemma_trim_start_shape(s: Seq<char>)
    ensures
        exists|a: int|
            0 <= a <= s.len() && trim_start(s) == #[trigger] s.skip(a) && (forall|k: int|
                0 <= k < a ==> is_unicode_space(#[trigger] s[k])),
        trim_start(s).len() > 0 ==> !is_unicode_space(trim_start(s)[0]),
    decreases s.len(),
{
    if s.len() > 0 && is_unicode_space(s[0]) {
        lemma_trim_start_shape(s.drop_first());
        let a = choose|a: int|
            0 <= a <= s.drop_first().len() && trim_start(s.drop_first()) == #[trigger] s.drop_first().skip(
                a,
            ) && (forall|k: int| 0 <= k < a ==> is_unicode_space(#[trigger] s.drop_first()[k]));
        assert(s.drop_first().skip(a) =~= s.skip(a + 1));
        assert forall|k: int| 0 <= k < a + 1 implies is_unicode_space(#[trigger] s[k]) by {
            if k > 0 {
                assert(s[k] == s.drop_first()[k - 1]);
            }
        }
    } else {
        assert(s.skip(0) =~= s);
    }
}

proof fn lemma_trim_end_shape(s: Seq<char>)
    ensures
        exists|b: int|
            0 <= b <= s.len() && trim_end(s) == #[trigger] s.take(b) && (forall|k: int|
                b <= k < s.len() ==> is_unicode_space(#[trigger] s[k])),
        trim_end(s).len() > 0 ==> !is_unicode_space(trim_end(s).last()),
    decreases s.len(),
{
    if s.len() > 0 && is_unicode_space(s.last()) {
        lemma_trim_end_shape(s.drop_last());
        let b = choose|b: int|
            0 <= b <= s.drop_last().len() && trim_end(s.drop_last()) == #[trigger] s.drop_last().take(
                b,
            ) && (forall|k: int|
                b <= k < s.drop_last().len() ==> is_unicode_space(#[trigger] s.drop_last()[k]));
        assert(s.drop_last().take(b) =~= s.take(b));
        assert forall|k: int| b <= k < s.len() implies is_unicode_space(#[trigger] s[k]) by {
            if k < s.len() - 1 {
                assert(s[k] == s.drop_last()[k]);
            }
        }
    } else {
        assert(s.take(s.len() as int) =~= s);
    }
}

/// `trim` removes exactly the white space at both ends.
pub proof fn lemma_trim_shape(s: Seq<char>)
    ensures
        is_trim_of(trim(s), s),
{
    lemma_trim_start_shape(s);
    let a = choose|a: int|
        0 <= a <= s.len() && trim_start(s) == #[trigger] s.skip(a) && (forall|k: int|
            0 <= k < a ==> is_unicode_space(#[trigger] s[k]));
    let u = trim_start(s);
    lemma_trim_end_shape(u);
    let b = choose|b: int|
        0 <= b <= u.len() && trim_end(u) == #[trigger] u.take(b) && (forall|k: int|
            b <= k < u.len() ==> is_unicode_space(#[trigger] u[k]));
    let r = trim(s);
    assert(r =~= s.subrange(a, a + b));
    assert forall|k: int| a + b <= k < s.len() implies is_unicode_space(#[trigger] s[k]) by {
        assert(u[k - a] == s[k]);
    }
    if r.len() > 0 {
        assert(r[0] == u[0]);
    }
    assert(is_trim_of(r, s));
}

/// Splitting at `d` and joining the pieces with `d` gives the text back, and
/// no piece holds `d`.
pub proof fn lemma_split_join(s: Seq<char>, d: char)
    ensures
        join(split_on(s, d), seq![d]) == s,
        forall|i: int, k: int|
            0 <= i < split_on(s, d).len() && 0 <= k < split_on(s, d)[i].len() ==> #[trigger] split_on(
                s,
                d,
            )[i][k] != d,
    decreases s.len(),
{
    if s.len() > 0 {
        let p = s.drop_last();
        let r = split_on(p, d);
        lemma_split_join(p, d);
        lemma_split_on_nonempty(p, d);
        let q = split_on(s, d);
        if s.last() == d {
            assert(q == r.push(Seq::<char>::empty()));
            assert(q.drop_last() =~= r);
            assert(join(q, seq![d]) =~= s);
            assert forall|i: int, k: int|
                0 <= i < q.len() && 0 <= k < q[i].len() implies #[trigger] q[i][k] != d by {
                assert(q[i] == r[i]);
            }
        } else {
            assert(q == r.update(r.len() - 1, r.last().push(s.last())));
            if r.len() == 1 {
                assert(join(q, seq![d]) =~= s);
            } else {
                assert(q.drop_last() =~= r.drop_last());
                assert(join(r, seq![d]) == join(r.drop_last(), seq![d]) + seq![d] + r.last());
                assert(q.last() == r.last().push(s.last()));
                assert(join(q, seq![d]) == join(r.drop_last(), seq![d]) + seq![d] + r.last().push(
                    s.last(),
                ));
                assert(s =~= p.push(s.last()));
                assert(join(q, seq![d]) =~= s);
            }
            assert forall|i: int, k: int|
                0 <= i < q.len() && 0 <= k < q[i].len() implies #[trigger] q[i][k] != d by {
                if i < r.len() - 1 {
                    assert(q[i] == r[i]);
                } else {
                    if k < r.last().len() {
                        assert(q[i][k] == r[i][k]);
                    }
                }
            }
        }
    }
}

/// Appends one character: `String::push`, which the standard library documents
/// as appending the given `char` to the end of the string.
#[verifier::external_body]
pub fn push_char(s: &mut String, c: char)
    ensures
        final(s)@ == old(s)@.push(c),
{
    s.push(c);
}

/// Appends every character of `t` to `s`.
pub fn push_str(s: &mut String, t: &str)
    ensures
        final(s)@ == old(s)@ + t@,
{
    s.append(t);
}

/// Appends the characters of `t`.
pub fn push_string(s: &mut String, t: &String)
    ensures
        final(s)@ == old(s)@ + t@,
{
    s.append(t.as_str());
}

/// Appends `x` to a list of strings.
pub fn push_field(v: &mut Vec<String>, x: String)
    ensures
        final(v).deep_view() == old(v).deep_view().push(x@),
{
    let ghost before = v.deep_view();
    v.push(x);
    assert(v.deep_view() =~= before.push(x@));
}

/// The characters of `s`, in order.
pub fn chars_of(s: &str) -> (v: Vec<char>)
    ensures
        v@ == s@,
{
    let n = s.unicode_len();
    let mut v: Vec<char> = Vec::new();
    let mut i: usize = 0;
    while i < n
        invariant
            n == s@.len(),
            i <= n,
            v@ == s@.take(i as int),
        decreases n - i,
    {
        let c = s.get_char(i);
        v.push(c);
        i = i + 1;
        assert(v@ =~= s@.take(i as int));
    }
    assert(v@ =~= s@);
    v
}

/// A `String` holding exactly the characters of `v`.
pub fn string_of(v: &[char]) -> (s: String)
    ensures
        s@ == v@,
{
    let mut s = String::new();
    let mut i: usize = 0;
    while i < v.len()
        invariant
            i <= v@.len(),
            s@ == v@.take(i as int),
        decreases v@.len() - i,
    {
        push_char(&mut s, v[i]);
        i = i + 1;
        assert(s@ =~= v@.take(i as int));
    }
    assert(v@.take(v@.len() as int) =~= v@);
    s
}

/// ASCII lower-casing, as `str::to_ascii_lowercase` does.
pub fn to_ascii_lower(s: &str) -> (v: Vec<char>)
    ensures
        v@ == ascii_lower(s@),
{
    let cs = chars_of(s);
    let mut v: Vec<char> = Vec::new();
    let mut i: usize = 0;
    while i < cs.len()
        invariant
            cs@ == s@,
            i <= cs@.len(),
            v@ == ascii_lower(s@.take(i as int)),
        decreases cs@.len() - i,
    {
        let c = cs[i];
        let l = if 'A' <= c && c <= 'Z' {
            char_from_u32_ascii((c as u32) + 32)
        } else {
            c
        };
        v.push(l);
        i = i + 1;
        assert(v@ =~= ascii_lower(s@.take(i as int)));
    }
    assert(s@.take(cs@.len() as int) =~= s@);
    v
}

/// The character with code `u`, for `u` below 128.
fn char_from_u32_ascii(u: u32) -> (c: char)
    requires
        u < 128,
    ensures
        c == u as char,
{
    (u as u8) as char
}

/// Whether `a` and `b` hold the same characters.
pub fn chars_eq(a: &[char], b: &[char]) -> (r: bool)
    ensures
        r == (a@ == b@),
{
    if a.len() != b.len() {
        return false;
    }
    let mut i: usize = 0;
    while i < a.len()
        invariant
            a@.len() == b@.len(),
            i <= a@.len(),
            forall|j: int| 0 <= j < i ==> a@[j] == b@[j],
        decreases a@.len() - i,
    {
        if a[i] != b[i] {
            return false;
        }
        i = i + 1;
    }
    assert(a@ =~= b@);
    true
}

/// Whether `needle` occurs in `hay` as a contiguous run of characters.
pub fn contains_chars(hay: &[char], needle: &[char]) -> (r: bool)
    ensures
        r == has_infix(hay@, needle@),
{
    let n = needle.len();
    if n == 0 {
        assert(hay@.subrange(0, 0 + needle@.len() as int) =~= needle@);
        return true;
    }
    if n > hay.len() {
        assert forall|i: int|
            0 <= i && i + needle@.len() <= hay@.len() implies #[trigger] hay@.subrange(
            i,
            i + needle@.len(),
        ) != needle@ by {}
        return false;
    }
    let last = hay.len() - n;
    let mut i: usize = 0;
    while i <= last
        invariant
            n == needle@.len(),
            last + n == hay@.len(),
            forall|k: int| 0 <= k < i ==> #[trigger] hay@.subrange(k, k + n) != needle@,
        decreases last + 1 - i,
    {
        let mut j: usize = 0;
        let mut ok = true;
        while j < n
            invariant
                n == needle@.len(),
                last + n == hay@.len(),
                i <= last,
                j <= n,
                hay@.len() == hay.len(),
                ok == (forall|m: int| 0 <= m < j ==> hay@[i + m] == needle@[m]),
            decreases n - j,
        {
            if hay[i + j] != needle[j] {
                ok = false;
            }
            j = j + 1;
        }
        if ok {
            assert(hay@.subrange(i as int, i + n) =~= needle@);
            return true;
        }
        assert(hay@.subrange(i as int, i + n) != needle@) by {
            let m = choose|m: int| 0 <= m < n && hay@[i + m] != needle@[m];
            assert(hay@.subrange(i as int, i + n)[m] == hay@[i + m]);
        }
        i = i + 1;
    }
    false
}

/// Whether the characters of `hay` include `needle` anywhere.
pub fn str_contains(hay: &str, needle: &str) -> (r: bool)
    ensures
        r == has_infix(hay@, needle@),
{
    let h = chars_of(hay);
    let n = chars_of(needle);
    contains_chars(h.as_slice(), n.as_slice())
}

/// Appends the decimal representation of `n`.
pub fn push_decimal(s: &mut String, n: u64)
    ensures
        final(s)@ == old(s)@ + decimal(n as nat),
    decreases n,
{
    if n >= 10 {
        push_decimal(s, n / 10);
    }
    let d = (n % 10) as u32;
    push_char(s, char_from_u32_ascii(d + 48));
    assert(decimal(n as nat) =~= if n < 10 {
        seq![digit_char(n as nat)]
    } else {
        decimal((n / 10) as nat).push(digit_char((n % 10) as nat))
    });
}

/// The decimal representation of `n` as a new `String`.
pub fn decimal_string(n: u64) -> (s: String)
    ensures
        s@ == decimal(n as nat),
{
    let mut s = String::new();
    push_decimal(&mut s, n);
    assert(s@ =~= decimal(n as nat));
    s
}

/// Whether `c` is an ASCII decimal digit.
pub open spec fn is_digit(c: char) -> bool {
    '0' <= c && c <= '9'
}

/// The number that a run of decimal digits spells.
pub open spec fn digits_value(s: Seq<char>) -> nat
    decreases s.len(),
{
    if s.len() == 0 {
        0
    } else {
        digits_value(s.drop_last()) * 10 + ((s.last() as u32) - 48) as nat
    }
}

/// `s` without one leading `+`.
pub open spec fn unsigned_digits(s: Seq<char>) -> Seq<char> {
    if s.len() > 0 && s[0] == '+' {
        s.drop_first()
    } else {
        s
    }
}

/// Every character of `d` is a decimal digit.
pub open spec fn all_digits(d: Seq<char>) -> bool {
    forall|i: int| 0 <= i < d.len() ==> is_digit(#[trigger] d[i])
}

/// What `usize::from_str` accepts: an optional `+`, then one or more decimal
/// digits whose value fits a `usize`.
pub open spec fn spec_parse_usize(s: Seq<char>) -> Option<nat> {
    let d = unsigned_digits(s);
    if d.len() > 0 && all_digits(d) && digits_value(d) <= usize::MAX {
        Some(digits_value(d))
    } else {
        None
    }
}

/// `s.parse::<usize>().ok()`, over characters.
pub fn parse_usize(s: &[char]) -> (r: Option<usize>)
    ensures
        match r {
            Some(n) => spec_parse_usize(s@) == Some(n as nat),
            None => spec_parse_usize(s@) is None,
        },
{
    let start: usize = if s.len() > 0 && s[0] == '+' {
        1
    } else {
        0
    };
    let ghost d = if s@.len() > 0 && s@[0] == '+' {
        s@.drop_first()
    } else {
        s@
    };
    assert(d =~= s@.skip(start as int));
    if start >= s.len() {
        return None;
    }
    let mut acc: u128 = 0;
    let mut big = false;
    let mut i: usize = start;
    assert(d.take(0) =~= Seq::<char>::empty());
    while i < s.len()
        invariant
            d == s@.skip(start as int),
            d == unsigned_digits(s@),
            start <= i <= s@.len(),
            forall|k: int| 0 <= k < i - start ==> is_digit(#[trigger] d[k]),
            big == (digits_value(d.take(i - start)) > usize::MAX),
            !big ==> acc == digits_value(d.take(i - start)),
        decreases s@.len() - i,
    {
        let c = s[i];
        if !('0' <= c && c <= '9') {
            assert(d[i - start] == c);
            assert(!is_digit(d[i - start]));
            return None;
        }
        let ghost k = i - start;
        assert(d.take(k + 1).drop_last() =~= d.take(k));
        assert(d.take(k + 1).last() == c);
        if !big {
            let v = acc * 10 + ((c as u32) - 48) as u128;
            if v > usize::MAX as u128 {
                big = true;
            } else {
                acc = v;
            }
        }
        i = i + 1;
    }
    assert(d.take(d.len() as int) =~= d);
    if big {
        None
    } else {
        Some(acc as usize)
    }
}

/// Whether `c` is white space (`char::is_whitespace`).
pub fn is_space_char(c: char) -> (r: bool)
    ensures
        r == is_unicode_space(c),
{
    c == ' ' || ('\u{9}' <= c && c <= '\u{d}') || c == '\u{85}' || c == '\u{a0}' || c
        == '\u{1680}' || ('\u{2000}' <= c && c <= '\u{200a}') || c == '\u{2028}' || c
        == '\u{2029}' || c == '\u{202f}' || c == '\u{205f}' || c == '\u{3000}'
}

proof fn lemma_trim_end_take(s: Seq<char>, b: int)
    requires
        0 <= b <= s.len(),
        forall|k: int| b <= k < s.len() ==> is_unicode_space(#[trigger] s[k]),
    ensures
        trim_end(s) == trim_end(s.take(b)),
    decreases s.len() - b,
{
    if b < s.len() {
        assert(s.drop_last().take(b) =~= s.take(b));
        assert forall|k: int| b <= k < s.drop_last().len() implies is_unicode_space(
            #[trigger] s.drop_last()[k],
        ) by {
            assert(s.drop_last()[k] == s[k]);
        }
        lemma_trim_end_take(s.drop_last(), b);
    } else {
        assert(s.take(b) =~= s);
    }
}

/// `v` with white space removed at both ends (`str::trim`).
pub fn trim_chars(v: &[char]) -> (r: Vec<char>)
    ensures
        r@ == trim(v@),
{
    let n = v.len();
    let mut a: usize = 0;
    assert(v@.skip(0) =~= v@);
    while a < n && is_space_char(v[a])
        invariant
            n == v@.len(),
            a <= n,
            trim_start(v@) == trim_start(v@.skip(a as int)),
        decreases n - a,
    {
        assert(v@.skip(a as int).drop_first() =~= v@.skip(a + 1));
        a = a + 1;
    }
    let ghost rest = v@.skip(a as int);
    assert(trim_start(rest) == rest) by {
        if rest.len() > 0 {
            assert(rest[0] == v@[a as int]);
        }
    }
    let mut b: usize = n;
    while b > a && is_space_char(v[b - 1])
        invariant
            n == v@.len(),
            a <= b <= n,
            rest == v@.skip(a as int),
            forall|k: int| b - a <= k < rest.len() ==> is_unicode_space(#[trigger] rest[k]),
        decreases b,
    {
        assert(rest[b - 1 - a] == v@[b - 1]);
        b = b - 1;
    }
    proof {
        lemma_trim_end_take(rest, b - a);
        let x = rest.take(b - a);
        if x.len() > 0 {
            assert(x.last() == v@[b - 1]);
        }
    }
    let mut r: Vec<char> = Vec::new();
    let mut i: usize = a;
    while i < b
        invariant
            a <= i <= b <= n,
            n == v@.len(),
            r@ == v@.subrange(a as int, i as int),
        decreases b - i,
    {
        r.push(v[i]);
        i = i + 1;
        assert(r@ =~= v@.subrange(a as int, i as int));
    }
    assert(r@ =~= rest.take(b - a));
    r
}

/// The views of a list of character vectors.
pub open spec fn pieces_view(v: Seq<Vec<char>>) -> Seq<Seq<char>> {
    v.map_values(|p: Vec<char>| p@)
}

/// The pieces of `v` between occurrences of `d` (see `split_on`).
pub fn split_chars(v: &[char], d: char) -> (r: Vec<Vec<char>>)
    ensures
        pieces_view(r@) == split_on(v@, d),
{
    let mut done: Vec<Vec<char>> = Vec::new();
    let mut cur: Vec<char> = Vec::new();
    let mut i: usize = 0;
    assert(v@.take(0) =~= Seq::<char>::empty());
    assert(pieces_view(done@).push(cur@) =~= split_on(v@.take(0), d));
    while i < v.len()
        invariant
            i <= v@.len(),
            pieces_view(done@).push(cur@) == split_on(v@.take(i as int), d),
        decreases v@.len() - i,
    {
        let c = v[i];
        assert(v@.take(i + 1).drop_last() =~= v@.take(i as int));
        assert(v@.take(i + 1).last() == c);
        let ghost before = pieces_view(done@).push(cur@);
        if c == d {
            let finished = cur;
            done.push(finished);
            cur = Vec::new();
            assert(pieces_view(done@).push(cur@) =~= before.push(Seq::<char>::empty()));
        } else {
            cur.push(c);
            assert(pieces_view(done@).push(cur@) =~= before.update(
                before.len() - 1,
                before.last().push(c),
            ));
        }
        i = i + 1;
    }
    assert(v@.take(v@.len() as int) =~= v@);
    let ghost before = pieces_view(done@).push(cur@);
    done.push(cur);
    assert(pieces_view(done@) =~= before);
    done
}

} // verus!
