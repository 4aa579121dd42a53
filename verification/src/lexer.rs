//! Cutting text into lines, words and numbers.

use vstd::prelude::*;

verus! {

/// Unicode white space.
pub open spec fn is_space(c: char) -> bool {
    ||| 0x09 <= c as u32 <= 0x0D
    ||| c as u32 == 0x20
    ||| c as u32 == 0x85
    ||| c as u32 == 0xA0
    ||| c as u32 == 0x1680
    ||| 0x2000 <= c as u32 <= 0x200A
    ||| c as u32 == 0x2028
    ||| c as u32 == 0x2029
    ||| c as u32 == 0x202F
    ||| c as u32 == 0x205F
    ||| c as u32 == 0x3000
}

/// Whether `c` is white space.
pub fn space(c: char) -> (r: bool)
    ensures
        r == is_space(c),
{
    let u: u32 = c as u32;
    (0x09 <= u && u <= 0x0D) || u == 0x20 || u == 0x85 || u == 0xA0 || u == 0x1680 || (0x2000 <= u
        && u <= 0x200A) || u == 0x2028 || u == 0x2029 || u == 0x202F || u == 0x205F || u == 0x3000
}

/// Offset of the first `c`, or the length where there is none.
pub open spec fn first_index(s: Seq<char>, c: char) -> int
    decreases s.len(),
{
    if s.len() == 0 || s[0] == c {
        0
    } else {
        1 + first_index(s.drop_first(), c)
    }
}

/// The first `c` stands where no other stands before it.
pub proof fn lemma_first_index(s: Seq<char>, c: char, at: int)
    requires
        0 <= at <= s.len(),
        forall|j: int| 0 <= j < at ==> s[j] != c,
        at == s.len() || s[at] == c,
    ensures
        first_index(s, c) == at,
    decreases s.len(),
{
    if at > 0 {
        lemma_first_index(s.drop_first(), c, at - 1);
    }
}

/// The offset of the first `c` lies inside the text or at its end.
pub proof fn lemma_first_index_bounds(s: Seq<char>, c: char)
    ensures
        0 <= first_index(s, c) <= s.len(),
        first_index(s, c) < s.len() ==> s[first_index(s, c)] == c,
        forall|j: int| 0 <= j < first_index(s, c) ==> s[j] != c,
    decreases s.len(),
{
    if s.len() > 0 && s[0] != c {
        let t = s.drop_first();
        lemma_first_index_bounds(t, c);
        assert forall|j: int| 0 <= j < first_index(s, c) implies s[j] != c by {
            if j > 0 {
                assert(t[j - 1] == s[j]);
            }
        }
    }
}

/// Find the first `c`; the length where there is none.
pub fn find_char(s: &[char], c: char) -> (r: usize)
    ensures
        r == first_index(s@, c),
        r <= s@.len(),
        r < s@.len() ==> s@[r as int] == c,
{
    let mut i: usize = 0;
    while i < s.len() && s[i] != c
        invariant
            i <= s@.len(),
            forall|j: int| 0 <= j < i ==> s@[j] != c,
        decreases s@.len() - i,
    {
        i += 1;
    }
    proof {
        lemma_first_index(s@, c, i as int);
    }
    i
}

/// What stands before and behind the first `c`.
pub open spec fn split_at_char(s: Seq<char>, c: char) -> Option<(Seq<char>, Seq<char>)> {
    let at = first_index(s, c);
    if at < s.len() {
        Some((s.take(at), s.skip(at + 1)))
    } else {
        None
    }
}

/// Split at the first `c`.
pub fn split_once(s: &[char], c: char) -> (r: Option<(&[char], &[char])>)
    ensures
        match r {
            Some((before, behind)) => split_at_char(s@, c) == Some((before@, behind@)),
            None => split_at_char(s@, c) is None,
        },
{
    let at: usize = find_char(s, c);
    let len: usize = s.len();
    if at < len {
        let before: &[char] = &s[0..at];
        let behind: &[char] = &s[at + 1..len];
        assert(before@ =~= s@.take(at as int));
        assert(behind@ =~= s@.skip(at + 1));
        Some((before, behind))
    } else {
        None
    }
}

/// The text without leading white space.
pub open spec fn trim_start(s: Seq<char>) -> Seq<char>
    decreases s.len(),
{
    if s.len() > 0 && is_space(s[0]) {
        trim_start(s.drop_first())
    } else {
        s
    }
}

/// The text without trailing white space.
pub open spec fn trim_end(s: Seq<char>) -> Seq<char>
    decreases s.len(),
{
    if s.len() > 0 && is_space(s.last()) {
        trim_end(s.drop_last())
    } else {
        s
    }
}

/// The text without white space around it.
pub open spec fn trimmed(s: Seq<char>) -> Seq<char> {
    trim_end(trim_start(s))
}

/// Drop the white space around `s`.
pub fn trim(s: &[char]) -> (r: &[char])
    ensures
        r@ == trimmed(s@),
{
    let mut from: usize = 0;
    let mut to: usize = s.len();
    assert(s@.skip(0) =~= s@);
    while from < to && space(s[from])
        invariant
            from <= to == s@.len(),
            trim_start(s@.skip(from as int)) == trim_start(s@),
        decreases to - from,
    {
        assert(s@.skip(from as int).drop_first() =~= s@.skip(from + 1));
        from += 1;
    }
    let ghost t = s@.skip(from as int);
    assert(t == trim_start(s@));
    assert(s@.subrange(from as int, to as int) =~= t);
    while from < to && space(s[to - 1])
        invariant
            from <= to <= s@.len(),
            t == trim_start(s@),
            trim_end(s@.subrange(from as int, to as int)) == trim_end(t),
        decreases to - from,
    {
        assert(s@.subrange(from as int, to as int).drop_last() =~= s@.subrange(
            from as int,
            to - 1,
        ));
        to -= 1;
    }
    &s[from..to]
}

/// The text without the copies of `c` at its end.
pub open spec fn without_trailing(s: Seq<char>, c: char) -> Seq<char>
    decreases s.len(),
{
    if s.len() > 0 && s.last() == c {
        without_trailing(s.drop_last(), c)
    } else {
        s
    }
}

/// Drop the copies of `c` at the end of `s`.
pub fn trim_end_char(s: &[char], c: char) -> (r: &[char])
    ensures
        r@ == without_trailing(s@, c),
{
    let mut to: usize = s.len();
    assert(s@.take(to as int) =~= s@);
    while to > 0 && s[to - 1] == c
        invariant
            to <= s@.len(),
            without_trailing(s@.take(to as int), c) == without_trailing(s@, c),
        decreases to,
    {
        assert(s@.take(to as int).drop_last() =~= s@.take(to - 1));
        to -= 1;
    }
    let r: &[char] = &s[0..to];
    assert(r@ =~= s@.take(to as int));
    r
}

/// Number of characters before the first white space.
pub open spec fn word_len(s: Seq<char>) -> int
    decreases s.len(),
{
    if s.len() == 0 || is_space(s[0]) {
        0
    } else {
        1 + word_len(s.drop_first())
    }
}

proof fn lemma_word_len(s: Seq<char>, n: int)
    requires
        0 <= n <= s.len(),
        forall|j: int| 0 <= j < n ==> !is_space(#[trigger] s[j]),
        n == s.len() || is_space(s[n]),
    ensures
        word_len(s) == n,
    decreases s.len(),
{
    if n > 0 {
        lemma_word_len(s.drop_first(), n - 1);
    }
}

/// A text that starts with no white space starts with a word.
pub proof fn lemma_word_len_bounds(s: Seq<char>)
    ensures
        0 <= word_len(s) <= s.len(),
        s.len() > 0 && !is_space(s[0]) ==> word_len(s) > 0,
    decreases s.len(),
{
    if s.len() > 0 && !is_space(s[0]) {
        lemma_word_len_bounds(s.drop_first());
    }
}

/// The words of a text: its longest stretches without white space.
pub open spec fn words(s: Seq<char>) -> Seq<Seq<char>>
    decreases s.len(),
{
    if s.len() == 0 {
        Seq::empty()
    } else if is_space(s[0]) {
        words(s.drop_first())
    } else {
        proof {
            lemma_word_len_bounds(s);
        }
        seq![s.take(word_len(s))] + words(s.skip(word_len(s)))
    }
}

/// The texts of a list of slices.
pub open spec fn texts(list: Seq<&[char]>) -> Seq<Seq<char>> {
    list.map_values(|t: &[char]| t@)
}

/// Cut `s` into words.
pub fn split_words(s: &[char]) -> (r: Vec<&[char]>)
    ensures
        texts(r@) == words(s@),
{
    let len: usize = s.len();
    let mut r: Vec<&[char]> = Vec::new();
    let mut i: usize = 0;
    assert(s@.skip(0) =~= s@);
    assert(texts(r@) + words(s@) =~= words(s@));
    while i < len
        invariant
            i <= len == s@.len(),
            texts(r@) + words(s@.skip(i as int)) == words(s@),
        decreases len - i,
    {
        let ghost rest = s@.skip(i as int);
        if space(s[i]) {
            assert(rest.drop_first() =~= s@.skip(i + 1));
            i += 1;
        } else {
            let mut j: usize = i;
            while j < len && !space(s[j])
                invariant
                    i <= j <= len == s@.len(),
                    forall|k: int| i <= k < j ==> !is_space(#[trigger] s@[k]),
                decreases len - j,
            {
                j += 1;
            }
            let word: &[char] = &s[i..j];
            proof {
                lemma_word_len(rest, j - i);
                lemma_word_len_bounds(rest);
                assert(word@ =~= rest.take(j - i));
                assert(rest.skip(j - i) =~= s@.skip(j as int));
            }
            let ghost shown = texts(r@);
            r.push(word);
            assert(texts(r@) =~= shown.push(word@));
            assert(shown + (seq![word@] + words(s@.skip(j as int))) =~= texts(r@) + words(
                s@.skip(j as int),
            ));
            i = j;
        }
    }
    assert(s@.skip(i as int) =~= Seq::<char>::empty());
    assert(texts(r@) + Seq::<Seq<char>>::empty() =~= texts(r@));
    r
}

/// Whether `s` starts with `prefix`.
pub open spec fn has_prefix(s: Seq<char>, prefix: Seq<char>) -> bool {
    prefix.len() <= s.len() && s.take(prefix.len() as int) == prefix
}

/// What stands behind `prefix`, where `s` starts with it.
pub fn strip_prefix<'a>(s: &'a [char], prefix: &str) -> (r: Option<&'a [char]>)
    ensures
        match r {
            Some(rest) => has_prefix(s@, prefix@) && rest@ == s@.skip(prefix@.len() as int),
            None => !has_prefix(s@, prefix@),
        },
{
    let p: Vec<char> = crate::text::to_chars(prefix);
    let n: usize = p.len();
    let len: usize = s.len();
    if n > len {
        return None;
    }
    let head: &[char] = &s[0..n];
    assert(head@ =~= s@.take(n as int));
    if !crate::text::same_chars(head, p.as_slice()) {
        return None;
    }
    let rest: &[char] = &s[n..len];
    assert(rest@ =~= s@.skip(n as int));
    Some(rest)
}

/// Whether `pattern` stands somewhere in `s`.
pub open spec fn contains_text(s: Seq<char>, pattern: Seq<char>) -> bool {
    exists|at: int| 0 <= at && at + pattern.len() <= s.len() && #[trigger] s.subrange(
        at,
        at + pattern.len(),
    ) == pattern
}

/// Look for `pattern` in `s`.
pub fn contains(s: &[char], pattern: &str) -> (r: bool)
    ensures
        r == contains_text(s@, pattern@),
{
    let p: Vec<char> = crate::text::to_chars(pattern);
    let n: usize = p.len();
    let len: usize = s.len();
    if n > len {
        return false;
    }
    let mut at: usize = 0;
    while at <= len - n
        invariant
            n == pattern@.len(),
            p@ == pattern@,
            n <= len == s@.len(),
            at <= len - n + 1,
            forall|k: int| 0 <= k < at ==> #[trigger] s@.subrange(k, k + n) != pattern@,
        decreases len - n + 1 - at,
    {
        if crate::text::same_chars(&s[at..at + n], p.as_slice()) {
            assert(s@.subrange(at as int, at + n) == pattern@);
            return true;
        }
        if at == len - n {
            return false;
        }
        at += 1;
    }
    false
}

/// Whether `c` is a decimal digit.
pub open spec fn is_digit(c: char) -> bool {
    '0' <= c <= '9'
}

/// Whether `s` consists of decimal digits.
pub open spec fn all_digits(s: Seq<char>) -> bool {
    forall|i: int| 0 <= i < s.len() ==> is_digit(#[trigger] s[i])
}

/// The number that decimal digits stand for.
pub open spec fn digits_value(s: Seq<char>) -> int
    decreases s.len(),
{
    if s.len() == 0 {
        0
    } else {
        10 * digits_value(s.drop_last()) + (s.last() as int - '0' as int)
    }
}

/// A non-negative number of at most `max`: one or more decimal digits behind
/// an optional plus sign.
pub open spec fn number(s: Seq<char>, max: int) -> Option<int> {
    let d = if s.len() > 0 && s[0] == '+' {
        s.drop_first()
    } else {
        s
    };
    if d.len() > 0 && all_digits(d) && digits_value(d) <= max {
        Some(digits_value(d))
    } else {
        None
    }
}

/// The leading digits of a number are no more than all of them.
pub proof fn lemma_digits_grow(s: Seq<char>, i: int)
    requires
        0 <= i <= s.len(),
        all_digits(s),
    ensures
        0 <= digits_value(s.take(i)) <= digits_value(s),
    decreases s.len(),
{
    if i == s.len() {
        assert(s.take(i) =~= s);
        if s.len() > 0 {
            lemma_digits_grow(s.drop_last(), i - 1);
        }
    } else {
        assert(s.drop_last().take(i) =~= s.take(i));
        lemma_digits_grow(s.drop_last(), i);
    }
}

/// Read a number of at most `max`.
pub fn parse_number(s: &[char], max: u64) -> (r: Option<u64>)
    ensures
        match r {
            Some(n) => number(s@, max as int) == Some(n as int),
            None => number(s@, max as int) is None,
        },
{
    let len: usize = s.len();
    let from: usize = if len > 0 && s[0] == '+' {
        1
    } else {
        0
    };
    let ghost d = s@.skip(from as int);
    proof {
        assert(s@.skip(0) =~= s@);
        if from == 1 {
            assert(s@.skip(1) =~= s@.drop_first());
        }
    }
    if from == len {
        return None;
    }
    let mut value: u64 = 0;
    let mut i: usize = from;
    assert(d.take(0) =~= Seq::<char>::empty());
    while i < len
        invariant
            from <= i <= len == s@.len(),
            d == s@.skip(from as int),
            d.len() > 0,
            number(s@, max as int) == (if all_digits(d) && digits_value(d) <= max {
                Some(digits_value(d))
            } else {
                None
            }),
            all_digits(d.take(i - from)),
            value == digits_value(d.take(i - from)),
            value <= max,
        decreases len - i,
    {
        let c: char = s[i];
        assert(c == d[i - from]);
        if !('0' <= c && c <= '9') {
            return None;
        }
        let n: u128 = value as u128 * 10 + (c as u32 - '0' as u32) as u128;
        assert(d.take(i - from + 1).drop_last() =~= d.take(i - from));
        assert(digits_value(d.take(i - from + 1)) == n);
        if n > max as u128 {
            proof {
                if all_digits(d) {
                    lemma_digits_grow(d, i - from + 1);
                }
            }
            return None;
        }
        value = n as u64;
        assert forall|k: int| 0 <= k < i - from + 1 implies is_digit(
            #[trigger] d.take(i - from + 1)[k],
        ) by {
            if k < i - from {
                assert(d.take(i - from)[k] == d[k]);
            }
        }
        i += 1;
    }
    assert(d.take(i - from) =~= d);
    Some(value)
}

/// Whether `s` is a number with an optional fraction: decimal digits around
/// at most one point, at least one digit in all.
pub open spec fn is_mantissa(s: Seq<char>) -> bool {
    let point = first_index(s, '.');
    if point < s.len() {
        s.len() > 1 && all_digits(s.take(point)) && all_digits(s.skip(point + 1))
    } else {
        s.len() > 0 && all_digits(s)
    }
}

/// Whether `s` is an exponent: one or more digits behind an optional sign.
pub open spec fn is_exponent(s: Seq<char>) -> bool {
    let d = unsigned(s);
    d.len() > 0 && all_digits(d)
}

/// The text without one leading sign.
pub open spec fn unsigned(s: Seq<char>) -> Seq<char> {
    if s.len() > 0 && (s[0] == '+' || s[0] == '-') {
        s.drop_first()
    } else {
        s
    }
}

/// The text with ASCII letters in lower case.
pub open spec fn ascii_lower(s: Seq<char>) -> Seq<char> {
    s.map_values(|c: char| lower(c))
}

/// An ASCII letter in lower case; any other character as it is.
pub open spec fn lower(c: char) -> char {
    if 'A' <= c <= 'Z' {
        (c as u32 + 0x20) as char
    } else {
        c
    }
}

/// Offset of the first `e` or `E`, or the length where there is none.
pub open spec fn exponent_mark(s: Seq<char>) -> int {
    first_index(ascii_lower(s), 'e')
}

/// Whether `s` is a floating-point number in decimal notation: an optional
/// sign, then `inf`, `infinity` or `nan` in any case, or a mantissa with an
/// optional exponent behind `e` or `E`.
pub open spec fn is_float(s: Seq<char>) -> bool {
    let body = unsigned(s);
    let mark = exponent_mark(body);
    ||| ascii_lower(body) == seq!['i', 'n', 'f']
    ||| ascii_lower(body) == seq!['i', 'n', 'f', 'i', 'n', 'i', 't', 'y']
    ||| ascii_lower(body) == seq!['n', 'a', 'n']
    ||| if mark < body.len() {
        is_mantissa(body.take(mark)) && is_exponent(body.skip(mark + 1))
    } else {
        is_mantissa(body)
    }
}

/// Convert an ASCII letter to lower case.
pub fn lower_char(c: char) -> (r: char)
    ensures
        r == lower(c),
{
    if 'A' <= c && c <= 'Z' {
        (c as u8 + 0x20) as char
    } else {
        c
    }
}

/// Convert ASCII letters to lower case.
pub fn to_lower(s: &[char]) -> (r: Vec<char>)
    ensures
        r@ == ascii_lower(s@),
{
    let mut r: Vec<char> = Vec::new();
    let mut i: usize = 0;
    while i < s.len()
        invariant
            i <= s@.len(),
            r@ =~= ascii_lower(s@.take(i as int)),
        decreases s@.len() - i,
    {
        r.push(lower_char(s[i]));
        i += 1;
    }
    assert(s@.take(i as int) =~= s@);
    r
}

/// Whether `s` consists of decimal digits.
fn digits_only(s: &[char]) -> (r: bool)
    ensures
        r == all_digits(s@),
{
    let mut i: usize = 0;
    while i < s.len()
        invariant
            i <= s@.len(),
            forall|j: int| 0 <= j < i ==> is_digit(#[trigger] s@[j]),
        decreases s@.len() - i,
    {
        if !('0' <= s[i] && s[i] <= '9') {
            return false;
        }
        i += 1;
    }
    true
}

fn strip_sign(s: &[char]) -> (r: &[char])
    ensures
        r@ == unsigned(s@),
{
    let len: usize = s.len();
    if len > 0 && (s[0] == '+' || s[0] == '-') {
        let r: &[char] = &s[1..len];
        assert(r@ =~= s@.drop_first());
        r
    } else {
        s
    }
}

fn mantissa(s: &[char]) -> (r: bool)
    ensures
        r == is_mantissa(s@),
{
    let point: usize = find_char(s, '.');
    let len: usize = s.len();
    if point < len {
        let before: &[char] = &s[0..point];
        let behind: &[char] = &s[point + 1..len];
        assert(before@ =~= s@.take(point as int));
        assert(behind@ =~= s@.skip(point + 1));
        len > 1 && digits_only(before) && digits_only(behind)
    } else {
        len > 0 && digits_only(s)
    }
}

fn exponent(s: &[char]) -> (r: bool)
    ensures
        r == is_exponent(s@),
{
    let d: &[char] = strip_sign(s);
    d.len() > 0 && digits_only(d)
}

/// Whether `s` is a floating-point number in decimal notation.
pub fn float_literal(s: &[char]) -> (r: bool)
    ensures
        r == is_float(s@),
{
    proof {
        reveal_strlit("inf");
        reveal_strlit("infinity");
        reveal_strlit("nan");
        assert("inf"@ =~= seq!['i', 'n', 'f']);
        assert("infinity"@ =~= seq!['i', 'n', 'f', 'i', 'n', 'i', 't', 'y']);
        assert("nan"@ =~= seq!['n', 'a', 'n']);
    }
    let body: &[char] = strip_sign(s);
    let small: Vec<char> = to_lower(body);
    if crate::text::is_text(small.as_slice(), "inf") || crate::text::is_text(
        small.as_slice(),
        "infinity",
    ) || crate::text::is_text(small.as_slice(), "nan") {
        return true;
    }
    let mark: usize = find_char(small.as_slice(), 'e');
    let len: usize = body.len();
    if mark < len {
        let before: &[char] = &body[0..mark];
        let behind: &[char] = &body[mark + 1..len];
        assert(before@ =~= body@.take(mark as int));
        assert(behind@ =~= body@.skip(mark + 1));
        mantissa(before) && exponent(behind)
    } else {
        mantissa(body)
    }
}

} // verus!
