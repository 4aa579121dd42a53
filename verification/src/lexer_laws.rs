//! What holds of words, numbers and the white space around them.

use crate::lexer::{
    all_digits, ascii_lower, contains_text, digits_value, exponent_mark, first_index, is_digit,
    is_float, is_mantissa, is_space, lemma_first_index, lemma_first_index_bounds,
    lemma_word_len_bounds, lower, number, split_at_char, trim_end, trim_start, trimmed, unsigned,
    without_trailing, word_len, words,
};
use crate::text::{decimal, digit};
use vstd::prelude::*;

verus! {

/// A text without white space.
pub open spec fn solid(s: Seq<char>) -> bool {
    forall|i: int| 0 <= i < s.len() ==> !is_space(#[trigger] s[i])
}

/// A text of white space alone.
pub open spec fn blank(s: Seq<char>) -> bool {
    forall|i: int| 0 <= i < s.len() ==> is_space(#[trigger] s[i])
}

/// Blank, tab, line feed and carriage return are white space; the visible
/// characters of ASCII are not.
pub proof fn law_white_space(c: char)
    ensures
        is_space(' ') && is_space('\t') && is_space('\n') && is_space('\r'),
        0x21 <= c as u32 <= 0x7E ==> !is_space(c),
{
}

/// What stands before the first `c`, the `c`, and what stands behind it make
/// the text; before it there is no other. Without a `c` there is no split.
pub proof fn law_split_at_the_first(s: Seq<char>, c: char)
    ensures
        match split_at_char(s, c) {
            Some((before, behind)) => s == before + seq![c] + behind && !before.contains(c),
            None => !s.contains(c),
        },
{
    lemma_first_index_bounds(s, c);
    lemma_first_index_meaning(s, c);
    let at = first_index(s, c);
    if at < s.len() {
        assert(s =~= s.take(at) + seq![c] + s.skip(at + 1));
    }
}

proof fn lemma_first_index_meaning(s: Seq<char>, c: char)
    ensures
        first_index(s, c) < s.len() ==> s[first_index(s, c)] == c,
        forall|j: int| 0 <= j < first_index(s, c) && j < s.len() ==> #[trigger] s[j] != c,
    decreases s.len(),
{
    lemma_first_index_bounds(s, c);
    if s.len() > 0 && s[0] != c {
        let rest = s.drop_first();
        lemma_first_index_meaning(rest, c);
        lemma_first_index_bounds(rest, c);
        assert forall|j: int| 0 <= j < first_index(s, c) && j < s.len() implies #[trigger] s[j]
            != c by {
            if j > 0 {
                assert(rest[j - 1] == s[j]);
            }
        }
    }
}

/// Parts that are joined by their first `c` are found again.
pub proof fn law_joined_parts_are_split(before: Seq<char>, c: char, behind: Seq<char>)
    requires
        !before.contains(c),
    ensures
        split_at_char(before + seq![c] + behind, c) == Some((before, behind)),
{
    let s = before + seq![c] + behind;
    assert forall|j: int| 0 <= j < before.len() implies s[j] != c by {
        assert(before.contains(before[j]));
    }
    lemma_first_index(s, c, before.len() as int);
    assert(s.take(before.len() as int) =~= before);
    assert(s.skip(before.len() as int + 1) =~= behind);
}

/// A text without white space is one word; white space has none.
pub proof fn law_one_word(w: Seq<char>)
    ensures
        solid(w) && w.len() > 0 ==> words(w) == seq![w],
        blank(w) ==> words(w) == Seq::<Seq<char>>::empty(),
    decreases w.len(),
{
    if w.len() > 0 {
        if solid(w) {
            lemma_solid_len(w);
            assert(w.take(w.len() as int) =~= w);
            assert(w.skip(w.len() as int) =~= Seq::<char>::empty());
            assert(words(w.skip(w.len() as int)) =~= Seq::<Seq<char>>::empty());
            assert(!is_space(w[0]));
            assert(words(w) =~= seq![w]);
        }
        if blank(w) {
            assert(is_space(w[0]));
            assert forall|i: int| 0 <= i < w.drop_first().len() implies is_space(
                #[trigger] w.drop_first()[i],
            ) by {
                assert(is_space(w[i + 1]));
            }
            law_one_word(w.drop_first());
        }
    }
}

proof fn lemma_solid_len(w: Seq<char>)
    requires
        solid(w),
    ensures
        word_len(w) == w.len(),
    decreases w.len(),
{
    if w.len() > 0 {
        assert(!is_space(w[0]));
        assert forall|i: int| 0 <= i < w.drop_first().len() implies !is_space(
            #[trigger] w.drop_first()[i],
        ) by {
            assert(!is_space(w[i + 1]));
        }
        lemma_solid_len(w.drop_first());
    }
}

/// White space parts words: the words of two texts with white space between
/// them are those of the first, then those of the second.
pub proof fn law_white_space_parts_words(a: Seq<char>, c: char, b: Seq<char>)
    requires
        is_space(c),
    ensures
        words(a + seq![c] + b) == words(a) + words(b),
    decreases a.len(),
{
    let s = a + seq![c] + b;
    if a.len() == 0 {
        assert(s.drop_first() =~= b);
        assert(words(a) + words(b) =~= words(b));
    } else if is_space(a[0]) {
        assert(s.drop_first() =~= a.drop_first() + seq![c] + b);
        law_white_space_parts_words(a.drop_first(), c, b);
    } else {
        let n = word_len(a);
        lemma_word_len_bounds(a);
        lemma_word_extended(a, c, b);
        assert(s.take(n) =~= a.take(n));
        assert(s.skip(n) =~= a.skip(n) + seq![c] + b);
        law_white_space_parts_words(a.skip(n), c, b);
        assert(seq![a.take(n)] + (words(a.skip(n)) + words(b)) =~= (seq![a.take(n)] + words(
            a.skip(n),
        )) + words(b));
    }
}

proof fn lemma_word_extended(a: Seq<char>, c: char, b: Seq<char>)
    requires
        is_space(c),
    ensures
        word_len(a + seq![c] + b) == word_len(a),
    decreases a.len(),
{
    let s = a + seq![c] + b;
    if a.len() > 0 && !is_space(a[0]) {
        assert(s.drop_first() =~= a.drop_first() + seq![c] + b);
        lemma_word_extended(a.drop_first(), c, b);
    }
}

/// White space around a text is dropped, and nothing else: the text starts and
/// ends with other characters.
pub proof fn law_white_space_around_is_dropped(lead: Seq<char>, t: Seq<char>, trail: Seq<char>)
    requires
        blank(lead),
        blank(trail),
        t.len() > 0,
        !is_space(t[0]),
        !is_space(t.last()),
    ensures
        trimmed(lead + t + trail) == t,
{
    lemma_trim_start(lead, t + trail);
    assert(lead + t + trail =~= lead + (t + trail));
    assert((t + trail)[0] == t[0]);
    lemma_trim_end(t, trail);
}

proof fn lemma_trim_start(lead: Seq<char>, s: Seq<char>)
    requires
        blank(lead),
    ensures
        trim_start(lead + s) == trim_start(s),
    decreases lead.len(),
{
    if lead.len() > 0 {
        assert(is_space(lead[0]));
        assert forall|i: int| 0 <= i < lead.drop_first().len() implies is_space(
            #[trigger] lead.drop_first()[i],
        ) by {
            assert(is_space(lead[i + 1]));
        }
        lemma_trim_start(lead.drop_first(), s);
        assert((lead + s).drop_first() =~= lead.drop_first() + s);
    } else {
        assert(lead + s =~= s);
    }
}

proof fn lemma_trim_end(s: Seq<char>, trail: Seq<char>)
    requires
        blank(trail),
        s.len() > 0,
        !is_space(s.last()),
    ensures
        trim_end(s + trail) == s,
    decreases trail.len(),
{
    if trail.len() > 0 {
        assert(is_space(trail[trail.len() - 1]));
        assert forall|i: int| 0 <= i < trail.drop_last().len() implies is_space(
            #[trigger] trail.drop_last()[i],
        ) by {
            assert(is_space(trail[i]));
        }
        lemma_trim_end(s, trail.drop_last());
        assert((s + trail).drop_last() =~= s + trail.drop_last());
        assert((s + trail).last() == trail.last());
    } else {
        assert(s + trail =~= s);
    }
}

/// Copies of a character at the end are dropped, and nothing else.
pub proof fn law_trailing_characters_are_dropped(s: Seq<char>, c: char, n: nat)
    requires
        s.len() == 0 || s.last() != c,
    ensures
        without_trailing(s + Seq::new(n, |i: int| c), c) == s,
    decreases n,
{
    let tail = Seq::new(n, |i: int| c);
    if n > 0 {
        let less = Seq::new((n - 1) as nat, |i: int| c);
        law_trailing_characters_are_dropped(s, c, (n - 1) as nat);
        assert((s + tail).drop_last() =~= s + less);
        assert((s + tail).last() == c);
    } else {
        assert(s + tail =~= s);
    }
}

/// The decimal notation of a number is one or more digits that stand for it.
pub proof fn law_decimal_notation(n: int)
    requires
        n >= 0,
    ensures
        decimal(n).len() > 0,
        all_digits(decimal(n)),
        solid(decimal(n)),
        digits_value(decimal(n)) == n,
    decreases n,
{
    if n < 10 {
        lemma_digit(n);
        let s = decimal(n);
        assert(s.drop_last() =~= Seq::<char>::empty());
        assert(digits_value(s.drop_last()) == 0);
        assert(s.last() == digit(n));
    } else {
        law_decimal_notation(n / 10);
        lemma_digit(n % 10);
        let s = decimal(n);
        let front = decimal(n / 10);
        assert(s.drop_last() =~= front);
        assert forall|i: int| 0 <= i < s.len() implies is_digit(#[trigger] s[i]) && !is_space(
            s[i],
        ) by {
            if i < front.len() {
                assert(s[i] == front[i]);
            }
        }
    }
}

proof fn lemma_digit(d: int)
    requires
        0 <= d < 10,
    ensures
        is_digit(digit(d)),
        !is_space(digit(d)),
        digit(d) as int - '0' as int == d,
{
}

/// A number is read back from its decimal notation, with or without a plus
/// sign, if it is not beyond the limit; then it is refused.
pub proof fn law_numbers_read_back(n: int, max: int)
    requires
        n >= 0,
    ensures
        number(decimal(n), max) == (if n <= max {
            Some(n)
        } else {
            None
        }),
        number(seq!['+'] + decimal(n), max) == (if n <= max {
            Some(n)
        } else {
            None
        }),
{
    law_decimal_notation(n);
    let d = decimal(n);
    assert(is_digit(d[0]));
    assert((seq!['+'] + d).drop_first() =~= d);
}

/// A text with anything but decimal digits in it, a plus sign in front aside,
/// is no number, nor is one without digits.
pub proof fn law_other_texts_are_no_numbers(s: Seq<char>, max: int, i: int)
    ensures
        0 <= i < s.len() && !is_digit(s[i]) && !(i == 0 && s[i] == '+') ==> number(s, max) is None,
        s.len() == 0 ==> number(s, max) is None,
        number(seq!['+'], max) is None,
        number(s, max) matches Some(n) ==> n <= max,
{
    if 0 <= i < s.len() && !is_digit(s[i]) && !(i == 0 && s[i] == '+') {
        if s[0] == '+' {
            assert(s.drop_first()[i - 1] == s[i]);
        }
    }
    assert(seq!['+'].drop_first() =~= Seq::<char>::empty());
}

/// Lower case: the letters `A` to `Z` become those 32 places on, every other
/// character stays, and none is lost.
pub proof fn law_lower_case(s: Seq<char>, i: int)
    requires
        0 <= i < s.len(),
    ensures
        ascii_lower(s).len() == s.len(),
        ascii_lower(s)[i] as int == s[i] as int + (if 'A' <= s[i] <= 'Z' {
            32int
        } else {
            0int
        }),
        !('A' <= ascii_lower(s)[i] <= 'Z'),
{
}

/// A text is found in every text that it is a part of, and only there.
pub proof fn law_parts_are_found(a: Seq<char>, pattern: Seq<char>, b: Seq<char>)
    ensures
        contains_text(a + pattern + b, pattern),
        contains_text(a, pattern) ==> exists|front: Seq<char>, back: Seq<char>|
            a == #[trigger] (front + pattern + back),
{
    let s = a + pattern + b;
    assert(s.subrange(a.len() as int, a.len() as int + pattern.len()) =~= pattern);
    if contains_text(a, pattern) {
        let at = choose|at: int|
            0 <= at && at + pattern.len() <= a.len() && #[trigger] a.subrange(
                at,
                at + pattern.len(),
            ) == pattern;
        assert(a =~= a.take(at) + pattern + a.skip(at + pattern.len()));
    }
}

/// No sign, or one of `+` and `-`.
pub open spec fn is_sign(s: Seq<char>) -> bool {
    s.len() == 0 || s == seq!['+'] || s == seq!['-']
}

/// A number with an optional sign and fraction, as it is written.
pub open spec fn written_mantissa(whole: Seq<char>, point: bool, fraction: Seq<char>) -> Seq<char> {
    if point {
        whole + seq!['.'] + fraction
    } else {
        whole
    }
}

/// Digits around an optional point, at least one in all.
pub open spec fn good_mantissa(whole: Seq<char>, point: bool, fraction: Seq<char>) -> bool {
    &&& all_digits(whole)
    &&& all_digits(fraction)
    &&& whole.len() > 0 || point && fraction.len() > 0
}

proof fn lemma_mantissa(whole: Seq<char>, point: bool, fraction: Seq<char>)
    requires
        good_mantissa(whole, point, fraction),
    ensures
        is_mantissa(written_mantissa(whole, point, fraction)),
{
    let s = written_mantissa(whole, point, fraction);
    assert forall|j: int| 0 <= j < whole.len() implies s[j] != '.' by {
        assert(is_digit(whole[j]));
        assert(s[j] == whole[j]);
    }
    lemma_first_index(s, '.', whole.len() as int);
    if point {
        assert(s.take(whole.len() as int) =~= whole);
        assert(s.skip(whole.len() as int + 1) =~= fraction);
    }
}

proof fn lemma_mantissa_chars(whole: Seq<char>, point: bool, fraction: Seq<char>, j: int)
    requires
        good_mantissa(whole, point, fraction),
        0 <= j < written_mantissa(whole, point, fraction).len(),
    ensures
        is_digit(written_mantissa(whole, point, fraction)[j]) || written_mantissa(
            whole,
            point,
            fraction,
        )[j] == '.',
{
    let s = written_mantissa(whole, point, fraction);
    if j < whole.len() {
        assert(s[j] == whole[j]);
        assert(is_digit(whole[j]));
    } else if j > whole.len() {
        assert(s[j] == fraction[j - whole.len() - 1]);
        assert(is_digit(fraction[j - whole.len() - 1]));
    }
}

proof fn lemma_unsigned(sign: Seq<char>, body: Seq<char>)
    requires
        is_sign(sign),
        body.len() > 0,
        body[0] != '+',
        body[0] != '-',
    ensures
        unsigned(sign + body) == body,
{
    let s = sign + body;
    if sign.len() == 0 {
        assert(s =~= body);
    } else {
        assert(sign[0] == '+' || sign[0] == '-');
        assert(s.drop_first() =~= body);
    }
}

/// Numbers are accepted: digits around an optional point, at least one in all,
/// behind an optional sign.
pub proof fn law_decimal_fractions_are_numbers(
    sign: Seq<char>,
    whole: Seq<char>,
    point: bool,
    fraction: Seq<char>,
)
    requires
        is_sign(sign),
        good_mantissa(whole, point, fraction),
    ensures
        is_float(sign + written_mantissa(whole, point, fraction)),
{
    let m = written_mantissa(whole, point, fraction);
    lemma_mantissa(whole, point, fraction);
    lemma_mantissa_chars(whole, point, fraction, 0);
    lemma_unsigned(sign, m);
    let low = ascii_lower(m);
    assert forall|j: int| 0 <= j < low.len() implies low[j] != 'e' by {
        lemma_mantissa_chars(whole, point, fraction, j);
    }
    lemma_first_index(low, 'e', low.len() as int);
}

/// So are numbers with a power of ten behind `e` or `E`, which may have a sign
/// of its own.
pub proof fn law_powers_of_ten_are_numbers(
    sign: Seq<char>,
    whole: Seq<char>,
    point: bool,
    fraction: Seq<char>,
    mark: char,
    power_sign: Seq<char>,
    power: Seq<char>,
)
    requires
        is_sign(sign),
        good_mantissa(whole, point, fraction),
        mark == 'e' || mark == 'E',
        is_sign(power_sign),
        power.len() > 0,
        all_digits(power),
    ensures
        is_float(sign + (written_mantissa(whole, point, fraction) + seq![mark] + (power_sign
            + power))),
{
    let m = written_mantissa(whole, point, fraction);
    let body = m + seq![mark] + (power_sign + power);
    let at = m.len() as int;
    lemma_mantissa(whole, point, fraction);
    lemma_mantissa_chars(whole, point, fraction, 0);
    assert(body[0] == m[0]);
    lemma_unsigned(sign, body);
    let low = ascii_lower(body);
    assert forall|j: int| 0 <= j < at implies low[j] != 'e' by {
        lemma_mantissa_chars(whole, point, fraction, j);
        assert(body[j] == m[j]);
    }
    assert(body[at] == mark);
    assert(low[at] == 'e');
    lemma_first_index(low, 'e', at);
    assert(body.take(at) =~= m);
    assert(body.skip(at + 1) =~= power_sign + power);
    assert(is_digit(power[0]));
    lemma_unsigned(power_sign, power);
}

/// Nothing else is a number, but for `inf`, `infinity` and `nan` in any case:
/// a number starts with an optional sign, digits and an optional point follow,
/// and then at most a power of ten.
pub proof fn law_numbers_are_written_so(s: Seq<char>)
    requires
        is_float(s),
    ensures
        ({
            let low = ascii_lower(unsigned(s));
            ||| low == seq!['i', 'n', 'f']
            ||| low == seq!['i', 'n', 'f', 'i', 'n', 'i', 't', 'y']
            ||| low == seq!['n', 'a', 'n']
            ||| exists|sign: Seq<char>, whole: Seq<char>, point: bool, fraction: Seq<char>|
                #![trigger is_sign(sign), written_mantissa(whole, point, fraction)]
                is_sign(sign) && good_mantissa(whole, point, fraction) && s == sign
                    + written_mantissa(whole, point, fraction)
            ||| exists|
                sign: Seq<char>,
                whole: Seq<char>,
                point: bool,
                fraction: Seq<char>,
                mark: char,
                power: Seq<char>,
            |
                #![trigger is_sign(sign), written_mantissa(whole, point, fraction), power.push(mark)]
                is_sign(sign) && good_mantissa(whole, point, fraction) && (mark == 'e' || mark
                    == 'E') && unsigned(power).len() > 0 && all_digits(unsigned(power)) && s == sign
                    + (written_mantissa(whole, point, fraction) + seq![mark] + power)
        }),
{
    let body = unsigned(s);
    let sign = if s.len() > 0 && (s[0] == '+' || s[0] == '-') {
        seq![s[0]]
    } else {
        Seq::empty()
    };
    assert(s =~= sign + body);
    assert(is_sign(sign));
    let low = ascii_lower(body);
    let mark = exponent_mark(body);
    lemma_first_index_bounds(low, 'e');
    lemma_first_index_meaning(low, 'e');
    if low != seq!['i', 'n', 'f'] && low != seq!['i', 'n', 'f', 'i', 'n', 'i', 't', 'y'] && low
        != seq!['n', 'a', 'n'] {
        let m = if mark < body.len() {
            body.take(mark)
        } else {
            body
        };
        let at = first_index(m, '.');
        lemma_first_index_bounds(m, '.');
        lemma_first_index_meaning(m, '.');
        let point = at < m.len();
        let whole = if point {
            m.take(at)
        } else {
            m
        };
        let fraction = if point {
            m.skip(at + 1)
        } else {
            Seq::empty()
        };
        assert(m =~= written_mantissa(whole, point, fraction));
        assert(good_mantissa(whole, point, fraction));
        if mark < body.len() {
            let c = body[mark];
            let power = body.skip(mark + 1);
            assert(low[mark] == lower(c));
            assert(c == 'e' || c == 'E');
            assert(body =~= m + seq![c] + power);
            let shown = power.push(c);
            assert(s == sign + (written_mantissa(whole, point, fraction) + seq![c] + power));
        }
    }
}

/// Of a text of white space alone nothing is left.
pub proof fn law_blank_text_is_dropped(s: Seq<char>)
    requires
        blank(s),
    ensures
        trimmed(s).len() == 0,
{
    let none = Seq::<char>::empty();
    lemma_trim_start(s, none);
    assert(s + none =~= s);
    assert(trim_start(none) =~= none);
    assert(trim_end(none) =~= none);
}

} // verus!
