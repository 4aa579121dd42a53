//! Lines of a database that are written read back.

use crate::dbc::{
    apply_value_type, last_message, lemma_last_message, message_key, message_line, mux_role,
    parse_line, placement, scale, signal, signal_line, unit, value_type_line, ByteOrder, LineError,
    MessageModel, MuxRole, ParseState, SignalError, SignalModel, ValueType, ValueTypeModel,
};
use crate::lexer::{
    has_prefix, is_digit, is_float, is_space, split_at_char, trimmed,
    without_trailing, words,
};
use crate::lexer_laws::{
    blank, law_decimal_notation, law_joined_parts_are_split, law_numbers_read_back, law_one_word,
    law_split_at_the_first, law_trailing_characters_are_dropped,
    law_white_space_around_is_dropped, law_white_space_parts_words, solid,
};
use crate::text::decimal;
use vstd::prelude::*;

verus! {

/// Digits are none of the marks around them.
proof fn lemma_no_marks(n: int, c: char)
    requires
        n >= 0,
        !is_digit(c),
    ensures
        !decimal(n).contains(c),
{
    law_decimal_notation(n);
    if decimal(n).contains(c) {
        let i = choose|i: int| 0 <= i < decimal(n).len() && decimal(n)[i] == c;
        assert(is_digit(decimal(n)[i]));
    }
}

/// Where a signal lies, as it is written.
pub open spec fn written_placement(start: int, length: int, order: char, sign: char) -> Seq<char> {
    decimal(start) + seq!['|'] + (decimal(length) + seq!['@'] + seq![order, sign])
}

/// Where a signal lies is read back: the start bit, a length of 1 to 64, `1`
/// for the Intel byte order and `0` for the Motorola one, `-` for a signed and
/// `+` for an unsigned number, whatever the byte order. Everything else is
/// refused.
pub proof fn law_placement_reads_back(start: int, length: int, order: char, sign: char)
    requires
        start >= 0,
        length >= 0,
    ensures
        match placement(written_placement(start, length, order, sign)) {
            Ok(p) => {
                &&& p.start_bit == start
                &&& p.length == length
                &&& 1 <= length <= 64
                &&& start <= 0xFFFF
                &&& p.byte_order == ByteOrder::Intel && order == '1' || p.byte_order
                    == ByteOrder::Motorola && order == '0'
                &&& p.signed && sign == '-' || !p.signed && sign == '+'
            },
            Err(e) => {
                &&& start > 0xFFFF ==> e == SignalError::StartBit
                &&& start <= 0xFFFF && length > 0xFFFF ==> e == SignalError::Length
                &&& start <= 0xFFFF && length <= 0xFFFF && !(1 <= length <= 64) ==> e
                    == SignalError::LengthRange(length as u16)
                &&& start <= 0xFFFF && 1 <= length <= 64 && order != '0' && order != '1' ==> e
                    == SignalError::ByteOrder
                &&& start <= 0xFFFF && 1 <= length <= 64 && (order == '0' || order == '1') ==> e
                    == SignalError::Sign && sign != '+' && sign != '-'
            },
        },
{
    let tail = decimal(length) + seq!['@'] + seq![order, sign];
    lemma_no_marks(start, '|');
    lemma_no_marks(length, '@');
    law_joined_parts_are_split(decimal(start), '|', tail);
    law_joined_parts_are_split(decimal(length), '@', seq![order, sign]);
    law_numbers_read_back(start, u16::MAX as int);
    law_numbers_read_back(length, u16::MAX as int);
}

/// Factor and offset, as they are written.
pub open spec fn written_scale(factor: Seq<char>, offset: Seq<char>) -> Seq<char> {
    seq!['('] + factor + seq![','] + offset + seq![')']
}

/// Factor and offset are read back as they are written, if both are numbers.
pub proof fn law_scale_reads_back(factor: Seq<char>, offset: Seq<char>)
    requires
        !factor.contains(','),
    ensures
        scale(written_scale(factor, offset)) == (if !is_float(factor) {
            Err::<(Seq<char>, Seq<char>), SignalError>(SignalError::Factor)
        } else if !is_float(offset) {
            Err(SignalError::Offset)
        } else {
            Ok((factor, offset))
        }),
{
    let word = written_scale(factor, offset);
    assert(word.subrange(1, word.len() - 1) =~= factor + seq![','] + offset);
    law_joined_parts_are_split(factor, ',', offset);
}

/// The unit is the first text in quotes behind the closing parenthesis; what
/// stands before, between and behind plays no part.
pub proof fn law_unit_reads_back(
    front: Seq<char>,
    between: Seq<char>,
    text: Seq<char>,
    behind: Seq<char>,
)
    requires
        !front.contains(')'),
        !between.contains('"'),
        !text.contains('"'),
    ensures
        unit(front + seq![')'] + (between + seq!['"'] + (text + seq!['"'] + behind))) == text,
        unit(front + seq![')'] + between) == Seq::<char>::empty(),
        unit(front) == Seq::<char>::empty(),
{
    let quoted = text + seq!['"'] + behind;
    let after = between + seq!['"'] + quoted;
    law_joined_parts_are_split(front, ')', after);
    law_joined_parts_are_split(between, '"', quoted);
    law_joined_parts_are_split(text, '"', behind);
    law_joined_parts_are_split(front, ')', between);
    law_split_at_the_first(between, '"');
    law_split_at_the_first(front, ')');
    if let Some((a, b)) = split_at_char(between, '"') {
        assert(between[a.len() as int] == '"');
        assert(between.contains('"'));
    }
    if let Some((a, b)) = split_at_char(front, ')') {
        assert(front[a.len() as int] == ')');
        assert(front.contains(')'));
    }
}

/// A multiplexor switch is marked `M`; a signal that is there for one number
/// of the switch `m` and that number, with an `M` behind it or not. A mark
/// that starts with neither is refused.
pub proof fn law_multiplex_marks_read_back(n: int, word: Seq<char>)
    requires
        n >= 0,
    ensures
        mux_role(seq!['M']) == Some(MuxRole::Switch),
        n <= u64::MAX ==> mux_role(seq!['m'] + decimal(n)) == Some(MuxRole::Value(n as u64)),
        n <= u64::MAX ==> mux_role(seq!['m'] + decimal(n) + seq!['M']) == Some(
            MuxRole::Value(n as u64),
        ),
        n > u64::MAX ==> mux_role(seq!['m'] + decimal(n)) is None,
        word.len() > 0 && word[0] != 'M' && word[0] != 'm' ==> mux_role(word) is None,
{
    law_decimal_notation(n);
    law_numbers_read_back(n, u64::MAX as int);
    let w = seq!['m'] + decimal(n);
    let last = decimal(n).len() - 1;
    assert(is_digit(decimal(n)[last]));
    assert(w.last() == decimal(n)[last]);
    law_trailing_characters_are_dropped(w, 'M', 0);
    law_trailing_characters_are_dropped(w, 'M', 1);
    assert(w + Seq::new(0, |i: int| 'M') =~= w);
    assert(w + Seq::new(1, |i: int| 'M') =~= w + seq!['M']);
    assert(w.drop_first() =~= decimal(n));
    assert(w[0] == 'm');
    assert((w + seq!['M'])[0] == 'm');
    if word.len() > 0 && word[0] != 'M' && word[0] != 'm' {
        lemma_without_trailing_start(word, 'M');
    }
}

proof fn lemma_without_trailing_start(s: Seq<char>, c: char)
    requires
        s.len() > 0,
        s[0] != c,
    ensures
        without_trailing(s, c).len() > 0,
        without_trailing(s, c)[0] == s[0],
    decreases s.len(),
{
    if s.last() == c {
        lemma_without_trailing_start(s.drop_last(), c);
    }
}

/// The name of a signal and its multiplex mark, as they are written.
pub open spec fn written_head(name: Seq<char>, mux: MuxRole) -> Seq<char> {
    match mux {
        MuxRole::Plain => name,
        MuxRole::Switch => name + seq![' '] + seq!['M'],
        MuxRole::Value(n) => name + seq![' '] + (seq!['m'] + decimal(n as int)),
    }
}

/// A signal, as it is written behind its keyword, up to the closing
/// parenthesis; `more` stands behind it.
pub open spec fn written_signal(
    s: SignalModel,
    order: char,
    sign: char,
    more: Seq<char>,
) -> Seq<char> {
    written_head(s.name, s.mux) + seq![' '] + seq![':'] + (seq![' '] + (written_placement(
        s.start_bit,
        s.length,
        order,
        sign,
    ) + seq![' '] + (written_scale(s.factor, s.offset) + seq![' '] + more)))
}

/// A number as it is written inside parentheses.
pub open spec fn plain_number(s: Seq<char>) -> bool {
    &&& is_float(s)
    &&& solid(s)
    &&& !s.contains(',')
    &&& !s.contains(')')
}

proof fn lemma_head_words(name: Seq<char>, mux: MuxRole)
    requires
        name.len() > 0,
        solid(name),
    ensures
        ({
            let w = words(written_head(name, mux) + seq![' ']);
            &&& w.len() >= 1
            &&& w[0] == name
            &&& if w.len() < 2 {
                mux == MuxRole::Plain
            } else {
                mux_role(w[1]) == Some(mux)
            }
        }),
{
    let head = written_head(name, mux);
    let none = Seq::<char>::empty();
    assert(head + seq![' '] =~= head + seq![' '] + none);
    law_white_space_parts_words(head, ' ', none);
    law_one_word(none);
    law_one_word(name);
    assert(words(head) + words(none) =~= words(head));
    match mux {
        MuxRole::Plain => {},
        MuxRole::Switch => {
            let mark = seq!['M'];
            assert(solid(mark));
            law_one_word(mark);
            law_white_space_parts_words(name, ' ', mark);
            law_multiplex_marks_read_back(0, mark);
        },
        MuxRole::Value(n) => {
            law_decimal_notation(n as int);
            let d = decimal(n as int);
            let mark = seq!['m'] + d;
            assert forall|i: int| 0 <= i < mark.len() implies !is_space(#[trigger] mark[i]) by {
                if i > 0 {
                    assert(mark[i] == d[i - 1]);
                }
            }
            law_one_word(mark);
            law_white_space_parts_words(name, ' ', mark);
            law_multiplex_marks_read_back(n as int, mark);
        },
    }
}

proof fn lemma_solid_joined(a: Seq<char>, b: Seq<char>)
    requires
        solid(a),
        solid(b),
    ensures
        solid(a + b),
{
    let s = a + b;
    assert forall|i: int| 0 <= i < s.len() implies !is_space(#[trigger] s[i]) by {
        if i < a.len() {
            assert(s[i] == a[i]);
        } else {
            assert(s[i] == b[i - a.len()]);
        }
    }
}

proof fn lemma_free_joined(a: Seq<char>, b: Seq<char>, c: char)
    requires
        !a.contains(c),
        !b.contains(c),
    ensures
        !(a + b).contains(c),
{
    let s = a + b;
    if s.contains(c) {
        let i = choose|i: int| 0 <= i < s.len() && s[i] == c;
        if i < a.len() {
            assert(a[i] == c);
        } else {
            assert(b[i - a.len()] == c);
        }
    }
}

proof fn lemma_written_words(s: SignalModel, order: char, sign: char)
    requires
        s.start_bit >= 0,
        s.length >= 0,
        order == '0' || order == '1',
        sign == '+' || sign == '-',
        plain_number(s.factor),
        plain_number(s.offset),
    ensures
        solid(written_placement(s.start_bit, s.length, order, sign)),
        solid(written_scale(s.factor, s.offset)),
        !written_placement(s.start_bit, s.length, order, sign).contains(')'),
        !(seq!['('] + s.factor + seq![','] + s.offset).contains(')'),
{
    law_decimal_notation(s.start_bit);
    law_decimal_notation(s.length);
    lemma_no_marks(s.start_bit, ')');
    lemma_no_marks(s.length, ')');
    let bar = seq!['|'];
    let at = seq!['@'];
    let marks = seq![order, sign];
    let open = seq!['('];
    let comma = seq![','];
    let close = seq![')'];
    assert(solid(bar) && solid(at) && solid(marks) && solid(open) && solid(comma) && solid(close));
    let a = decimal(s.start_bit);
    let b = decimal(s.length);
    lemma_solid_joined(b, at);
    lemma_solid_joined(b + at, marks);
    lemma_solid_joined(a, bar);
    lemma_solid_joined(a + bar, b + at + marks);
    lemma_solid_joined(open, s.factor);
    lemma_solid_joined(open + s.factor, comma);
    lemma_solid_joined(open + s.factor + comma, s.offset);
    lemma_solid_joined(open + s.factor + comma + s.offset, close);
    assert(!bar.contains(')') && !at.contains(')') && !marks.contains(')') && !open.contains(')')
        && !comma.contains(')'));
    lemma_free_joined(b, at, ')');
    lemma_free_joined(b + at, marks, ')');
    lemma_free_joined(a, bar, ')');
    lemma_free_joined(a + bar, b + at + marks, ')');
    lemma_free_joined(open, s.factor, ')');
    lemma_free_joined(open + s.factor, comma, ')');
    lemma_free_joined(open + s.factor + comma, s.offset, ')');
}

/// A signal reads back as it is written: its name, its multiplex mark, its
/// place and length, its byte order, its sign, its factor and offset, and its
/// unit. Until a value type is given it holds an integer.
pub proof fn law_signal_reads_back(
    s: SignalModel,
    between: Seq<char>,
    behind: Seq<char>,
    with_unit: bool,
)
    requires
        s.name.len() > 0,
        solid(s.name),
        !s.name.contains(':'),
        0 <= s.start_bit <= 0xFFFF,
        1 <= s.length <= 64,
        plain_number(s.factor),
        plain_number(s.offset),
        !between.contains('"'),
        !s.unit.contains('"'),
    ensures
        ({
            let order = if s.byte_order == ByteOrder::Intel {
                '1'
            } else {
                '0'
            };
            let sign = if s.signed {
                '-'
            } else {
                '+'
            };
            let more = if with_unit {
                between + seq!['"'] + (s.unit + seq!['"'] + behind)
            } else {
                between
            };
            signal(written_signal(s, order, sign, more)) == Ok::<SignalModel, SignalError>(
                SignalModel {
                    value_type: ValueType::Integer,
                    unit: if with_unit {
                        s.unit
                    } else {
                        Seq::empty()
                    },
                    ..s
                },
            )
        }),
{
    let order = if s.byte_order == ByteOrder::Intel {
        '1'
    } else {
        '0'
    };
    let sign = if s.signed {
        '-'
    } else {
        '+'
    };
    let quoted = s.unit + seq!['"'] + behind;
    let more = if with_unit {
        between + seq!['"'] + quoted
    } else {
        between
    };
    let head = written_head(s.name, s.mux) + seq![' '];
    let place = written_placement(s.start_bit, s.length, order, sign);
    let sc = written_scale(s.factor, s.offset);
    let last = sc + seq![' '] + more;
    let rest = place + seq![' '] + last;
    let tail = seq![' '] + rest;
    let none = Seq::<char>::empty();
    lemma_head_words(s.name, s.mux);
    lemma_head_free(s.name, s.mux);
    lemma_written_words(s, order, sign);
    law_joined_parts_are_split(head, ':', tail);
    assert(written_signal(s, order, sign, more) =~= head + seq![':'] + tail);
    law_one_word(place);
    law_one_word(sc);
    law_one_word(none);
    law_white_space_parts_words(sc, ' ', more);
    law_white_space_parts_words(place, ' ', last);
    assert(tail =~= none + seq![' '] + rest);
    law_white_space_parts_words(none, ' ', rest);
    law_decimal_notation(s.start_bit);
    assert(words(tail) =~= seq![place] + (seq![sc] + words(more)));
    law_placement_reads_back(s.start_bit, s.length, order, sign);
    law_scale_reads_back(s.factor, s.offset);
    let inner = seq!['('] + s.factor + seq![','] + s.offset;
    let front = seq![' '] + place + seq![' '] + inner;
    let blank_one = seq![' '];
    assert(!blank_one.contains(')'));
    lemma_free_joined(blank_one, place, ')');
    lemma_free_joined(blank_one + place, blank_one, ')');
    lemma_free_joined(blank_one + place + blank_one, inner, ')');
    let gap = seq![' '] + between;
    assert(!blank_one.contains('"'));
    lemma_free_joined(blank_one, between, '"');
    law_unit_reads_back(front, gap, s.unit, behind);
    if with_unit {
        assert(tail =~= front + seq![')'] + (gap + seq!['"'] + quoted));
    } else {
        assert(tail =~= front + seq![')'] + gap);
    }
}

proof fn lemma_head_free(name: Seq<char>, mux: MuxRole)
    requires
        !name.contains(':'),
    ensures
        !(written_head(name, mux) + seq![' ']).contains(':'),
{
    let blank_one = seq![' '];
    let big = seq!['M'];
    let small = seq!['m'];
    assert(!blank_one.contains(':') && !big.contains(':') && !small.contains(':'));
    lemma_free_joined(name, blank_one, ':');
    match mux {
        MuxRole::Plain => {},
        MuxRole::Switch => {
            lemma_free_joined(name + blank_one, big, ':');
            lemma_free_joined(name + blank_one + big, blank_one, ':');
        },
        MuxRole::Value(n) => {
            lemma_no_marks(n as int, ':');
            lemma_free_joined(small, decimal(n as int), ':');
            lemma_free_joined(name + blank_one, small + decimal(n as int), ':');
            lemma_free_joined(name + blank_one + (small + decimal(n as int)), blank_one, ':');
        },
    }
}

/// A message, as it is written behind its keyword.
pub open spec fn written_message(raw: int, name: Seq<char>, dlc: int, more: Seq<char>) -> Seq<char> {
    decimal(raw) + seq![' '] + (name + seq![':'] + seq![' '] + (decimal(dlc) + seq![' '] + more))
}

/// A message reads back as it is written: the highest bit of the number says
/// whether its identifier is extended, the other bits are the identifier; its
/// name stands before a colon, then comes its length. It starts without
/// signals, behind the messages so far. Number 3221225472 is that of the
/// pseudo-message, which is no message; a number beyond 32 bits is refused.
pub proof fn law_message_reads_back(
    st: ParseState,
    raw: int,
    name: Seq<char>,
    dlc: int,
    more: Seq<char>,
)
    requires
        raw >= 0,
        name.len() > 0,
        solid(name),
        name.last() != ':',
        0 <= dlc <= 0xFFFF,
    ensures
        match message_line(st, written_message(raw, name, dlc, more)) {
            Ok(after) => {
                &&& raw <= 0xFFFF_FFFF
                &&& after.value_types == st.value_types
                &&& after.orphans == (raw == 3221225472)
                &&& if raw == 3221225472 {
                    after.messages == st.messages
                } else {
                    let m = after.messages.last();
                    &&& after.messages == st.messages.push(m)
                    &&& 0 <= m.id < 0x8000_0000
                    &&& raw == m.id + if m.is_extended {
                        0x8000_0000int
                    } else {
                        0int
                    }
                    &&& m.name == name
                    &&& m.dlc == dlc
                    &&& m.signals.len() == 0
                }
            },
            Err(e) => raw > 0xFFFF_FFFF && e == LineError::MessageId,
        },
{
    law_decimal_notation(raw);
    law_decimal_notation(dlc);
    law_numbers_read_back(raw, u32::MAX as int);
    law_numbers_read_back(dlc, u16::MAX as int);
    let colon = seq![':'];
    assert(solid(colon));
    lemma_solid_joined(name, colon);
    let word = name + colon;
    let last = decimal(dlc) + seq![' '] + more;
    let rest = word + seq![' '] + last;
    law_one_word(decimal(raw));
    law_one_word(word);
    law_one_word(decimal(dlc));
    law_white_space_parts_words(decimal(dlc), ' ', more);
    law_white_space_parts_words(word, ' ', last);
    law_white_space_parts_words(decimal(raw), ' ', rest);
    let w = words(written_message(raw, name, dlc, more));
    assert(w =~= seq![decimal(raw)] + (seq![word] + (seq![decimal(dlc)] + words(more))));
    law_trailing_characters_are_dropped(name, ':', 1);
    assert(word =~= name + Seq::new(1, |i: int| ':'));
}

/// A signal goes to the message before it, behind the signals that this has;
/// nothing else changes. Without a message before it, it is refused.
pub proof fn law_signal_goes_to_the_message_before_it(st: ParseState, rest: Seq<char>)
    requires
        !st.orphans,
    ensures
        match signal_line(st, rest) {
            Ok(after) => {
                &&& st.messages.len() > 0
                &&& signal(rest) is Ok
                &&& after.messages.len() == st.messages.len()
                &&& after.messages.drop_last() == st.messages.drop_last()
                &&& after.messages.last() == (MessageModel {
                    signals: after.messages.last().signals,
                    ..st.messages.last()
                })
                &&& after.messages.last().signals == st.messages.last().signals.push(
                    signal(rest)->Ok_0,
                )
                &&& !after.orphans
                &&& after.value_types == st.value_types
            },
            Err(LineError::SignalBeforeMessage) => st.messages.len() == 0,
            Err(LineError::Signal(e)) => st.messages.len() > 0 && signal(rest) == Err::<
                SignalModel,
                SignalError,
            >(e),
            Err(_) => false,
        },
{
    if st.messages.len() > 0 {
        if let Ok(s) = signal(rest) {
            let after = signal_line(st, rest)->Ok_0;
            assert(after.messages.drop_last() =~= st.messages.drop_last());
        }
    }
}

/// A value type, as it is written behind its keyword.
pub open spec fn written_value_type(raw: int, name: Seq<char>, code: char) -> Seq<char> {
    decimal(raw) + seq![' '] + (name + seq![' '] + (seq![':'] + seq![' '] + seq![code])) + seq![';']
}

/// A value type reads back as it is written: `1` stands for a float, `2` for a
/// double, for the named signal of the message with that number. Any other
/// code changes nothing.
pub proof fn law_value_type_reads_back(st: ParseState, raw: int, name: Seq<char>, code: char)
    requires
        0 <= raw <= 0xFFFF_FFFF,
        name.len() > 0,
        solid(name),
        !is_space(code),
        code != ':',
        code != ';',
    ensures
        ({
            let after = value_type_line(st, written_value_type(raw, name, code));
            &&& after.messages == st.messages
            &&& after.orphans == st.orphans
            &&& code != '1' && code != '2' ==> after.value_types == st.value_types
            &&& code == '1' || code == '2' ==> after.value_types == st.value_types.push(
                ValueTypeModel {
                    raw_id: raw,
                    name,
                    ty: if code == '1' {
                        ValueType::Float
                    } else {
                        ValueType::Double
                    },
                },
            )
        }),
{
    law_decimal_notation(raw);
    law_numbers_read_back(raw, u32::MAX as int);
    let colon = seq![':'];
    let mark = seq![code];
    let last = colon + seq![' '] + mark;
    let rest = name + seq![' '] + last;
    let line = decimal(raw) + seq![' '] + rest;
    assert(solid(colon) && solid(mark));
    law_one_word(decimal(raw));
    law_one_word(name);
    law_one_word(colon);
    law_one_word(mark);
    law_white_space_parts_words(colon, ' ', mark);
    law_white_space_parts_words(name, ' ', last);
    law_white_space_parts_words(decimal(raw), ' ', rest);
    assert(line.last() == code);
    law_trailing_characters_are_dropped(line, ';', 1);
    assert(line + Seq::new(1, |i: int| ';') =~= written_value_type(raw, name, code));
    let w = words(line);
    assert(w =~= seq![decimal(raw), name, colon, mark]);
    assert(mark[0] == code);
    assert(mark != colon);
    reveal_with_fuel(crate::dbc::word_past_colons, 3);
    if code == '1' {
        assert(mark =~= seq!['1']);
    } else if code == '2' {
        assert(mark =~= seq!['2']);
        assert(seq!['1'][0] == '1');
    } else {
        assert(seq!['1'][0] == '1' && seq!['2'][0] == '2');
    }
}

/// Whether message `i` is the last one whose identifier, with the extended bit
/// in place, is `raw`.
pub open spec fn last_with_number(messages: Seq<MessageModel>, i: int, raw: int) -> bool {
    let number = |m: MessageModel|
        m.id + if m.is_extended {
            0x8000_0000int
        } else {
            0int
        };
    &&& 0 <= i < messages.len()
    &&& number(messages[i]) == raw
    &&& forall|j: int| i < j < messages.len() ==> number(#[trigger] messages[j]) != raw
}

/// A value type goes to the signals of its name in the last message with its
/// number, and to no other.
pub proof fn law_value_type_reaches_its_signals(
    messages: Seq<MessageModel>,
    v: ValueTypeModel,
    i: int,
    k: int,
)
    requires
        0 <= i < messages.len(),
        0 <= k < messages[i].signals.len(),
    ensures
        ({
            let s = messages[i].signals[k];
            let after = apply_value_type(messages, v);
            &&& after.len() == messages.len()
            &&& after[i].signals.len() == messages[i].signals.len()
            &&& after[i].signals[k].value_type == (if last_with_number(messages, i, v.raw_id)
                && s.name == v.name {
                v.ty
            } else {
                s.value_type
            })
        }),
{
    lemma_last_message(messages, v.raw_id);
    if last_with_number(messages, i, v.raw_id) {
        assert(message_key(messages[i]) == v.raw_id);
        match last_message(messages, v.raw_id) {
            Some(j) => {
                if j > i {
                    assert(message_key(messages[j]) == v.raw_id);
                } else if j < i {
                    assert(message_key(messages[i]) != v.raw_id);
                }
            },
            None => {},
        }
    } else if last_message(messages, v.raw_id) == Some(i) {
        assert forall|j: int| i < j < messages.len() implies (#[trigger] messages[j]).id
            + (if messages[j].is_extended {
            0x8000_0000int
        } else {
            0int
        }) != v.raw_id by {
            assert(message_key(messages[j]) != v.raw_id);
        }
        assert(false);
    }
}

/// The keyword at the start of a line says what it is, whatever white space is
/// around it.
pub proof fn law_keywords(
    st: ParseState,
    lead: Seq<char>,
    rest: Seq<char>,
    trail: Seq<char>,
)
    requires
        blank(lead),
        blank(trail),
        rest.len() > 0,
        !is_space(rest.last()),
    ensures
        parse_line(st, lead + (seq!['B', 'O', '_', ' '] + rest) + trail) == message_line(st, rest),
        parse_line(st, lead + (seq!['S', 'G', '_', ' '] + rest) + trail) == signal_line(st, rest),
        parse_line(
            st,
            lead + (seq!['S', 'I', 'G', '_', 'V', 'A', 'L', 'T', 'Y', 'P', 'E', '_', ' '] + rest)
                + trail,
        ) == Ok::<ParseState, LineError>(value_type_line(st, rest)),
{
    reveal_strlit("BO_ ");
    reveal_strlit("SG_ ");
    reveal_strlit("SIG_VALTYPE_ ");
    let bo = seq!['B', 'O', '_', ' '];
    let sg = seq!['S', 'G', '_', ' '];
    let ty = seq!['S', 'I', 'G', '_', 'V', 'A', 'L', 'T', 'Y', 'P', 'E', '_', ' '];
    assert("BO_ "@ =~= bo);
    assert("SG_ "@ =~= sg);
    assert("SIG_VALTYPE_ "@ =~= ty);
    law_white_space_around_is_dropped(lead, bo + rest, trail);
    law_white_space_around_is_dropped(lead, sg + rest, trail);
    law_white_space_around_is_dropped(lead, ty + rest, trail);
    let a = bo + rest;
    let b = sg + rest;
    let c = ty + rest;
    assert(a.take(4) =~= bo && a.skip(4) =~= rest);
    assert(b.take(4) =~= sg && b.skip(4) =~= rest);
    assert(c.take(13) =~= ty && c.skip(13) =~= rest);
    assert(b.take(4)[0] == 'S' && bo[0] == 'B' && c.take(4)[0] == 'S');
    assert(c.take(4)[1] == 'I' && sg[1] == 'G');
}

/// A line without one of the keywords is passed over.
pub proof fn law_other_lines_are_passed_over(st: ParseState, line: Seq<char>)
    requires
        !has_prefix(trimmed(line), seq!['B', 'O', '_', ' ']),
        !has_prefix(trimmed(line), seq!['S', 'G', '_', ' ']),
        !has_prefix(
            trimmed(line),
            seq!['S', 'I', 'G', '_', 'V', 'A', 'L', 'T', 'Y', 'P', 'E', '_', ' '],
        ),
    ensures
        parse_line(st, line) == Ok::<ParseState, LineError>(st),
{
    reveal_strlit("BO_ ");
    reveal_strlit("SG_ ");
    reveal_strlit("SIG_VALTYPE_ ");
    assert("BO_ "@ =~= seq!['B', 'O', '_', ' ']);
    assert("SG_ "@ =~= seq!['S', 'G', '_', ' ']);
    assert("SIG_VALTYPE_ "@
        =~= seq!['S', 'I', 'G', '_', 'V', 'A', 'L', 'T', 'Y', 'P', 'E', '_', ' ']);
}

/// A message line that ends before its number, its name or its length is
/// refused, and the error says what is missing.
pub proof fn law_incomplete_messages(st: ParseState, rest: Seq<char>, raw: int, name: Seq<char>)
    requires
        0 <= raw <= 0xFFFF_FFFF,
        raw != 3221225472,
    ensures
        words(rest).len() == 0 ==> message_line(st, rest) == Err::<ParseState, LineError>(
            LineError::MessageId,
        ),
        words(rest) == seq![decimal(raw)] ==> message_line(st, rest) == Err::<
            ParseState,
            LineError,
        >(LineError::MessageName),
        words(rest) == seq![decimal(raw), name] ==> message_line(st, rest) == Err::<
            ParseState,
            LineError,
        >(LineError::MessageDlc),
{
    law_numbers_read_back(raw, u32::MAX as int);
}

/// A signal line that ends before its colon, its name, its place or its factor
/// is refused, and the error says what is missing.
pub proof fn law_incomplete_signals(
    rest: Seq<char>,
    head: Seq<char>,
    tail: Seq<char>,
    start: int,
    length: int,
    order: char,
    sign: char,
)
    requires
        !head.contains(':'),
    ensures
        !rest.contains(':') ==> signal(rest) == Err::<SignalModel, SignalError>(
            SignalError::MissingSeparator,
        ),
        words(head).len() == 0 ==> signal(head + seq![':'] + tail) == Err::<
            SignalModel,
            SignalError,
        >(SignalError::MissingName),
        words(head).len() == 1 && words(tail).len() == 0 ==> signal(head + seq![':'] + tail)
            == Err::<SignalModel, SignalError>(SignalError::MissingPlacement),
        words(head).len() == 1 && words(tail) == seq![
            written_placement(start, length, order, sign),
        ] && 0 <= start <= 0xFFFF && 1 <= length <= 64 && (order == '0' || order == '1') && (sign
            == '+' || sign == '-') ==> signal(head + seq![':'] + tail) == Err::<
            SignalModel,
            SignalError,
        >(SignalError::MissingScale),
{
    law_joined_parts_are_split(head, ':', tail);
    law_split_at_the_first(rest, ':');
    if let Some((a, b)) = split_at_char(rest, ':') {
        assert(rest[a.len() as int] == ':');
        assert(rest.contains(':'));
    }
    if 0 <= start && 0 <= length {
        law_placement_reads_back(start, length, order, sign);
    }
}

} // verus!
