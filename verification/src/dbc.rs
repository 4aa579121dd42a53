//! Minimal DBC (CAN database) parser covering what signal decoding needs:
//! `BO_` message definitions, `SG_` signal definitions (byte order, sign,
//! factor/offset, multiplexing) and `SIG_VALTYPE_` float/double overrides.

use crate::lexer::{
    contains, contains_text, find_char, first_index, float_literal, has_prefix, is_float,
    lemma_first_index_bounds, number, parse_number, split_at_char, split_once, split_words,
    strip_prefix, texts, trim, trim_end_char, trimmed, without_trailing, words,
};
use crate::text::{to_chars, to_text};
use vstd::prelude::*;

verus! {

#[derive(Debug, Clone, Copy, PartialEq, Eq, Structural)]
pub enum ByteOrder {
    /// Intel, little-endian (`@1` in DBC).
    Intel,
    /// Motorola, big-endian (`@0` in DBC).
    Motorola,
}

#[derive(Debug, Clone, Copy, PartialEq, Eq, Structural)]
pub enum MuxRole {
    /// Plain signal, always present.
    Plain,
    /// The multiplexor switch (`M`).
    Switch,
    /// Present only when the switch equals this value (`m<N>`).
    Value(u64),
}

#[derive(Debug, Clone, Copy, PartialEq, Eq, Structural)]
pub enum ValueType {
    Integer,
    Float,
    Double,
}

/// What can be wrong with a signal definition.
#[derive(Debug, Clone, Copy, PartialEq, Eq, Structural)]
pub enum SignalError {
    MissingSeparator,
    MissingName,
    MuxIndicator,
    MissingPlacement,
    Placement,
    StartBit,
    Length,
    LengthRange(u16),
    ByteOrder,
    Sign,
    MissingScale,
    Scale,
    Factor,
    Offset,
}

/// What can be wrong with a line of a DBC file.
#[derive(Debug, Clone, Copy, PartialEq, Eq, Structural)]
pub enum LineError {
    MessageId,
    MessageName,
    MessageDlc,
    SignalBeforeMessage,
    Signal(SignalError),
}

/// An error and the number of lines before its line.
#[derive(Debug, Clone, Copy, PartialEq, Eq, Structural)]
pub struct DbcError {
    pub line: usize,
    pub error: LineError,
}

#[derive(Debug, Clone)]
pub struct SignalDef {
    pub name: String,
    pub start_bit: u16,
    pub length: u16,
    pub byte_order: ByteOrder,
    pub signed: bool,
    /// The factor in decimal notation.
    pub factor: String,
    /// The offset in decimal notation.
    pub offset: String,
    pub mux: MuxRole,
    pub value_type: ValueType,
    /// Unit string from the DBC (e.g. "rpm"), may be empty.
    pub unit: String,
}

/// The mathematical content of a [`SignalDef`].
pub struct SignalModel {
    pub name: Seq<char>,
    pub start_bit: int,
    pub length: int,
    pub byte_order: ByteOrder,
    pub signed: bool,
    pub factor: Seq<char>,
    pub offset: Seq<char>,
    pub mux: MuxRole,
    pub value_type: ValueType,
    pub unit: Seq<char>,
}

impl View for SignalDef {
    type V = SignalModel;

    open spec fn view(&self) -> SignalModel {
        SignalModel {
            name: self.name@,
            start_bit: self.start_bit as int,
            length: self.length as int,
            byte_order: self.byte_order,
            signed: self.signed,
            factor: self.factor@,
            offset: self.offset@,
            mux: self.mux,
            value_type: self.value_type,
            unit: self.unit@,
        }
    }
}

/// The role that the word behind a signal's name gives it: `M`, or `m` and a
/// number (with `M` behind it where the signal is a switch itself).
pub open spec fn mux_role(word: Seq<char>) -> Option<MuxRole> {
    let w = without_trailing(word, 'M');
    if word == seq!['M'] {
        Some(MuxRole::Switch)
    } else if w.len() > 0 && w[0] == 'm' {
        match number(w.drop_first(), u64::MAX as int) {
            Some(n) => Some(MuxRole::Value(n as u64)),
            None => None,
        }
    } else {
        None
    }
}

/// Where a signal lies in the frame.
pub struct Placement {
    pub start_bit: int,
    pub length: int,
    pub byte_order: ByteOrder,
    pub signed: bool,
}

/// Read `<start>|<len>@<order><sign>`.
pub open spec fn placement(word: Seq<char>) -> Result<Placement, SignalError> {
    match split_at_char(word, '|') {
        None => Err(SignalError::Placement),
        Some((start, rest)) => match split_at_char(rest, '@') {
            None => Err(SignalError::Placement),
            Some((len, order_sign)) => match (
                number(start, u16::MAX as int),
                number(len, u16::MAX as int),
            ) {
                (None, _) => Err(SignalError::StartBit),
                (Some(_), None) => Err(SignalError::Length),
                (Some(start_bit), Some(length)) => if length == 0 || length > 64 {
                    Err(SignalError::LengthRange(length as u16))
                } else if order_sign.len() < 1 || order_sign[0] != '0' && order_sign[0] != '1' {
                    Err(SignalError::ByteOrder)
                } else if order_sign.len() < 2 || order_sign[1] != '+' && order_sign[1] != '-' {
                    Err(SignalError::Sign)
                } else {
                    Ok(
                        Placement {
                            start_bit,
                            length,
                            byte_order: if order_sign[0] == '1' {
                                ByteOrder::Intel
                            } else {
                                ByteOrder::Motorola
                            },
                            signed: order_sign[1] == '-',
                        },
                    )
                },
            },
        },
    }
}

/// Read `(<factor>,<offset>)`.
pub open spec fn scale(word: Seq<char>) -> Result<(Seq<char>, Seq<char>), SignalError> {
    if word.len() < 2 || word[0] != '(' || word.last() != ')' {
        Err(SignalError::Scale)
    } else {
        match split_at_char(word.subrange(1, word.len() - 1), ',') {
            None => Err(SignalError::Scale),
            Some((factor, offset)) => if !is_float(factor) {
                Err(SignalError::Factor)
            } else if !is_float(offset) {
                Err(SignalError::Offset)
            } else {
                Ok((factor, offset))
            },
        }
    }
}

/// The first quoted text behind the closing parenthesis; empty where there
/// is none.
pub open spec fn unit(tail: Seq<char>) -> Seq<char> {
    match split_at_char(tail, ')') {
        None => Seq::empty(),
        Some((_, after)) => match split_at_char(after, '"') {
            None => Seq::empty(),
            Some((_, quoted)) => match split_at_char(quoted, '"') {
                None => Seq::empty(),
                Some((text, _)) => text,
            },
        },
    }
}

/// Read the part of an `SG_` line after the keyword:
/// `<name> [M|m<N>] : <start>|<len>@<order><sign> (<factor>,<offset>) [...] "unit" receivers`
pub open spec fn signal(rest: Seq<char>) -> Result<SignalModel, SignalError> {
    match split_at_char(rest, ':') {
        None => Err(SignalError::MissingSeparator),
        Some((head, tail)) => {
            let head_words = words(head);
            let tail_words = words(tail);
            let mux = if head_words.len() < 2 {
                Some(MuxRole::Plain)
            } else {
                mux_role(head_words[1])
            };
            if head_words.len() == 0 {
                Err(SignalError::MissingName)
            } else if mux is None {
                Err(SignalError::MuxIndicator)
            } else if tail_words.len() == 0 {
                Err(SignalError::MissingPlacement)
            } else {
                match placement(tail_words[0]) {
                    Err(e) => Err(e),
                    Ok(p) => if tail_words.len() < 2 {
                        Err(SignalError::MissingScale)
                    } else {
                        match scale(tail_words[1]) {
                            Err(e) => Err(e),
                            Ok((factor, offset)) => Ok(
                                SignalModel {
                                    name: head_words[0],
                                    start_bit: p.start_bit,
                                    length: p.length,
                                    byte_order: p.byte_order,
                                    signed: p.signed,
                                    factor,
                                    offset,
                                    mux: mux->0,
                                    value_type: ValueType::Integer,
                                    unit: unit(tail),
                                },
                            ),
                        }
                    },
                }
            }
        },
    }
}

fn parse_mux_role(word: &[char]) -> (r: Option<MuxRole>)
    ensures
        r == mux_role(word@),
{
    if word.len() == 1 && word[0] == 'M' {
        assert(word@ =~= seq!['M']);
        return Some(MuxRole::Switch);
    }
    // extended mux: "m2M"
    let w: &[char] = trim_end_char(word, 'M');
    let len: usize = w.len();
    if len == 0 || w[0] != 'm' {
        return None;
    }
    let digits: &[char] = &w[1..len];
    assert(digits@ =~= w@.drop_first());
    match parse_number(digits, u64::MAX) {
        Some(n) => Some(MuxRole::Value(n)),
        None => None,
    }
}

fn parse_placement(word: &[char]) -> (r: Result<(u16, u16, ByteOrder, bool), SignalError>)
    ensures
        match r {
            Ok(t) => placement(word@) == Ok::<Placement, SignalError>(
                Placement {
                    start_bit: t.0 as int,
                    length: t.1 as int,
                    byte_order: t.2,
                    signed: t.3,
                },
            ),
            Err(e) => placement(word@) == Err::<Placement, SignalError>(e),
        },
{
    let (start, rest) = match split_once(word, '|') {
        None => {
            return Err(SignalError::Placement);
        },
        Some(parts) => parts,
    };
    let (len, order_sign) = match split_once(rest, '@') {
        None => {
            return Err(SignalError::Placement);
        },
        Some(parts) => parts,
    };
    let start_bit: u16 = match parse_number(start, u16::MAX as u64) {
        None => {
            return Err(SignalError::StartBit);
        },
        Some(n) => n as u16,
    };
    let length: u16 = match parse_number(len, u16::MAX as u64) {
        None => {
            return Err(SignalError::Length);
        },
        Some(n) => n as u16,
    };
    if length == 0 || length > 64 {
        return Err(SignalError::LengthRange(length));
    }
    if order_sign.len() < 1 || order_sign[0] != '0' && order_sign[0] != '1' {
        return Err(SignalError::ByteOrder);
    }
    if order_sign.len() < 2 || order_sign[1] != '+' && order_sign[1] != '-' {
        return Err(SignalError::Sign);
    }
    let byte_order = if order_sign[0] == '1' {
        ByteOrder::Intel
    } else {
        ByteOrder::Motorola
    };
    Ok((start_bit, length, byte_order, order_sign[1] == '-'))
}

fn parse_scale(word: &[char]) -> (r: Result<(&[char], &[char]), SignalError>)
    ensures
        match r {
            Ok(t) => scale(word@) == Ok::<(Seq<char>, Seq<char>), SignalError>((t.0@, t.1@)),
            Err(e) => scale(word@) == Err::<(Seq<char>, Seq<char>), SignalError>(e),
        },
{
    let len: usize = word.len();
    if len < 2 || word[0] != '(' || word[len - 1] != ')' {
        return Err(SignalError::Scale);
    }
    let (factor, offset) = match split_once(&word[1..len - 1], ',') {
        None => {
            return Err(SignalError::Scale);
        },
        Some(parts) => parts,
    };
    if !float_literal(factor) {
        return Err(SignalError::Factor);
    }
    if !float_literal(offset) {
        return Err(SignalError::Offset);
    }
    Ok((factor, offset))
}

fn parse_unit(tail: &[char]) -> (r: String)
    ensures
        r@ == unit(tail@),
{
    if let Some((_, after)) = split_once(tail, ')') {
        if let Some((_, quoted)) = split_once(after, '"') {
            if let Some((text, _)) = split_once(quoted, '"') {
                return to_text(text);
            }
        }
    }
    String::new()
}

/// Parse the part of an `SG_` line after the keyword.
fn parse_signal(rest: &[char]) -> (r: Result<SignalDef, SignalError>)
    ensures
        match r {
            Ok(def) => signal(rest@) == Ok::<SignalModel, SignalError>(def@),
            Err(e) => signal(rest@) == Err::<SignalModel, SignalError>(e),
        },
{
    let (head, tail) = match split_once(rest, ':') {
        None => {
            return Err(SignalError::MissingSeparator);
        },
        Some(parts) => parts,
    };
    let head_words = split_words(head);
    assert(head_words@.len() == words(head@).len());
    if head_words.len() == 0 {
        return Err(SignalError::MissingName);
    }
    assert(head_words@[0]@ == words(head@)[0]);
    let mux = if head_words.len() < 2 {
        MuxRole::Plain
    } else {
        assert(head_words@[1]@ == words(head@)[1]);
        match parse_mux_role(head_words[1]) {
            None => {
                return Err(SignalError::MuxIndicator);
            },
            Some(role) => role,
        }
    };
    let tail_words = split_words(tail);
    assert(tail_words@.len() == words(tail@).len());
    if tail_words.len() == 0 {
        return Err(SignalError::MissingPlacement);
    }
    assert(tail_words@[0]@ == words(tail@)[0]);
    let (start_bit, length, byte_order, signed) = match parse_placement(tail_words[0]) {
        Err(e) => {
            return Err(e);
        },
        Ok(p) => p,
    };
    if tail_words.len() < 2 {
        return Err(SignalError::MissingScale);
    }
    assert(tail_words@[1]@ == words(tail@)[1]);
    let (factor, offset) = match parse_scale(tail_words[1]) {
        Err(e) => {
            return Err(e);
        },
        Ok(s) => s,
    };
    Ok(
        SignalDef {
            name: to_text(head_words[0]),
            start_bit,
            length,
            byte_order,
            signed,
            factor: to_text(factor),
            offset: to_text(offset),
            mux,
            value_type: ValueType::Integer,
            unit: parse_unit(tail),
        },
    )
}

#[derive(Debug, Clone)]
pub struct MessageDef {
    /// Identifier with the extended bit stripped.
    pub id: u32,
    pub is_extended: bool,
    pub name: String,
    pub dlc: u16,
    pub signals: Vec<SignalDef>,
}

/// The mathematical content of a [`MessageDef`].
pub struct MessageModel {
    pub id: int,
    pub is_extended: bool,
    pub name: Seq<char>,
    pub dlc: int,
    pub signals: Seq<SignalModel>,
}

/// The models of a list of signals.
pub open spec fn signal_models(signals: Seq<SignalDef>) -> Seq<SignalModel> {
    signals.map_values(|s: SignalDef| s@)
}

impl View for MessageDef {
    type V = MessageModel;

    open spec fn view(&self) -> MessageModel {
        MessageModel {
            id: self.id as int,
            is_extended: self.is_extended,
            name: self.name@,
            dlc: self.dlc as int,
            signals: signal_models(self.signals@),
        }
    }
}

/// The models of a list of messages.
pub open spec fn message_models(messages: Seq<MessageDef>) -> Seq<MessageModel> {
    messages.map_values(|m: MessageDef| m@)
}

/// A CAN database.
#[derive(Debug)]
pub struct Dbc {
    pub messages: Vec<MessageDef>,
    /// True when the file looks like an SAE J1939 database (VFrameFormat /
    /// ProtocolType attributes). J1939 frames should be matched by PGN, not
    /// by the full 29-bit identifier (priority and source address vary).
    pub j1939_hint: bool,
}

/// The mathematical content of a [`Dbc`].
pub struct DbcModel {
    pub messages: Seq<MessageModel>,
    pub j1939_hint: bool,
}

impl View for Dbc {
    type V = DbcModel;

    open spec fn view(&self) -> DbcModel {
        DbcModel { messages: message_models(self.messages@), j1939_hint: self.j1939_hint }
    }
}

impl Default for Dbc {
    /// A database without messages.
    fn default() -> (r: Self)
        ensures
            r@ == (DbcModel { messages: Seq::empty(), j1939_hint: false }),
    {
        let dbc = Dbc { messages: Vec::new(), j1939_hint: false };
        assert(dbc@.messages =~= Seq::<MessageModel>::empty());
        dbc
    }
}

/// Marks a 29-bit identifier.
pub const DBC_ID_EXTENDED_BIT: u32 = 0x8000_0000;

/// Pseudo-message that holds signals not attached to any real frame.
pub const VECTOR_INDEPENDENT_SIG_MSG: u32 = 0xC000_0000;

/// A value type for the signals of the name `name` in the message with the
/// identifier `raw_id` (extended bit in place).
pub struct ValueTypeModel {
    pub raw_id: int,
    pub name: Seq<char>,
    pub ty: ValueType,
}

struct ValueTypeEntry {
    raw_id: u32,
    name: String,
    ty: ValueType,
}

impl View for ValueTypeEntry {
    type V = ValueTypeModel;

    closed spec fn view(&self) -> ValueTypeModel {
        ValueTypeModel { raw_id: self.raw_id as int, name: self.name@, ty: self.ty }
    }
}

/// What the lines so far have said.
pub struct ParseState {
    pub messages: Seq<MessageModel>,
    /// The signals that follow belong to the pseudo-message.
    pub orphans: bool,
    pub value_types: Seq<ValueTypeModel>,
}

/// A message definition: `<id> <name>: <dlc> ...`.
pub open spec fn message_line(st: ParseState, rest: Seq<char>) -> Result<ParseState, LineError> {
    let w = words(rest);
    if w.len() == 0 || number(w[0], u32::MAX as int) is None {
        Err(LineError::MessageId)
    } else {
        let raw_id = number(w[0], u32::MAX as int)->0;
        if raw_id == VECTOR_INDEPENDENT_SIG_MSG {
            Ok(ParseState { orphans: true, ..st })
        } else if w.len() < 2 {
            Err(LineError::MessageName)
        } else if w.len() < 3 || number(w[2], u16::MAX as int) is None {
            Err(LineError::MessageDlc)
        } else {
            let message = MessageModel {
                id: raw_id % 0x8000_0000,
                is_extended: raw_id >= 0x8000_0000,
                name: without_trailing(w[1], ':'),
                dlc: number(w[2], u16::MAX as int)->0,
                signals: Seq::empty(),
            };
            Ok(ParseState { messages: st.messages.push(message), orphans: false, ..st })
        }
    }
}

/// The message with one more signal.
pub open spec fn with_signal(m: MessageModel, s: SignalModel) -> MessageModel {
    MessageModel { signals: m.signals.push(s), ..m }
}

/// A signal definition: it goes to the message before it.
pub open spec fn signal_line(st: ParseState, rest: Seq<char>) -> Result<ParseState, LineError> {
    if st.orphans {
        Ok(st)
    } else if st.messages.len() == 0 {
        Err(LineError::SignalBeforeMessage)
    } else {
        match signal(rest) {
            Err(e) => Err(LineError::Signal(e)),
            Ok(s) => Ok(
                ParseState {
                    messages: st.messages.drop_last().push(with_signal(st.messages.last(), s)),
                    ..st
                },
            ),
        }
    }
}

/// The first word from number `from` on that is no colon.
pub open spec fn word_past_colons(w: Seq<Seq<char>>, from: int) -> Option<Seq<char>>
    decreases w.len() - from,
{
    if from >= w.len() {
        None
    } else if w[from] != seq![':'] {
        Some(w[from])
    } else {
        word_past_colons(w, from + 1)
    }
}

/// The value type that a word stands for: `1` float, `2` double.
pub open spec fn value_type_code(word: Option<Seq<char>>) -> Option<ValueType> {
    if word == Some(seq!['1']) {
        Some(ValueType::Float)
    } else if word == Some(seq!['2']) {
        Some(ValueType::Double)
    } else {
        None
    }
}

/// A value type definition: `<msg id> <signal> : <1|2>;`. Anything else is
/// passed over.
pub open spec fn value_type_line(st: ParseState, rest: Seq<char>) -> ParseState {
    let w = words(without_trailing(rest, ';'));
    let ty = value_type_code(word_past_colons(w, 2));
    if w.len() < 2 || ty is None || number(w[0], u32::MAX as int) is None {
        st
    } else {
        ParseState {
            value_types: st.value_types.push(
                ValueTypeModel {
                    raw_id: number(w[0], u32::MAX as int)->0,
                    name: w[1],
                    ty: ty->0,
                },
            ),
            ..st
        }
    }
}

/// What one line adds. White space around it does not count, and lines with
/// other keywords are passed over.
pub open spec fn parse_line(st: ParseState, raw_line: Seq<char>) -> Result<ParseState, LineError> {
    let line = trimmed(raw_line);
    if has_prefix(line, "BO_ "@) {
        message_line(st, line.skip("BO_ "@.len() as int))
    } else if has_prefix(line, "SG_ "@) {
        signal_line(st, line.skip("SG_ "@.len() as int))
    } else if has_prefix(line, "SIG_VALTYPE_ "@) {
        Ok(value_type_line(st, line.skip("SIG_VALTYPE_ "@.len() as int)))
    } else {
        Ok(st)
    }
}

/// What all lines of `text` add, with `lineno` lines before the first.
pub open spec fn parse_lines(st: ParseState, text: Seq<char>, lineno: int) -> Result<
    ParseState,
    DbcError,
>
    decreases text.len(),
{
    let end = first_index(text, '\n');
    match parse_line(st, text.take(end)) {
        Err(error) => Err(DbcError { line: lineno as usize, error }),
        Ok(next) => {
            proof {
                lemma_first_index_bounds(text, '\n');
            }
            if end < text.len() {
                parse_lines(next, text.skip(end + 1), lineno + 1)
            } else {
                Ok(next)
            }
        },
    }
}

/// The identifier of a message with the extended bit in place.
pub open spec fn message_key(m: MessageModel) -> int {
    if m.is_extended {
        m.id + 0x8000_0000
    } else {
        m.id
    }
}

/// Number of the last message with the given identifier.
pub open spec fn last_message(messages: Seq<MessageModel>, key: int) -> Option<int>
    decreases messages.len(),
{
    if messages.len() == 0 {
        None
    } else if message_key(messages.last()) == key {
        Some(messages.len() - 1)
    } else {
        last_message(messages.drop_last(), key)
    }
}

/// The signal, with another value type if it has the given name.
pub open spec fn retyped(s: SignalModel, name: Seq<char>, ty: ValueType) -> SignalModel {
    if s.name == name {
        SignalModel { value_type: ty, ..s }
    } else {
        s
    }
}

/// The message, with another value type for the signals of the given name.
pub open spec fn retyped_message(m: MessageModel, name: Seq<char>, ty: ValueType) -> MessageModel {
    MessageModel { signals: m.signals.map_values(|s: SignalModel| retyped(s, name, ty)), ..m }
}

/// The messages after one value type definition.
pub open spec fn apply_value_type(messages: Seq<MessageModel>, v: ValueTypeModel) -> Seq<
    MessageModel,
> {
    match last_message(messages, v.raw_id) {
        None => messages,
        Some(i) => messages.update(i, retyped_message(messages[i], v.name, v.ty)),
    }
}

/// The messages after all value type definitions, in order.
pub open spec fn apply_value_types(
    messages: Seq<MessageModel>,
    value_types: Seq<ValueTypeModel>,
) -> Seq<MessageModel>
    decreases value_types.len(),
{
    if value_types.len() == 0 {
        messages
    } else {
        apply_value_type(
            apply_value_types(messages, value_types.drop_last()),
            value_types.last(),
        )
    }
}

/// No line read yet.
pub open spec fn parse_start() -> ParseState {
    ParseState { messages: Seq::empty(), orphans: false, value_types: Seq::empty() }
}

/// The database that a text describes.
pub open spec fn database(text: Seq<char>) -> Result<DbcModel, DbcError> {
    match parse_lines(parse_start(), text, 0) {
        Err(e) => Err(e),
        Ok(st) => Ok(
            DbcModel {
                messages: apply_value_types(st.messages, st.value_types),
                j1939_hint: contains_text(text, "J1939"@),
            },
        ),
    }
}

/// The lines read so far.
struct Parser {
    messages: Vec<MessageDef>,
    orphans: bool,
    value_types: Vec<ValueTypeEntry>,
}

spec fn value_type_models(entries: Seq<ValueTypeEntry>) -> Seq<ValueTypeModel> {
    entries.map_values(|e: ValueTypeEntry| e@)
}

impl View for Parser {
    type V = ParseState;

    closed spec fn view(&self) -> ParseState {
        ParseState {
            messages: message_models(self.messages@),
            orphans: self.orphans,
            value_types: value_type_models(self.value_types@),
        }
    }
}

impl Parser {
    fn message_line(&mut self, rest: &[char]) -> (r: Result<(), LineError>)
        ensures
            match r {
                Ok(()) => message_line(old(self)@, rest@) == Ok::<ParseState, LineError>(
                    final(self)@,
                ),
                Err(e) => message_line(old(self)@, rest@) == Err::<ParseState, LineError>(e),
            },
    {
        let w = split_words(rest);
        assert(w@.len() == words(rest@).len());
        if w.len() == 0 {
            return Err(LineError::MessageId);
        }
        assert(w@[0]@ == words(rest@)[0]);
        let raw_id: u32 = match parse_number(w[0], u32::MAX as u64) {
            None => {
                return Err(LineError::MessageId);
            },
            Some(n) => n as u32,
        };
        if raw_id == VECTOR_INDEPENDENT_SIG_MSG {
            self.orphans = true;
            return Ok(());
        }
        if w.len() < 2 {
            return Err(LineError::MessageName);
        }
        assert(w@[1]@ == words(rest@)[1]);
        if w.len() < 3 {
            return Err(LineError::MessageDlc);
        }
        assert(w@[2]@ == words(rest@)[2]);
        let dlc: u16 = match parse_number(w[2], u16::MAX as u64) {
            None => {
                return Err(LineError::MessageDlc);
            },
            Some(n) => n as u16,
        };
        let ghost shown = self@.messages;
        let message = MessageDef {
            id: if raw_id >= DBC_ID_EXTENDED_BIT {
                raw_id - DBC_ID_EXTENDED_BIT
            } else {
                raw_id
            },
            is_extended: raw_id >= DBC_ID_EXTENDED_BIT,
            name: to_text(trim_end_char(w[1], ':')),
            dlc,
            signals: Vec::new(),
        };
        assert(message@.signals =~= Seq::<SignalModel>::empty());
        let ghost model = message@;
        self.messages.push(message);
        assert(self@.messages =~= shown.push(model));
        self.orphans = false;
        Ok(())
    }

    fn signal_line(&mut self, rest: &[char]) -> (r: Result<(), LineError>)
        ensures
            match r {
                Ok(()) => signal_line(old(self)@, rest@) == Ok::<ParseState, LineError>(
                    final(self)@,
                ),
                Err(e) => signal_line(old(self)@, rest@) == Err::<ParseState, LineError>(e),
            },
    {
        if self.orphans {
            return Ok(());
        }
        let ghost before = self@.messages;
        if self.messages.len() == 0 {
            return Err(LineError::SignalBeforeMessage);
        }
        let signal = match parse_signal(rest) {
            Err(e) => {
                return Err(LineError::Signal(e));
            },
            Ok(signal) => signal,
        };
        let ghost model = signal@;
        if let Some(last) = self.messages.pop() {
            let mut message = last;
            assert(message@ == before.last());
            assert(self@.messages =~= before.drop_last());
            let ghost signals = message@.signals;
            message.signals.push(signal);
            assert(message@.signals =~= signals.push(model));
            let ghost whole = message@;
            assert(whole == with_signal(before.last(), model));
            self.messages.push(message);
            assert(self@.messages =~= before.drop_last().push(whole));
        }
        Ok(())
    }

    fn value_type_line(&mut self, rest: &[char])
        ensures
            final(self)@ == value_type_line(old(self)@, rest@),
    {
        let w = split_words(trim_end_char(rest, ';'));
        let ghost ws = words(without_trailing(rest@, ';'));
        assert(w@.len() == ws.len());
        if w.len() < 2 {
            return;
        }
        assert(w@[0]@ == ws[0]);
        assert(w@[1]@ == ws[1]);
        let mut i: usize = 2;
        while i < w.len() && w[i].len() == 1 && w[i][0] == ':'
            invariant
                2 <= i <= w@.len(),
                texts(w@) == ws,
                w@.len() == ws.len(),
                word_past_colons(ws, 2) == word_past_colons(ws, i as int),
            decreases w@.len() - i,
        {
            assert(w@[i as int]@ == ws[i as int]);
            assert(ws[i as int] =~= seq![':']);
            i += 1;
        }
        if i >= w.len() {
            return;
        }
        assert(w@[i as int]@ == ws[i as int]);
        if w[i].len() != 1 {
            assert(seq!['1'].len() == 1 && seq!['2'].len() == 1 && seq![':'].len() == 1);
            return;
        }
        let code: char = w[i][0];
        assert(ws[i as int] =~= seq![code]);
        assert(seq![code][0] == code && seq!['1'][0] == '1' && seq!['2'][0] == '2' && seq![':'][0]
            == ':');
        let ty = if code == '1' {
            ValueType::Float
        } else if code == '2' {
            ValueType::Double
        } else {
            return;
        };
        let raw_id: u32 = match parse_number(w[0], u32::MAX as u64) {
            None => {
                return;
            },
            Some(n) => n as u32,
        };
        let entry = ValueTypeEntry { raw_id, name: to_text(w[1]), ty };
        let ghost shown = self@.value_types;
        let ghost model = entry@;
        self.value_types.push(entry);
        assert(self@.value_types =~= shown.push(model));
    }

    fn parse_line(&mut self, raw_line: &[char]) -> (r: Result<(), LineError>)
        ensures
            match r {
                Ok(()) => parse_line(old(self)@, raw_line@) == Ok::<ParseState, LineError>(
                    final(self)@,
                ),
                Err(e) => parse_line(old(self)@, raw_line@) == Err::<ParseState, LineError>(e),
            },
    {
        let line = trim(raw_line);
        if let Some(rest) = strip_prefix(line, "BO_ ") {
            self.message_line(rest)
        } else if let Some(rest) = strip_prefix(line, "SG_ ") {
            self.signal_line(rest)
        } else if let Some(rest) = strip_prefix(line, "SIG_VALTYPE_ ") {
            self.value_type_line(rest);
            Ok(())
        } else {
            Ok(())
        }
    }
}

/// Whether the message has the given identifier.
fn has_key(m: &MessageDef, key: u32) -> (r: bool)
    requires
        m.id < 0x8000_0000,
    ensures
        r == (message_key(m@) == key),
{
    if m.is_extended {
        m.id + DBC_ID_EXTENDED_BIT == key
    } else {
        m.id == key
    }
}

/// Identifiers carry no extended bit.
pub open spec fn plain_ids(messages: Seq<MessageModel>) -> bool {
    forall|i: int| 0 <= i < messages.len() ==> 0 <= (#[trigger] messages[i]).id < 0x8000_0000
}

/// Find the last message with the given identifier.
pub fn find_last_message(messages: &Vec<MessageDef>, key: u32) -> (r: Option<usize>)
    requires
        plain_ids(message_models(messages@)),
    ensures
        match r {
            Some(i) => last_message(message_models(messages@), key as int) == Some(i as int) && i
                < messages@.len(),
            None => last_message(message_models(messages@), key as int) is None,
        },
{
    let mut n: usize = messages.len();
    let ghost all = message_models(messages@);
    assert(all.take(n as int) =~= all);
    while n > 0
        invariant
            n <= messages@.len(),
            all == message_models(messages@),
            plain_ids(all),
            last_message(all.take(n as int), key as int) == last_message(all, key as int),
        decreases n,
    {
        assert(all.take(n as int).last() == all[n - 1]);
        assert(all.take(n as int).drop_last() =~= all.take(n - 1));
        assert(all[n - 1] == messages@[n - 1]@);
        if has_key(&messages[n - 1], key) {
            return Some(n - 1);
        }
        n -= 1;
    }
    None
}

/// Set the value type of the signals of the given name.
fn retype_signals(signals: &mut Vec<SignalDef>, name: &String, ty: ValueType)
    ensures
        signal_models(final(signals)@) == signal_models(old(signals)@).map_values(
            |s: SignalModel| retyped(s, name@, ty),
        ),
{
    let ghost before = signals@;
    let mut i: usize = 0;
    while i < signals.len()
        invariant
            i <= signals@.len() == before.len(),
            forall|j: int| i <= j < before.len() ==> signals@[j] == before[j],
            forall|j: int|
                0 <= j < i ==> (#[trigger] signals@[j])@ == retyped(before[j]@, name@, ty),
        decreases signals@.len() - i,
    {
        if signals[i].name == *name {
            signals[i].value_type = ty;
        }
        i += 1;
    }
    assert(signal_models(signals@) =~= signal_models(before).map_values(
        |s: SignalModel| retyped(s, name@, ty),
    ));
}

/// Apply one value type definition.
fn retype(messages: &mut Vec<MessageDef>, entry: &ValueTypeEntry)
    requires
        plain_ids(message_models(old(messages)@)),
    ensures
        message_models(final(messages)@) == apply_value_type(
            message_models(old(messages)@),
            entry@,
        ),
        plain_ids(message_models(final(messages)@)),
{
    let ghost before = message_models(messages@);
    if let Some(i) = find_last_message(messages, entry.raw_id) {
        assert(before[i as int] == messages@[i as int]@);
        retype_signals(&mut messages[i].signals, &entry.name, entry.ty);
        let ghost whole = retyped_message(before[i as int], entry.name@, entry.ty);
        assert(messages@[i as int]@ == whole);
        assert(message_models(messages@) =~= before.update(i as int, whole));
    }
}

/// Calls `String::from_utf8_lossy`, which replaces what is no UTF-8 by
/// U+FFFD. The outcome is named by [`utf8_lossy`]; of valid UTF-8 it is the
/// text that the bytes encode.
#[verifier::external_body]
fn decode_lossy(bytes: &[u8]) -> (r: String)
    ensures
        r@ == utf8_lossy(bytes@),
        vstd::utf8::valid_utf8(bytes@) ==> r@ == vstd::utf8::decode_utf8(bytes@),
{
    String::from_utf8_lossy(bytes).into_owned()
}

/// The text of `bytes` as UTF-8, with U+FFFD for what is none.
pub uninterp spec fn utf8_lossy(bytes: Seq<u8>) -> Seq<char>;

/// A parsed database, or the first error in its text.
pub open spec fn parsed(r: Result<Dbc, DbcError>) -> Result<DbcModel, DbcError> {
    match r {
        Ok(dbc) => Ok(dbc@),
        Err(e) => Err(e),
    }
}

impl Dbc {
    /// Parse the bytes of a DBC file. Such files are frequently Latin-1 /
    /// CP932 rather than UTF-8; they are decoded lossily since only the
    /// structural ASCII parts are needed.
    pub fn from_bytes(bytes: &[u8]) -> (r: Result<Dbc, DbcError>)
        ensures
            parsed(r) == database(utf8_lossy(bytes@)),
            r matches Ok(dbc) ==> dbc.wf(),
    {
        let text = decode_lossy(bytes);
        Dbc::parse(text.as_str())
    }

    /// Identifiers carry no extended bit, and every signal has 1 to 64 bits.
    pub open spec fn wf(&self) -> bool {
        self@.wf()
    }

    /// Parse the text of a DBC file.
    pub fn parse(text: &str) -> (r: Result<Dbc, DbcError>)
        ensures
            parsed(r) == database(text@),
            r matches Ok(dbc) ==> dbc.wf(),
    {
        let chars: Vec<char> = to_chars(text);
        let len: usize = chars.len();
        let mut p = Parser { messages: Vec::new(), orphans: false, value_types: Vec::new() };
        assert(p@.messages =~= Seq::<MessageModel>::empty());
        assert(p@.value_types =~= Seq::<ValueTypeModel>::empty());
        let ghost goal = parse_lines(parse_start(), text@, 0);
        let mut from: usize = 0;
        let mut lineno: usize = 0;
        assert(chars@.skip(0) =~= text@);
        loop
            invariant_except_break
                goal == parse_lines(p@, chars@.skip(from as int), lineno as int),
            invariant
                chars@ == text@,
                len == chars@.len(),
                from <= len,
                lineno <= from,
                goal == parse_lines(parse_start(), text@, 0),
                messages_wf(p@.messages),
            ensures
                goal == Ok::<ParseState, DbcError>(p@),
                messages_wf(p@.messages),
            decreases len - from,
        {
            let rest: &[char] = &chars[from..len];
            assert(rest@ =~= chars@.skip(from as int));
            let end: usize = find_char(rest, '\n');
            let line: &[char] = &rest[0..end];
            assert(line@ =~= rest@.take(end as int));
            let ghost before = p@;
            match p.parse_line(line) {
                Err(error) => {
                    return Err(DbcError { line: lineno, error });
                },
                Ok(()) => {},
            }
            proof {
                lemma_line_keeps_wf(before, line@);
            }
            if end == rest.len() {
                break;
            }
            assert(rest@.skip(end + 1) =~= chars@.skip(from + end + 1));
            from = from + end + 1;
            lineno = lineno + 1;
        }
        let ghost st = p@;
        let Parser { mut messages, orphans, value_types } = p;
        let ghost first = message_models(messages@);
        let ghost entries = value_type_models(value_types@);
        let mut i: usize = 0;
        assert(entries.take(0) =~= Seq::<ValueTypeModel>::empty());
        while i < value_types.len()
            invariant
                i <= value_types@.len(),
                entries == value_type_models(value_types@),
                message_models(messages@) == apply_value_types(first, entries.take(i as int)),
                messages_wf(message_models(messages@)),
            decreases value_types@.len() - i,
        {
            assert(entries.take(i + 1).drop_last() =~= entries.take(i as int));
            assert(entries.take(i + 1).last() == value_types@[i as int]@);
            let ghost before = message_models(messages@);
            retype(&mut messages, &value_types[i]);
            proof {
                lemma_retype_keeps_wf(before, value_types@[i as int]@);
            }
            i += 1;
        }
        assert(entries.take(i as int) =~= entries);
        Ok(Dbc { messages, j1939_hint: contains(chars.as_slice(), "J1939") })
    }
}

/// A signal has 1 to 64 bits.
pub open spec fn signals_wf(signals: Seq<SignalModel>) -> bool {
    forall|i: int|
        0 <= i < signals.len() ==> {
            &&& 1 <= (#[trigger] signals[i]).length <= 64
            &&& 0 <= signals[i].start_bit <= u16::MAX
        }
}

/// Identifiers carry no extended bit, and the signals are well formed.
pub open spec fn messages_wf(messages: Seq<MessageModel>) -> bool {
    &&& plain_ids(messages)
    &&& forall|i: int| 0 <= i < messages.len() ==> signals_wf((#[trigger] messages[i]).signals)
}

impl DbcModel {
    /// Identifiers carry no extended bit, and the signals are well formed.
    pub open spec fn wf(self) -> bool {
        messages_wf(self.messages)
    }
}

proof fn lemma_number_range(s: Seq<char>, max: int)
    ensures
        number(s, max) matches Some(n) ==> 0 <= n <= max,
{
    let d = if s.len() > 0 && s[0] == '+' {
        s.drop_first()
    } else {
        s
    };
    if crate::lexer::all_digits(d) {
        crate::lexer::lemma_digits_grow(d, 0);
        assert(d.take(0) =~= Seq::<char>::empty());
    }
}

proof fn lemma_signal_wf(rest: Seq<char>)
    ensures
        signal(rest) matches Ok(s) ==> 1 <= s.length <= 64 && 0 <= s.start_bit <= u16::MAX,
{
    if let Some((head, tail)) = split_at_char(rest, ':') {
        let w = words(tail);
        if w.len() > 0 {
            if let Some((start, more)) = split_at_char(w[0], '|') {
                lemma_number_range(start, u16::MAX as int);
                if let Some((len, order_sign)) = split_at_char(more, '@') {
                    lemma_number_range(len, u16::MAX as int);
                }
            }
        }
    }
}

/// Every line keeps the database well formed.
proof fn lemma_line_keeps_wf(st: ParseState, line: Seq<char>)
    requires
        messages_wf(st.messages),
    ensures
        parse_line(st, line) matches Ok(next) ==> messages_wf(next.messages),
{
    let l = trimmed(line);
    if has_prefix(l, "SG_ "@) {
        lemma_signal_wf(l.skip("SG_ "@.len() as int));
    }
    if let Ok(next) = parse_line(st, line) {
        assert forall|i: int| 0 <= i < next.messages.len() implies signals_wf(
            (#[trigger] next.messages[i]).signals,
        ) by {
            if i < st.messages.len() {
                assert(signals_wf(st.messages[i].signals));
            }
        }
        assert forall|i: int| 0 <= i < next.messages.len() implies 0 <= (
        #[trigger] next.messages[i]).id < 0x8000_0000 by {
            if i < st.messages.len() {
                assert(0 <= st.messages[i].id < 0x8000_0000);
            }
        }
    }
}

/// The number of the last message with an identifier is that of a message
/// with it.
pub proof fn lemma_last_message(messages: Seq<MessageModel>, key: int)
    ensures
        match last_message(messages, key) {
            Some(i) => 0 <= i < messages.len() && message_key(messages[i]) == key && forall|j: int|
                i < j < messages.len() ==> message_key(#[trigger] messages[j]) != key,
            None => forall|j: int|
                0 <= j < messages.len() ==> message_key(#[trigger] messages[j]) != key,
        },
    decreases messages.len(),
{
    if messages.len() > 0 && message_key(messages.last()) != key {
        lemma_last_message(messages.drop_last(), key);
        assert forall|j: int| 0 <= j < messages.len() - 1 implies messages.drop_last()[j]
            == #[trigger] messages[j] by {}
    }
}

/// Value types keep the database well formed.
proof fn lemma_retype_keeps_wf(messages: Seq<MessageModel>, v: ValueTypeModel)
    requires
        messages_wf(messages),
    ensures
        messages_wf(apply_value_type(messages, v)),
{
    let next = apply_value_type(messages, v);
    lemma_last_message(messages, v.raw_id);
    assert forall|i: int| 0 <= i < next.len() implies signals_wf(
        (#[trigger] next[i]).signals,
    ) && 0 <= next[i].id < 0x8000_0000 by {
        assert(signals_wf(messages[i].signals));
        assert(0 <= messages[i].id < 0x8000_0000);
    }
}

} // verus!
