//! Decode raw CAN frames into signal values using a DBC definition.
//!
//! The decoder also owns the output column layout: one column per DBC signal,
//! in DBC declaration order. Signal names that collide across messages are
//! disambiguated as `Message.Signal`. An optional filter restricts the
//! columns (and decoding work) to a chosen subset of signals.
//!
//! A decoded value is the number before scaling; the factor and offset that
//! turn it into the physical value are kept per column, in decimal notation.

use crate::bits::{extract_bits, raw_value, sign_extend, signed_value};
use crate::dbc::{
    message_models, signal_models, signals_wf, Dbc, MessageDef,
    MessageModel, MuxRole, SignalDef, SignalModel, ValueType,
};
use crate::frame::{CanFrame, FrameModel};
use crate::text::push_text;
use std::collections::HashMap;
use vstd::prelude::*;

verus! {

broadcast use vstd::std_specs::hash::group_hash_axioms;

/// How output columns are named.
#[derive(Debug, Clone, Copy, PartialEq, Eq, Structural)]
pub enum ColumnNaming {
    /// Signal name only, qualified as `Message.Signal` when the signal name
    /// appears in more than one message.
    Signal,
    /// `Message::Signal[unit]` for every column (unit omitted when empty),
    /// matching the naming used by common CAN analysis tools.
    MessageSignalUnit,
}

impl Default for ColumnNaming {
    fn default() -> (r: Self)
        ensures
            r == ColumnNaming::Signal,
    {
        ColumnNaming::Signal
    }
}

/// One output column as derived from the DBC (before any filtering).
#[derive(Debug, Clone)]
pub struct ColumnSpec {
    /// Final column name in the chosen naming style.
    pub name: String,
    /// Name of the message the signal belongs to.
    pub message: String,
}

/// The mathematical content of a [`ColumnSpec`].
pub struct ColumnModel {
    pub name: Seq<char>,
    pub message: Seq<char>,
}

impl View for ColumnSpec {
    type V = ColumnModel;

    open spec fn view(&self) -> ColumnModel {
        ColumnModel { name: self.name@, message: self.message@ }
    }
}

/// Whether a list of signals has one with the given name.
pub open spec fn has_signal(signals: Seq<SignalModel>, name: Seq<char>) -> bool {
    exists|k: int| 0 <= k < signals.len() && (#[trigger] signals[k]).name == name
}

/// Whether a signal name appears in more than one message.
pub open spec fn in_several_messages(messages: Seq<MessageModel>, name: Seq<char>) -> bool {
    exists|i: int, j: int|
        #![trigger messages[i], messages[j]]
        0 <= i < j < messages.len() && has_signal(messages[i].signals, name) && has_signal(
            messages[j].signals,
            name,
        )
}

/// The name of the column of a signal in the message with the name `message`.
pub open spec fn column_name(
    messages: Seq<MessageModel>,
    naming: ColumnNaming,
    message: Seq<char>,
    signal: SignalModel,
) -> Seq<char> {
    match naming {
        ColumnNaming::Signal => if in_several_messages(messages, signal.name) {
            message + seq!['.'] + signal.name
        } else {
            signal.name
        },
        ColumnNaming::MessageSignalUnit => if signal.unit.len() == 0 {
            message + seq![':', ':'] + signal.name
        } else {
            message + seq![':', ':'] + signal.name + seq!['['] + signal.unit + seq![']']
        },
    }
}

/// The columns of the signals of one message.
pub open spec fn message_columns(
    messages: Seq<MessageModel>,
    naming: ColumnNaming,
    message: MessageModel,
) -> Seq<ColumnModel> {
    message.signals.map_values(
        |s: SignalModel|
            ColumnModel {
                name: column_name(messages, naming, message.name, s),
                message: message.name,
            },
    )
}

/// The columns of the first `n` messages, in declaration order.
pub open spec fn columns_of(messages: Seq<MessageModel>, naming: ColumnNaming, n: int) -> Seq<
    ColumnModel,
>
    decreases n,
{
    if n <= 0 {
        Seq::empty()
    } else {
        columns_of(messages, naming, n - 1) + message_columns(messages, naming, messages[n - 1])
    }
}

/// The models of a list of columns.
pub open spec fn column_models(columns: Seq<ColumnSpec>) -> Seq<ColumnModel> {
    columns.map_values(|c: ColumnSpec| c@)
}

/// Whether a message has a signal with the given name.
fn has_signal_named(signals: &Vec<SignalDef>, name: &String) -> (r: bool)
    ensures
        r == has_signal(signal_models(signals@), name@),
{
    let ghost list = signal_models(signals@);
    let mut k: usize = 0;
    while k < signals.len()
        invariant
            k <= signals@.len(),
            list == signal_models(signals@),
            forall|m: int| 0 <= m < k ==> (#[trigger] list[m]).name != name@,
        decreases signals@.len() - k,
    {
        assert(list[k as int] == signals@[k as int]@);
        if signals[k].name == *name {
            return true;
        }
        k += 1;
    }
    false
}

/// Whether a signal name appears in more than one message.
fn is_repeated(messages: &Vec<MessageDef>, name: &String) -> (r: bool)
    ensures
        r == in_several_messages(message_models(messages@), name@),
{
    let ghost all = message_models(messages@);
    let ghost mut first: int = 0;
    let mut found: bool = false;
    let mut i: usize = 0;
    while i < messages.len()
        invariant
            i <= messages@.len(),
            all == message_models(messages@),
            found ==> 0 <= first < i && has_signal(all[first].signals, name@),
            forall|m: int|
                0 <= m < i && !(found && m == first) ==> !has_signal(
                    (#[trigger] all[m]).signals,
                    name@,
                ),
        decreases messages@.len() - i,
    {
        assert(all[i as int] == messages@[i as int]@);
        if has_signal_named(&messages[i].signals, name) {
            if found {
                assert(has_signal(all[i as int].signals, name@));
                return true;
            }
            found = true;
            proof {
                first = i as int;
            }
        }
        i += 1;
    }
    false
}

/// Build the name of a signal's column.
fn make_column_name(
    messages: &Vec<MessageDef>,
    naming: ColumnNaming,
    message: &String,
    signal: &SignalDef,
) -> (r: String)
    ensures
        r@ == column_name(message_models(messages@), naming, message@, signal@),
{
    match naming {
        ColumnNaming::Signal => {
            if is_repeated(messages, &signal.name) {
                let mut r: String = message.clone();
                r.push('.');
                push_text(&mut r, signal.name.as_str());
                assert(r@ =~= message@ + seq!['.'] + signal.name@);
                r
            } else {
                signal.name.clone()
            }
        },
        ColumnNaming::MessageSignalUnit => {
            let mut r: String = message.clone();
            r.push(':');
            r.push(':');
            push_text(&mut r, signal.name.as_str());
            assert(r@ =~= message@ + seq![':', ':'] + signal.name@);
            if signal.unit.as_str().is_empty() {
                return r;
            }
            r.push('[');
            push_text(&mut r, signal.unit.as_str());
            r.push(']');
            assert(r@ =~= message@ + seq![':', ':'] + signal.name@ + seq!['['] + signal.unit@
                + seq![']']);
            r
        },
    }
}

/// Column names (with their message) in DBC declaration order, using the
/// default `Signal` naming.
pub fn list_columns(dbc: &Dbc) -> (r: Vec<ColumnSpec>)
    ensures
        column_models(r@) == columns_of(
            dbc@.messages,
            ColumnNaming::Signal,
            dbc@.messages.len() as int,
        ),
{
    list_columns_with(dbc, ColumnNaming::Signal)
}

/// Column names (with their message) in DBC declaration order. This is what
/// a UI should present for signal selection; pass the chosen `name`s back via
/// `Decoder::with_options`.
pub fn list_columns_with(dbc: &Dbc, naming: ColumnNaming) -> (r: Vec<ColumnSpec>)
    ensures
        column_models(r@) == columns_of(dbc@.messages, naming, dbc@.messages.len() as int),
{
    let ghost all = dbc@.messages;
    let mut columns: Vec<ColumnSpec> = Vec::new();
    let mut i: usize = 0;
    assert(column_models(columns@) =~= Seq::<ColumnModel>::empty());
    while i < dbc.messages.len()
        invariant
            i <= dbc.messages@.len(),
            all == dbc@.messages,
            column_models(columns@) == columns_of(all, naming, i as int),
        decreases dbc.messages@.len() - i,
    {
        let message: &MessageDef = &dbc.messages[i];
        let ghost list = message_columns(all, naming, message@);
        let ghost before = column_models(columns@);
        let mut j: usize = 0;
        assert(before + list.take(0) =~= before);
        while j < message.signals.len()
            invariant
                all == dbc@.messages,
                j <= message.signals@.len(),
                list == message_columns(all, naming, message@),
                column_models(columns@) == before + list.take(j as int),
            decreases message.signals@.len() - j,
        {
            let spec = ColumnSpec {
                name: make_column_name(&dbc.messages, naming, &message.name, &message.signals[j]),
                message: message.name.clone(),
            };
            let ghost model = spec@;
            let ghost shown = column_models(columns@);
            assert(model == list[j as int]);
            columns.push(spec);
            assert(column_models(columns@) =~= shown.push(model));
            assert(list.take(j + 1) =~= list.take(j as int).push(model));
            assert(before + list.take(j + 1) =~= shown.push(model));
            j += 1;
        }
        assert(list.take(j as int) =~= list);
        assert(all[i as int] == message@);
        i += 1;
    }
    columns
}

/// SAE J1939 parameter group number of a 29-bit identifier. For PDU1
/// (destination-specific, second byte below 240) the byte behind is the
/// destination address and does not belong to it.
pub open spec fn pgn(id29: int) -> int {
    let number = (id29 / 0x100) % 0x4_0000;
    if (id29 / 0x1_0000) % 0x100 < 240 {
        number - number % 0x100
    } else {
        number
    }
}

/// SAE J1939 parameter group number of a 29-bit identifier.
pub fn j1939_pgn(id29: u32) -> (r: u32)
    ensures
        r == pgn(id29 as int),
{
    let number: u32 = (id29 / 0x100) % 0x4_0000;
    if (id29 / 0x1_0000) % 0x100 < 240 {
        number - number % 0x100
    } else {
        number
    }
}

/// A decoded number, before scaling.
#[derive(Debug, Clone, Copy, PartialEq, Eq, Structural)]
pub enum RawValue {
    Unsigned(u64),
    Signed(i64),
    /// The bits of an IEEE single-precision number.
    Float(u32),
    /// The bits of an IEEE double-precision number.
    Double(u64),
}

/// The number that the raw bits of a signal stand for. A float or double
/// override counts for the matching width only.
pub open spec fn base_value(raw: int, def: SignalModel) -> RawValue {
    if def.value_type == ValueType::Float && def.length == 32 {
        RawValue::Float(raw as u32)
    } else if def.value_type == ValueType::Double && def.length == 64 {
        RawValue::Double(raw as u64)
    } else if def.signed {
        RawValue::Signed(signed_value(raw, def.length) as i64)
    } else {
        RawValue::Unsigned(raw as u64)
    }
}

/// Apply sign and IEEE-float reinterpretation.
fn physical_base(raw: u64, def: &SignalDef) -> (r: RawValue)
    requires
        1 <= def.length <= 64,
    ensures
        r == base_value(raw as int, def@),
{
    if def.value_type == ValueType::Float && def.length == 32 {
        #[verifier::truncate]
        let bits: u32 = raw as u32;
        RawValue::Float(bits)
    } else if def.value_type == ValueType::Double && def.length == 64 {
        RawValue::Double(raw)
    } else if def.signed {
        RawValue::Signed(sign_extend(raw, def.length))
    } else {
        RawValue::Unsigned(raw)
    }
}

/// The raw bits of a signal in a payload.
pub open spec fn signal_raw(data: Seq<u8>, def: SignalModel) -> Option<int> {
    raw_value(data, def.byte_order, def.start_bit, def.length)
}

/// Extract the raw (unscaled) bits of a signal. Returns `None` when the
/// signal does not fit inside the frame payload.
fn extract_raw(data: &[u8], def: &SignalDef) -> (r: Option<u64>)
    requires
        def.length <= 64,
        data@.len() <= 64,
    ensures
        match r {
            Some(raw) => signal_raw(data@, def@) == Some(raw as int),
            None => signal_raw(data@, def@) is None,
        },
{
    extract_bits(data, def.byte_order, def.start_bit, def.length)
}

/// A signal with its place in the output.
pub struct BoundSignalModel {
    pub def: SignalModel,
    pub column: int,
}

/// A message with the signals that are output.
pub struct BoundModel {
    pub id: int,
    pub is_extended: bool,
    pub name: Seq<char>,
    pub signals: Seq<BoundSignalModel>,
    /// The multiplexor switch (kept even when its column is filtered out,
    /// since multiplexed signals need the switch value).
    pub switch: Option<SignalModel>,
}

/// Factor and offset of a column, in decimal notation.
pub struct ScaleModel {
    pub factor: Seq<char>,
    pub offset: Seq<char>,
}

/// Whether a column is output.
pub open spec fn selected(filter: Option<Seq<Seq<char>>>, name: Seq<char>) -> bool {
    match filter {
        None => true,
        Some(names) => names.contains(name),
    }
}

/// The first `n` signals of a message as far as they are selected, with
/// columns counted from `base` on.
pub open spec fn bound_signals(
    signals: Seq<SignalModel>,
    names: Seq<ColumnModel>,
    filter: Option<Seq<Seq<char>>>,
    base: int,
    n: int,
) -> Seq<BoundSignalModel>
    decreases n,
{
    if n <= 0 {
        Seq::empty()
    } else {
        let before = bound_signals(signals, names, filter, base, n - 1);
        if selected(filter, names[n - 1].name) {
            before.push(BoundSignalModel { def: signals[n - 1], column: base + before.len() })
        } else {
            before
        }
    }
}

/// The names of the first `n` columns as far as they are selected.
pub open spec fn selected_names(
    names: Seq<ColumnModel>,
    filter: Option<Seq<Seq<char>>>,
    n: int,
) -> Seq<Seq<char>>
    decreases n,
{
    if n <= 0 {
        Seq::empty()
    } else {
        let before = selected_names(names, filter, n - 1);
        if selected(filter, names[n - 1].name) {
            before.push(names[n - 1].name)
        } else {
            before
        }
    }
}

/// The scales of the signals that are output.
pub open spec fn bound_scales(signals: Seq<BoundSignalModel>) -> Seq<ScaleModel> {
    signals.map_values(
        |s: BoundSignalModel| ScaleModel { factor: s.def.factor, offset: s.def.offset },
    )
}

/// The last of the first `n` signals that is a multiplexor switch.
pub open spec fn switch_of(signals: Seq<SignalModel>, n: int) -> Option<SignalModel>
    decreases n,
{
    if n <= 0 {
        None
    } else if signals[n - 1].mux == MuxRole::Switch {
        Some(signals[n - 1])
    } else {
        switch_of(signals, n - 1)
    }
}

/// What a decoder knows.
pub struct DecoderModel {
    /// The names of the output columns.
    pub columns: Seq<Seq<char>>,
    pub scales: Seq<ScaleModel>,
    /// The messages in declaration order.
    pub messages: Seq<BoundModel>,
    pub j1939_pgn_fallback: bool,
}

/// How a decoder is made.
pub struct OptionsModel {
    pub filter: Option<Seq<Seq<char>>>,
    pub naming: ColumnNaming,
    pub j1939_pgn_fallback: bool,
}

/// A decoder for the first `n` messages of a database.
pub open spec fn bind(messages: Seq<MessageModel>, options: OptionsModel, n: int) -> DecoderModel
    decreases n,
{
    if n <= 0 {
        DecoderModel {
            columns: Seq::empty(),
            scales: Seq::empty(),
            messages: Seq::empty(),
            j1939_pgn_fallback: options.j1939_pgn_fallback,
        }
    } else {
        let before = bind(messages, options, n - 1);
        let m = messages[n - 1];
        let names = message_columns(messages, options.naming, m);
        let count = m.signals.len() as int;
        let signals = bound_signals(
            m.signals,
            names,
            options.filter,
            before.columns.len() as int,
            count,
        );
        DecoderModel {
            columns: before.columns + selected_names(names, options.filter, count),
            scales: before.scales + bound_scales(signals),
            messages: before.messages.push(
                BoundModel {
                    id: m.id,
                    is_extended: m.is_extended,
                    name: m.name,
                    signals,
                    switch: switch_of(m.signals, count),
                },
            ),
            j1939_pgn_fallback: options.j1939_pgn_fallback,
        }
    }
}

/// The identifier with the extended bit in place where it is a 29-bit one.
pub open spec fn frame_key(id: int, is_extended: bool) -> int {
    if is_extended {
        id % 0x8000_0000 + 0x8000_0000
    } else {
        id
    }
}

/// Number of the last message with the given identifier.
pub open spec fn last_bound(messages: Seq<BoundModel>, key: int) -> Option<int>
    decreases messages.len(),
{
    if messages.len() == 0 {
        None
    } else if frame_key(messages.last().id, messages.last().is_extended) == key {
        Some(messages.len() - 1)
    } else {
        last_bound(messages.drop_last(), key)
    }
}

/// The identifier of the first message with a 29-bit identifier of the given
/// parameter group.
pub open spec fn first_of_group(messages: Seq<BoundModel>, group: int) -> Option<int>
    decreases messages.len(),
{
    if messages.len() == 0 {
        None
    } else {
        match first_of_group(messages.drop_last(), group) {
            Some(key) => Some(key),
            None => if messages.last().is_extended && pgn(messages.last().id) == group {
                Some(frame_key(messages.last().id, true))
            } else {
                None
            },
        }
    }
}

impl DecoderModel {
    /// The number of the message that a frame belongs to: the last one with
    /// its identifier, or, for a 29-bit identifier and if so chosen, the last
    /// one with the identifier of the first message of its parameter group.
    pub open spec fn lookup(self, frame: FrameModel) -> Option<int> {
        match last_bound(self.messages, frame_key(frame.id, frame.is_extended)) {
            Some(i) => Some(i),
            None => if self.j1939_pgn_fallback && frame.is_extended {
                match first_of_group(self.messages, pgn(frame.id)) {
                    Some(key) => last_bound(self.messages, key),
                    None => None,
                }
            } else {
                None
            },
        }
    }
}

/// The value of the multiplexor switch in a payload.
pub open spec fn switch_value(m: BoundModel, data: Seq<u8>) -> Option<int> {
    match m.switch {
        Some(def) => signal_raw(data, def),
        None => None,
    }
}

/// Whether a signal is present under the given switch value.
pub open spec fn is_present(def: SignalModel, switch: Option<int>) -> bool {
    match def.mux {
        MuxRole::Value(v) => switch == Some(v as int),
        _ => true,
    }
}

/// The values of the first `n` signals of a message in a payload, each with
/// its column.
pub open spec fn message_cells(m: BoundModel, data: Seq<u8>, n: int) -> Seq<(usize, RawValue)>
    decreases n,
{
    if n <= 0 {
        Seq::empty()
    } else {
        let before = message_cells(m, data, n - 1);
        let s = m.signals[n - 1];
        match signal_raw(data, s.def) {
            Some(raw) => if is_present(s.def, switch_value(m, data)) {
                before.push((s.column as usize, base_value(raw, s.def)))
            } else {
                before
            },
            None => before,
        }
    }
}

impl DecoderModel {
    /// What a frame says, or `None` where its identifier is not known or it
    /// is a remote frame.
    pub open spec fn decoded(self, frame: FrameModel) -> Option<Seq<(usize, RawValue)>> {
        if frame.is_remote {
            None
        } else {
            match self.lookup(frame) {
                None => None,
                Some(i) => Some(
                    message_cells(
                        self.messages[i],
                        frame.payload(),
                        self.messages[i].signals.len() as int,
                    ),
                ),
            }
        }
    }
}

struct BoundSignal {
    def: SignalDef,
    column: usize,
}

impl View for BoundSignal {
    type V = BoundSignalModel;

    closed spec fn view(&self) -> BoundSignalModel {
        BoundSignalModel { def: self.def@, column: self.column as int }
    }
}

struct BoundMessage {
    id: u32,
    is_extended: bool,
    name: String,
    signals: Vec<BoundSignal>,
    switch: Option<SignalDef>,
}

spec fn bound_signal_models(signals: Seq<BoundSignal>) -> Seq<BoundSignalModel> {
    signals.map_values(|s: BoundSignal| s@)
}

impl View for BoundMessage {
    type V = BoundModel;

    closed spec fn view(&self) -> BoundModel {
        BoundModel {
            id: self.id as int,
            is_extended: self.is_extended,
            name: self.name@,
            signals: bound_signal_models(self.signals@),
            switch: match self.switch {
                Some(def) => Some(def@),
                None => None,
            },
        }
    }
}

spec fn bound_models(messages: Seq<BoundMessage>) -> Seq<BoundModel> {
    messages.map_values(|m: BoundMessage| m@)
}

/// Factor and offset of a column, in decimal notation.
struct Scale {
    factor: String,
    offset: String,
}

impl View for Scale {
    type V = ScaleModel;

    closed spec fn view(&self) -> ScaleModel {
        ScaleModel { factor: self.factor@, offset: self.offset@ }
    }
}

/// The texts of a list of strings.
pub open spec fn string_texts(list: Seq<String>) -> Seq<Seq<char>> {
    list.map_values(|s: String| s@)
}

/// Decoder construction options.
#[derive(Debug, Clone, Copy)]
pub struct DecoderOptions<'a> {
    /// Restrict output to these column names (see [`list_columns_with`]).
    pub filter: Option<&'a Vec<String>>,
    pub naming: ColumnNaming,
    /// Match extended frames by J1939 PGN when the exact 29-bit ID is not in
    /// the DBC (priority and source address often differ from the database).
    pub j1939_pgn_fallback: bool,
}

impl<'a> DecoderOptions<'a> {
    /// The mathematical content.
    pub open spec fn model(self) -> OptionsModel {
        OptionsModel {
            filter: match self.filter {
                Some(names) => Some(string_texts(names@)),
                None => None,
            },
            naming: self.naming,
            j1939_pgn_fallback: self.j1939_pgn_fallback,
        }
    }
}

impl<'a> Default for DecoderOptions<'a> {
    fn default() -> (r: Self)
        ensures
            r.filter is None,
            r.naming == ColumnNaming::Signal,
            !r.j1939_pgn_fallback,
    {
        DecoderOptions { filter: None, naming: ColumnNaming::Signal, j1939_pgn_fallback: false }
    }
}

/// Decodes frames against a database.
pub struct Decoder {
    columns: Vec<String>,
    scales: Vec<Scale>,
    messages: Vec<BoundMessage>,
    /// Identifier (with the extended bit) to the last message with it.
    index: HashMap<u32, usize>,
    /// J1939 PGN -> exact identifier, for fallback matching.
    pgn_map: HashMap<u32, u32>,
    j1939_pgn_fallback: bool,
}

impl View for Decoder {
    type V = DecoderModel;

    closed spec fn view(&self) -> DecoderModel {
        DecoderModel {
            columns: string_texts(self.columns@),
            scales: self.scales@.map_values(|s: Scale| s@),
            messages: bound_models(self.messages@),
            j1939_pgn_fallback: self.j1939_pgn_fallback,
        }
    }
}

/// The signals of a message have 1 to 64 bits and lie in consecutive columns.
pub open spec fn bound_ok(m: BoundModel, columns: int) -> bool {
    &&& forall|k: int|
        0 <= k < m.signals.len() ==> {
            let s = #[trigger] m.signals[k];
            &&& 0 <= s.column < columns
            &&& s.column == m.signals[0].column + k
            &&& 1 <= s.def.length <= 64
        }
    &&& m.switch matches Some(def) ==> 1 <= def.length <= 64
}

impl DecoderModel {
    /// Every column has a scale, and every message is sound.
    pub open spec fn wf(self) -> bool {
        &&& self.scales.len() == self.columns.len()
        &&& self.columns.len() <= usize::MAX
        &&& forall|i: int|
            0 <= i < self.messages.len() ==> bound_ok(
                #[trigger] self.messages[i],
                self.columns.len() as int,
            )
    }
}

/// Cells come in the order of their columns, at most one per column.
pub open spec fn cells_ordered<V>(cells: Seq<(usize, V)>, columns: int) -> bool {
    &&& forall|k: int| 0 <= k < cells.len() ==> (#[trigger] cells[k]).0 < columns
    &&& forall|k: int, l: int|
        0 <= k < l < cells.len() ==> (#[trigger] cells[k]).0 < (#[trigger] cells[l]).0
}

proof fn lemma_bound_signals(
    signals: Seq<SignalModel>,
    names: Seq<ColumnModel>,
    filter: Option<Seq<Seq<char>>>,
    base: int,
    n: int,
)
    requires
        signals_wf(signals),
        0 <= n <= signals.len(),
    ensures
        ({
            let bound = bound_signals(signals, names, filter, base, n);
            &&& bound.len() == selected_names(names, filter, n).len()
            &&& forall|k: int|
                0 <= k < bound.len() ==> {
                    &&& (#[trigger] bound[k]).column == base + k
                    &&& 1 <= bound[k].def.length <= 64
                }
        }),
    decreases n,
{
    if n > 0 {
        lemma_bound_signals(signals, names, filter, base, n - 1);
        assert(1 <= signals[n - 1].length <= 64);
    }
}

proof fn lemma_switch(signals: Seq<SignalModel>, n: int)
    requires
        signals_wf(signals),
        0 <= n <= signals.len(),
    ensures
        switch_of(signals, n) matches Some(def) ==> 1 <= def.length <= 64,
    decreases n,
{
    if n > 0 {
        lemma_switch(signals, n - 1);
        assert(1 <= signals[n - 1].length <= 64);
    }
}

/// A decoder for a sound database is sound.
pub proof fn lemma_bind_wf(messages: Seq<MessageModel>, options: OptionsModel, n: int)
    requires
        crate::dbc::messages_wf(messages),
        0 <= n <= messages.len(),
    ensures
        ({
            let d = bind(messages, options, n);
            &&& d.scales.len() == d.columns.len()
            &&& d.messages.len() == n
            &&& forall|i: int|
                0 <= i < n ==> bound_ok(#[trigger] d.messages[i], d.columns.len() as int)
        }),
    decreases n,
{
    if n > 0 {
        lemma_bind_wf(messages, options, n - 1);
        let before = bind(messages, options, n - 1);
        let d = bind(messages, options, n);
        let m = messages[n - 1];
        let names = message_columns(messages, options.naming, m);
        assert(signals_wf(m.signals));
        lemma_bound_signals(
            m.signals,
            names,
            options.filter,
            before.columns.len() as int,
            m.signals.len() as int,
        );
        lemma_switch(m.signals, m.signals.len() as int);
        assert forall|i: int| 0 <= i < n implies bound_ok(
            #[trigger] d.messages[i],
            d.columns.len() as int,
        ) by {
            if i < n - 1 {
                assert(d.messages[i] == before.messages[i]);
                assert(bound_ok(before.messages[i], before.columns.len() as int));
            }
        }
    }
}

/// The cells of a message are in order.
proof fn lemma_cells_ordered(m: BoundModel, data: Seq<u8>, columns: int, n: int)
    requires
        bound_ok(m, columns),
        columns <= usize::MAX,
        0 <= n <= m.signals.len(),
    ensures
        cells_ordered(message_cells(m, data, n), columns),
        forall|k: int|
            0 <= k < message_cells(m, data, n).len() ==> (#[trigger] message_cells(m, data, n)[k]).0
                < m.signals[0].column + n,
    decreases n,
{
    if n > 0 {
        lemma_cells_ordered(m, data, columns, n - 1);
        let s = m.signals[n - 1];
        assert(s.column == m.signals[0].column + (n - 1));
    }
}

fn copy_signal(def: &SignalDef) -> (r: SignalDef)
    ensures
        r@ == def@,
        r.length == def.length,
{
    SignalDef {
        name: def.name.clone(),
        start_bit: def.start_bit,
        length: def.length,
        byte_order: def.byte_order,
        signed: def.signed,
        factor: def.factor.clone(),
        offset: def.offset.clone(),
        mux: def.mux,
        value_type: def.value_type,
        unit: def.unit.clone(),
    }
}

fn is_selected(filter: Option<&Vec<String>>, name: &String) -> (r: bool)
    ensures
        r == selected(
            match filter {
                Some(names) => Some(string_texts(names@)),
                None => None,
            },
            name@,
        ),
{
    match filter {
        None => true,
        Some(names) => {
            let mut i: usize = 0;
            while i < names.len()
                invariant
                    i <= names@.len(),
                    filter == Some(names),
                    forall|j: int| 0 <= j < i ==> (#[trigger] names@[j])@ != name@,
                decreases names@.len() - i,
            {
                if names[i] == *name {
                    assert(string_texts(names@)[i as int] == name@);
                    return true;
                }
                i += 1;
            }
            assert forall|j: int| 0 <= j < string_texts(names@).len() implies string_texts(
                names@,
            )[j] != name@ by {
                assert(names@[j]@ != name@);
            }
            false
        },
    }
}

/// Bind the signals of one message, adding their columns.
fn bind_signals(
    dbc: &Dbc,
    options: DecoderOptions<'_>,
    message: &MessageDef,
    columns: &mut Vec<String>,
    scales: &mut Vec<Scale>,
) -> (r: (Vec<BoundSignal>, Option<SignalDef>))
    ensures
        ({
            let names = message_columns(dbc@.messages, options.naming, message@);
            let count = message@.signals.len() as int;
            let bound = bound_signals(
                message@.signals,
                names,
                options.model().filter,
                old(columns)@.len() as int,
                count,
            );
            &&& bound_signal_models(r.0@) == bound
            &&& string_texts(final(columns)@) == string_texts(old(columns)@) + selected_names(
                names,
                options.model().filter,
                count,
            )
            &&& final(scales)@.map_values(|s: Scale| s@) == old(scales)@.map_values(|s: Scale| s@)
                + bound_scales(bound)
            &&& switch_of(message@.signals, count) == (match r.1 {
                Some(def) => Some(def@),
                None => None,
            })
        }),
{
    let ghost names = message_columns(dbc@.messages, options.naming, message@);
    let ghost filter = options.model().filter;
    let ghost base = columns@.len() as int;
    let ghost columns0 = string_texts(columns@);
    let ghost scales0 = scales@.map_values(|s: Scale| s@);
    let mut signals: Vec<BoundSignal> = Vec::new();
    let mut switch: Option<SignalDef> = None;
    let mut j: usize = 0;
    assert(bound_signal_models(signals@) =~= Seq::<BoundSignalModel>::empty());
    assert(columns0 + Seq::<Seq<char>>::empty() =~= columns0);
    assert(scales0 + bound_scales(Seq::<BoundSignalModel>::empty()) =~= scales0);
    while j < message.signals.len()
        invariant
            j <= message.signals@.len(),
            names == message_columns(dbc@.messages, options.naming, message@),
            filter == options.model().filter,
            columns@.len() == base + signals@.len(),
            bound_signal_models(signals@) == bound_signals(
                message@.signals,
                names,
                filter,
                base,
                j as int,
            ),
            string_texts(columns@) == columns0 + selected_names(names, filter, j as int),
            scales@.map_values(|s: Scale| s@) == scales0 + bound_scales(
                bound_signal_models(signals@),
            ),
            switch_of(message@.signals, j as int) == (match switch {
                Some(def) => Some(def@),
                None => None,
            }),
        decreases message.signals@.len() - j,
    {
        let signal: &SignalDef = &message.signals[j];
        assert(message@.signals[j as int] == signal@);
        let name: String = make_column_name(&dbc.messages, options.naming, &message.name, signal);
        assert(names[j as int].name == name@);
        if signal.mux == MuxRole::Switch {
            switch = Some(copy_signal(signal));
        }
        if is_selected(options.filter, &name) {
            let ghost shown = bound_signal_models(signals@);
            let ghost shown_columns = string_texts(columns@);
            let ghost shown_scales = scales@.map_values(|s: Scale| s@);
            let bound = BoundSignal { def: copy_signal(signal), column: columns.len() };
            let scale = Scale { factor: signal.factor.clone(), offset: signal.offset.clone() };
            let ghost model = bound@;
            let ghost scale_model = scale@;
            let ghost text = name@;
            signals.push(bound);
            columns.push(name);
            scales.push(scale);
            assert(bound_signal_models(signals@) =~= shown.push(model));
            assert(string_texts(columns@) =~= shown_columns.push(text));
            assert(scales@.map_values(|s: Scale| s@) =~= shown_scales.push(scale_model));
            assert(bound_scales(shown.push(model)) =~= bound_scales(shown).push(scale_model));
            assert(scales0 + bound_scales(shown.push(model)) =~= shown_scales.push(scale_model));
            assert(columns0 + selected_names(names, filter, j + 1) =~= shown_columns.push(text));
        }
        j += 1;
    }
    (signals, switch)
}

/// The index knows the last message of every identifier.
spec fn index_ok(index: Map<u32, usize>, messages: Seq<BoundModel>) -> bool {
    forall|key: u32| #[trigger]
        index.contains_key(key) == (last_bound(messages, key as int) is Some) && (
        index.contains_key(key) ==> last_bound(messages, key as int) == Some(index[key] as int))
}

/// The map knows the first message of every parameter group.
spec fn groups_ok(groups: Map<u32, u32>, messages: Seq<BoundModel>) -> bool {
    forall|group: u32| #[trigger]
        groups.contains_key(group) == (first_of_group(messages, group as int) is Some) && (
        groups.contains_key(group) ==> first_of_group(messages, group as int) == Some(
            groups[group] as int,
        ))
}

fn make_key(id: u32, is_extended: bool) -> (r: u32)
    ensures
        r == frame_key(id as int, is_extended),
{
    if is_extended {
        id % 0x8000_0000 + 0x8000_0000
    } else {
        id
    }
}

proof fn lemma_last_bound_range(messages: Seq<BoundModel>, key: int)
    ensures
        last_bound(messages, key) matches Some(i) ==> 0 <= i < messages.len(),
    decreases messages.len(),
{
    if messages.len() > 0 {
        lemma_last_bound_range(messages.drop_last(), key);
    }
}

impl Decoder {
    /// The model is sound and the lookup tables match it.
    pub closed spec fn wf(&self) -> bool {
        &&& self@.wf()
        &&& index_ok(self.index@, self@.messages)
        &&& groups_ok(self.pgn_map@, self@.messages)
    }

    /// A decoder for all signals, under their plain names.
    pub fn new(dbc: &Dbc) -> (r: Self)
        requires
            dbc.wf(),
        ensures
            r.wf(),
            r@.wf(),
            r@ == bind(
                dbc@.messages,
                OptionsModel {
                    filter: None,
                    naming: ColumnNaming::Signal,
                    j1939_pgn_fallback: false,
                },
                dbc@.messages.len() as int,
            ),
    {
        Decoder::with_options(dbc, DecoderOptions::default())
    }

    /// A decoder for the signals that the filter names: default naming, no
    /// J1939 fallback.
    pub fn with_filter(dbc: &Dbc, filter: Option<&Vec<String>>) -> (r: Self)
        requires
            dbc.wf(),
        ensures
            r.wf(),
            r@.wf(),
            r@ == bind(
                dbc@.messages,
                OptionsModel {
                    filter: match filter {
                        Some(names) => Some(string_texts(names@)),
                        None => None,
                    },
                    naming: ColumnNaming::Signal,
                    j1939_pgn_fallback: false,
                },
                dbc@.messages.len() as int,
            ),
    {
        Decoder::with_options(
            dbc,
            DecoderOptions { filter, naming: ColumnNaming::Signal, j1939_pgn_fallback: false },
        )
    }

    /// A decoder for the database under the given options.
    pub fn with_options(dbc: &Dbc, options: DecoderOptions<'_>) -> (r: Self)
        requires
            dbc.wf(),
        ensures
            r.wf(),
            r@.wf(),
            r@ == bind(dbc@.messages, options.model(), dbc@.messages.len() as int),
    {
        let ghost all = dbc@.messages;
        let mut d = Decoder {
            columns: Vec::new(),
            scales: Vec::new(),
            messages: Vec::new(),
            index: HashMap::new(),
            pgn_map: HashMap::new(),
            j1939_pgn_fallback: options.j1939_pgn_fallback,
        };
        assert(d@.columns =~= Seq::<Seq<char>>::empty());
        assert(d@.scales =~= Seq::<ScaleModel>::empty());
        assert(d@.messages =~= Seq::<BoundModel>::empty());
        let mut i: usize = 0;
        while i < dbc.messages.len()
            invariant
                i <= dbc.messages@.len(),
                dbc.wf(),
                all == dbc@.messages,
                d@ == bind(all, options.model(), i as int),
                index_ok(d.index@, d@.messages),
                groups_ok(d.pgn_map@, d@.messages),
                d@.messages.len() == i,
            decreases dbc.messages@.len() - i,
        {
            let message: &MessageDef = &dbc.messages[i];
            let ghost before = d@;
            assert(all[i as int] == message@);
            assert(0 <= all[i as int].id < 0x8000_0000);
            let (signals, switch) = bind_signals(
                dbc,
                options,
                message,
                &mut d.columns,
                &mut d.scales,
            );
            let bound = BoundMessage {
                id: message.id,
                is_extended: message.is_extended,
                name: message.name.clone(),
                signals,
                switch,
            };
            let ghost model = bound@;
            d.messages.push(bound);
            assert(d@.messages =~= before.messages.push(model));
            assert(before.messages.push(model).drop_last() =~= before.messages);
            let key: u32 = make_key(message.id, message.is_extended);
            if message.is_extended {
                let group: u32 = j1939_pgn(message.id);
                if !d.pgn_map.contains_key(&group) {
                    d.pgn_map.insert(group, key);
                }
            }
            d.index.insert(key, i);
            i += 1;
        }
        proof {
            lemma_bind_wf(all, options.model(), i as int);
            assert(d.columns@.len() == d@.columns.len());
        }
        let len: usize = d.columns.len();
        d
    }

    /// Output column names (excluding the leading Timestamp column).
    pub fn columns(&self) -> (r: &[String])
        ensures
            string_texts(r@) == self@.columns,
    {
        self.columns.as_slice()
    }

    /// Factor and offset of a column, in decimal notation.
    pub fn scale(&self, column: usize) -> (r: (&str, &str))
        requires
            column < self@.scales.len(),
        ensures
            self@.scales[column as int] == (ScaleModel { factor: r.0@, offset: r.1@ }),
    {
        let scale: &Scale = &self.scales[column];
        (scale.factor.as_str(), scale.offset.as_str())
    }

    fn lookup(&self, frame: &CanFrame) -> (r: Option<usize>)
        requires
            self.wf(),
        ensures
            match r {
                Some(i) => self@.lookup(frame@) == Some(i as int) && i < self@.messages.len(),
                None => self@.lookup(frame@) is None,
            },
    {
        let key: u32 = make_key(frame.id, frame.is_extended);
        proof {
            lemma_last_bound_range(self@.messages, key as int);
        }
        if let Some(found) = self.index.get(&key) {
            return Some(*found);
        }
        if self.j1939_pgn_fallback && frame.is_extended {
            let group: u32 = j1939_pgn(frame.id);
            if let Some(pgn_key) = self.pgn_map.get(&group) {
                proof {
                    lemma_last_bound_range(self@.messages, *pgn_key as int);
                }
                return match self.index.get(pgn_key) {
                    Some(found) => Some(*found),
                    None => None,
                };
            }
        }
        None
    }

    /// True when the frame's CAN ID is defined in the DBC.
    pub fn contains_id(&self, frame: &CanFrame) -> (r: bool)
        requires
            self.wf(),
        ensures
            r == (self@.lookup(frame@) is Some),
    {
        self.lookup(frame).is_some()
    }

    /// DBC message name for the frame's CAN ID, if defined.
    pub fn message_name(&self, frame: &CanFrame) -> (r: Option<&str>)
        requires
            self.wf(),
        ensures
            match r {
                Some(name) => self@.lookup(frame@) matches Some(i) && name@
                    == self@.messages[i].name,
                None => self@.lookup(frame@) is None,
            },
    {
        match self.lookup(frame) {
            None => None,
            Some(i) => {
                assert(self@.messages[i as int] == self.messages@[i as int]@);
                Some(self.messages[i].name.as_str())
            },
        }
    }

    /// Decode a frame into `out` as `(column index, value)` pairs. Returns
    /// false if the frame's ID is not in the DBC (or it is a remote frame
    /// carrying no data).
    pub fn decode(&self, frame: &CanFrame, out: &mut Vec<(usize, RawValue)>) -> (r: bool)
        requires
            self.wf(),
            frame@.wf(),
        ensures
            r == (self@.decoded(frame@) is Some),
            final(out)@ == (match self@.decoded(frame@) {
                Some(cells) => cells,
                None => Seq::empty(),
            }),
            cells_ordered(final(out)@, self@.columns.len() as int),
    {
        out.clear();
        if frame.is_remote {
            return false;
        }
        let i: usize = match self.lookup(frame) {
            None => {
                return false;
            },
            Some(i) => i,
        };
        let data: &[u8] = frame.data();
        let message: &BoundMessage = &self.messages[i];
        let ghost m = message@;
        assert(self@.messages[i as int] == m);
        assert(bound_ok(m, self@.columns.len() as int));
        assert(data@.len() <= 64);
        let switch: Option<u64> = match &message.switch {
            None => None,
            Some(def) => {
                assert(m.switch == Some(def@));
                extract_raw(data, def)
            },
        };
        let mut j: usize = 0;
        while j < message.signals.len()
            invariant
                j <= message.signals@.len(),
                m == message@,
                bound_ok(m, self@.columns.len() as int),
                data@.len() <= 64,
                switch_value(m, data@) == (match switch {
                    Some(v) => Some(v as int),
                    None => None,
                }),
                out@ == message_cells(m, data@, j as int),
            decreases message.signals@.len() - j,
        {
            let signal: &BoundSignal = &message.signals[j];
            assert(m.signals[j as int] == signal@);
            let present: bool = match signal.def.mux {
                MuxRole::Value(v) => match switch {
                    Some(sw) => sw == v,
                    None => false,
                },
                _ => true,
            };
            assert(present == is_present(signal.def@, switch_value(m, data@)));
            if present {
                if let Some(raw) = extract_raw(data, &signal.def) {
                    out.push((signal.column, physical_base(raw, &signal.def)));
                }
            }
            j += 1;
        }
        proof {
            lemma_cells_ordered(m, data@, self@.columns.len() as int, j as int);
        }
        true
    }
}

} // verus!
