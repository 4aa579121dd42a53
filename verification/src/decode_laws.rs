//! What holds of decoders as a whole: which message a frame belongs to, which
//! cells it yields, and what a filter changes.

use crate::bits::{law_numbers_fit_their_fields, raw_value};
use crate::bits_laws::law_twos_complement;
use crate::dbc::{messages_wf, MessageModel, MuxRole, SignalModel, ValueType};
use crate::decode::{
    base_value, bind, bound_ok, bound_signals, column_name, columns_of, first_of_group, frame_key,
    has_signal, in_several_messages, is_present, last_bound, lemma_bind_wf, message_cells,
    message_columns, pgn, selected, selected_names, signal_raw, switch_of, switch_value,
    BoundModel, BoundSignalModel, ColumnModel, ColumnNaming, DecoderModel, OptionsModel, RawValue,
};
use crate::frame::FrameModel;
use vstd::arithmetic::div_mod::lemma_fundamental_div_mod_converse;
use vstd::arithmetic::power2::{
    lemma2_to64, lemma_pow2_strictly_increases, lemma_pow2_unfold, pow2,
};
use vstd::prelude::*;

verus! {

/// The message of a list with the given number, made ready for output.
spec fn bound_message(messages: Seq<MessageModel>, options: OptionsModel, i: int) -> BoundModel {
    let m = messages[i];
    let count = m.signals.len() as int;
    BoundModel {
        id: m.id,
        is_extended: m.is_extended,
        name: m.name,
        signals: bound_signals(
            m.signals,
            message_columns(messages, options.naming, m),
            options.filter,
            bind(messages, options, i).columns.len() as int,
            count,
        ),
        switch: switch_of(m.signals, count),
    }
}

proof fn lemma_bound_message(messages: Seq<MessageModel>, options: OptionsModel, n: int, i: int)
    requires
        0 <= i < n <= messages.len(),
    ensures
        ({
            let d = bind(messages, options, n);
            let base = bind(messages, options, i).columns.len();
            let names = selected_names(
                message_columns(messages, options.naming, messages[i]),
                options.filter,
                messages[i].signals.len() as int,
            );
            &&& d.messages.len() == n
            &&& d.messages[i] == bound_message(messages, options, i)
            &&& d.j1939_pgn_fallback == options.j1939_pgn_fallback
            &&& base + names.len() <= d.columns.len()
            &&& forall|k: int| 0 <= k < names.len() ==> #[trigger] d.columns[base + k] == names[k]
        }),
    decreases n,
{
    let d = bind(messages, options, n);
    let before = bind(messages, options, n - 1);
    let base = bind(messages, options, i).columns.len();
    if i < n - 1 {
        lemma_bound_message(messages, options, n - 1, i);
        let names = selected_names(
            message_columns(messages, options.naming, messages[i]),
            options.filter,
            messages[i].signals.len() as int,
        );
        assert forall|k: int| 0 <= k < names.len() implies #[trigger] d.columns[base + k]
            == names[k] by {
            assert(before.columns[base + k] == names[k]);
        }
    } else if n > 1 {
        lemma_bound_message(messages, options, n - 1, 0);
    }
}

proof fn lemma_filter_push<A>(s: Seq<A>, x: A, keep: spec_fn(A) -> bool)
    ensures
        s.push(x).filter(keep) == (if keep(x) {
            s.filter(keep).push(x)
        } else {
            s.filter(keep)
        }),
{
    reveal(Seq::filter);
    assert(s.push(x).drop_last() =~= s);
}

spec fn column_texts(columns: Seq<ColumnModel>) -> Seq<Seq<char>> {
    columns.map_values(|c: ColumnModel| c.name)
}

proof fn lemma_selected_names(names: Seq<ColumnModel>, filter: Option<Seq<Seq<char>>>, n: int)
    requires
        0 <= n <= names.len(),
    ensures
        selected_names(names, filter, n) == column_texts(names.take(n)).filter(
            |name: Seq<char>| selected(filter, name),
        ),
    decreases n,
{
    let keep = |name: Seq<char>| selected(filter, name);
    if n > 0 {
        lemma_selected_names(names, filter, n - 1);
        lemma_filter_push(column_texts(names.take(n - 1)), names[n - 1].name, keep);
        assert(column_texts(names.take(n)) =~= column_texts(names.take(n - 1)).push(
            names[n - 1].name,
        ));
    } else {
        reveal(Seq::filter);
        assert(column_texts(names.take(n)) =~= Seq::<Seq<char>>::empty());
    }
}

/// A decoder's columns are the columns of the database, in declaration order,
/// as far as the filter names them.
pub proof fn law_columns_are_the_selected_ones(
    messages: Seq<MessageModel>,
    options: OptionsModel,
    n: int,
)
    requires
        0 <= n <= messages.len(),
    ensures
        bind(messages, options, n).columns == columns_of(messages, options.naming, n).map_values(
            |c: ColumnModel| c.name,
        ).filter(|name: Seq<char>| selected(options.filter, name)),
    decreases n,
{
    let keep = |name: Seq<char>| selected(options.filter, name);
    let listed = columns_of(messages, options.naming, n);
    if n > 0 {
        let m = messages[n - 1];
        let names = message_columns(messages, options.naming, m);
        let before = columns_of(messages, options.naming, n - 1);
        law_columns_are_the_selected_ones(messages, options, n - 1);
        lemma_selected_names(names, options.filter, m.signals.len() as int);
        assert(names.take(m.signals.len() as int) =~= names);
        assert(column_texts(listed) =~= column_texts(before) + column_texts(names));
        Seq::filter_distributes_over_add(column_texts(before), column_texts(names), keep);
    } else {
        reveal(Seq::filter);
        assert(column_texts(listed) =~= Seq::<Seq<char>>::empty());
    }
}

/// Without a filter every signal has its column.
pub proof fn law_every_signal_has_a_column(
    messages: Seq<MessageModel>,
    options: OptionsModel,
    n: int,
)
    requires
        0 <= n <= messages.len(),
        options.filter is None,
    ensures
        bind(messages, options, n).columns == columns_of(messages, options.naming, n).map_values(
            |c: ColumnModel| c.name,
        ),
{
    law_columns_are_the_selected_ones(messages, options, n);
    lemma_keep_all(
        column_texts(columns_of(messages, options.naming, n)),
        |name: Seq<char>| selected(options.filter, name),
    );
}

proof fn lemma_keep_all<A>(s: Seq<A>, keep: spec_fn(A) -> bool)
    requires
        forall|x: A| #[trigger] keep(x),
    ensures
        s.filter(keep) == s,
    decreases s.len(),
{
    reveal(Seq::filter);
    if s.len() > 0 {
        lemma_keep_all(s.drop_last(), keep);
        assert(keep(s.last()));
        assert(s.drop_last().push(s.last()) =~= s);
    }
}

/// Two lists that agree in identifiers find the same message.
proof fn lemma_same_ids(a: Seq<BoundModel>, b: Seq<BoundModel>)
    requires
        a.len() == b.len(),
        forall|i: int|
            0 <= i < a.len() ==> (#[trigger] a[i]).id == b[i].id && a[i].is_extended
                == b[i].is_extended,
    ensures
        forall|key: int| #[trigger] last_bound(a, key) == last_bound(b, key),
        forall|group: int| #[trigger] first_of_group(a, group) == first_of_group(b, group),
    decreases a.len(),
{
    if a.len() > 0 {
        assert forall|i: int| 0 <= i < a.len() - 1 implies (#[trigger] a.drop_last()[i]).id
            == b.drop_last()[i].id && a.drop_last()[i].is_extended
            == b.drop_last()[i].is_extended by {
            assert(a[i].id == b[i].id);
        }
        lemma_same_ids(a.drop_last(), b.drop_last());
        assert(a[a.len() - 1].id == b[b.len() - 1].id);
        assert forall|key: int| #[trigger] last_bound(a, key) == last_bound(b, key) by {
            assert(last_bound(a.drop_last(), key) == last_bound(b.drop_last(), key));
        }
        assert forall|group: int| #[trigger] first_of_group(a, group) == first_of_group(
            b,
            group,
        ) by {
            assert(first_of_group(a.drop_last(), group) == first_of_group(b.drop_last(), group));
        }
    }
}

/// Cells with the names of their columns.
pub open spec fn named_cells(cells: Seq<(usize, RawValue)>, columns: Seq<Seq<char>>) -> Seq<
    (Seq<char>, RawValue),
> {
    cells.map_values(|c: (usize, RawValue)| (columns[c.0 as int], c.1))
}

/// The named values of the first `n` signals of a message in a payload, as
/// far as they are selected.
spec fn named_values(
    signals: Seq<SignalModel>,
    names: Seq<ColumnModel>,
    filter: Option<Seq<Seq<char>>>,
    switch: Option<int>,
    data: Seq<u8>,
    n: int,
) -> Seq<(Seq<char>, RawValue)>
    decreases n,
{
    if n <= 0 {
        Seq::empty()
    } else {
        let before = named_values(signals, names, filter, switch, data, n - 1);
        match signal_raw(data, signals[n - 1]) {
            Some(raw) => if selected(filter, names[n - 1].name) && is_present(
                signals[n - 1],
                switch,
            ) {
                before.push((names[n - 1].name, base_value(raw, signals[n - 1])))
            } else {
                before
            },
            None => before,
        }
    }
}

proof fn lemma_bound_prefix(
    signals: Seq<SignalModel>,
    names: Seq<ColumnModel>,
    filter: Option<Seq<Seq<char>>>,
    base: int,
    n: int,
    count: int,
)
    requires
        0 <= n <= count,
    ensures
        ({
            let part = bound_signals(signals, names, filter, base, n);
            let whole = bound_signals(signals, names, filter, base, count);
            let part_names = selected_names(names, filter, n);
            let whole_names = selected_names(names, filter, count);
            &&& part.len() == part_names.len()
            &&& whole.len() == whole_names.len()
            &&& part.len() <= whole.len()
            &&& forall|k: int| 0 <= k < part.len() ==> #[trigger] whole[k] == part[k]
            &&& forall|k: int| 0 <= k < part.len() ==> #[trigger] whole_names[k] == part_names[k]
        }),
    decreases count,
{
    if n < count {
        lemma_bound_prefix(signals, names, filter, base, n, count - 1);
        let part = bound_signals(signals, names, filter, base, n);
        let whole = bound_signals(signals, names, filter, base, count);
        let less = bound_signals(signals, names, filter, base, count - 1);
        let part_names = selected_names(names, filter, n);
        let whole_names = selected_names(names, filter, count);
        let less_names = selected_names(names, filter, count - 1);
        assert forall|k: int| 0 <= k < part.len() implies #[trigger] whole[k] == part[k] by {
            assert(less[k] == part[k]);
        }
        assert forall|k: int| 0 <= k < part.len() implies #[trigger] whole_names[k]
            == part_names[k] by {
            assert(less_names[k] == part_names[k]);
        }
    } else if n > 0 {
        lemma_bound_prefix(signals, names, filter, base, n - 1, count - 1);
    }
}

proof fn lemma_named_cells(
    m: BoundModel,
    signals: Seq<SignalModel>,
    names: Seq<ColumnModel>,
    filter: Option<Seq<Seq<char>>>,
    base: int,
    columns: Seq<Seq<char>>,
    data: Seq<u8>,
    n: int,
)
    requires
        0 <= n <= signals.len(),
        0 <= base,
        m.signals == bound_signals(signals, names, filter, base, signals.len() as int),
        base + m.signals.len() <= columns.len() <= usize::MAX,
        forall|k: int|
            0 <= k < m.signals.len() ==> #[trigger] columns[base + k] == selected_names(
                names,
                filter,
                signals.len() as int,
            )[k],
    ensures
        named_cells(
            message_cells(
                m,
                data,
                bound_signals(signals, names, filter, base, n).len() as int,
            ),
            columns,
        ) == named_values(signals, names, filter, switch_value(m, data), data, n),
    decreases n,
{
    let bound = bound_signals(signals, names, filter, base, n);
    let len = bound.len() as int;
    if n > 0 {
        lemma_named_cells(m, signals, names, filter, base, columns, data, n - 1);
        lemma_bound_prefix(signals, names, filter, base, n, signals.len() as int);
        lemma_bound_prefix(signals, names, filter, base, n - 1, n);
        let before = bound_signals(signals, names, filter, base, n - 1);
        if selected(filter, names[n - 1].name) {
            let s = BoundSignalModel { def: signals[n - 1], column: base + before.len() };
            assert(bound[len - 1] == s);
            assert(m.signals[len - 1] == s);
            assert(columns[base + (len - 1)] == selected_names(
                names,
                filter,
                signals.len() as int,
            )[len - 1]);
            assert(selected_names(names, filter, n)[len - 1] == names[n - 1].name);
            assert(columns[s.column] == names[n - 1].name);
            let cells = message_cells(m, data, len - 1);
            match signal_raw(data, s.def) {
                Some(raw) => {
                    if is_present(s.def, switch_value(m, data)) {
                        let cell = (s.column as usize, base_value(raw, s.def));
                        assert(named_cells(cells.push(cell), columns) =~= named_cells(
                            cells,
                            columns,
                        ).push((names[n - 1].name, cell.1)));
                    }
                },
                None => {},
            }
        }
    } else {
        assert(named_cells(message_cells(m, data, 0), columns) =~= Seq::<
            (Seq<char>, RawValue),
        >::empty());
    }
}

proof fn lemma_named_values_filter(
    signals: Seq<SignalModel>,
    names: Seq<ColumnModel>,
    filter: Option<Seq<Seq<char>>>,
    switch: Option<int>,
    data: Seq<u8>,
    n: int,
)
    requires
        0 <= n <= signals.len(),
    ensures
        named_values(signals, names, filter, switch, data, n) == named_values(
            signals,
            names,
            None,
            switch,
            data,
            n,
        ).filter(|c: (Seq<char>, RawValue)| selected(filter, c.0)),
    decreases n,
{
    let keep = |c: (Seq<char>, RawValue)| selected(filter, c.0);
    if n > 0 {
        lemma_named_values_filter(signals, names, filter, switch, data, n - 1);
        let all = named_values(signals, names, None, switch, data, n - 1);
        match signal_raw(data, signals[n - 1]) {
            Some(raw) => {
                lemma_filter_push(all, (names[n - 1].name, base_value(raw, signals[n - 1])), keep);
            },
            None => {},
        }
    } else {
        reveal(Seq::filter);
    }
}

/// A filter chooses columns and changes nothing else: it decodes the same
/// frames, and of the values that a decoder without it yields it yields
/// exactly those in the chosen columns, in the same order. In particular a
/// multiplexor switch still gates the signals it selects where its own column
/// is not chosen.
pub proof fn law_filter_only_selects(
    messages: Seq<MessageModel>,
    options: OptionsModel,
    frame: FrameModel,
)
    requires
        messages_wf(messages),
        bind(
            messages,
            OptionsModel { filter: None, ..options },
            messages.len() as int,
        ).columns.len() <= usize::MAX,
    ensures
        ({
            let n = messages.len() as int;
            let some = bind(messages, options, n);
            let all = bind(messages, OptionsModel { filter: None, ..options }, n);
            match all.decoded(frame) {
                None => some.decoded(frame) is None,
                Some(cells) => {
                    &&& some.decoded(frame) matches Some(chosen)
                    &&& named_cells(chosen, some.columns) == named_cells(
                        cells,
                        all.columns,
                    ).filter(|c: (Seq<char>, RawValue)| selected(options.filter, c.0))
                },
            }
        }),
{
    let n = messages.len() as int;
    let wide = OptionsModel { filter: None, ..options };
    let some = bind(messages, options, n);
    let all = bind(messages, wide, n);
    lemma_bind_wf(messages, options, n);
    lemma_bind_wf(messages, wide, n);
    assert forall|i: int| 0 <= i < n implies (#[trigger] all.messages[i]).id
        == some.messages[i].id && all.messages[i].is_extended == some.messages[i].is_extended by {
        lemma_bound_message(messages, options, n, i);
        lemma_bound_message(messages, wide, n, i);
    }
    lemma_same_ids(all.messages, some.messages);
    if n > 0 {
        lemma_bound_message(messages, options, n, 0);
        lemma_bound_message(messages, wide, n, 0);
    }
    lemma_columns_bound(messages, options, n);
    assert(all.lookup(frame) == some.lookup(frame));
    if let Some(i) = all.lookup(frame) {
        lemma_lookup_range(all, frame);
        lemma_bound_message(messages, options, n, i);
        lemma_bound_message(messages, wide, n, i);
        let m = messages[i];
        let count = m.signals.len() as int;
        let names = message_columns(messages, options.naming, m);
        let data = frame.payload();
        let narrow_base = bind(messages, options, i).columns.len() as int;
        let wide_base = bind(messages, wide, i).columns.len() as int;
        lemma_bound_prefix(m.signals, names, options.filter, narrow_base, count, count);
        lemma_bound_prefix(m.signals, names, None, wide_base, count, count);
        lemma_named_cells(
            some.messages[i],
            m.signals,
            names,
            options.filter,
            narrow_base,
            some.columns,
            data,
            count,
        );
        lemma_named_cells(
            all.messages[i],
            m.signals,
            names,
            None,
            wide_base,
            all.columns,
            data,
            count,
        );
        lemma_named_values_filter(
            m.signals,
            names,
            options.filter,
            switch_value(some.messages[i], data),
            data,
            count,
        );
    }
}

/// A filter leaves at most as many columns.
proof fn lemma_columns_bound(messages: Seq<MessageModel>, options: OptionsModel, n: int)
    requires
        0 <= n <= messages.len(),
    ensures
        bind(messages, options, n).columns.len() <= bind(
            messages,
            OptionsModel { filter: None, ..options },
            n,
        ).columns.len(),
{
    let wide = OptionsModel { filter: None, ..options };
    law_columns_are_the_selected_ones(messages, options, n);
    law_every_signal_has_a_column(messages, wide, n);
    column_texts(columns_of(messages, options.naming, n)).lemma_filter_len(
        |name: Seq<char>| selected(options.filter, name),
    );
}

proof fn lemma_last_bound(messages: Seq<BoundModel>, key: int)
    ensures
        match last_bound(messages, key) {
            Some(i) => {
                &&& 0 <= i < messages.len()
                &&& frame_key(messages[i].id, messages[i].is_extended) == key
                &&& forall|j: int|
                    i < j < messages.len() ==> frame_key(
                        (#[trigger] messages[j]).id,
                        messages[j].is_extended,
                    ) != key
            },
            None => forall|j: int|
                0 <= j < messages.len() ==> frame_key(
                    (#[trigger] messages[j]).id,
                    messages[j].is_extended,
                ) != key,
        },
    decreases messages.len(),
{
    if messages.len() > 0 {
        let less = messages.drop_last();
        lemma_last_bound(less, key);
        assert forall|j: int| 0 <= j < less.len() implies #[trigger] messages[j] == less[j] by {}
    }
}

/// Whether the message at `j` is the first one with a 29-bit identifier of the
/// given parameter group.
spec fn first_in_group(messages: Seq<BoundModel>, group: int, j: int) -> bool {
    &&& messages[j].is_extended
    &&& pgn(messages[j].id) == group
    &&& forall|k: int|
        0 <= k < j && (#[trigger] messages[k]).is_extended ==> pgn(messages[k].id) != group
}

proof fn lemma_first_of_group(messages: Seq<BoundModel>, group: int)
    ensures
        match first_of_group(messages, group) {
            Some(key) => exists|j: int|
                #![trigger messages[j]]
                0 <= j < messages.len() && first_in_group(messages, group, j) && key == frame_key(
                    messages[j].id,
                    true,
                ),
            None => forall|j: int|
                0 <= j < messages.len() && (#[trigger] messages[j]).is_extended ==> pgn(
                    messages[j].id,
                ) != group,
        },
    decreases messages.len(),
{
    if messages.len() > 0 {
        let less = messages.drop_last();
        lemma_first_of_group(less, group);
        assert forall|j: int| 0 <= j < less.len() implies #[trigger] messages[j] == less[j] by {}
        match first_of_group(less, group) {
            Some(key) => {
                let j = choose|j: int|
                    #![trigger less[j]]
                    0 <= j < less.len() && first_in_group(less, group, j) && key == frame_key(
                        less[j].id,
                        true,
                    );
                assert(messages[j] == less[j]);
                assert(first_in_group(messages, group, j));
            },
            None => {
                if first_of_group(messages, group) is Some {
                    assert(first_in_group(messages, group, messages.len() - 1));
                }
            },
        }
    }
}

proof fn lemma_lookup_range(d: DecoderModel, frame: FrameModel)
    ensures
        d.lookup(frame) matches Some(i) ==> 0 <= i < d.messages.len(),
{
    lemma_last_bound(d.messages, frame_key(frame.id, frame.is_extended));
    match first_of_group(d.messages, pgn(frame.id)) {
        Some(key) => {
            lemma_last_bound(d.messages, key);
        },
        None => {},
    }
}

/// A frame belongs to the last message with its identifier and kind of
/// identifier. Where there is none, and the fallback is chosen, a frame with a
/// 29-bit identifier takes the identifier of the first message with a 29-bit
/// identifier of its parameter group, if there is one, and belongs to the last
/// message with that identifier. Otherwise it belongs to none. In particular
/// an 11-bit identifier never stands for a 29-bit one.
pub proof fn law_frame_belongs_to_its_message(
    messages: Seq<MessageModel>,
    options: OptionsModel,
    frame: FrameModel,
)
    requires
        messages_wf(messages),
        0 <= frame.id < 0x8000_0000,
    ensures
        ({
            let d = bind(messages, options, messages.len() as int);
            let exact = |m: MessageModel| m.id == frame.id && m.is_extended == frame.is_extended;
            let akin = |m: MessageModel|
                options.j1939_pgn_fallback && frame.is_extended && m.is_extended && pgn(m.id)
                    == pgn(frame.id);
            match d.lookup(frame) {
                Some(i) => {
                    &&& 0 <= i < messages.len()
                    &&& exact(messages[i]) || akin(messages[i])
                    &&& exact(messages[i]) ==> forall|j: int|
                        i < j < messages.len() ==> !exact(#[trigger] messages[j])
                    &&& !exact(messages[i]) ==> forall|j: int|
                        0 <= j < messages.len() ==> !exact(#[trigger] messages[j])
                    &&& !exact(messages[i]) ==> exists|f: int|
                        {
                            &&& 0 <= f <= i
                            &&& akin(#[trigger] messages[f])
                            &&& messages[f].id == messages[i].id
                            &&& forall|j: int| 0 <= j < f ==> !akin(#[trigger] messages[j])
                        }
                    &&& !exact(messages[i]) ==> forall|j: int|
                        i < j < messages.len() && (#[trigger] messages[j]).is_extended
                            ==> messages[j].id != messages[i].id
                },
                None => forall|j: int|
                    0 <= j < messages.len() ==> !exact(#[trigger] messages[j]) && !akin(
                        messages[j],
                    ),
            }
        }),
{
    let n = messages.len() as int;
    let d = bind(messages, options, n);
    let key = frame_key(frame.id, frame.is_extended);
    lemma_bind_wf(messages, options, n);
    if n > 0 {
        lemma_bound_message(messages, options, n, 0);
    }
    assert forall|j: int| 0 <= j < n implies {
        let m = #[trigger] messages[j];
        &&& d.messages[j].id == m.id
        &&& d.messages[j].is_extended == m.is_extended
        &&& 0 <= m.id < 0x8000_0000
        &&& (frame_key(m.id, m.is_extended) == key) == (m.id == frame.id && m.is_extended
            == frame.is_extended)
    } by {
        lemma_bound_message(messages, options, n, j);
    }
    lemma_last_bound(d.messages, key);
    lemma_first_of_group(d.messages, pgn(frame.id));
    match last_bound(d.messages, key) {
        Some(i) => {
            assert(messages[i].id == frame.id);
            assert forall|j: int| i < j < n implies !((#[trigger] messages[j]).id == frame.id
                && messages[j].is_extended == frame.is_extended) by {
                assert(frame_key(d.messages[j].id, d.messages[j].is_extended) != key);
            }
        },
        None => {
            assert forall|j: int| 0 <= j < n implies !((#[trigger] messages[j]).id == frame.id
                && messages[j].is_extended == frame.is_extended) by {
                assert(frame_key(d.messages[j].id, d.messages[j].is_extended) != key);
            }
            match first_of_group(d.messages, pgn(frame.id)) {
                Some(other) => {
                    lemma_last_bound(d.messages, other);
                    let j = choose|j: int|
                        #![trigger d.messages[j]]
                        0 <= j < n && first_in_group(d.messages, pgn(frame.id), j) && other
                            == frame_key(d.messages[j].id, true);
                    assert(messages[j].is_extended);
                    assert forall|k: int| 0 <= k < j && (
                    #[trigger] messages[k]).is_extended implies pgn(messages[k].id) != pgn(
                        frame.id,
                    ) by {
                        assert(d.messages[k].is_extended);
                    }
                    assert(frame_key(d.messages[j].id, d.messages[j].is_extended) == other);
                    if let Some(i) = last_bound(d.messages, other) {
                        assert(frame_key(messages[i].id, messages[i].is_extended) == other);
                        assert(messages[i].id == messages[j].id);
                        assert forall|k: int| i < k < n && (
                        #[trigger] messages[k]).is_extended implies messages[k].id
                            != messages[i].id by {
                            assert(frame_key(d.messages[k].id, d.messages[k].is_extended)
                                != other);
                        }
                    }
                },
                None => {
                    assert forall|j: int| 0 <= j < n && (
                    #[trigger] messages[j]).is_extended implies pgn(messages[j].id) != pgn(
                        frame.id,
                    ) by {
                        assert(d.messages[j].is_extended);
                    }
                },
            }
        },
    }
}

/// The parameter group number of an identifier that is put together from a
/// priority, the 18 bits of the group and a source address.
proof fn lemma_pgn_of_parts(priority: int, group: int, source: int)
    requires
        0 <= priority,
        0 <= group < 0x4_0000,
        0 <= source < 0x100,
    ensures
        pgn(priority * 0x400_0000 + group * 0x100 + source) == (if (group / 0x100) % 0x100 < 240 {
            group - group % 0x100
        } else {
            group
        }),
{
    let id = priority * 0x400_0000 + group * 0x100 + source;
    let high = group / 0x100;
    let low = group % 0x100;
    lemma_fundamental_div_mod_converse(id, 0x100, priority * 0x4_0000 + group, source);
    lemma_fundamental_div_mod_converse(priority * 0x4_0000 + group, 0x4_0000, priority, group);
    lemma_fundamental_div_mod_converse(
        id,
        0x1_0000,
        priority * 0x400 + high,
        low * 0x100 + source,
    );
    lemma_fundamental_div_mod_converse(
        priority * 0x400 + high,
        0x100,
        priority * 4 + high / 0x100,
        high % 0x100,
    );
}

/// Two identifiers that differ in priority (bits 26 to 28) and source address
/// (bits 0 to 7) alone have the same parameter group number.
pub proof fn law_pgn_ignores_priority_and_source(
    group: int,
    priority: int,
    source: int,
    other_priority: int,
    other_source: int,
)
    requires
        0 <= group < 0x4_0000,
        0 <= priority < 8,
        0 <= source < 0x100,
        0 <= other_priority < 8,
        0 <= other_source < 0x100,
    ensures
        pgn(priority * 0x400_0000 + group * 0x100 + source) == pgn(
            other_priority * 0x400_0000 + group * 0x100 + other_source,
        ),
{
    lemma_pgn_of_parts(priority, group, source);
    lemma_pgn_of_parts(other_priority, group, other_source);
}

/// Two identifiers of a destination-specific format (second byte below 240)
/// that differ in the destination address (bits 8 to 15) alone have the same
/// parameter group number. From 240 on that byte belongs to the group.
pub proof fn law_pgn_and_destination(
    priority: int,
    page: int,
    format: int,
    destination: int,
    other: int,
    source: int,
)
    requires
        0 <= priority < 8,
        0 <= page < 4,
        0 <= format < 0x100,
        0 <= destination < 0x100,
        0 <= other < 0x100,
        0 <= source < 0x100,
    ensures
        ({
            let a = page * 0x1_0000 + format * 0x100 + destination;
            let b = page * 0x1_0000 + format * 0x100 + other;
            (pgn(priority * 0x400_0000 + a * 0x100 + source) == pgn(
                priority * 0x400_0000 + b * 0x100 + source,
            )) == (format < 240 || destination == other)
        }),
{
    let a = page * 0x1_0000 + format * 0x100 + destination;
    let b = page * 0x1_0000 + format * 0x100 + other;
    lemma_pgn_of_parts(priority, a, source);
    lemma_pgn_of_parts(priority, b, source);
    assert(a / 0x100 == page * 0x100 + format);
    assert(b / 0x100 == page * 0x100 + format);
    assert((page * 0x100 + format) % 0x100 == format);
    assert(a % 0x100 == destination);
    assert(b % 0x100 == other);
}

/// A decoded message holds a cell for a signal exactly where the signal lies
/// in the payload and, if it is multiplexed, the switch has its value. The
/// cell then holds the signal's value.
pub proof fn law_cell_of_a_signal(m: BoundModel, columns: int, data: Seq<u8>, k: int)
    requires
        bound_ok(m, columns),
        columns <= usize::MAX,
        0 <= k < m.signals.len(),
    ensures
        ({
            let cells = message_cells(m, data, m.signals.len() as int);
            let s = m.signals[k];
            match signal_raw(data, s.def) {
                Some(raw) => if is_present(s.def, switch_value(m, data)) {
                    cells.contains((s.column as usize, base_value(raw, s.def)))
                } else {
                    forall|j: int| 0 <= j < cells.len() ==> (#[trigger] cells[j]).0 != s.column
                },
                None => forall|j: int|
                    0 <= j < cells.len() ==> (#[trigger] cells[j]).0 != s.column,
            }
        }),
{
    lemma_cell_of_a_signal(m, columns, data, k, m.signals.len() as int);
}

proof fn lemma_cell_of_a_signal(m: BoundModel, columns: int, data: Seq<u8>, k: int, n: int)
    requires
        bound_ok(m, columns),
        columns <= usize::MAX,
        0 <= k < m.signals.len(),
        0 <= n <= m.signals.len(),
    ensures
        ({
            let cells = message_cells(m, data, n);
            let s = m.signals[k];
            let raw = signal_raw(data, s.def);
            let there = n > k && raw is Some && is_present(s.def, switch_value(m, data));
            &&& there ==> exists|j: int|
                0 <= j < cells.len() && #[trigger] cells[j] == (
                    s.column as usize,
                    base_value(raw->0, s.def),
                )
            &&& !there ==> forall|j: int|
                0 <= j < cells.len() ==> (#[trigger] cells[j]).0 != s.column
        }),
    decreases n,
{
    if n > 0 {
        lemma_cell_of_a_signal(m, columns, data, k, n - 1);
        let s = m.signals[k];
        let last = m.signals[n - 1];
        let before = message_cells(m, data, n - 1);
        let cells = message_cells(m, data, n);
        let raw = signal_raw(data, s.def);
        assert(last.column == m.signals[0].column + (n - 1));
        assert(s.column == m.signals[0].column + k);
        assert(forall|j: int| 0 <= j < before.len() ==> #[trigger] cells[j] == before[j]);
        if n > k && raw is Some && is_present(s.def, switch_value(m, data)) {
            let cell = (s.column as usize, base_value(raw->0, s.def));
            if n - 1 > k {
                let j = choose|j: int| 0 <= j < before.len() && #[trigger] before[j] == cell;
                assert(cells[j] == cell);
            } else {
                assert(cells[before.len() as int] == cell);
            }
        }
    }
}

/// A multiplexed signal yields no cell where the message has no switch.
pub proof fn law_no_switch_no_multiplexed_cells(
    m: BoundModel,
    columns: int,
    data: Seq<u8>,
    k: int,
)
    requires
        bound_ok(m, columns),
        columns <= usize::MAX,
        0 <= k < m.signals.len(),
        m.switch is None,
        m.signals[k].def.mux is Value,
    ensures
        ({
            let cells = message_cells(m, data, m.signals.len() as int);
            forall|j: int|
                0 <= j < cells.len() ==> (#[trigger] cells[j]).0 != m.signals[k].column
        }),
{
    law_cell_of_a_signal(m, columns, data, k);
}

/// Whether a decoded value is what the raw bits of a signal stand for: the
/// bits themselves for a float of 32 and a double of 64 bits; else, of a signed
/// signal, the number in the range of its length that differs from them by a
/// multiple of 2 to the length, and of an unsigned one the number itself.
pub open spec fn stands_for(value: RawValue, raw: int, s: SignalModel) -> bool {
    let half = pow2((s.length - 1) as nat) as int;
    let float = s.value_type == ValueType::Float && s.length == 32;
    let double = s.value_type == ValueType::Double && s.length == 64;
    match value {
        RawValue::Float(bits) => float && bits == raw,
        RawValue::Double(bits) => double && bits == raw,
        RawValue::Signed(v) => !float && !double && s.signed && -half <= v < half && (v - raw) % (2
            * half) == 0,
        RawValue::Unsigned(v) => !float && !double && !s.signed && v == raw,
    }
}

/// The raw bits of every signal of 1 to 64 bits are decoded to the number that
/// they stand for.
pub proof fn law_decoded_number(raw: int, s: SignalModel)
    requires
        1 <= s.length <= 64,
        0 <= raw < pow2(s.length as nat),
    ensures
        stands_for(base_value(raw, s), raw, s),
{
    lemma2_to64();
    lemma_pow2_unfold(s.length as nat);
    if s.length < 64 {
        lemma_pow2_strictly_increases(s.length as nat, 64);
    }
    law_twos_complement(raw, s.length);
}

/// Number of signals in the first `n` messages.
pub open spec fn signals_before(messages: Seq<MessageModel>, n: int) -> int
    decreases n,
{
    if n <= 0 {
        0
    } else {
        signals_before(messages, n - 1) + messages[n - 1].signals.len()
    }
}

/// The name of a column: the signal's own name, in front of it the message's
/// name and a dot if two different messages have a signal of that name; or, in
/// the other style, the message's name, two colons, the signal's name, and the
/// unit in brackets if there is one.
pub proof fn law_column_names(
    messages: Seq<MessageModel>,
    naming: ColumnNaming,
    message: Seq<char>,
    s: SignalModel,
)
    ensures
        naming == ColumnNaming::Signal && (exists|a: int, b: int, j: int, k: int|
            #![trigger messages[a].signals[j], messages[b].signals[k]]
            0 <= a < b < messages.len() && 0 <= j < messages[a].signals.len() && 0 <= k
                < messages[b].signals.len() && messages[a].signals[j].name == s.name
                && messages[b].signals[k].name == s.name) ==> column_name(
            messages,
            naming,
            message,
            s,
        ) == message + seq!['.'] + s.name,
        naming == ColumnNaming::Signal && !(exists|a: int, b: int, j: int, k: int|
            #![trigger messages[a].signals[j], messages[b].signals[k]]
            0 <= a < b < messages.len() && 0 <= j < messages[a].signals.len() && 0 <= k
                < messages[b].signals.len() && messages[a].signals[j].name == s.name
                && messages[b].signals[k].name == s.name) ==> column_name(
            messages,
            naming,
            message,
            s,
        ) == s.name,
        naming == ColumnNaming::MessageSignalUnit && s.unit.len() == 0 ==> column_name(
            messages,
            naming,
            message,
            s,
        ) == message + seq![':', ':'] + s.name,
        naming == ColumnNaming::MessageSignalUnit && s.unit.len() > 0 ==> column_name(
            messages,
            naming,
            message,
            s,
        ) == message + seq![':', ':'] + s.name + seq!['['] + s.unit + seq![']'],
{
    if in_several_messages(messages, s.name) {
        let (a, b) = choose|a: int, b: int|
            #![trigger messages[a], messages[b]]
            0 <= a < b < messages.len() && has_signal(messages[a].signals, s.name) && has_signal(
                messages[b].signals,
                s.name,
            );
        let j = choose|j: int|
            0 <= j < messages[a].signals.len() && (#[trigger] messages[a].signals[j]).name
                == s.name;
        let k = choose|k: int|
            0 <= k < messages[b].signals.len() && (#[trigger] messages[b].signals[k]).name
                == s.name;
        assert(messages[a].signals[j].name == s.name && messages[b].signals[k].name == s.name);
    }
    if exists|a: int, b: int, j: int, k: int|
        #![trigger messages[a].signals[j], messages[b].signals[k]]
        0 <= a < b < messages.len() && 0 <= j < messages[a].signals.len() && 0 <= k
            < messages[b].signals.len() && messages[a].signals[j].name == s.name
            && messages[b].signals[k].name == s.name {
        let (a, b, j, k) = choose|a: int, b: int, j: int, k: int|
            #![trigger messages[a].signals[j], messages[b].signals[k]]
            0 <= a < b < messages.len() && 0 <= j < messages[a].signals.len() && 0 <= k
                < messages[b].signals.len() && messages[a].signals[j].name == s.name
                && messages[b].signals[k].name == s.name;
        assert(has_signal(messages[a].signals, s.name));
        assert(has_signal(messages[b].signals, s.name));
    }
}

/// Every signal is listed, in the order of declaration, under its column name
/// and with the name of its message.
pub proof fn law_listed_columns(
    messages: Seq<MessageModel>,
    naming: ColumnNaming,
    n: int,
    i: int,
    k: int,
)
    requires
        0 <= i < n <= messages.len(),
        0 <= k < messages[i].signals.len(),
    ensures
        ({
            let columns = columns_of(messages, naming, n);
            let c = signals_before(messages, i) + k;
            &&& columns.len() == signals_before(messages, n)
            &&& 0 <= c < columns.len()
            &&& columns[c].name == column_name(
                messages,
                naming,
                messages[i].name,
                messages[i].signals[k],
            )
            &&& columns[c].message == messages[i].name
        }),
    decreases n,
{
    lemma_listed_length(messages, naming, n);
    lemma_listed_length(messages, naming, n - 1);
    lemma_signals_before(messages, i, n - 1);
    if i < n - 1 {
        law_listed_columns(messages, naming, n - 1, i, k);
    }
}

proof fn lemma_listed_length(messages: Seq<MessageModel>, naming: ColumnNaming, n: int)
    requires
        0 <= n <= messages.len(),
    ensures
        columns_of(messages, naming, n).len() == signals_before(messages, n),
    decreases n,
{
    if n > 0 {
        lemma_listed_length(messages, naming, n - 1);
    }
}

proof fn lemma_signals_before(messages: Seq<MessageModel>, i: int, n: int)
    requires
        0 <= i <= n <= messages.len(),
    ensures
        0 <= signals_before(messages, i) <= signals_before(messages, n),
    decreases n,
{
    if i < n {
        lemma_signals_before(messages, i, n - 1);
    } else if n > 0 {
        lemma_signals_before(messages, n - 1, n - 1);
    }
}

/// Without a filter every signal is output.
proof fn lemma_all_bound(
    signals: Seq<SignalModel>,
    names: Seq<ColumnModel>,
    base: int,
    n: int,
)
    requires
        0 <= n <= signals.len(),
        names.len() == signals.len(),
    ensures
        bound_signals(signals, names, None, base, n).len() == n,
        selected_names(names, None, n).len() == n,
        forall|k: int|
            0 <= k < n ==> #[trigger] bound_signals(signals, names, None, base, n)[k] == (
            BoundSignalModel { def: signals[k], column: base + k }),
        forall|k: int|
            0 <= k < n ==> #[trigger] selected_names(names, None, n)[k] == names[k].name,
    decreases n,
{
    if n > 0 {
        lemma_all_bound(signals, names, base, n - 1);
    }
}

/// What a decoder without a filter knows of a signal.
proof fn lemma_unfiltered(
    messages: Seq<MessageModel>,
    options: OptionsModel,
    n: int,
    i: int,
    k: int,
)
    requires
        0 <= i < n <= messages.len(),
        0 <= k < messages[i].signals.len(),
        options.filter is None,
    ensures
        ({
            let d = bind(messages, options, n);
            let s = messages[i].signals[k];
            let c = signals_before(messages, i) + k;
            &&& d.columns.len() == signals_before(messages, n)
            &&& d.scales.len() == signals_before(messages, n)
            &&& d.messages.len() == n
            &&& 0 <= c < d.columns.len()
            &&& d.columns[c] == column_name(messages, options.naming, messages[i].name, s)
            &&& d.scales[c].factor == s.factor
            &&& d.scales[c].offset == s.offset
            &&& d.messages[i].signals.len() == messages[i].signals.len()
            &&& d.messages[i].signals[k] == (BoundSignalModel { def: s, column: c })
            &&& d.messages[i].switch == switch_of(
                messages[i].signals,
                messages[i].signals.len() as int,
            )
        }),
    decreases n,
{
    lemma_unfiltered_length(messages, options, n);
    lemma_unfiltered_length(messages, options, n - 1);
    lemma_signals_before(messages, i, n - 1);
    let m = messages[n - 1];
    let names = message_columns(messages, options.naming, m);
    let base = signals_before(messages, n - 1);
    lemma_all_bound(m.signals, names, base, m.signals.len() as int);
    if i < n - 1 {
        lemma_unfiltered(messages, options, n - 1, i, k);
    }
}

proof fn lemma_unfiltered_length(messages: Seq<MessageModel>, options: OptionsModel, n: int)
    requires
        0 <= n <= messages.len(),
        options.filter is None,
    ensures
        bind(messages, options, n).columns.len() == signals_before(messages, n),
        bind(messages, options, n).scales.len() == signals_before(messages, n),
        bind(messages, options, n).messages.len() == n,
    decreases n,
{
    if n > 0 {
        lemma_unfiltered_length(messages, options, n - 1);
        let m = messages[n - 1];
        let names = message_columns(messages, options.naming, m);
        let base = bind(messages, options, n - 1).columns.len() as int;
        lemma_all_bound(m.signals, names, base, m.signals.len() as int);
    }
}

/// The multiplexor switch of a message is its last signal that is one.
proof fn lemma_switch_is_last(signals: Seq<SignalModel>, n: int)
    requires
        0 <= n <= signals.len(),
    ensures
        match switch_of(signals, n) {
            Some(def) => exists|w: int|
                0 <= w < n && #[trigger] signals[w] == def && last_switch(signals, n, w),
            None => forall|w: int| 0 <= w < n ==> !((#[trigger] signals[w]).mux is Switch),
        },
    decreases n,
{
    if n > 0 {
        lemma_switch_is_last(signals, n - 1);
        if signals[n - 1].mux == MuxRole::Switch {
            assert(last_switch(signals, n, n - 1));
        } else if let Some(def) = switch_of(signals, n - 1) {
            let w = choose|w: int|
                0 <= w < n - 1 && #[trigger] signals[w] == def && last_switch(signals, n - 1, w);
            assert(last_switch(signals, n, w));
        }
    }
}

/// Whether signal `w` is the last multiplexor switch among the first `n`.
pub open spec fn last_switch(signals: Seq<SignalModel>, n: int, w: int) -> bool {
    &&& 0 <= w < n
    &&& signals[w].mux is Switch
    &&& forall|j: int| w < j < n ==> !((#[trigger] signals[j]).mux is Switch)
}

/// Whether a signal is in a payload: it lies inside, and, if it is
/// multiplexed, the last multiplexor switch of the message holds its number.
pub open spec fn in_payload(signals: Seq<SignalModel>, k: int, data: Seq<u8>) -> bool {
    let s = signals[k];
    &&& raw_value(data, s.byte_order, s.start_bit, s.length) is Some
    &&& s.mux matches MuxRole::Value(number) ==> exists|w: int| #[trigger]
        last_switch(signals, signals.len() as int, w) && raw_value(
            data,
            signals[w].byte_order,
            signals[w].start_bit,
            signals[w].length,
        ) == Some(number as int)
}

/// A frame that belongs to a message yields a cell for each of the message's
/// signals that is in its payload, in the column of the signal, with the
/// number that its raw bits stand for; and none for the others. The column has
/// the name, the factor and the offset of the signal.
pub proof fn law_frame_yields_the_signals_in_it(
    messages: Seq<MessageModel>,
    options: OptionsModel,
    frame: FrameModel,
    i: int,
    k: int,
)
    requires
        messages_wf(messages),
        options.filter is None,
        signals_before(messages, messages.len() as int) <= usize::MAX,
        !frame.is_remote,
        bind(messages, options, messages.len() as int).lookup(frame) == Some(i),
        0 <= i < messages.len(),
        0 <= k < messages[i].signals.len(),
    ensures
        ({
            let d = bind(messages, options, messages.len() as int);
            let data = frame.payload();
            let s = messages[i].signals[k];
            let c = signals_before(messages, i) + k;
            &&& d.columns[c] == column_name(messages, options.naming, messages[i].name, s)
            &&& d.scales[c].factor == s.factor
            &&& d.scales[c].offset == s.offset
            &&& d.decoded(frame) matches Some(cells)
            &&& if in_payload(messages[i].signals, k, data) {
                exists|j: int|
                    0 <= j < cells.len() && (#[trigger] cells[j]).0 == c && stands_for(
                        cells[j].1,
                        raw_value(data, s.byte_order, s.start_bit, s.length)->0,
                        s,
                    )
            } else {
                forall|j: int| 0 <= j < cells.len() ==> (#[trigger] cells[j]).0 != c
            }
        }),
{
    let n = messages.len() as int;
    let d = bind(messages, options, n);
    let data = frame.payload();
    let signals = messages[i].signals;
    let s = signals[k];
    let c = signals_before(messages, i) + k;
    lemma_unfiltered(messages, options, n, i, k);
    lemma_bind_wf(messages, options, n);
    let m = d.messages[i];
    assert(bound_ok(m, d.columns.len() as int));
    law_cell_of_a_signal(m, d.columns.len() as int, data, k);
    lemma_switch_is_last(signals, signals.len() as int);
    let cells = d.decoded(frame)->0;
    let shown = is_present(s, switch_value(m, data));
    if let MuxRole::Value(number) = s.mux {
        match m.switch {
            Some(def) => {
                let w = choose|w: int|
                    0 <= w < signals.len() && #[trigger] signals[w] == def && last_switch(
                        signals,
                        signals.len() as int,
                        w,
                    );
                assert forall|v: int| #[trigger]
                    last_switch(signals, signals.len() as int, v) implies v == w by {
                    if v < w {
                        assert(!(signals[w].mux is Switch));
                    } else if w < v {
                        assert(!(signals[v].mux is Switch));
                    }
                }
                if shown {
                    assert(last_switch(signals, signals.len() as int, w));
                }
            },
            None => {
                assert forall|v: int| !#[trigger] last_switch(
                    signals,
                    signals.len() as int,
                    v,
                ) by {}
            },
        }
    }
    if let Some(raw) = signal_raw(data, s) {
        assert(1 <= signals[k].length <= 64);
        law_numbers_fit_their_fields(data, s.byte_order, s.start_bit, s.length);
        law_decoded_number(raw, s);
        assert(shown == in_payload(signals, k, data));
        if shown {
            let cell = (c as usize, base_value(raw, s));
            assert(cells.contains(cell));
            let j = choose|j: int| 0 <= j < cells.len() && cells[j] == cell;
            assert(cells[j].0 == c);
        }
    }
}

/// A remote frame says nothing, nor does a frame that belongs to no message;
/// every other frame is decoded.
pub proof fn law_which_frames_are_decoded(d: DecoderModel, frame: FrameModel)
    ensures
        d.decoded(frame) is Some <==> !frame.is_remote && d.lookup(frame) is Some,
{
}

/// The parameter group number of an identifier is made of its 18 bits between
/// the source address (below) and the priority (above); where the format byte
/// is below 240 the lowest 8 of them are an address and count as zero.
pub proof fn law_pgn_of_parts(priority: int, page: int, format: int, specific: int, source: int)
    requires
        0 <= priority < 8,
        0 <= page < 4,
        0 <= format < 0x100,
        0 <= specific < 0x100,
        0 <= source < 0x100,
    ensures
        pgn(
            priority * 0x400_0000 + page * 0x100_0000 + format * 0x1_0000 + specific * 0x100
                + source,
        ) == page * 0x1_0000 + format * 0x100 + (if format < 240 {
            0
        } else {
            specific
        }),
{
    let group = page * 0x1_0000 + format * 0x100 + specific;
    lemma_pgn_of_parts(priority, group, source);
    assert(group / 0x100 == page * 0x100 + format);
    assert((page * 0x100 + format) % 0x100 == format);
    assert(group % 0x100 == specific);
}

proof fn lemma_bound_and_named(
    signals: Seq<SignalModel>,
    names: Seq<ColumnModel>,
    filter: Option<Seq<Seq<char>>>,
    base: int,
    n: int,
)
    requires
        0 <= n <= signals.len(),
        names.len() == signals.len(),
    ensures
        bound_signals(signals, names, filter, base, n).len() == selected_names(
            names,
            filter,
            n,
        ).len(),
        forall|p: int|
            0 <= p < selected_names(names, filter, n).len() ==> {
                let s = #[trigger] bound_signals(signals, names, filter, base, n)[p];
                &&& s.column == base + p
                &&& exists|k: int|
                    0 <= k < n && s.def == #[trigger] signals[k] && selected_names(
                        names,
                        filter,
                        n,
                    )[p] == names[k].name && selected(filter, names[k].name)
            },
    decreases n,
{
    if n > 0 {
        lemma_bound_and_named(signals, names, filter, base, n - 1);
        let before = bound_signals(signals, names, filter, base, n - 1);
        let after = bound_signals(signals, names, filter, base, n);
        let old_names = selected_names(names, filter, n - 1);
        let new_names = selected_names(names, filter, n);
        assert forall|p: int| 0 <= p < new_names.len() implies {
            let s = #[trigger] after[p];
            &&& s.column == base + p
            &&& exists|k: int|
                0 <= k < n && s.def == #[trigger] signals[k] && new_names[p] == names[k].name
                    && selected(filter, names[k].name)
        } by {
            if p < old_names.len() {
                assert(after[p] == before[p]);
                assert(new_names[p] == old_names[p]);
                let k = choose|k: int|
                    0 <= k < n - 1 && before[p].def == #[trigger] signals[k] && old_names[p]
                        == names[k].name && selected(filter, names[k].name);
                assert(after[p].def == signals[k]);
            } else {
                assert(after[p].def == signals[n - 1]);
            }
        }
    }
}

/// Whatever the filter, a signal that is output stands in a column with its
/// own name, factor and offset, and the filter names that column.
pub proof fn law_column_belongs_to_its_signal(
    messages: Seq<MessageModel>,
    options: OptionsModel,
    n: int,
    i: int,
    p: int,
)
    requires
        0 <= i < n <= messages.len(),
        0 <= p < bind(messages, options, n).messages[i].signals.len(),
    ensures
        ({
            let d = bind(messages, options, n);
            let s = d.messages[i].signals[p];
            &&& d.columns.len() == d.scales.len()
            &&& 0 <= s.column < d.columns.len()
            &&& messages[i].signals.contains(s.def)
            &&& d.columns[s.column] == column_name(
                messages,
                options.naming,
                messages[i].name,
                s.def,
            )
            &&& d.scales[s.column].factor == s.def.factor
            &&& d.scales[s.column].offset == s.def.offset
            &&& options.filter matches Some(names) ==> names.contains(d.columns[s.column])
        }),
    decreases n,
{
    lemma_bound_lengths(messages, options, n);
    lemma_bound_lengths(messages, options, n - 1);
    let d = bind(messages, options, n);
    let before = bind(messages, options, n - 1);
    if i < n - 1 {
        assert(d.messages[i] == before.messages[i]);
        law_column_belongs_to_its_signal(messages, options, n - 1, i, p);
    } else {
        let m = messages[n - 1];
        let names = message_columns(messages, options.naming, m);
        let base = before.columns.len() as int;
        let count = m.signals.len() as int;
        lemma_bound_and_named(m.signals, names, options.filter, base, count);
        let s = d.messages[i].signals[p];
        assert(s == bound_signals(m.signals, names, options.filter, base, count)[p]);
        let k = choose|k: int|
            0 <= k < count && s.def == #[trigger] m.signals[k] && selected_names(
                names,
                options.filter,
                count,
            )[p] == names[k].name && selected(options.filter, names[k].name);
        assert(m.signals.contains(m.signals[k]));
        assert(d.columns[base + p] == names[k].name);
    }
}

proof fn lemma_bound_lengths(messages: Seq<MessageModel>, options: OptionsModel, n: int)
    requires
        0 <= n <= messages.len(),
    ensures
        bind(messages, options, n).columns.len() == bind(messages, options, n).scales.len(),
        bind(messages, options, n).messages.len() == n,
    decreases n,
{
    if n > 0 {
        lemma_bound_lengths(messages, options, n - 1);
        let m = messages[n - 1];
        lemma_bound_and_named(
            m.signals,
            message_columns(messages, options.naming, m),
            options.filter,
            bind(messages, options, n - 1).columns.len() as int,
            m.signals.len() as int,
        );
    }
}

proof fn lemma_chosen_is_bound(
    signals: Seq<SignalModel>,
    names: Seq<ColumnModel>,
    filter: Option<Seq<Seq<char>>>,
    base: int,
    n: int,
    k: int,
)
    requires
        0 <= k < n <= signals.len(),
        names.len() == signals.len(),
        filter matches Some(chosen) ==> chosen.contains(names[k].name),
    ensures
        exists|p: int|
            0 <= p < bound_signals(signals, names, filter, base, n).len() && (
            #[trigger] bound_signals(signals, names, filter, base, n)[p]).def == signals[k],
    decreases n,
{
    let after = bound_signals(signals, names, filter, base, n);
    let before = bound_signals(signals, names, filter, base, n - 1);
    if k < n - 1 {
        lemma_chosen_is_bound(signals, names, filter, base, n - 1, k);
        let p = choose|p: int| 0 <= p < before.len() && (#[trigger] before[p]).def == signals[k];
        assert(after[p] == before[p]);
    } else {
        assert(after[before.len() as int].def == signals[k]);
    }
}

/// A signal is output if there is no filter, or if the filter names its
/// column.
pub proof fn law_chosen_signals_are_output(
    messages: Seq<MessageModel>,
    options: OptionsModel,
    n: int,
    i: int,
    k: int,
)
    requires
        0 <= i < n <= messages.len(),
        0 <= k < messages[i].signals.len(),
        options.filter matches Some(chosen) ==> chosen.contains(
            column_name(messages, options.naming, messages[i].name, messages[i].signals[k]),
        ),
    ensures
        ({
            let m = bind(messages, options, n).messages[i];
            exists|p: int|
                0 <= p < m.signals.len() && (#[trigger] m.signals[p]).def
                    == messages[i].signals[k]
        }),
{
    lemma_bound_message(messages, options, n, i);
    let m = messages[i];
    let names = message_columns(messages, options.naming, m);
    let base = bind(messages, options, i).columns.len() as int;
    let count = m.signals.len() as int;
    lemma_chosen_is_bound(m.signals, names, options.filter, base, count, k);
    let bound = bound_signals(m.signals, names, options.filter, base, count);
    let p = choose|p: int| 0 <= p < bound.len() && (#[trigger] bound[p]).def == m.signals[k];
    assert(bind(messages, options, n).messages[i].signals[p] == bound[p]);
}

} // verus!
