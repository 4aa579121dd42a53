//! What holds of the reading of a database as a whole.

use crate::dbc::{
    apply_value_type, apply_value_types, database, last_message, lemma_last_message, parse_line,
    parse_lines, parse_start, DbcError, DbcModel, MessageModel, ParseState, SignalModel, ValueTypeModel,
};
use crate::lexer::{contains_text, first_index, has_prefix, lemma_first_index, trimmed};
use vstd::prelude::*;

verus! {

/// A database is read line by line: what a line adds depends on what the
/// lines before it have added, and an error names the line it is in.
pub proof fn law_lines_are_read_in_order(
    st: ParseState,
    line: Seq<char>,
    rest: Seq<char>,
    lineno: int,
)
    requires
        !line.contains('\n'),
    ensures
        parse_lines(st, line + seq!['\n'] + rest, lineno) == (match parse_line(st, line) {
            Err(error) => Err::<ParseState, DbcError>(DbcError { line: lineno as usize, error }),
            Ok(next) => parse_lines(next, rest, lineno + 1),
        }),
{
    let text = line + seq!['\n'] + rest;
    let end = line.len() as int;
    assert forall|j: int| 0 <= j < end implies #[trigger] text[j] != '\n' by {
        assert(text[j] == line[j]);
    }
    assert(text[end] == '\n');
    lemma_first_index(text, '\n', end);
    assert(first_index(text, '\n') == end);
    assert(text.take(end) =~= line);
    assert(text.skip(end + 1) =~= rest);
}

/// Signals of the pseudo-message are passed over, whatever they say.
pub proof fn law_orphan_signals_are_passed_over(st: ParseState, line: Seq<char>)
    requires
        st.orphans,
        has_prefix(trimmed(line), "SG_ "@),
    ensures
        parse_line(st, line) == Ok::<ParseState, crate::dbc::LineError>(st),
{
    reveal_strlit("SG_ ");
    reveal_strlit("BO_ ");
    let l = trimmed(line);
    assert(l.take(4)[0] == 'S');
    if has_prefix(l, "BO_ "@) {
        assert(l.take(4)[0] == 'B');
    }
}

/// Two signals that differ in their value types alone.
pub open spec fn same_but_type(a: SignalModel, b: SignalModel) -> bool {
    b == (SignalModel { value_type: b.value_type, ..a })
}

/// Two messages that differ in the value types of their signals alone.
pub open spec fn same_but_types(a: MessageModel, b: MessageModel) -> bool {
    &&& b == (MessageModel { signals: b.signals, ..a })
    &&& a.signals.len() == b.signals.len()
    &&& forall|i: int|
        0 <= i < a.signals.len() ==> same_but_type(#[trigger] a.signals[i], b.signals[i])
}

/// Value types change the value types of signals and nothing else.
pub proof fn law_value_types_change_types_only(
    messages: Seq<MessageModel>,
    value_types: Seq<ValueTypeModel>,
)
    ensures
        ({
            let after = apply_value_types(messages, value_types);
            &&& after.len() == messages.len()
            &&& forall|i: int|
                0 <= i < messages.len() ==> same_but_types(#[trigger] messages[i], after[i])
        }),
    decreases value_types.len(),
{
    if value_types.len() > 0 {
        let before = apply_value_types(messages, value_types.drop_last());
        let v = value_types.last();
        let after = apply_value_type(before, v);
        law_value_types_change_types_only(messages, value_types.drop_last());
        lemma_last_message(before, v.raw_id);
        assert forall|i: int| 0 <= i < messages.len() implies same_but_types(
            #[trigger] messages[i],
            after[i],
        ) by {
            assert(same_but_types(messages[i], before[i]));
            if last_message(before, v.raw_id) == Some(i) {
                assert forall|k: int| 0 <= k < messages[i].signals.len() implies same_but_type(
                    #[trigger] messages[i].signals[k],
                    after[i].signals[k],
                ) by {
                    assert(same_but_type(messages[i].signals[k], before[i].signals[k]));
                }
            }
        }
    }
}

/// The last line needs no line feed behind it.
pub proof fn law_last_line(st: ParseState, line: Seq<char>, lineno: int)
    requires
        !line.contains('\n'),
    ensures
        parse_lines(st, line, lineno) == (match parse_line(st, line) {
            Err(error) => Err::<ParseState, DbcError>(DbcError { line: lineno as usize, error }),
            Ok(next) => Ok(next),
        }),
{
    assert forall|j: int| 0 <= j < line.len() implies #[trigger] line[j] != '\n' by {}
    lemma_first_index(line, '\n', line.len() as int);
    assert(line.take(line.len() as int) =~= line);
}

/// A database is read from nothing, line by line from number 0 on. Value types
/// are given to the messages that all lines together declare, one after the
/// other, the first one first. It is a J1939 one exactly if the text holds
/// that word.
pub proof fn law_database_is_made_of_its_lines(text: Seq<char>)
    ensures
        parse_start().messages.len() == 0 && parse_start().value_types.len() == 0
            && !parse_start().orphans,
        match parse_lines(parse_start(), text, 0) {
            Ok(st) => {
                &&& database(text) matches Ok(dbc)
                &&& dbc.messages == apply_value_types(st.messages, st.value_types)
                &&& dbc.j1939_hint <==> exists|at: int|
                    0 <= at && at + 5 <= text.len() && (#[trigger] text[at]) == 'J' && text[at + 1]
                        == '1' && text[at + 2] == '9' && text[at + 3] == '3' && text[at + 4] == '9'
            },
            Err(e) => database(text) == Err::<DbcModel, DbcError>(e),
        },
{
    reveal_strlit("J1939");
    let word = seq!['J', '1', '9', '3', '9'];
    assert("J1939"@ =~= word);
    assert forall|at: int| 0 <= at && at + 5 <= text.len() implies (#[trigger] text.subrange(
        at,
        at + 5,
    ) == word) == (text[at] == 'J' && text[at + 1] == '1' && text[at + 2] == '9' && text[at + 3]
        == '3' && text[at + 4] == '9') by {
        let part = text.subrange(at, at + 5);
        assert(part[0] == text[at] && part[1] == text[at + 1] && part[2] == text[at + 2] && part[3]
            == text[at + 3] && part[4] == text[at + 4]);
        assert(word[0] == 'J' && word[1] == '1' && word[2] == '9' && word[3] == '3' && word[4]
            == '9');
        if text[at] == 'J' && text[at + 1] == '1' && text[at + 2] == '9' && text[at + 3] == '3'
            && text[at + 4] == '9' {
            assert(part =~= word);
        }
    }
    if contains_text(text, word) {
        let at = choose|at: int|
            0 <= at && at + word.len() <= text.len() && #[trigger] text.subrange(
                at,
                at + word.len(),
            ) == word;
        assert(text.subrange(at, at + 5) == word);
        assert(text[at] == 'J');
    }
    if exists|at: int|
        0 <= at && at + 5 <= text.len() && (#[trigger] text[at]) == 'J' && text[at + 1] == '1'
            && text[at + 2] == '9' && text[at + 3] == '3' && text[at + 4] == '9' {
        let at = choose|at: int|
            0 <= at && at + 5 <= text.len() && (#[trigger] text[at]) == 'J' && text[at + 1] == '1'
                && text[at + 2] == '9' && text[at + 3] == '3' && text[at + 4] == '9';
        assert(text.subrange(at, at + 5) == word);
        assert(text.subrange(at, at + word.len()) == word);
    }
}

/// One more value type is given to the messages as the others have left them.
pub proof fn law_value_types_are_given_in_order(
    messages: Seq<MessageModel>,
    value_types: Seq<ValueTypeModel>,
    v: ValueTypeModel,
)
    ensures
        apply_value_types(messages, Seq::empty()) == messages,
        apply_value_types(messages, value_types.push(v)) == apply_value_type(
            apply_value_types(messages, value_types),
            v,
        ),
{
    assert(value_types.push(v).drop_last() =~= value_types);
}

} // verus!
