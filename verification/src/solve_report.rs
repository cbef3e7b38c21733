//! What the solver can say of a step it took.

use crate::json_value::{
    json_array, json_holds, json_insert, json_null, json_number, json_object, json_string,
    models_of, JsonModel,
};
use json::JsonValue;
use vstd::prelude::*;

verus! {

/// One thing the solver did, with the digit and the coordinates it concerns.
#[derive(Clone, Copy, Debug, PartialEq, Eq)]
pub enum Message {
    Found(u64),
    Tried(u8, usize, usize),
    GaveUp,
    CanContainOnly(u8, usize, usize),
    NumberOnlyFitsInCol(u8, usize),
    NumberOnlyFitsInRow(u8, usize),
    NumberOnlyFitsInBlock(u8, usize, usize),
}

/// A recorded step: the message, what to highlight, and the board's literal
/// at that moment.
#[derive(Debug, PartialEq, Eq)]
pub struct ReportStep<const SIZE: usize, const BLOCK_SIZE: usize> {
    pub message: Message,
    pub highlight_row: Option<u8>,
    pub highlight_col: Option<u8>,
    pub highlight_block: Option<[u8; 2]>,
    pub literal: String,
}

/// A recorded step as contracts see it.
pub struct StepView {
    pub message: Message,
    pub highlight_row: Option<u8>,
    pub highlight_col: Option<u8>,
    pub highlight_block: Option<(u8, u8)>,
    pub literal: Seq<char>,
}

impl<const SIZE: usize, const BLOCK_SIZE: usize> Clone for ReportStep<SIZE, BLOCK_SIZE> {
    fn clone(&self) -> (r: Self)
        ensures
            r@ == self@,
    {
        ReportStep {
            message: self.message,
            highlight_row: self.highlight_row,
            highlight_col: self.highlight_col,
            highlight_block: self.highlight_block,
            literal: self.literal.clone(),
        }
    }
}

impl<const SIZE: usize, const BLOCK_SIZE: usize> View for ReportStep<SIZE, BLOCK_SIZE> {
    type V = StepView;

    open spec fn view(&self) -> StepView {
        StepView {
            message: self.message,
            highlight_row: self.highlight_row,
            highlight_col: self.highlight_col,
            highlight_block: match self.highlight_block {
                Some(pair) => Some((pair@[0], pair@[1])),
                None => None,
            },
            literal: self.literal@,
        }
    }
}

/// An entry of a JSON object.
pub open spec fn entry(key: &str, value: JsonModel) -> (Seq<char>, JsonModel) {
    (key@, value)
}

/// The JSON string with the characters of `s`.
pub open spec fn text_model(s: &str) -> JsonModel {
    JsonModel::Text(s@)
}

/// The JSON number of an optional index, `null` where there is none.
pub open spec fn index_model(index: Option<u8>) -> JsonModel {
    match index {
        Some(i) => JsonModel::Number(i as int),
        None => JsonModel::Null,
    }
}

/// The JSON array of the two coordinates of a block, `null` where there is none.
pub open spec fn block_model(block: Option<(u8, u8)>) -> JsonModel {
    match block {
        Some((row, col)) => JsonModel::Array(
            seq![JsonModel::Number(row as int), JsonModel::Number(col as int)],
        ),
        None => JsonModel::Null,
    }
}

/// The keys that the objects of this module use differ from one another.
pub proof fn lemma_keys_differ()
    ensures
        "t"@ != "ms"@,
        "t"@ != "num"@,
        "t"@ != "row"@,
        "t"@ != "col"@,
        "num"@ != "row"@,
        "num"@ != "col"@,
        "row"@ != "col"@,
        "message"@ != "highlightRow"@,
        "message"@ != "highlightCol"@,
        "message"@ != "highlightBlock"@,
        "message"@ != "literal"@,
        "highlightRow"@ != "highlightCol"@,
        "highlightRow"@ != "highlightBlock"@,
        "highlightRow"@ != "literal"@,
        "highlightCol"@ != "highlightBlock"@,
        "highlightCol"@ != "literal"@,
        "highlightBlock"@ != "literal"@,
        "type"@ != "value"@,
{
    reveal_strlit("t");
    reveal_strlit("ms");
    reveal_strlit("num");
    reveal_strlit("row");
    reveal_strlit("col");
    reveal_strlit("message");
    reveal_strlit("highlightRow");
    reveal_strlit("highlightCol");
    reveal_strlit("highlightBlock");
    reveal_strlit("literal");
    reveal_strlit("type");
    reveal_strlit("value");
    assert("t"@.len() == 1);
    assert("type"@.len() == 4);
    assert("message"@[0] != "literal"@[0]);
    assert("highlightRow"@[9] != "highlightCol"@[9]);
    assert("num"@[0] != "row"@[0]);
}

/// An object with one entry, a string under `key`.
pub(crate) fn tagged(key: &str, tag: &str) -> (r: JsonValue)
    ensures
        json_holds(r) == JsonModel::Object(seq![entry(key, text_model(tag))]),
{
    let mut object = json_object();
    json_insert(&mut object, key, json_string(tag));
    object
}

/// Adds an entry to an object that has none under `key`.
pub(crate) fn put(object: &mut JsonValue, key: &str, item: JsonValue)
    requires
        json_holds(*old(object)) is Object,
        forall|i: int|
            0 <= i < json_holds(*old(object))->Object_0.len() ==> (#[trigger] json_holds(
                *old(object),
            )->Object_0[i]).0 != key@,
    ensures
        json_holds(*final(object)) == JsonModel::Object(
            json_holds(*old(object))->Object_0.push((key@, json_holds(item))),
        ),
{
    json_insert(object, key, item);
}

/// The JSON number of an optional index, `null` where there is none.
pub(crate) fn index_value(index: Option<u8>) -> (r: JsonValue)
    ensures
        json_holds(r) == index_model(index),
{
    match index {
        Some(i) => json_number(i as u64),
        None => json_null(),
    }
}

/// The JSON array of two numbers.
pub(crate) fn pair_value(first: u64, second: u64) -> (r: JsonValue)
    ensures
        json_holds(r) == JsonModel::Array(
            seq![JsonModel::Number(first as int), JsonModel::Number(second as int)],
        ),
{
    let mut items: Vec<JsonValue> = Vec::new();
    items.push(json_number(first));
    items.push(json_number(second));
    let r = json_array(items);
    assert(models_of(items@) =~= seq![
        JsonModel::Number(first as int),
        JsonModel::Number(second as int),
    ]);
    r
}

impl Message {
    /// The JSON object of a message: its kind under `t`, then its operands.
    pub open spec fn model(self) -> JsonModel {
        match self {
            Message::Found(ms) => JsonModel::Object(
                seq![entry("t", text_model("found")), entry("ms", JsonModel::Number(ms as int))],
            ),
            Message::Tried(num, row, col) => JsonModel::Object(
                seq![
                    entry("t", text_model("tried")),
                    entry("num", JsonModel::Number(num as int)),
                    entry("row", JsonModel::Number(row as int)),
                    entry("col", JsonModel::Number(col as int)),
                ],
            ),
            Message::GaveUp => JsonModel::Object(seq![entry("t", text_model("gaveUp"))]),
            Message::CanContainOnly(num, row, col) => JsonModel::Object(
                seq![
                    entry("t", text_model("canContainOnly")),
                    entry("num", JsonModel::Number(num as int)),
                    entry("row", JsonModel::Number(row as int)),
                    entry("col", JsonModel::Number(col as int)),
                ],
            ),
            Message::NumberOnlyFitsInRow(num, row) => JsonModel::Object(
                seq![
                    entry("t", text_model("numberOnlyFitsInRow")),
                    entry("num", JsonModel::Number(num as int)),
                    entry("row", JsonModel::Number(row as int)),
                ],
            ),
            Message::NumberOnlyFitsInCol(num, col) => JsonModel::Object(
                seq![
                    entry("t", text_model("numberOnlyFitsInCol")),
                    entry("num", JsonModel::Number(num as int)),
                    entry("col", JsonModel::Number(col as int)),
                ],
            ),
            Message::NumberOnlyFitsInBlock(num, row, col) => JsonModel::Object(
                seq![
                    entry("t", text_model("numberOnlyFitsInBlock")),
                    entry("num", JsonModel::Number(num as int)),
                    entry("row", JsonModel::Number(row as int)),
                    entry("col", JsonModel::Number(col as int)),
                ],
            ),
        }
    }

    /// An object with the kind of a message and a digit.
    fn kind_and_digit(kind: &str, num: u8) -> (r: JsonValue)
        ensures
            json_holds(r) == JsonModel::Object(
                seq![entry("t", text_model(kind)), entry("num", JsonModel::Number(num as int))],
            ),
    {
        proof {
            lemma_keys_differ();
        }
        let mut object = tagged("t", kind);
        put(&mut object, "num", json_number(num as u64));
        assert(seq![entry("t", text_model(kind))].push(entry("num", JsonModel::Number(num as int)))
            =~= seq![entry("t", text_model(kind)), entry("num", JsonModel::Number(num as int))]);
        object
    }

    /// The JSON object of the message.
    pub fn to_object(self) -> (r: JsonValue)
        ensures
            json_holds(r) == self.model(),
    {
        proof {
            lemma_keys_differ();
        }
        match self {
            Message::Found(ms) => {
                let mut object = tagged("t", "found");
                put(&mut object, "ms", json_number(ms));
                assert(json_holds(object)->Object_0 =~= self.model()->Object_0);
                object
            },
            Message::Tried(num, row, col) => {
                let mut object = Self::kind_and_digit("tried", num);
                put(&mut object, "row", json_number(row as u64));
                put(&mut object, "col", json_number(col as u64));
                assert(json_holds(object)->Object_0 =~= self.model()->Object_0);
                object
            },
            Message::GaveUp => tagged("t", "gaveUp"),
            Message::CanContainOnly(num, row, col) => {
                let mut object = Self::kind_and_digit("canContainOnly", num);
                put(&mut object, "row", json_number(row as u64));
                put(&mut object, "col", json_number(col as u64));
                assert(json_holds(object)->Object_0 =~= self.model()->Object_0);
                object
            },
            Message::NumberOnlyFitsInRow(num, row) => {
                let mut object = Self::kind_and_digit("numberOnlyFitsInRow", num);
                put(&mut object, "row", json_number(row as u64));
                assert(json_holds(object)->Object_0 =~= self.model()->Object_0);
                object
            },
            Message::NumberOnlyFitsInCol(num, col) => {
                let mut object = Self::kind_and_digit("numberOnlyFitsInCol", num);
                put(&mut object, "col", json_number(col as u64));
                assert(json_holds(object)->Object_0 =~= self.model()->Object_0);
                object
            },
            Message::NumberOnlyFitsInBlock(num, row, col) => {
                let mut object = Self::kind_and_digit("numberOnlyFitsInBlock", num);
                put(&mut object, "row", json_number(row as u64));
                put(&mut object, "col", json_number(col as u64));
                assert(json_holds(object)->Object_0 =~= self.model()->Object_0);
                object
            },
        }
    }
}

/// The JSON object of an entry of a report: a message, what to highlight
/// and the literal of a board.
pub open spec fn report_entry(
    message: JsonModel,
    highlight_row: JsonModel,
    highlight_col: JsonModel,
    highlight_block: JsonModel,
    literal: Seq<char>,
) -> JsonModel {
    JsonModel::Object(
        seq![
            entry("message", message),
            entry("highlightRow", highlight_row),
            entry("highlightCol", highlight_col),
            entry("highlightBlock", highlight_block),
            entry("literal", JsonModel::Text(literal)),
        ],
    )
}

/// The JSON object of a recorded step.
pub open spec fn step_model(step: StepView) -> JsonModel {
    report_entry(
        step.message.model(),
        index_model(step.highlight_row),
        index_model(step.highlight_col),
        block_model(step.highlight_block),
        step.literal,
    )
}

/// Builds the JSON object of an entry of a report.
pub(crate) fn report_object(
    message: JsonValue,
    highlight_row: JsonValue,
    highlight_col: JsonValue,
    highlight_block: JsonValue,
    literal: &str,
) -> (r: JsonValue)
    ensures
        json_holds(r) == report_entry(
            json_holds(message),
            json_holds(highlight_row),
            json_holds(highlight_col),
            json_holds(highlight_block),
            literal@,
        ),
{
    proof {
        lemma_keys_differ();
    }
    let mut object = json_object();
    json_insert(&mut object, "message", message);
    put(&mut object, "highlightRow", highlight_row);
    put(&mut object, "highlightCol", highlight_col);
    put(&mut object, "highlightBlock", highlight_block);
    put(&mut object, "literal", json_string(literal));
    assert(json_holds(object)->Object_0 =~= report_entry(
        json_holds(message),
        json_holds(highlight_row),
        json_holds(highlight_col),
        json_holds(highlight_block),
        literal@,
    )->Object_0);
    object
}

impl<const SIZE: usize, const BLOCK_SIZE: usize> ReportStep<SIZE, BLOCK_SIZE> {
    /// The JSON object of the step.
    pub fn to_object(&self) -> (r: JsonValue)
        ensures
            json_holds(r) == step_model(self@),
    {
        let block = match self.highlight_block {
            Some(pair) => pair_value(pair[0] as u64, pair[1] as u64),
            None => json_null(),
        };
        report_object(
            self.message.to_object(),
            index_value(self.highlight_row),
            index_value(self.highlight_col),
            block,
            self.literal.as_str(),
        )
    }
}

} // verus!
