//! How long a cached prefix lives: reading and normalising `cache_control`.
//!
//! Times are counted in nanoseconds.

use vstd::prelude::*;
use vstd::string::StrSliceExecFns;

use crate::json;
use crate::json::{JsonModel, JsonValue, as_text};
use crate::text;
use crate::text::{eq_ignore_ascii_case, parse_unsigned, parse_whole, same, to_lowercase, trim};

verus! {

/// The nanoseconds in a second.
pub const SECOND: u128 = 1_000_000_000;

/// The life of a prefix where `cache_control` names none: five minutes.
pub const DEFAULT_PROMPT_CACHE_TTL: u128 = 300_000_000_000;

/// One hour.
pub const ONE_HOUR: u128 = 3_600_000_000_000;

/// The longest span that a `std::time::Duration` can hold.
pub const LONGEST_SPAN: u128 = 18_446_744_073_709_551_615_999_999_999;

/// Two to the power of 53: binary64 counts exactly up to here.
pub const EXACT_LIMIT: u64 = 9_007_199_254_740_992;

/// A decimal number that a TTL is written with, and the seconds in its unit. Its value
/// needs floating point.
#[derive(Debug)]
pub struct TtlQuery {
    pub text: String,
    pub unit_secs: u64,
}

/// The span that a decimal number and its unit stand for, measured in floating point:
/// the number read as binary64, times the seconds in the unit, rounded to nanoseconds;
/// `None` where the text is no number, or one that is not positive.
#[derive(Debug)]
pub struct TtlMeasure {
    pub text: String,
    pub unit_secs: u64,
    pub nanos: Option<u128>,
}

/// What a TTL value asks for.
#[derive(Debug)]
pub enum TtlReading {
    /// Nothing that can be read.
    Missing,
    /// A span.
    Exact(u128),
    /// The span that a decimal number and its unit stand for.
    Decimal(TtlQuery),
}

/// What a TTL value asks for, over texts as sequences.
pub enum TtlModel {
    Missing,
    Exact(nat),
    Decimal(Seq<char>, nat),
}

impl View for TtlReading {
    type V = TtlModel;

    open spec fn view(&self) -> TtlModel {
        match self {
            TtlReading::Missing => TtlModel::Missing,
            TtlReading::Exact(nanos) => TtlModel::Exact(*nanos as nat),
            TtlReading::Decimal(query) => TtlModel::Decimal(query.text@, query.unit_secs as nat),
        }
    }
}

/// What a number of units asks for. A whole number of seconds that binary64 counts
/// exactly is known at once.
pub open spec fn scaled(number: Seq<char>, unit_secs: nat) -> TtlModel {
    if text::all_digits(number) && text::number_of(number) == 0 {
        TtlModel::Missing
    } else if text::all_digits(number) && text::number_of(number) * unit_secs <= EXACT_LIMIT {
        TtlModel::Exact(text::number_of(number) * unit_secs * (SECOND as nat))
    } else {
        TtlModel::Decimal(number, unit_secs)
    }
}

/// What a trimmed, lowercased TTL text asks for: hours, minutes or seconds by its last
/// letter, else whole seconds.
pub open spec fn text_reading(lowered: Seq<char>) -> TtlModel {
    if lowered.len() == 0 {
        TtlModel::Missing
    } else if lowered.last() == 'h' {
        scaled(lowered.drop_last(), 3600)
    } else if lowered.last() == 'm' {
        scaled(lowered.drop_last(), 60)
    } else if lowered.last() == 's' {
        scaled(lowered.drop_last(), 1)
    } else {
        match text::unsigned_number(lowered, u64::MAX as nat) {
            Some(secs) => if secs > 0 {
                TtlModel::Exact(secs * (SECOND as nat))
            } else {
                TtlModel::Missing
            },
            None => TtlModel::Missing,
        }
    }
}

/// What a TTL value asks for.
pub open spec fn value_reading(json: JsonModel) -> TtlModel {
    match json {
        JsonModel::Text(text) => text_reading(text::lowercase(text::trimmed(text))),
        JsonModel::Number(text) => scaled(text, 1),
        _ => TtlModel::Missing,
    }
}

/// The measured span of a decimal number and its unit: that of the first entry for both.
pub open spec fn measured(measures: Seq<TtlMeasure>, text: Seq<char>, unit_secs: nat) -> Option<nat>
    decreases measures.len(),
{
    if measures.len() == 0 {
        None
    } else if measures[0].text@ == text && measures[0].unit_secs == unit_secs {
        span(measures[0].nanos)
    } else {
        measured(measures.drop_first(), text, unit_secs)
    }
}

/// An optional span, as a number.
pub open spec fn span(nanos: Option<u128>) -> Option<nat> {
    match nanos {
        Some(nanos) => Some(nanos as nat),
        None => None,
    }
}

/// The span that a reading comes to.
pub open spec fn resolved(reading: TtlModel, measures: Seq<TtlMeasure>) -> Option<nat> {
    match reading {
        TtlModel::Missing => None,
        TtlModel::Exact(nanos) => Some(nanos),
        TtlModel::Decimal(text, unit_secs) => measured(measures, text, unit_secs),
    }
}

/// The two lives that a prefix can have: five minutes, and one hour for anything longer;
/// none stays none.
pub open spec fn normalized(ttl: nat) -> nat {
    if ttl == 0 {
        0
    } else if ttl > DEFAULT_PROMPT_CACHE_TTL {
        ONE_HOUR as nat
    } else {
        DEFAULT_PROMPT_CACHE_TTL as nat
    }
}

/// Whether a cache control is an object of type `ephemeral`, in upper or lower case.
pub open spec fn control_is_ephemeral(control: JsonModel) -> bool {
    control is Object && text::ascii_lowered(
        match json::text_of(json::member(control, "type"@)) {
            Some(text) => text,
            None => ""@,
        },
    ) == text::ascii_lowered("ephemeral"@)
}

/// What an `ephemeral` cache control asks for.
pub open spec fn control_reading(control: Option<JsonModel>) -> TtlModel {
    match control {
        Some(control) => match json::member(control, "ttl"@) {
            Some(value) => if control_is_ephemeral(control) {
                value_reading(value)
            } else {
                TtlModel::Missing
            },
            None => TtlModel::Missing,
        },
        None => TtlModel::Missing,
    }
}

/// The life that a cache control gives to the prefix: none where it is not an object of
/// type `ephemeral`; else its TTL, five minutes where it names none, normalised.
pub open spec fn control_ttl(control: Option<JsonModel>, measures: Seq<TtlMeasure>) -> nat {
    match control {
        Some(json) => if control_is_ephemeral(json) {
            match resolved(control_reading(control), measures) {
                Some(ttl) => normalized(ttl),
                None => normalized(DEFAULT_PROMPT_CACHE_TTL as nat),
            }
        } else {
            0
        },
        None => 0,
    }
}

/// The life that the cache control inside a content block gives.
pub open spec fn block_ttl(block: JsonModel, measures: Seq<TtlMeasure>) -> nat {
    control_ttl(json::member(block, "cache_control"@), measures)
}

/// Reads a number of units.
fn read_scaled(number: &str, unit_secs: u64) -> (reading: TtlReading)
    requires
        1 <= unit_secs <= 3600,
    ensures
        reading@ == scaled(number@, unit_secs as nat),
{
    match parse_whole(number, EXACT_LIMIT) {
        Some(0) => TtlReading::Missing,
        Some(whole) => {
            proof {
                assert(whole * unit_secs <= EXACT_LIMIT * 3600) by (nonlinear_arith)
                    requires
                        whole <= EXACT_LIMIT,
                        unit_secs <= 3600,
                ;
            }
            let secs: u128 = (whole as u128) * (unit_secs as u128);
            if secs <= EXACT_LIMIT as u128 {
                TtlReading::Exact(secs * SECOND)
            } else {
                TtlReading::Decimal(TtlQuery { text: number.to_owned(), unit_secs })
            }
        },
        None => {
            proof {
                assert(text::all_digits(number@) ==> text::number_of(number@) * unit_secs > EXACT_LIMIT)
                    by (nonlinear_arith)
                    requires
                        unit_secs >= 1,
                        text::all_digits(number@) ==> text::number_of(number@) > EXACT_LIMIT,
                ;
            }
            TtlReading::Decimal(TtlQuery { text: number.to_owned(), unit_secs })
        },
    }
}

/// Reads a trimmed, lowercased TTL text.
pub fn read_ttl_text(lowered: &str) -> (reading: TtlReading)
    ensures
        reading@ == text_reading(lowered@),
{
    let length: usize = lowered.unicode_len();
    if length == 0 {
        return TtlReading::Missing;
    }
    let last: char = lowered.get_char(length - 1);
    let number: &str = lowered.substring_char(0, length - 1);
    proof {
        assert(number@ == lowered@.drop_last());
    }
    if last == 'h' {
        read_scaled(number, 3600)
    } else if last == 'm' {
        read_scaled(number, 60)
    } else if last == 's' {
        read_scaled(number, 1)
    } else {
        match parse_unsigned(lowered, u64::MAX) {
            Some(secs) => if secs > 0 {
                TtlReading::Exact((secs as u128) * SECOND)
            } else {
                TtlReading::Missing
            },
            None => TtlReading::Missing,
        }
    }
}

/// Reads a TTL value: a text such as `5m`, `1h`, `300s` or `300`, or a number of seconds.
pub fn read_ttl_value(value: &JsonValue) -> (reading: TtlReading)
    ensures
        reading@ == value_reading(value@),
{
    match value {
        JsonValue::Text(text) => {
            let lowered: String = to_lowercase(trim(text.as_str()));
            read_ttl_text(lowered.as_str())
        },
        JsonValue::Number(text) => read_scaled(text.as_str(), 1),
        _ => TtlReading::Missing,
    }
}

/// Looks up a measured span.
fn find_measure(measures: &Vec<TtlMeasure>, query: &TtlQuery) -> (nanos: Option<u128>)
    ensures
        span(nanos) == measured(measures@, query.text@, query.unit_secs as nat),
{
    let mut i: usize = 0;
    proof {
        assert(measures@.skip(0) == measures@);
    }
    while i < measures.len()
        invariant
            i <= measures.len(),
            measured(measures@.skip(i as int), query.text@, query.unit_secs as nat) == measured(
                measures@,
                query.text@,
                query.unit_secs as nat,
            ),
        decreases measures.len() - i,
    {
        if same(measures[i].text.as_str(), query.text.as_str()) && measures[i].unit_secs
            == query.unit_secs {
            return measures[i].nanos;
        }
        proof {
            assert(measures@.skip(i as int).drop_first() == measures@.skip(i + 1));
        }
        i += 1;
    }
    None
}

/// Whether a list of measured spans has an entry for a decimal number and its unit.
pub open spec fn listed(measures: Seq<TtlMeasure>, text: Seq<char>, unit_secs: nat) -> bool {
    exists|i: int| 0 <= i < measures.len() && entry_for(#[trigger] measures[i], text, unit_secs)
}

/// Whether a measured span is that of a decimal number and its unit.
pub open spec fn entry_for(measure: TtlMeasure, text: Seq<char>, unit_secs: nat) -> bool {
    measure.text@ == text && measure.unit_secs == unit_secs
}

/// Whether a list of measured spans has an entry for each of a row of queries.
pub open spec fn all_listed(measures: Seq<TtlMeasure>, queries: Seq<(Seq<char>, nat)>) -> bool {
    forall|i: int|
        0 <= i < queries.len() ==> listed(measures, (#[trigger] queries[i]).0, queries[i].1)
}

/// Whether a list of measured spans has an entry for a query.
fn has_measure(measures: &Vec<TtlMeasure>, query: &TtlQuery) -> (found: bool)
    ensures
        found == listed(measures@, query.text@, query.unit_secs as nat),
{
    let mut i: usize = 0;
    while i < measures.len()
        invariant
            i <= measures.len(),
            forall|k: int|
                0 <= k < i ==> !entry_for(
                    #[trigger] measures@[k],
                    query.text@,
                    query.unit_secs as nat,
                ),
        decreases measures.len() - i,
    {
        if same(measures[i].text.as_str(), query.text.as_str()) && measures[i].unit_secs
            == query.unit_secs {
            assert(entry_for(measures@[i as int], query.text@, query.unit_secs as nat));
            return true;
        }
        i += 1;
    }
    false
}

/// Whether a list of measured spans has an entry for each of a list of queries.
pub fn has_measures(measures: &Vec<TtlMeasure>, queries: &Vec<TtlQuery>) -> (found: bool)
    ensures
        found == all_listed(measures@, queries_view(queries@)),
{
    let ghost asked = queries_view(queries@);
    let mut i: usize = 0;
    while i < queries.len()
        invariant
            i <= queries.len(),
            asked == queries_view(queries@),
            forall|k: int| 0 <= k < i ==> listed(measures@, (#[trigger] asked[k]).0, asked[k].1),
        decreases queries.len() - i,
    {
        proof {
            assert(asked[i as int] == (queries@[i as int].text@, queries@[i as int].unit_secs as nat));
        }
        if !has_measure(measures, &queries[i]) {
            return false;
        }
        i += 1;
    }
    true
}

/// Reads a TTL value, with the measured spans of decimal numbers at hand.
pub fn parse_ttl_value(value: &JsonValue, measures: &Vec<TtlMeasure>) -> (ttl: Option<u128>)
    ensures
        span(ttl) == resolved(value_reading(value@), measures@),
{
    match read_ttl_value(value) {
        TtlReading::Missing => None,
        TtlReading::Exact(nanos) => Some(nanos),
        TtlReading::Decimal(query) => find_measure(measures, &query),
    }
}

/// Normalises a life to five minutes or one hour.
pub fn normalize_ttl(ttl: u128) -> (normal: u128)
    ensures
        normal == normalized(ttl as nat),
{
    if ttl == 0 {
        return 0;
    }
    if ttl > DEFAULT_PROMPT_CACHE_TTL {
        return ONE_HOUR;
    }
    DEFAULT_PROMPT_CACHE_TTL
}

/// Whether a cache control is an object of type `ephemeral`.
fn is_ephemeral(control: &JsonValue) -> (b: bool)
    ensures
        b == control_is_ephemeral(control@),
{
    match control {
        JsonValue::Object(_) => {
            let kind: &str = match as_text(control.get("type")) {
                Some(kind) => kind,
                None => "",
            };
            eq_ignore_ascii_case(kind, "ephemeral")
        },
        _ => false,
    }
}

/// Finds the life that a cache control gives.
pub fn extract_cache_ttl_from_control(
    cache_control: Option<&JsonValue>,
    measures: &Vec<TtlMeasure>,
) -> (ttl: u128)
    ensures
        ttl == control_ttl(json::borrowed_model(cache_control), measures@),
{
    match cache_control {
        Some(control) => {
            if !is_ephemeral(control) {
                return 0;
            }
            let parsed: Option<u128> = match control.get("ttl") {
                Some(value) => parse_ttl_value(value, measures),
                None => None,
            };
            match parsed {
                Some(ttl) => normalize_ttl(ttl),
                None => normalize_ttl(DEFAULT_PROMPT_CACHE_TTL),
            }
        },
        None => 0,
    }
}

/// Finds the life that the cache control inside a content block gives.
pub fn extract_cache_ttl(block: &JsonValue, measures: &Vec<TtlMeasure>) -> (ttl: u128)
    ensures
        ttl == block_ttl(block@, measures@),
{
    extract_cache_ttl_from_control(block.get("cache_control"), measures)
}

/// The query that a cache control leaves to floating point.
pub open spec fn control_query(control: Option<JsonModel>) -> Seq<(Seq<char>, nat)> {
    match control_reading(control) {
        TtlModel::Decimal(text, unit_secs) => seq![(text, unit_secs)],
        _ => Seq::empty(),
    }
}

/// A list of queries, over texts as sequences.
pub open spec fn queries_view(queries: Seq<TtlQuery>) -> Seq<(Seq<char>, nat)> {
    queries.map_values(|query: TtlQuery| (query.text@, query.unit_secs as nat))
}

/// Lists the query that a cache control leaves to floating point, where it does.
pub fn push_control_query(queries: &mut Vec<TtlQuery>, cache_control: Option<&JsonValue>)
    ensures
        queries_view(final(queries)@) == queries_view(old(queries)@) + control_query(
            json::borrowed_model(cache_control),
        ),
{
    let ghost before = queries@;
    proof {
        assert(queries_view(before) == queries_view(before) + Seq::<(Seq<char>, nat)>::empty());
    }
    if let Some(control) = cache_control {
        if is_ephemeral(control) {
            if let Some(value) = control.get("ttl") {
                if let TtlReading::Decimal(query) = read_ttl_value(value) {
                    queries.push(query);
                    proof {
                        assert(queries_view(queries@) == queries_view(before) + seq![
                            (query.text@, query.unit_secs as nat),
                        ]);
                    }
                }
            }
        }
    }
}

/// Every life is none, five minutes or one hour.
pub proof fn law_two_lives(control: Option<JsonModel>, measures: Seq<TtlMeasure>)
    ensures
        control_ttl(control, measures) == 0 || control_ttl(control, measures)
            == DEFAULT_PROMPT_CACHE_TTL || control_ttl(control, measures) == ONE_HOUR,
{
}

/// A life depends on the measured spans only through the query that its cache control
/// leaves to floating point.
pub proof fn law_queries_suffice(
    control: Option<JsonModel>,
    a: Seq<TtlMeasure>,
    b: Seq<TtlMeasure>,
)
    requires
        forall|i: int|
            0 <= i < control_query(control).len() ==> {
                let query = #[trigger] control_query(control)[i];
                measured(a, query.0, query.1) == measured(b, query.0, query.1)
            },
    ensures
        control_ttl(control, a) == control_ttl(control, b),
{
    if let TtlModel::Decimal(text, unit_secs) = control_reading(control) {
        assert(control_query(control)[0] == (text, unit_secs));
    }
}

/// A decimal number that is listed has the span of the first entry for it, and more entries
/// behind do not change that.
pub proof fn law_first_entry_counts(
    measures: Seq<TtlMeasure>,
    more: Seq<TtlMeasure>,
    text: Seq<char>,
    unit_secs: nat,
)
    requires
        listed(measures, text, unit_secs),
    ensures
        measured(measures + more, text, unit_secs) == measured(measures, text, unit_secs),
        exists|i: int|
            0 <= i < measures.len() && entry_for(#[trigger] measures[i], text, unit_secs)
                && measured(measures, text, unit_secs) == span(measures[i].nanos) && forall|k: int|
                0 <= k < i ==> !entry_for(#[trigger] measures[k], text, unit_secs),
    decreases measures.len(),
{
    let both = measures + more;
    assert(both[0] == measures[0]);
    if entry_for(measures[0], text, unit_secs) {
        assert(measured(measures, text, unit_secs) == span(measures[0].nanos));
    } else {
        let rest = measures.drop_first();
        assert(both.drop_first() == rest + more);
        let at = choose|i: int|
            0 <= i < measures.len() && entry_for(#[trigger] measures[i], text, unit_secs);
        assert(rest[at - 1] == measures[at]);
        law_first_entry_counts(rest, more, text, unit_secs);
        let i = choose|i: int|
            0 <= i < rest.len() && entry_for(#[trigger] rest[i], text, unit_secs) && measured(
                rest,
                text,
                unit_secs,
            ) == span(rest[i].nanos) && forall|k: int|
                0 <= k < i ==> !entry_for(#[trigger] rest[k], text, unit_secs);
        assert(measures[i + 1] == rest[i]);
        assert forall|k: int| 0 <= k < i + 1 implies !entry_for(
            #[trigger] measures[k],
            text,
            unit_secs,
        ) by {
            if k > 0 {
                assert(rest[k - 1] == measures[k]);
            }
        }
    }
}

/// Where the decimal number of a cache control is listed, the life is that of the first
/// entry for it. It is five minutes for want of a span only where that entry says that the
/// number has none.
pub proof fn law_listed_decimals_have_their_span(control: JsonModel, measures: Seq<TtlMeasure>)
    requires
        control_reading(Some(control)) is Decimal,
        all_listed(measures, control_query(Some(control))),
    ensures
        ({
            let text = control_reading(Some(control))->Decimal_0;
            let unit_secs = control_reading(Some(control))->Decimal_1;
            exists|i: int|
                0 <= i < measures.len() && entry_for(#[trigger] measures[i], text, unit_secs)
                    && control_ttl(Some(control), measures) == (match measures[i].nanos {
                    Some(nanos) => normalized(nanos as nat),
                    None => DEFAULT_PROMPT_CACHE_TTL as nat,
                })
        }),
{
    let text = control_reading(Some(control))->Decimal_0;
    let unit_secs = control_reading(Some(control))->Decimal_1;
    assert(control_query(Some(control))[0] == (text, unit_secs));
    law_first_entry_counts(measures, Seq::empty(), text, unit_secs);
    let i = choose|i: int|
        0 <= i < measures.len() && entry_for(#[trigger] measures[i], text, unit_secs) && measured(
            measures,
            text,
            unit_secs,
        ) == span(measures[i].nanos) && forall|k: int|
            0 <= k < i ==> !entry_for(#[trigger] measures[k], text, unit_secs);
    assert(entry_for(measures[i], text, unit_secs));
}

/// Every life is none, five minutes or one hour: a span of none gives none, one of up to
/// five minutes gives five minutes, a longer one gives one hour.
pub proof fn law_spans_become_lives(ttl: nat)
    ensures
        ttl == 0 ==> normalized(ttl) == 0,
        0 < ttl <= 300_000_000_000 ==> normalized(ttl) == 300_000_000_000,
        ttl > 300_000_000_000 ==> normalized(ttl) == 3_600_000_000_000,
{
}

/// A number of units is its number of seconds where it is decimal digits that binary64
/// counts exactly, and asks for nothing where it is zero; any other text is left to
/// floating point as it is written.
pub proof fn law_whole_numbers_are_exact(number: Seq<char>, unit_secs: nat)
    ensures
        ({
            let whole = number.len() > 0 && forall|i: int|
                0 <= i < number.len() ==> '0' <= #[trigger] number[i] <= '9';
            let secs = text::number_of(number) * unit_secs;
            &&& whole && text::number_of(number) == 0 ==> scaled(number, unit_secs) is Missing
            &&& whole && text::number_of(number) > 0 && secs <= 9_007_199_254_740_992 ==> scaled(
                number,
                unit_secs,
            ) == TtlModel::Exact(secs * 1_000_000_000)
            &&& !whole || (text::number_of(number) > 0 && secs > 9_007_199_254_740_992) ==> scaled(
                number,
                unit_secs,
            ) == TtlModel::Decimal(number, unit_secs)
        }),
{
    if text::all_digits(number) {
        assert forall|i: int| 0 <= i < number.len() implies '0' <= #[trigger] number[i] <= '9' by {
            assert(text::digit(number[i]));
        }
    }
}

/// The last letter of a TTL text is its unit: `h` for 3600 seconds, `m` for 60, `s` for one.
/// A text that ends with none of them is whole seconds, if they are a number above zero that
/// 64 bits hold; the empty text asks for nothing.
pub proof fn law_the_last_letter_is_the_unit(number: Seq<char>, last: char)
    ensures
        text_reading(number.push('h')) == scaled(number, 3600),
        text_reading(number.push('m')) == scaled(number, 60),
        text_reading(number.push('s')) == scaled(number, 1),
        text_reading(Seq::empty()) is Missing,
        last != 'h' && last != 'm' && last != 's' ==> {
            let secs = text::unsigned_number(number.push(last), 0xffff_ffff_ffff_ffff);
            if secs is Some && secs->0 > 0 {
                text_reading(number.push(last)) == TtlModel::Exact(secs->0 * 1_000_000_000)
            } else {
                text_reading(number.push(last)) is Missing
            }
        },
{
    assert(number.push('h').drop_last() =~= number);
    assert(number.push('m').drop_last() =~= number);
    assert(number.push('s').drop_last() =~= number);
}

/// A TTL is a text, read without the white space around it and in lower case, or a number of
/// seconds; nothing else is one.
pub proof fn law_texts_and_numbers_are_read(json: JsonModel)
    ensures
        json is Text ==> value_reading(json) == text_reading(
            text::lowercase(text::trimmed(json->Text_0)),
        ),
        json is Number ==> value_reading(json) == scaled(json->Number_0, 1),
        !(json is Text) && !(json is Number) ==> value_reading(json) is Missing,
{
}

/// A cache control gives a life exactly where it is an object whose `type` is a text that is
/// `ephemeral` in some case. The life is that of its `ttl`, and five minutes where it has
/// none that can be read.
pub proof fn law_ephemeral_controls_give_a_life(
    control: JsonModel,
    measures: Seq<TtlMeasure>,
)
    ensures
        control_ttl(None, measures) == 0,
        ({
            let kind = json::member(control, "type"@);
            let ephemeral = control is Object && kind is Some && kind->0 is Text
                && text::ascii_lowered(kind->0->Text_0) == text::ascii_lowered("ephemeral"@);
            let ttl = json::member(control, "ttl"@);
            let life = control_ttl(Some(control), measures);
            &&& !ephemeral ==> life == 0
            &&& ephemeral && ttl is None ==> life == 300_000_000_000
            &&& ephemeral && ttl is Some ==> match value_reading(ttl->0) {
                TtlModel::Missing => life == 300_000_000_000,
                TtlModel::Exact(nanos) => life == normalized(nanos),
                TtlModel::Decimal(text, unit_secs) => match measured(measures, text, unit_secs) {
                    Some(nanos) => life == normalized(nanos),
                    None => life == 300_000_000_000,
                },
            }
        }),
        forall|block: JsonModel| #[trigger]
            block_ttl(block, measures) == control_ttl(
                json::member(block, "cache_control"@),
                measures,
            ),
{
    reveal_strlit("");
    reveal_strlit("ephemeral");
    assert(text::ascii_lowered(""@).len() == 0);
    assert(text::ascii_lowered("ephemeral"@).len() == 9);
}

/// A decimal number that no entry is for has no measured span, and a cache control leaves a
/// query to floating point exactly where it is ephemeral and its `ttl` is a decimal number.
pub proof fn law_queries_are_the_decimals(
    control: JsonModel,
    measures: Seq<TtlMeasure>,
    text: Seq<char>,
    unit_secs: nat,
)
    ensures
        (forall|i: int|
            0 <= i < measures.len() ==> (#[trigger] measures[i]).text@ != text
                || measures[i].unit_secs != unit_secs) ==> measured(measures, text, unit_secs)
            is None,
        ({
            let kind = json::member(control, "type"@);
            let ephemeral = control is Object && kind is Some && kind->0 is Text
                && text::ascii_lowered(kind->0->Text_0) == text::ascii_lowered("ephemeral"@);
            let ttl = json::member(control, "ttl"@);
            let query = control_query(Some(control));
            &&& ephemeral && ttl is Some && value_reading(ttl->0) is Decimal ==> query.len() == 1
                && query[0] == (
                value_reading(ttl->0)->Decimal_0,
                value_reading(ttl->0)->Decimal_1,
            )
            &&& !(ephemeral && ttl is Some && value_reading(ttl->0) is Decimal) ==> query.len() == 0
        }),
        control_query(None).len() == 0,
    decreases measures.len(),
{
    reveal_strlit("");
    reveal_strlit("ephemeral");
    assert(text::ascii_lowered(""@).len() == 0);
    assert(text::ascii_lowered("ephemeral"@).len() == 9);
    if measures.len() > 0 && forall|i: int|
        0 <= i < measures.len() ==> (#[trigger] measures[i]).text@ != text || measures[i].unit_secs
            != unit_secs {
        let rest = measures.drop_first();
        assert forall|i: int| 0 <= i < rest.len() implies (#[trigger] rest[i]).text@ != text
            || rest[i].unit_secs != unit_secs by {
            assert(rest[i] == measures[i + 1]);
        }
        law_queries_are_the_decimals(control, rest, text, unit_secs);
        assert(measures[0].text@ != text || measures[0].unit_secs != unit_secs);
    }
}

/// A decimal number is listed where some entry has its text and its unit, and a row of
/// queries where each of them is; queries, readings and spans are seen as they are.
pub proof fn law_entries_go_by_text_and_unit(
    measures: Seq<TtlMeasure>,
    queries: Seq<TtlQuery>,
    text: Seq<char>,
    unit_secs: nat,
    reading: TtlReading,
    nanos: u128,
)
    ensures
        listed(measures, text, unit_secs) <==> exists|k: int|
            0 <= k < measures.len() && (#[trigger] measures[k]).text@ == text
                && measures[k].unit_secs == unit_secs,
        all_listed(measures, queries_view(queries)) <==> forall|i: int|
            0 <= i < queries.len() ==> listed(
                measures,
                (#[trigger] queries[i]).text@,
                queries[i].unit_secs as nat,
            ),
        queries_view(queries).len() == queries.len(),
        forall|i: int|
            0 <= i < queries.len() ==> #[trigger] queries_view(queries)[i] == (
                queries[i].text@,
                queries[i].unit_secs as nat,
            ),
        reading matches TtlReading::Exact(n) ==> reading@ == TtlModel::Exact(n as nat),
        reading matches TtlReading::Decimal(query) ==> reading@ == TtlModel::Decimal(
            query.text@,
            query.unit_secs as nat,
        ),
        reading is Missing ==> reading@ is Missing,
        span(Some(nanos)) == Some(nanos as nat),
        span(None) is None,
{
    let seen = queries_view(queries);
    if exists|k: int|
        0 <= k < measures.len() && (#[trigger] measures[k]).text@ == text && measures[k].unit_secs
            == unit_secs {
        let k = choose|k: int|
            0 <= k < measures.len() && (#[trigger] measures[k]).text@ == text
                && measures[k].unit_secs == unit_secs;
        assert(entry_for(measures[k], text, unit_secs));
    }
    if all_listed(measures, seen) {
        assert forall|i: int| 0 <= i < queries.len() implies listed(
            measures,
            (#[trigger] queries[i]).text@,
            queries[i].unit_secs as nat,
        ) by {
            assert(listed(measures, seen[i].0, seen[i].1));
        }
    }
    if forall|i: int|
        0 <= i < queries.len() ==> listed(
            measures,
            (#[trigger] queries[i]).text@,
            queries[i].unit_secs as nat,
        ) {
        assert forall|i: int| 0 <= i < seen.len() implies listed(
            measures,
            (#[trigger] seen[i]).0,
            seen[i].1,
        ) by {
            assert(listed(measures, queries[i].text@, queries[i].unit_secs as nat));
        }
    }
}

/// A reading comes to the span that it names, to the measured one of its decimal number, or
/// to none.
pub proof fn law_readings_come_to_their_span(reading: TtlModel, measures: Seq<TtlMeasure>)
    ensures
        reading is Missing ==> resolved(reading, measures) is None,
        reading matches TtlModel::Exact(nanos) ==> resolved(reading, measures) == Some(nanos),
        reading matches TtlModel::Decimal(text, unit_secs) ==> resolved(reading, measures)
            == measured(measures, text, unit_secs),
{
}

}
