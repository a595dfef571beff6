//! What holds of every loading, with the strict reading and without it.

use crate::chars::is_white;
use crate::combining::lemma_fenced_object;
use crate::gaps::all_white;
use crate::grammar::{duplicate_key_reason, repaired, several_values_reason, Failure};
use crate::keys::{
    distinct_throughout, lemma_repeated_key, lemma_settled, lemma_well_formed_parts, numbers_fit,
    repeated_key, settled,
};
use crate::laws::{
    is_duplicate_reason, lemma_blank_text_has_no_value, lemma_lenient_repair_refuses_nothing,
    lemma_refused_text_is_repaired_otherwise, lemma_strict_repair_only_refuses,
    lemma_strict_repair_reasons,
};
use crate::plain::{is_plain, lemma_plain_text_is_repaired_to_itself};
use crate::prose::is_fence;
use crate::quoting::all_blank;
use crate::repair::{key_repeated_in, loaded, RepairOptions};
use crate::standard::{
    lemma_words_start, number_end, read_number, read_text, read_value, skip_blank,
};
use crate::steps::lemma_no_json_value;
use crate::strict::{
    depth, doubles_read_back, is_readable, lemma_written_text_is_read_back, reads_back,
    strict_value,
};
use crate::value::Json;
use crate::writer::rendered;
use vstd::prelude::*;

verus! {

/// The same options with strict mode on or off.
pub open spec fn with_strict(options: RepairOptions, strict: bool) -> RepairOptions {
    RepairOptions { strict, ..options }
}

/// What strict mode accepts is what the same options give without it.
pub proof fn lemma_strict_loading_only_refuses(input: Seq<char>, options: RepairOptions)
    ensures
        loaded(input, with_strict(options, true)) == loaded(input, with_strict(options, false))
            || loaded(input, with_strict(options, true)) matches Err(Failure::Strict(_)),
{
    lemma_strict_repair_only_refuses(input);
}

/// What strict mode refuses is loaded without it.
pub proof fn lemma_refused_text_is_loaded_otherwise(input: Seq<char>, options: RepairOptions)
    requires
        loaded(input, with_strict(options, true)) matches Err(Failure::Strict(_)),
    ensures
        loaded(input, with_strict(options, false)) is Ok,
{
    if options.skip_json_loads || strict_value(input) is None {
        lemma_refused_text_is_repaired_otherwise(input);
    }
}

/// A text is refused in strict mode alone, for a repeated key or for several values.
pub proof fn lemma_loading_reasons(input: Seq<char>, options: RepairOptions)
    ensures
        loaded(input, options) matches Err(Failure::Strict(reason)) ==> options.strict && (reason
            == several_values_reason() || is_duplicate_reason(reason)),
{
    lemma_lenient_repair_refuses_nothing(input);
    lemma_strict_repair_reasons(input);
    if let Some(key) = key_repeated_in(input) {
        assert(is_duplicate_reason(duplicate_key_reason(key)));
    }
}

/// A JSON text whose value is read back is loaded as that value, in strict mode too, whatever
/// the space around its tokens and the escapes in its strings.
pub proof fn lemma_json_is_loaded_as_it_is(input: Seq<char>, v: Json, options: RepairOptions)
    requires
        !options.skip_json_loads,
        read_text(input) == Some(v),
        reads_back(v),
    ensures
        loaded(input, options) == Ok::<Json, Failure>(v),
{
    lemma_well_formed_parts(v);
    lemma_repeated_key(v);
    lemma_settled(v);
}

/// A JSON text that repeats a key is refused in strict mode, and loaded with the last value of
/// the key without it.
pub proof fn lemma_json_that_repeats_a_key(input: Seq<char>, v: Json, options: RepairOptions)
    requires
        !options.skip_json_loads,
        read_text(input) == Some(v),
        is_readable(v),
        repeated_key(v) is Some,
    ensures
        options.strict ==> loaded(input, options) == Err::<Json, Failure>(
            Failure::Strict(duplicate_key_reason(repeated_key(v)->0)),
        ),
        !options.strict ==> loaded(input, options) == Ok::<Json, Failure>(settled(v)),
{
}

proof fn lemma_skip_blank_in(s: Seq<char>, i: int)
    requires
        0 <= i <= s.len(),
    ensures
        i <= skip_blank(s, i) <= s.len(),
    decreases s.len() - i,
{
    if i < s.len() {
        lemma_skip_blank_in(s, i + 1);
    }
}

/// A text of whitespace alone loads nothing, whatever the options.
pub proof fn lemma_blank_text_loads_nothing(input: Seq<char>, options: RepairOptions)
    requires
        forall|k: int| 0 <= k < input.len() ==> is_white(#[trigger] input[k]),
    ensures
        loaded(input, options) == Err::<Json, Failure>(Failure::Empty),
{
    lemma_blank_text_has_no_value(input, options.strict);
    lemma_skip_blank_in(input, 0);
    let i = skip_blank(input, 0);
    if i < input.len() {
        assert(is_white(input[i]));
        assert(number_end(input, i) == i);
        assert(input.subrange(i, i) =~= Seq::empty());
        assert(read_number(Seq::empty()) is None);
        lemma_words_start(input, i);
        assert(read_value(input, i) is None);
    }
}

/// What is no JSON is repaired, and so is any text if the strict reading is ruled out.
pub proof fn lemma_what_is_no_json_is_repaired(input: Seq<char>, options: RepairOptions)
    requires
        options.skip_json_loads || read_text(input) is None,
    ensures
        loaded(input, options) == repaired(input, options.strict),
{
}

/// How the text is written does not matter for what is loaded.
pub proof fn lemma_loading_is_independent_of_writing(input: Seq<char>, options: RepairOptions)
    ensures
        loaded(input, RepairOptions { ensure_ascii: !options.ensure_ascii, ..options }) == loaded(
            input,
            options,
        ),
{
}

proof fn lemma_plain_reads_back(v: Json)
    requires
        is_plain(v),
    ensures
        numbers_fit(v),
        distinct_throughout(v),
        doubles_read_back(v),
    decreases v,
{
    match v {
        Json::Array(items) => {
            assert forall|k: int| 0 <= k < items.len() implies numbers_fit(#[trigger] items[k])
                && distinct_throughout(items[k]) && doubles_read_back(items[k]) by {
                lemma_plain_reads_back(items[k]);
            }
        },
        Json::Object(members) => {
            assert forall|k: int| 0 <= k < members.len() implies numbers_fit(
                (#[trigger] members[k]).1,
            ) && distinct_throughout(members[k].1) && doubles_read_back(members[k].1) by {
                assert(decreases_to!(members => members[k]));
                assert(decreases_to!(members[k] => members[k].1));
                lemma_plain_reads_back(members[k].1);
            }
        },
        _ => {},
    }
}

/// A plain object or array that is written is loaded as it is, whatever the options: the strict
/// reading and the repair agree on it.
pub proof fn lemma_plain_text_is_loaded_as_it_is(v: Json, options: RepairOptions)
    requires
        is_plain(v),
        v is Object || v is Array,
        depth(v) <= 127,
    ensures
        loaded(rendered(v, false), options) == Ok::<Json, Failure>(v),
{
    let text = rendered(v, false);
    lemma_plain_text_is_repaired_to_itself(v, options.strict);
    lemma_plain_reads_back(v);
    lemma_well_formed_parts(v);
    lemma_written_text_is_read_back(v, text);
}

/// A plain object in a code fence is loaded whatever the options.
pub proof fn lemma_fenced_object_is_loaded(
    ticks: Seq<char>,
    language: Seq<char>,
    before: Seq<char>,
    m: Seq<(Seq<char>, Json)>,
    after: Seq<char>,
    closing: Seq<char>,
    rest: Seq<char>,
    options: RepairOptions,
)
    requires
        is_fence(ticks, language),
        all_blank(before),
        is_plain(Json::Object(m)),
        all_white(after),
        forall|k: int| 0 <= k < closing.len() ==> #[trigger] closing[k] == '`',
        all_blank(rest),
    ensures
        loaded(
            ticks + language + (before + (rendered(Json::Object(m), false) + (after + closing
                + rest))),
            options,
        ) == Ok::<Json, Failure>(Json::Object(m)),
{
    let none = Seq::<char>::empty();
    let text = ticks + language + (before + (rendered(Json::Object(m), false) + (after + closing
        + rest)));
    lemma_fenced_object(
        none,
        ticks,
        language,
        before,
        m,
        after,
        closing,
        rest,
        options.strict,
    );
    assert(none + text =~= text);
    assert(text[0] == ticks[0]);
    assert(skip_blank(text, 0) == 0);
    lemma_no_json_value(text, 0, Seq::empty());
}

} // verus!
