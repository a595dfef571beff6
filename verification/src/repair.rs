//! Repair and parse.

use crate::cursor::Parser;
use crate::error::RepairError;
use crate::grammar::{duplicate_key_reason, repaired, Failure};
use crate::keys::{find_repeated_key, repeated_key};
use crate::parser::duplicate_key;
use crate::reader::read_json;
use crate::text::chars_of;
use crate::laws::{lemma_lenient_repair_refuses_nothing, lemma_repair_is_well_formed};
use crate::standard::{lemma_escaped_text_is_ascii, lemma_written_text_is_json, read_text};
use crate::strict::{
    lemma_written_text_is_read_back, reads_back, strict_document, strict_loads, strict_value,
};
use crate::value::{well_formed, Json, JsonValue};
use crate::writer::{is_written, rendered, to_json_string};
use vstd::prelude::*;

verus! {

/// Options controlling repair and serialization behavior.
#[derive(Clone, Copy, Debug)]
pub struct RepairOptions {
    /// Skip the initial strict fast path and run the repair parser immediately.
    pub skip_json_loads: bool,
    /// Reject duplicate keys and multiple top-level JSON values instead of repairing them.
    pub strict: bool,
    /// Escape non-ASCII characters when serializing repaired JSON, matching Python's
    /// `json.dumps(..., ensure_ascii=True)` default.
    pub ensure_ascii: bool,
}

/// The options that apply where none are given.
pub open spec fn default_options() -> RepairOptions {
    RepairOptions { skip_json_loads: false, strict: false, ensure_ascii: true }
}

impl Default for RepairOptions {
    fn default() -> (r: RepairOptions)
        ensures
            r == default_options(),
    {
        RepairOptions { skip_json_loads: false, strict: false, ensure_ascii: true }
    }
}

/// What a result stands for.
pub open spec fn load_view(r: Result<JsonValue, RepairError>) -> Result<Json, Failure> {
    match r {
        Ok(v) => Ok(v@),
        Err(e) => Err(e@),
    }
}

/// What a text result stands for.
pub open spec fn text_view(r: Result<String, RepairError>) -> Result<Seq<char>, Failure> {
    match r {
        Ok(text) => Ok(text@),
        Err(e) => Err(e@),
    }
}

/// The key that is the first to come a second time in a JSON text.
pub open spec fn key_repeated_in(text: Seq<char>) -> Option<Seq<char>> {
    match read_text(text) {
        Some(v) => repeated_key(v),
        None => None,
    }
}

/// What a text is loaded as, given the document that it is by the strict reading: the document,
/// which strict mode refuses if the text repeats a key, or else the repair of the text.
pub open spec fn loaded_given(
    document: Option<Json>,
    input: Seq<char>,
    strict: bool,
) -> Result<Json, Failure> {
    match document {
        Some(v) => match key_repeated_in(input) {
            Some(key) if strict => Err(Failure::Strict(duplicate_key_reason(key))),
            _ => Ok(v),
        },
        None => repaired(input, strict),
    }
}

/// What a text is loaded as. The strict reading comes first, unless the options rule it out.
pub open spec fn loaded(input: Seq<char>, options: RepairOptions) -> Result<Json, Failure> {
    loaded_given(
        if options.skip_json_loads {
            None
        } else {
            strict_value(input)
        },
        input,
        options.strict,
    )
}

/// The text of what was loaded.
pub open spec fn written(value: Result<Json, Failure>, ensure_ascii: bool) -> Result<
    Seq<char>,
    Failure,
> {
    match value {
        Ok(v) => Ok(rendered(v, ensure_ascii)),
        Err(e) => Err(e),
    }
}

/// Whether a text is JSON that writes the given value, in ASCII alone if that is asked for.
pub open spec fn is_json_of(
    text: Seq<char>,
    value: Result<Json, Failure>,
    ensure_ascii: bool,
) -> bool {
    &&& value matches Ok(v) && read_text(text) == Some(v)
    &&& ensure_ascii ==> forall|i: int| 0 <= i < text.len() ==> #[trigger] text[i] <= '\u{7f}'
}

/// Repair and parse a text, given the document that it is by the strict reading.
pub fn loads_given(document: Option<JsonValue>, input: &str, strict: bool) -> (r: Result<
    JsonValue,
    RepairError,
>)
    ensures
        load_view(r) == loaded_given(
            match document {
                Some(v) => Some(v@),
                None => None,
            },
            input@,
            strict,
        ),
        (document matches Some(v) ==> well_formed(v@)) ==> (r matches Ok(v) ==> well_formed(v@)),
{
    proof {
        lemma_repair_is_well_formed(input@, strict);
    }
    match document {
        Some(v) => {
            if strict {
                match read_json(input) {
                    Some(all) => match find_repeated_key(&all) {
                        Some(key) => {
                            return Err(duplicate_key(&chars_of(key.as_str())));
                        },
                        None => {},
                    },
                    None => {},
                }
            }
            Ok(v)
        },
        None => {
            let mut parser = Parser::new(input, strict);
            parser.parse_top_level()
        },
    }
}

/// Repair and parse a text with explicit options. It fails if no value can be recovered from
/// the text, or if strict mode refuses it.
pub fn loads_with_options(input: &str, options: RepairOptions) -> (r: Result<
    JsonValue,
    RepairError,
>)
    ensures
        load_view(r) == loaded(input@, options),
        r matches Ok(v) ==> well_formed(v@),
        !options.skip_json_loads && !(options.strict && key_repeated_in(input@) is Some) ==> (
        strict_document(input@) matches Some(v) ==> load_view(r) == Ok::<Json, Failure>(v)),
        !options.skip_json_loads ==> forall|v: Json|
            reads_back(v) && #[trigger] is_written(v, input@) ==> load_view(r) == Ok::<
                Json,
                Failure,
            >(v),
{
    let document = if !options.skip_json_loads {
        strict_loads(input)
    } else {
        None
    };
    proof {
        let text = input@;
        assert forall|v: Json| reads_back(v) && #[trigger] is_written(v, text) implies strict_value(
            text,
        ) == Some(v) && key_repeated_in(text) is None by {
            lemma_written_text_is_read_back(v, input@);
        }
    }
    loads_given(document, input, options.strict)
}

/// Repair and parse a text. It fails if no value can be recovered from the text.
pub fn loads(input: &str) -> (r: Result<JsonValue, RepairError>)
    ensures
        load_view(r) == loaded(input@, default_options()),
        r matches Ok(v) ==> well_formed(v@),
        r matches Err(e) ==> e@ == Failure::Empty,
        forall|v: Json|
            reads_back(v) && #[trigger] is_written(v, input@) ==> load_view(r) == Ok::<
                Json,
                Failure,
            >(v),
{
    proof {
        lemma_lenient_repair_refuses_nothing(input@);
    }
    loads_with_options(input, RepairOptions::default())
}

/// Repair a text with explicit options and return a serialized JSON document. It fails where
/// [`loads_with_options`] does.
pub fn repair_json_with_options(input: &str, options: RepairOptions) -> (r: Result<
    String,
    RepairError,
>)
    ensures
        text_view(r) == written(loaded(input@, options), options.ensure_ascii),
        r matches Ok(text) ==> is_json_of(
            text@,
            loaded(input@, options),
            options.ensure_ascii,
        ),
        !options.skip_json_loads ==> forall|v: Json|
            reads_back(v) && #[trigger] is_written(v, input@) ==> text_view(r) == Ok::<
                Seq<char>,
                Failure,
            >(rendered(v, options.ensure_ascii)),
{
    match loads_with_options(input, options) {
        Ok(value) => {
            proof {
                lemma_written_text_is_json(value@, options.ensure_ascii);
                let escaped = rendered(value@, true);
                assert forall|i: int| 0 <= i < escaped.len() implies #[trigger] escaped[i]
                    <= '\u{7f}' by {
                    lemma_escaped_text_is_ascii(value@, i);
                }
            }
            Ok(to_json_string(&value, options.ensure_ascii))
        },
        Err(e) => Err(e),
    }
}

/// Repair a text and return a serialized JSON document. It fails where [`loads`] does.
pub fn repair_json(input: &str) -> (r: Result<String, RepairError>)
    ensures
        text_view(r) == written(loaded(input@, default_options()), true),
        r matches Ok(text) ==> is_json_of(text@, loaded(input@, default_options()), true),
        r matches Err(e) ==> e@ == Failure::Empty,
        forall|v: Json|
            reads_back(v) && #[trigger] is_written(v, input@) ==> text_view(r) == Ok::<
                Seq<char>,
                Failure,
            >(rendered(v, true)),
{
    proof {
        lemma_lenient_repair_refuses_nothing(input@);
    }
    repair_json_with_options(input, RepairOptions::default())
}

} // verus!
