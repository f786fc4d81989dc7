use vstd::prelude::*;

verus! {

/// One normalized event of the token stream.
#[derive(Debug, Clone, PartialEq, Eq)]
pub enum JsonTokenOwned {
    /// The start of an object, a.k.a. '{'
    StartObject,
    /// The end of an object, a.k.a. '}'
    EndObject,
    /// The start of an array, a.k.a. '['
    StartArray,
    /// The end of an array, a.k.a. ']'
    EndArray,
    /// The token 'null'
    JsNull,
    /// Either 'true' or 'false'
    JsBoolean(bool),
    /// A number, unparsed, i.e. '-123.456e-789'
    JsNumber(String),
    /// A JSON string in a value context.
    JsString(String),
    /// A JSON string in the context of a key in a JSON object.
    JsKey(String),
    /// The input is exhausted.
    JsEof,
}

/// What the materializer looks for: the key that switches retention on, and the
/// field and text that make a completed object a match.
pub struct Config {
    pub retention_trigger_key: String,
    pub predicate_field_key: String,
    pub predicate_target: String,
    /// When set, only retained objects can match; otherwise every completed object is
    /// tested, retained or not.
    pub predicate_requires_retention: bool,
    /// How many containers may be open at once; one more is a fatal error.
    pub max_depth: u64,
    /// Every this many events the source is told the running counts; 0 turns it off.
    pub progress_interval: u64,
}

impl Config {
    /// The default configuration: retain under `in_network`, match objects whose
    /// `billing_code_type` is `CPT` whether retained or not, report every million
    /// events, allow 1024 nested containers.
    pub fn new() -> (r: Config)
        ensures
            r.retention_trigger_key@ == "in_network"@,
            r.predicate_field_key@ == "billing_code_type"@,
            r.predicate_target@ == "CPT"@,
            !r.predicate_requires_retention,
            r.progress_interval == 1_000_000,
            r.max_depth == 1024,
    {
        Config {
            retention_trigger_key: "in_network".to_owned(),
            predicate_field_key: "billing_code_type".to_owned(),
            predicate_target: "CPT".to_owned(),
            predicate_requires_retention: false,
            max_depth: 1024,
            progress_interval: 1_000_000,
        }
    }
}

/// A fatal failure of a parse.
#[derive(Debug, Clone, PartialEq, Eq)]
pub enum ParseError {
    /// The token source could not produce the next event (malformed bytes, I/O).
    Lexical(String),
    /// An event stood where the grammar does not allow it.
    Protocol,
    /// The event counter reached its largest value.
    CounterOverflow,
    /// Containers were nested deeper than the configured limit.
    DepthExceeded,
}

/// The producer of events, implemented by the caller over a real tokenizer.
///
/// Nothing is assumed of what it returns: every contract of the materializer speaks
/// of the events loaded into the cursor, which are the source's answers when the
/// cursor is advanced with `State::next_token`.
pub trait TokenSource {
    /// The next event, `JsEof` once the input is exhausted, or a lexical error.
    fn next_event(&mut self) -> Result<JsonTokenOwned, String>;

    /// Told the number of events consumed and the running match count.
    fn report_progress(&mut self, events: u64, matches: u64);
}

} // verus!
