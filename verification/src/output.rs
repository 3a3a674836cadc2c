use vstd::prelude::*;
use crate::json::{str_eq, JsonValue};
use vstd::std_specs::iter::IteratorSpec;

verus! {

/// The abstract value of an [`Effort`]: the level, with a custom level
/// carried as its wire text.
pub enum EffortLevel {
    Low,
    Medium,
    High,
    XHigh,
    Max,
    Custom(Seq<char>),
}

impl EffortLevel {
    /// The wire string of a level.
    pub open spec fn wire(self) -> Seq<char> {
        match self {
            EffortLevel::Low => "low"@,
            EffortLevel::Medium => "medium"@,
            EffortLevel::High => "high"@,
            EffortLevel::XHigh => "xhigh"@,
            EffortLevel::Max => "max"@,
            EffortLevel::Custom(s) => s,
        }
    }
}

/// How eagerly the model spends tokens.
#[derive(Clone, Debug, PartialEq, Eq, PartialOrd, Ord, Hash)]
#[non_exhaustive]
pub enum Effort {
    /// Most efficient: significant token savings with some capability
    /// reduction.
    Low,
    /// Balanced token savings.
    Medium,
    /// High capability; the API default.
    High,
    /// Extended capability for long-horizon work.
    XHigh,
    /// Absolute maximum capability.
    Max,
    /// A level this crate does not know; it round-trips over the wire.
    Custom(String),
}

impl View for Effort {
    type V = EffortLevel;

    open spec fn view(&self) -> EffortLevel {
        match self {
            Effort::Low => EffortLevel::Low,
            Effort::Medium => EffortLevel::Medium,
            Effort::High => EffortLevel::High,
            Effort::XHigh => EffortLevel::XHigh,
            Effort::Max => EffortLevel::Max,
            Effort::Custom(s) => EffortLevel::Custom(s@),
        }
    }
}

/// The level that a wire string names: one of the five known levels, or
/// a custom level carrying the string itself.
pub open spec fn effort_from_wire(s: Seq<char>) -> EffortLevel {
    if s == "low"@ {
        EffortLevel::Low
    } else if s == "medium"@ {
        EffortLevel::Medium
    } else if s == "high"@ {
        EffortLevel::High
    } else if s == "xhigh"@ {
        EffortLevel::XHigh
    } else if s == "max"@ {
        EffortLevel::Max
    } else {
        EffortLevel::Custom(s)
    }
}

impl From<String> for Effort {
    /// Reads a wire string: a known name gives its level, anything else a
    /// custom level holding the string.
    fn from(s: String) -> (r: Effort)
        ensures
            r@ == effort_from_wire(s@),
    {
        if str_eq(s.as_str(), "low") {
            Effort::Low
        } else if str_eq(s.as_str(), "medium") {
            Effort::Medium
        } else if str_eq(s.as_str(), "high") {
            Effort::High
        } else if str_eq(s.as_str(), "xhigh") {
            Effort::XHigh
        } else if str_eq(s.as_str(), "max") {
            Effort::Max
        } else {
            Effort::Custom(s)
        }
    }
}

impl vstd::std_specs::convert::FromSpecImpl<String> for Effort {
    open spec fn obeys_from_spec() -> bool {
        true
    }

    open spec fn from_spec(s: String) -> Effort {
        if s@ == "low"@ {
            Effort::Low
        } else if s@ == "medium"@ {
            Effort::Medium
        } else if s@ == "high"@ {
            Effort::High
        } else if s@ == "xhigh"@ {
            Effort::XHigh
        } else if s@ == "max"@ {
            Effort::Max
        } else {
            Effort::Custom(s)
        }
    }
}

/// A `&str` is read through the conversion from `String`. A custom level
/// holds a fresh copy of the text, which no spec value can name, so the
/// level that comes out is stated over views in the `ensures` of `from`
/// rather than by `from_spec`.
impl vstd::std_specs::convert::FromSpecImpl<&str> for Effort {
    open spec fn obeys_from_spec() -> bool {
        false
    }

    open spec fn from_spec(s: &str) -> Effort {
        vstd::pervasive::arbitrary()
    }
}

impl From<&str> for Effort {
    /// Reads a wire string, as the conversion from `String` does.
    fn from(s: &str) -> (r: Effort)
        ensures
            r@ == effort_from_wire(s@),
    {
        Effort::from(s.to_owned())
    }
}

impl Effort {
    /// The wire string for this level, e.g. `"xhigh"`.
    pub fn as_str(&self) -> (r: &str)
        ensures
            r@ == self@.wire(),
    {
        match self {
            Effort::Low => "low",
            Effort::Medium => "medium",
            Effort::High => "high",
            Effort::XHigh => "xhigh",
            Effort::Max => "max",
            Effort::Custom(s) => s.as_str(),
        }
    }
}

/// Whether a string is the wire name of one of the five known levels.
pub open spec fn is_known_wire(s: Seq<char>) -> bool {
    s == "low"@ || s == "medium"@ || s == "high"@ || s == "xhigh"@ || s == "max"@
}

/// Reading a wire string and writing the level back gives the string again,
/// whatever the string: levels round-trip over the wire.
pub proof fn lemma_wire_round_trip(s: Seq<char>)
    ensures
        effort_from_wire(s).wire() == s,
{
}

/// Writing a level and reading it back gives the level again, except for a
/// custom level that carries one of the known names (it reads back as that
/// known level).
pub proof fn lemma_level_round_trip(level: EffortLevel)
    requires
        !(level is Custom && is_known_wire(level->Custom_0)),
    ensures
        effort_from_wire(level.wire()) == level,
{
    reveal_strlit("low");
    reveal_strlit("medium");
    reveal_strlit("high");
    reveal_strlit("xhigh");
    reveal_strlit("max");
    assert("low"@.len() == 3);
    assert("medium"@.len() == 6);
    assert("high"@.len() == 4);
    assert("xhigh"@.len() == 5);
    assert("max"@.len() == 3);
    assert("low"@[0] != "max"@[0]);
}

/// Payload of [`OutputFormat::JsonSchema`]: the JSON Schema to enforce.
#[derive(Clone, Debug, PartialEq)]
#[non_exhaustive]
pub struct JsonSchemaFormat {
    /// The JSON Schema to enforce.
    pub schema: JsonValue,
}

/// Format the response must conform to.
#[derive(Clone, Debug, PartialEq)]
#[non_exhaustive]
pub enum OutputFormat {
    /// Constrain output to a JSON Schema.
    JsonSchema(JsonSchemaFormat),
}

impl OutputFormat {
    /// Whether this is the JSON Schema format.
    pub fn is_json_schema(&self) -> (r: bool)
        ensures
            r == (self is JsonSchema),
    {
        match self {
            OutputFormat::JsonSchema(_) => true,
        }
    }
}

impl From<JsonSchemaFormat> for OutputFormat {
    fn from(format: JsonSchemaFormat) -> (r: OutputFormat) {
        OutputFormat::JsonSchema(format)
    }
}

impl vstd::std_specs::convert::FromSpecImpl<JsonSchemaFormat> for OutputFormat {
    open spec fn obeys_from_spec() -> bool {
        true
    }

    open spec fn from_spec(format: JsonSchemaFormat) -> OutputFormat {
        OutputFormat::JsonSchema(format)
    }
}

impl From<JsonValue> for JsonSchemaFormat {
    fn from(schema: JsonValue) -> (r: JsonSchemaFormat) {
        JsonSchemaFormat { schema }
    }
}

impl vstd::std_specs::convert::FromSpecImpl<JsonValue> for JsonSchemaFormat {
    open spec fn obeys_from_spec() -> bool {
        true
    }

    open spec fn from_spec(schema: JsonValue) -> JsonSchemaFormat {
        JsonSchemaFormat { schema }
    }
}

/// Structured output configuration for a prompt: the format the response
/// must take, and how eagerly the model spends tokens.
#[derive(Clone, Debug, PartialEq)]
#[non_exhaustive]
pub struct OutputConfig {
    /// Desired format for the response; `None` leaves it unconstrained.
    pub format: Option<OutputFormat>,
    /// How eagerly the model spends tokens; `None` uses the API default
    /// (`Effort::High`).
    pub effort: Option<Effort>,
}

/// The configuration that overlaying `other` onto `base` gives: each field
/// that `other` sets, and `base`'s where `other` leaves it unset.
pub open spec fn overlaid(base: OutputConfig, other: OutputConfig) -> OutputConfig {
    OutputConfig {
        format: if other.format is Some {
            other.format
        } else {
            base.format
        },
        effort: if other.effort is Some {
            other.effort
        } else {
            base.effort
        },
    }
}

impl Default for OutputConfig {
    /// No format and no effort.
    fn default() -> (r: OutputConfig)
        ensures
            r.format is None,
            r.effort is None,
    {
        OutputConfig { format: None, effort: None }
    }
}

impl OutputConfig {
    /// A configuration that constrains the response to a raw JSON Schema.
    /// The schema is not validated.
    pub fn json_schema(schema: JsonValue) -> (r: OutputConfig)
        ensures
            r == (OutputConfig {
                format: Some(OutputFormat::JsonSchema(JsonSchemaFormat { schema })),
                effort: None,
            }),
    {
        OutputConfig {
            format: Some(OutputFormat::JsonSchema(JsonSchemaFormat { schema })),
            effort: None,
        }
    }

    /// An effort-only configuration, leaving the response format
    /// unconstrained.
    pub fn effort(effort: Effort) -> (r: OutputConfig)
        ensures
            r == (OutputConfig { format: None, effort: Some(effort) }),
    {
        OutputConfig { format: None, effort: Some(effort) }
    }

    /// Sets the effort, keeping the format.
    pub fn with_effort(self, effort: Effort) -> (r: OutputConfig)
        ensures
            r == (OutputConfig { format: self.format, effort: Some(effort) }),
    {
        let mut config = self;
        config.effort = Some(effort);
        config
    }

    /// Overlays the fields that `other` sets onto `self`, leaving the others
    /// as they were.
    pub fn overlay(&mut self, other: OutputConfig)
        ensures
            *final(self) == overlaid(*old(self), other),
    {
        let OutputConfig { format, effort } = other;
        if format.is_some() {
            self.format = format;
        }
        if effort.is_some() {
            self.effort = effort;
        }
    }
}

impl From<JsonSchemaFormat> for OutputConfig {
    fn from(format: JsonSchemaFormat) -> (r: OutputConfig) {
        OutputConfig { format: Some(OutputFormat::JsonSchema(format)), effort: None }
    }
}

impl vstd::std_specs::convert::FromSpecImpl<JsonSchemaFormat> for OutputConfig {
    open spec fn obeys_from_spec() -> bool {
        true
    }

    open spec fn from_spec(format: JsonSchemaFormat) -> OutputConfig {
        OutputConfig { format: Some(OutputFormat::JsonSchema(format)), effort: None }
    }
}

impl From<Effort> for OutputConfig {
    fn from(effort: Effort) -> (r: OutputConfig) {
        OutputConfig::effort(effort)
    }
}

impl vstd::std_specs::convert::FromSpecImpl<Effort> for OutputConfig {
    open spec fn obeys_from_spec() -> bool {
        true
    }

    open spec fn from_spec(effort: Effort) -> OutputConfig {
        OutputConfig { format: None, effort: Some(effort) }
    }
}

impl From<JsonValue> for OutputConfig {
    /// Treats the value as a raw JSON Schema.
    fn from(schema: JsonValue) -> (r: OutputConfig) {
        OutputConfig::json_schema(schema)
    }
}

impl vstd::std_specs::convert::FromSpecImpl<JsonValue> for OutputConfig {
    open spec fn obeys_from_spec() -> bool {
        true
    }

    open spec fn from_spec(schema: JsonValue) -> OutputConfig {
        OutputConfig {
            format: Some(OutputFormat::JsonSchema(JsonSchemaFormat { schema })),
            effort: None,
        }
    }
}

impl From<OutputFormat> for OutputConfig {
    fn from(format: OutputFormat) -> (r: OutputConfig) {
        OutputConfig { format: Some(format), effort: None }
    }
}

impl vstd::std_specs::convert::FromSpecImpl<OutputFormat> for OutputConfig {
    open spec fn obeys_from_spec() -> bool {
        true
    }

    open spec fn from_spec(format: OutputFormat) -> OutputConfig {
        OutputConfig { format: Some(format), effort: None }
    }
}

/// A field that the overlay sets always wins, whatever value it holds (a
/// custom effort level included); a field it leaves unset keeps the base's.
pub proof fn lemma_overlay_fields(base: OutputConfig, other: OutputConfig)
    ensures
        other.effort is Some ==> overlaid(base, other).effort == other.effort,
        other.effort is None ==> overlaid(base, other).effort == base.effort,
        other.format is Some ==> overlaid(base, other).format == other.format,
        other.format is None ==> overlaid(base, other).format == base.format,
{
}

/// Overlaying a configuration that sets nothing changes nothing.
pub proof fn lemma_overlay_unset(base: OutputConfig)
    ensures
        overlaid(base, OutputConfig { format: None, effort: None }) == base,
{
}

/// Overlaying the same configuration twice is overlaying it once.
pub proof fn lemma_overlay_twice(base: OutputConfig, other: OutputConfig)
    ensures
        overlaid(overlaid(base, other), other) == overlaid(base, other),
{
}

/// Overlaying is associative: overlaying `b` and then `c` is overlaying
/// the configuration that `c` overlaid onto `b` gives.
pub proof fn lemma_overlay_associative(a: OutputConfig, b: OutputConfig, c: OutputConfig)
    ensures
        overlaid(overlaid(a, b), c) == overlaid(a, overlaid(b, c)),
{
}

/// Overlays that set different fields compose in either order: a format
/// and an effort set by separate builders give the same configuration
/// whichever comes first.
pub proof fn lemma_overlay_commutes(base: OutputConfig, a: OutputConfig, b: OutputConfig)
    requires
        a.format is None || b.format is None,
        a.effort is None || b.effort is None,
    ensures
        overlaid(overlaid(base, a), b) == overlaid(overlaid(base, b), a),
{
}

/// Conventional top-level wrapper for a list-shaped structured output: the
/// API requires a top-level object, so the list rides in `items`.
#[derive(Clone, Debug, PartialEq)]
pub struct Items<T> {
    /// The elements.
    pub items: Vec<T>,
}

impl<T> From<Vec<T>> for Items<T> {
    fn from(items: Vec<T>) -> (r: Items<T>) {
        Items { items }
    }
}

impl<T> vstd::std_specs::convert::FromSpecImpl<Vec<T>> for Items<T> {
    open spec fn obeys_from_spec() -> bool {
        true
    }

    open spec fn from_spec(items: Vec<T>) -> Items<T> {
        Items { items }
    }
}

impl<T> IntoIterator for Items<T> {
    type Item = T;
    type IntoIter = std::vec::IntoIter<T>;

    /// The elements, in order.
    fn into_iter(self) -> (r: std::vec::IntoIter<T>)
        ensures
            r == vstd::std_specs::vec::spec_into_iter(self.items),
            r.remaining() == self.items@,
    {
        proof {
            vstd::std_specs::vec::axiom_spec_into_iter(self.items);
        }
        self.items.into_iter()
    }
}

} // verus!
