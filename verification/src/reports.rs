//! Provenance reports of a load: the sources registered, the layers merged,
//! and the environment overrides considered.

use vstd::prelude::*;
use crate::merge::WinnerMap;
use crate::text::owned;

verus! {

// ---------------------------------------------------------------------------
// Sources
// ---------------------------------------------------------------------------

/// How a source was given to the loader.
#[derive(Debug, Clone, Copy, PartialEq, Eq, Structural)]
pub enum SourceKind {
    /// A literal TOML string embedded in code.
    Str,
    /// A required file; a missing one is a load error.
    File,
    /// An optional file; a missing one is recorded, not an error.
    OptionalFile,
    /// A file found by walking parent directories; missing is not an error.
    FindFile,
}

/// One source registered during a load.
#[derive(Debug, Clone)]
pub struct SourceEntry {
    /// 0-based index of the source within the load.
    pub source_id: usize,
    /// How the source was specified.
    pub source_kind: SourceKind,
    /// Human-readable label (a given label or the file path).
    pub label: String,
    /// The file path, for file sources that were located.
    pub path: Option<String>,
    /// Whether a missing source is an error.
    pub required: bool,
    /// Whether the source was found and read.
    pub found: bool,
    /// BLAKE3 hex digest of the source text, when found.
    pub digest: Option<String>,
    /// Length in bytes of the source text, when found.
    pub size_bytes: Option<u64>,
    /// Directory containing the source file, when found.
    pub source_root: Option<String>,
    /// Parent of that directory, when there is one.
    pub source_parent: Option<String>,
}

/// The model of a source entry.
pub struct SourceEntryView {
    pub source_id: nat,
    pub source_kind: SourceKind,
    pub label: Seq<char>,
    pub path: Option<Seq<char>>,
    pub required: bool,
    pub found: bool,
    pub digest: Option<Seq<char>>,
    pub size_bytes: Option<nat>,
    pub source_root: Option<Seq<char>>,
    pub source_parent: Option<Seq<char>>,
}

/// The view of an optional string.
pub open spec fn opt_text(o: Option<String>) -> Option<Seq<char>> {
    match o {
        Some(s) => Some(s@),
        None => None,
    }
}

impl View for SourceEntry {
    type V = SourceEntryView;

    open spec fn view(&self) -> SourceEntryView {
        SourceEntryView {
            source_id: self.source_id as nat,
            source_kind: self.source_kind,
            label: self.label@,
            path: opt_text(self.path),
            required: self.required,
            found: self.found,
            digest: opt_text(self.digest),
            size_bytes: match self.size_bytes {
                Some(n) => Some(n as nat),
                None => None,
            },
            source_root: opt_text(self.source_root),
            source_parent: opt_text(self.source_parent),
        }
    }
}

/// The models of a sequence of source entries.
pub open spec fn source_views(s: Seq<SourceEntry>) -> Seq<SourceEntryView> {
    Seq::new(s.len(), |i: int| s[i]@)
}

/// The sources registered during a load, in registration order.
#[derive(Debug, Clone)]
pub struct SourceReport {
    /// The entries, in order.
    pub entries: Vec<SourceEntry>,
}

/// The entries that were found, in order.
pub open spec fn found_of(s: Seq<SourceEntry>) -> Seq<SourceEntry>
    decreases s.len(),
{
    if s.len() == 0 {
        s
    } else if s.last().found {
        found_of(s.drop_last()).push(s.last())
    } else {
        found_of(s.drop_last())
    }
}

/// The optional entries that were not found, in order.
pub open spec fn missing_optional_of(s: Seq<SourceEntry>) -> Seq<SourceEntry>
    decreases s.len(),
{
    if s.len() == 0 {
        s
    } else if !s.last().required && !s.last().found {
        missing_optional_of(s.drop_last()).push(s.last())
    } else {
        missing_optional_of(s.drop_last())
    }
}

/// The values behind a sequence of references.
pub open spec fn derefs<T>(s: Seq<&T>) -> Seq<T> {
    Seq::new(s.len(), |i: int| *s[i])
}

impl SourceReport {
    /// An empty report.
    pub fn new() -> (r: SourceReport)
        ensures
            r.entries@.len() == 0,
    {
        SourceReport { entries: Vec::new() }
    }

    /// Whether some required source was not found.
    pub fn has_missing_required(&self) -> (r: bool)
        ensures
            r == exists|i: int| 0 <= i < self.entries@.len() && #[trigger] self.entries@[i].required && !self.entries@[i].found,
    {
        let mut i: usize = 0;
        while i < self.entries.len()
            invariant
                i <= self.entries@.len(),
                forall|j: int| 0 <= j < i ==> !(#[trigger] self.entries@[j].required && !self.entries@[j].found),
            decreases self.entries@.len() - i,
        {
            if self.entries[i].required && !self.entries[i].found {
                assert(self.entries@[i as int].required);
                return true;
            }
            i = i + 1;
        }
        false
    }

    /// The entries that were found, in order.
    pub fn found_entries(&self) -> (r: Vec<&SourceEntry>)
        ensures
            derefs(r@) == found_of(self.entries@),
    {
        let mut out: Vec<&SourceEntry> = Vec::new();
        let mut i: usize = 0;
        while i < self.entries.len()
            invariant
                i <= self.entries@.len(),
                derefs(out@) == found_of(self.entries@.take(i as int)),
            decreases self.entries@.len() - i,
        {
            assert(self.entries@.take(i as int + 1).drop_last() =~= self.entries@.take(i as int));
            if self.entries[i].found {
                out.push(&self.entries[i]);
            }
            assert(derefs(out@) =~= found_of(self.entries@.take(i as int + 1)));
            i = i + 1;
        }
        assert(self.entries@.take(self.entries@.len() as int) =~= self.entries@);
        out
    }

    /// The optional entries that were not found, in order.
    pub fn missing_optional_entries(&self) -> (r: Vec<&SourceEntry>)
        ensures
            derefs(r@) == missing_optional_of(self.entries@),
    {
        let mut out: Vec<&SourceEntry> = Vec::new();
        let mut i: usize = 0;
        while i < self.entries.len()
            invariant
                i <= self.entries@.len(),
                derefs(out@) == missing_optional_of(self.entries@.take(i as int)),
            decreases self.entries@.len() - i,
        {
            assert(self.entries@.take(i as int + 1).drop_last() =~= self.entries@.take(i as int));
            if !self.entries[i].required && !self.entries[i].found {
                out.push(&self.entries[i]);
            }
            assert(derefs(out@) =~= missing_optional_of(self.entries@.take(i as int + 1)));
            i = i + 1;
        }
        assert(self.entries@.take(self.entries@.len() as int) =~= self.entries@);
        out
    }
}

// ---------------------------------------------------------------------------
// Layers
// ---------------------------------------------------------------------------

/// One merge layer applied during a load.
#[derive(Debug, Clone)]
pub struct LayerEntry {
    /// 0-based index in merge order (0 is the lowest priority).
    pub layer_id: usize,
    /// Human-readable name of the layer.
    pub layer_name: String,
    /// Merge priority: lower is applied earlier.
    pub priority: usize,
    /// The source that produced the layer.
    pub source_id: usize,
    /// BLAKE3 hex digest of the layer's text.
    pub digest: String,
    /// BLAKE3 hex digest of the concatenated digests of all layers so far.
    pub layer_order_digest: String,
    /// Every leaf path this layer wrote, mapped to the layer's id text.
    pub winning_field_map: WinnerMap,
}

/// The model of a layer entry.
pub struct LayerEntryView {
    pub layer_id: nat,
    pub layer_name: Seq<char>,
    pub priority: nat,
    pub source_id: nat,
    pub digest: Seq<char>,
    pub layer_order_digest: Seq<char>,
    pub winning_field_map: Map<Seq<char>, Seq<char>>,
}

impl View for LayerEntry {
    type V = LayerEntryView;

    open spec fn view(&self) -> LayerEntryView {
        LayerEntryView {
            layer_id: self.layer_id as nat,
            layer_name: self.layer_name@,
            priority: self.priority as nat,
            source_id: self.source_id as nat,
            digest: self.digest@,
            layer_order_digest: self.layer_order_digest@,
            winning_field_map: self.winning_field_map@,
        }
    }
}

/// The models of a sequence of layer entries.
pub open spec fn layer_entry_views(s: Seq<LayerEntry>) -> Seq<LayerEntryView> {
    Seq::new(s.len(), |i: int| s[i]@)
}

/// The layers applied during a load, in merge order.
#[derive(Debug, Clone)]
pub struct LayerReport {
    /// The entries, in order.
    pub entries: Vec<LayerEntry>,
}

impl LayerReport {
    /// An empty report.
    pub fn new() -> (r: LayerReport)
        ensures
            r.entries@.len() == 0,
    {
        LayerReport { entries: Vec::new() }
    }
}

// ---------------------------------------------------------------------------
// Environment overrides
// ---------------------------------------------------------------------------

/// The type an environment value was coerced to.
#[derive(Debug, Clone, Copy, PartialEq, Eq, Structural)]
pub enum CoercedType {
    Bool,
    Integer,
    Float,
    Str,
}

/// The name of a coerced type.
pub open spec fn coerced_name(t: CoercedType) -> Seq<char> {
    match t {
        CoercedType::Bool => "bool"@,
        CoercedType::Integer => "integer"@,
        CoercedType::Float => "float"@,
        CoercedType::Str => "str"@,
    }
}

impl CoercedType {
    /// The name: `bool`, `integer`, `float` or `str`.
    pub fn to_string(&self) -> (r: String)
        ensures
            r@ == coerced_name(*self),
    {
        match self {
            CoercedType::Bool => owned("bool"),
            CoercedType::Integer => owned("integer"),
            CoercedType::Float => owned("float"),
            CoercedType::Str => owned("str"),
        }
    }
}

/// One environment variable that matched the prefix.
#[derive(Debug, Clone)]
pub struct EnvOverrideEntry {
    /// The variable's name as given.
    pub raw_env_key: String,
    /// The prefix it matched.
    pub configured_prefix: String,
    /// The key path it maps to; empty when rejected.
    pub mapped_path: String,
    /// BLAKE3 hex digest of the raw value.
    pub raw_value_digest: String,
    /// The type the value was coerced to, when accepted.
    pub coerced_type: Option<CoercedType>,
    /// BLAKE3 hex digest of the coerced value's text, when accepted.
    pub coerced_value_digest: Option<String>,
    /// Whether the override was applied.
    pub accepted: bool,
    /// Why it was rejected, when it was.
    pub rejection_code: Option<String>,
}

/// The model of an environment override entry.
pub struct EnvEntryView {
    pub raw_env_key: Seq<char>,
    pub configured_prefix: Seq<char>,
    pub mapped_path: Seq<char>,
    pub raw_value_digest: Seq<char>,
    pub coerced_type: Option<CoercedType>,
    pub coerced_value_digest: Option<Seq<char>>,
    pub accepted: bool,
    pub rejection_code: Option<Seq<char>>,
}

impl View for EnvOverrideEntry {
    type V = EnvEntryView;

    open spec fn view(&self) -> EnvEntryView {
        EnvEntryView {
            raw_env_key: self.raw_env_key@,
            configured_prefix: self.configured_prefix@,
            mapped_path: self.mapped_path@,
            raw_value_digest: self.raw_value_digest@,
            coerced_type: self.coerced_type,
            coerced_value_digest: opt_text(self.coerced_value_digest),
            accepted: self.accepted,
            rejection_code: opt_text(self.rejection_code),
        }
    }
}

/// The models of a sequence of environment entries.
pub open spec fn env_entry_views(s: Seq<EnvOverrideEntry>) -> Seq<EnvEntryView> {
    Seq::new(s.len(), |i: int| s[i]@)
}

/// The environment overrides considered during a load.
#[derive(Debug, Clone)]
pub struct EnvOverrideReport {
    /// The prefix used to select variables.
    pub prefix: String,
    /// The matching entries, in the order they were considered.
    pub entries: Vec<EnvOverrideEntry>,
}

/// The entries with the given acceptance, in order.
pub open spec fn with_acceptance(s: Seq<EnvOverrideEntry>, accepted: bool) -> Seq<EnvOverrideEntry>
    decreases s.len(),
{
    if s.len() == 0 {
        s
    } else if s.last().accepted == accepted {
        with_acceptance(s.drop_last(), accepted).push(s.last())
    } else {
        with_acceptance(s.drop_last(), accepted)
    }
}

impl EnvOverrideReport {
    /// An empty report with an empty prefix.
    pub fn new() -> (r: EnvOverrideReport)
        ensures
            r.prefix@.len() == 0,
            r.entries@.len() == 0,
    {
        EnvOverrideReport { prefix: String::new(), entries: Vec::new() }
    }

    fn select(&self, accepted: bool) -> (r: Vec<&EnvOverrideEntry>)
        ensures
            derefs(r@) == with_acceptance(self.entries@, accepted),
    {
        let mut out: Vec<&EnvOverrideEntry> = Vec::new();
        let mut i: usize = 0;
        while i < self.entries.len()
            invariant
                i <= self.entries@.len(),
                derefs(out@) == with_acceptance(self.entries@.take(i as int), accepted),
            decreases self.entries@.len() - i,
        {
            assert(self.entries@.take(i as int + 1).drop_last() =~= self.entries@.take(i as int));
            if self.entries[i].accepted == accepted {
                out.push(&self.entries[i]);
            }
            assert(derefs(out@) =~= with_acceptance(self.entries@.take(i as int + 1), accepted));
            i = i + 1;
        }
        assert(self.entries@.take(self.entries@.len() as int) =~= self.entries@);
        out
    }

    /// The accepted overrides, in order.
    pub fn accepted(&self) -> (r: Vec<&EnvOverrideEntry>)
        ensures
            derefs(r@) == with_acceptance(self.entries@, true),
    {
        self.select(true)
    }

    /// The rejected overrides, in order.
    pub fn rejected(&self) -> (r: Vec<&EnvOverrideEntry>)
        ensures
            derefs(r@) == with_acceptance(self.entries@, false),
    {
        self.select(false)
    }
}

} // verus!
