//! Layered loading: the [`Loader`] builder, the merge of its layers, the
//! typestate pipeline of a [`Config`], provenance-tracked loading, and the
//! admission envelope with its witness.
//!
//! Reading files, the working directory and the process environment are
//! done by the caller: each layer is handed in with what reading it gave
//! ([`SourceRead`]), and the environment as an [`EnvSnapshot`].

use vstd::prelude::*;
use crate::text::{owned, push_str, push_dec, dec_text, string_of, chars_of, join};
use crate::value::{TomlValue, TomlModel, value_wf};
use crate::merge::{
    deep_merge, deep_merge_traced, merge_model, written_paths, const_map, set_dotted, set_model,
    nonempty_pieces, env_str_to_value, env_value_model, WinnerMap,
};
use crate::env::{EnvSnapshot, expand_spec, expand_env_vars, env_key_path, env_key_to_path};
use crate::toml_io::{parse_toml, toml_parsed, render_toml, toml_rendered, show_toml, toml_shown};
use crate::error::Error;
use crate::path::{parent_text, parent_of, join_text, join_path, is_abs, lemma_parent_shorter};
use crate::reports::{
    SourceKind, SourceEntry, SourceReport, SourceEntryView, source_views, LayerEntry, LayerReport,
    LayerEntryView, layer_entry_views, EnvOverrideEntry, EnvOverrideReport, EnvEntryView,
    env_entry_views, CoercedType, opt_text,
};
use crate::digest::{blake3_hex_of, utf8, blake3_hex_str, utf8_bytes};
use crate::validation::{ValidationErrors, ReportView, after_last_path_sep};

verus! {

// ---------------------------------------------------------------------------
// Layers and what reading them gave
// ---------------------------------------------------------------------------

/// One source in the loading stack.
#[derive(Debug, Clone)]
pub enum ConfigLayer {
    /// A literal TOML text, with a label used in messages.
    Str(String, String),
    /// A file that must exist.
    File(String),
    /// A file skipped when absent.
    FileIfExists(String),
    /// A file name looked for in the working directory and its ancestors.
    FindFile(String),
}

/// The model of a layer.
pub enum LayerView {
    Str { content: Seq<char>, label: Seq<char> },
    File { path: Seq<char> },
    FileIfExists { path: Seq<char> },
    FindFile { name: Seq<char> },
}

impl View for ConfigLayer {
    type V = LayerView;

    open spec fn view(&self) -> LayerView {
        match self {
            ConfigLayer::Str(c, l) => LayerView::Str { content: c@, label: l@ },
            ConfigLayer::File(p) => LayerView::File { path: p@ },
            ConfigLayer::FileIfExists(p) => LayerView::FileIfExists { path: p@ },
            ConfigLayer::FindFile(n) => LayerView::FindFile { name: n@ },
        }
    }
}

/// What reading a file layer gave (ignored for literal layers).
#[derive(Debug, Clone)]
pub enum SourceRead {
    /// The file does not exist (or was not found by the walk).
    Missing,
    /// The file at `path` was read.
    Found { path: String, content: String },
    /// The file at `path` exists but could not be read.
    Unreadable { path: String, message: String },
}

/// The model of a read.
pub enum ReadView {
    Missing,
    Found { path: Seq<char>, content: Seq<char> },
    Unreadable { path: Seq<char>, message: Seq<char> },
}

impl View for SourceRead {
    type V = ReadView;

    open spec fn view(&self) -> ReadView {
        match self {
            SourceRead::Missing => ReadView::Missing,
            SourceRead::Found { path, content } => ReadView::Found { path: path@, content: content@ },
            SourceRead::Unreadable { path, message } => ReadView::Unreadable {
                path: path@,
                message: message@,
            },
        }
    }
}

/// The models of a sequence of layers.
pub open spec fn layer_views(s: Seq<ConfigLayer>) -> Seq<LayerView> {
    Seq::new(s.len(), |i: int| s[i]@)
}

/// The models of a sequence of reads.
pub open spec fn read_views(s: Seq<SourceRead>) -> Seq<ReadView> {
    Seq::new(s.len(), |i: int| s[i]@)
}

/// The model of a load failure.
pub enum LoadFailure {
    NotFound(Seq<char>),
    Io(Seq<char>, Seq<char>),
    Parse(Seq<char>, Seq<char>),
    Other,
}

/// The load failure an error stands for.
pub open spec fn failure_of(e: Error) -> LoadFailure {
    match e {
        Error::FileNotFound(p) => LoadFailure::NotFound(p@),
        Error::Io { path, message } => LoadFailure::Io(path@, message@),
        Error::Parse { path, message } => LoadFailure::Parse(path@, message@),
        _ => LoadFailure::Other,
    }
}

/// The TOML text `content` parses to after `${VAR}` expansion from `env`;
/// a syntax error is reported against `label`.
pub open spec fn parse_expanded_spec(content: Seq<char>, label: Seq<char>, env: Seq<(String, String)>) -> Result<TomlModel, LoadFailure> {
    match toml_parsed(expand_spec(content, env)) {
        Ok(v) => Ok(v),
        Err(m) => Err(LoadFailure::Parse(label, m)),
    }
}

/// Expand `${VAR}` references in `content` from `env`, then parse it as TOML
/// (a syntax error names `label`).
pub fn parse_expanded(content: &str, label: &str, env: &EnvSnapshot) -> (r: Result<TomlValue, Error>)
    ensures
        match parse_expanded_spec(content@, label@, env.vars@) {
            Ok(v) => r matches Ok(x) && x@ == v && value_wf(x) && x@ is Table,
            Err(f) => r matches Err(e) && failure_of(e) == f,
        },
{
    let expanded = expand_env_vars(content, env);
    match parse_toml(expanded.as_str()) {
        Ok(v) => Ok(v),
        Err(e) => Err(Error::Parse { path: owned(label), message: e.message }),
    }
}

// ---------------------------------------------------------------------------
// Source-relative paths
// ---------------------------------------------------------------------------

/// A configuration together with the path of the file it was loaded from.
#[derive(Debug, Clone)]
pub struct ConfigFile<T> {
    /// The configuration.
    pub config: T,
    /// The last file-based source loaded (the working directory when none was).
    pub path: String,
}

/// `relative` resolved against the directory of `path`: unchanged when
/// absolute, otherwise joined to the parent of `path` (`.` when it has none).
pub open spec fn resolve_spec(path: Seq<char>, relative: Seq<char>) -> Seq<char> {
    if is_abs(relative) {
        relative
    } else {
        join_text(
            match parent_text(path) {
                Some(d) => d,
                None => seq!['.'],
            },
            relative,
        )
    }
}

impl<T> ConfigFile<T> {
    /// Resolve `relative` against the directory that contains the file.
    pub fn resolve(&self, relative: &str) -> (r: String)
        ensures
            r@ == resolve_spec(self.path@, relative@),
    {
        let rc = chars_of(relative);
        if rc.len() > 0 && rc[0] == '/' {
            return owned(relative);
        }
        let dir = match parent_of(self.path.as_str()) {
            Some(d) => d,
            None => {
                let d = owned(".");
                proof {
                    reveal_strlit(".");
                }
                assert(d@ =~= seq!['.']);
                d
            },
        };
        join_path(dir.as_str(), relative)
    }
}

// ---------------------------------------------------------------------------
// Finding a file by walking up
// ---------------------------------------------------------------------------

/// The directories from `d` up to the root: `d`, its parent, and so on.
pub open spec fn ancestors(d: Seq<char>) -> Seq<Seq<char>>
    decreases d.len(),
{
    match parent_text(d) {
        Some(p) => {
            if p.len() < d.len() {
                seq![d] + ancestors(p)
            } else {
                seq![d]
            }
        },
        None => seq![d],
    }
}

/// The directory the walk starts from: the parent of `start` when `start`
/// is a file (and has a parent), otherwise `start`.
pub open spec fn walk_start(start: Seq<char>, start_is_file: bool) -> Seq<char> {
    if start_is_file {
        match parent_text(start) {
            Some(p) => p,
            None => start,
        }
    } else {
        start
    }
}

/// Walk the directories from `start` upward (from its parent when
/// `start_is_file`), asking `probe` about `dir/file_name` in each, and return
/// the first candidate it confirms.
pub fn find_config_file<F: Fn(&String) -> bool>(file_name: &str, start: &str, start_is_file: bool, probe: F) -> (r: Option<String>)
    requires
        forall|s: &String| #[trigger] probe.requires((s,)),
    ensures
        match r {
            Some(c) => exists|k: int| {
                &&& 0 <= k < ancestors(walk_start(start@, start_is_file)).len()
                &&& c@ == join_text(#[trigger] ancestors(walk_start(start@, start_is_file))[k], file_name@)
                &&& probe.ensures((&c,), true)
                &&& forall|j: int| 0 <= j < k ==> exists|s: String| s@ == join_text(
                    #[trigger] ancestors(walk_start(start@, start_is_file))[j],
                    file_name@,
                ) && probe.ensures((&s,), false)
            },
            None => forall|j: int| 0 <= j < ancestors(walk_start(start@, start_is_file)).len() ==> exists|s: String| s@ == join_text(
                #[trigger] ancestors(walk_start(start@, start_is_file))[j],
                file_name@,
            ) && probe.ensures((&s,), false),
        },
{
    let mut dir = owned(start);
    if start_is_file {
        match parent_of(start) {
            Some(p) => {
                dir = p;
            },
            None => {},
        }
    }
    let ghost chain = ancestors(walk_start(start@, start_is_file));
    let ghost mut k: int = 0;
    loop
        invariant
            0 <= k < chain.len(),
            chain == ancestors(walk_start(start@, start_is_file)),
            chain.skip(k) == ancestors(dir@),
            forall|s: &String| #[trigger] probe.requires((s,)),
            forall|j: int| 0 <= j < k ==> exists|s: String| s@ == join_text(#[trigger] chain[j], file_name@) && probe.ensures((&s,), false),
        decreases dir@.len(),
    {
        let candidate = join_path(dir.as_str(), file_name);
        proof {
            assert(chain.skip(k)[0] == chain[k]);
            assert(ancestors(dir@)[0] == dir@);
        }
        let found = probe(&candidate);
        if found {
            return Some(candidate);
        }
        proof {
            lemma_parent_shorter(dir@);
        }
        match parent_of(dir.as_str()) {
            Some(p) => {
                proof {
                    assert(ancestors(dir@) == seq![dir@] + ancestors(p@));
                    assert(chain.skip(k + 1) =~= chain.skip(k).drop_first());
                    assert(ancestors(dir@).drop_first() =~= ancestors(p@));
                    assert(chain[k] == dir@);
                    k = k + 1;
                    assert(ancestors(p@).len() > 0) by {
                        if parent_text(p@) matches Some(q) {
                        }
                    }
                }
                dir = p;
            },
            None => {
                proof {
                    assert(ancestors(dir@) == seq![dir@]);
                    assert(chain.len() == k + 1);
                    assert forall|j: int| 0 <= j < chain.len() implies exists|s: String| s@ == join_text(#[trigger] chain[j], file_name@) && probe.ensures((&s,), false) by {
                        if j == k {
                            assert(candidate@ == join_text(chain[j], file_name@));
                        }
                    }
                }
                return None;
            },
        }
    }
}

// ---------------------------------------------------------------------------
// The loader
// ---------------------------------------------------------------------------

/// Builder of a stack of configuration sources, merged in order (later
/// layers override earlier ones), with optional environment overrides.
#[derive(Debug, Clone)]
pub struct Loader {
    layers: Vec<ConfigLayer>,
    env_prefix: Option<String>,
}

/// The model of a loader.
pub struct LoaderView {
    pub layers: Seq<LayerView>,
    pub env_prefix: Option<Seq<char>>,
}

impl View for Loader {
    type V = LoaderView;

    closed spec fn view(&self) -> LoaderView {
        LoaderView {
            layers: layer_views(self.layers@),
            env_prefix: match self.env_prefix {
                Some(p) => Some(p@),
                None => None,
            },
        }
    }
}

impl Loader {
    /// An empty loader.
    pub fn new() -> (r: Loader)
        ensures
            r@.layers.len() == 0,
            r@.env_prefix is None,
    {
        let r = Loader { layers: Vec::new(), env_prefix: None };
        assert(r@.layers =~= Seq::<LayerView>::empty());
        r
    }

    fn push_layer(self, layer: ConfigLayer) -> (r: Loader)
        ensures
            r@ == (LoaderView { layers: self@.layers.push(layer@), ..self@ }),
    {
        let mut s = self;
        s.layers.push(layer);
        assert(s@.layers =~= self@.layers.push(layer@));
        s
    }

    /// Add a literal TOML text as the next layer.
    pub fn layer_str(self, content: &str, label: &str) -> (r: Loader)
        ensures
            r@ == (LoaderView {
                layers: self@.layers.push(LayerView::Str { content: content@, label: label@ }),
                ..self@
            }),
    {
        self.push_layer(ConfigLayer::Str(owned(content), owned(label)))
    }

    /// Add a required file as the next layer.
    pub fn layer_file(self, path: &str) -> (r: Loader)
        ensures
            r@ == (LoaderView { layers: self@.layers.push(LayerView::File { path: path@ }), ..self@ }),
    {
        self.push_layer(ConfigLayer::File(owned(path)))
    }

    /// Add an optional file as the next layer.
    pub fn layer_file_if_exists(self, path: &str) -> (r: Loader)
        ensures
            r@ == (LoaderView {
                layers: self@.layers.push(LayerView::FileIfExists { path: path@ }),
                ..self@
            }),
    {
        self.push_layer(ConfigLayer::FileIfExists(owned(path)))
    }

    /// Add, as the next layer, the file `file_name` found by walking up from
    /// the working directory (skipped when not found).
    pub fn find_file(self, file_name: &str) -> (r: Loader)
        ensures
            r@ == (LoaderView {
                layers: self@.layers.push(LayerView::FindFile { name: file_name@ }),
                ..self@
            }),
    {
        self.push_layer(ConfigLayer::FindFile(owned(file_name)))
    }

    /// Apply the environment variables starting with `prefix` on top of the
    /// merged layers.
    pub fn env_prefix(self, prefix: &str) -> (r: Loader)
        ensures
            r@ == (LoaderView { env_prefix: Some(prefix@), ..self@ }),
    {
        let mut s = self;
        s.env_prefix = Some(owned(prefix));
        s
    }

    /// The layers, in order.
    pub fn layers(&self) -> (r: &Vec<ConfigLayer>)
        ensures
            layer_views(r@) == self@.layers,
    {
        &self.layers
    }

    /// The environment prefix, if one was set.
    pub fn prefix(&self) -> (r: Option<&String>)
        ensures
            match r {
                Some(p) => self@.env_prefix == Some(p@),
                None => self@.env_prefix is None,
            },
    {
        match &self.env_prefix {
            Some(p) => Some(p),
            None => None,
        }
    }
}


// ---------------------------------------------------------------------------
// Merging the layers
// ---------------------------------------------------------------------------

/// One layer merged into the state `(value, last file path)`: a literal
/// layer is parsed and merged; a missing required file fails; a missing
/// optional or searched file is skipped; an unreadable file fails; a read
/// file is parsed (errors name its path), merged, and becomes the last path.
pub open spec fn merge_step(
    st: (TomlModel, Seq<char>),
    layer: LayerView,
    read: ReadView,
    env: Seq<(String, String)>,
) -> Result<(TomlModel, Seq<char>), LoadFailure> {
    match layer {
        LayerView::Str { content, label } => match parse_expanded_spec(content, label, env) {
            Ok(v) => Ok((merge_model(st.0, v), st.1)),
            Err(f) => Err(f),
        },
        _ => match read {
            ReadView::Missing => match layer {
                LayerView::File { path } => Err(LoadFailure::NotFound(path)),
                _ => Ok(st),
            },
            ReadView::Unreadable { path, message } => Err(LoadFailure::Io(path, message)),
            ReadView::Found { path, content } => match parse_expanded_spec(content, path, env) {
                Ok(v) => Ok((merge_model(st.0, v), path)),
                Err(f) => Err(f),
            },
        },
    }
}

/// The first `n` layers merged in order, stopping at the first failure.
pub open spec fn merge_upto(
    st0: (TomlModel, Seq<char>),
    layers: Seq<LayerView>,
    reads: Seq<ReadView>,
    env: Seq<(String, String)>,
    n: nat,
) -> Result<(TomlModel, Seq<char>), LoadFailure>
    decreases n,
{
    if n == 0 {
        Ok(st0)
    } else {
        match merge_upto(st0, layers, reads, env, (n - 1) as nat) {
            Ok(st) => merge_step(st, layers[n - 1], reads[n - 1], env),
            Err(f) => Err(f),
        }
    }
}

/// A failure stops the merge: it is the result of every longer prefix.
pub proof fn lemma_merge_upto_stops(
    st0: (TomlModel, Seq<char>),
    layers: Seq<LayerView>,
    reads: Seq<ReadView>,
    env: Seq<(String, String)>,
    n: nat,
    m: nat,
)
    requires
        n <= m,
        merge_upto(st0, layers, reads, env, n) is Err,
    ensures
        merge_upto(st0, layers, reads, env, m) == merge_upto(st0, layers, reads, env, n),
    decreases m,
{
    if m > n {
        lemma_merge_upto_stops(st0, layers, reads, env, n, (m - 1) as nat);
    }
}

/// The environment overrides under `prefix` applied to `m`, in order: each
/// matching variable's value, coerced, stored at its key path.
pub open spec fn env_overlay(m: TomlModel, vars: Seq<(String, String)>, prefix: Seq<char>) -> TomlModel
    decreases vars.len(),
{
    if vars.len() == 0 {
        m
    } else {
        let m1 = env_overlay(m, vars.drop_last(), prefix);
        match env_key_path(vars.last().0@, prefix) {
            Some(p) => set_model(m1, nonempty_pieces(p, '.'), env_value_model(vars.last().1@)),
            None => m1,
        }
    }
}

/// The merged model and last file path of a loader's layers (starting from
/// an empty table and `cwd`), with its environment overrides applied.
pub open spec fn merged_spec(
    l: LoaderView,
    reads: Seq<ReadView>,
    cwd: Seq<char>,
    env: Seq<(String, String)>,
) -> Result<(TomlModel, Seq<char>), LoadFailure> {
    match merge_upto((TomlModel::Table(Map::empty()), cwd), l.layers, reads, env, l.layers.len()) {
        Ok(st) => match l.env_prefix {
            Some(p) => Ok((env_overlay(st.0, env, p), st.1)),
            None => Ok(st),
        },
        Err(f) => Err(f),
    }
}

/// Apply the environment overrides under `prefix` to `value` (see [`env_overlay`]).
pub fn apply_env_overrides(value: &mut TomlValue, prefix: &str, env: &EnvSnapshot)
    requires
        value_wf(*old(value)),
    ensures
        value_wf(*final(value)),
        final(value)@ == env_overlay(old(value)@, env.vars@, prefix@),
{
    let ghost m0 = value@;
    let mut i: usize = 0;
    while i < env.vars.len()
        invariant
            i <= env.vars@.len(),
            value_wf(*value),
            value@ == env_overlay(m0, env.vars@.take(i as int), prefix@),
        decreases env.vars@.len() - i,
    {
        proof {
            let t = env.vars@.take(i as int + 1);
            assert(t.drop_last() =~= env.vars@.take(i as int));
            assert(t.last() == env.vars@[i as int]);
        }
        match env_key_to_path(env.vars[i].0.as_str(), prefix) {
            Some(path) => {
                let v = env_str_to_value(env.vars[i].1.as_str());
                set_dotted(value, path.as_str(), v);
            },
            None => {},
        }
        i = i + 1;
    }
    assert(env.vars@.take(env.vars@.len() as int) =~= env.vars@);
}

fn merge_layer(merged: &mut TomlValue, last: &mut String, layer: &ConfigLayer, read: &SourceRead, env: &EnvSnapshot) -> (r: Result<(), Error>)
    requires
        value_wf(*old(merged)),
    ensures
        value_wf(*final(merged)),
        match merge_step((old(merged)@, old(last)@), layer@, read@, env.vars@) {
            Ok(st) => r is Ok && final(merged)@ == st.0 && final(last)@ == st.1,
            Err(f) => r matches Err(e) && failure_of(e) == f,
        },
{
    match layer {
        ConfigLayer::Str(content, label) => {
            let v = parse_expanded(content.as_str(), label.as_str(), env)?;
            deep_merge(merged, v);
            Ok(())
        },
        _ => match read {
            SourceRead::Missing => match layer {
                ConfigLayer::File(path) => Err(Error::FileNotFound(path.clone())),
                _ => Ok(()),
            },
            SourceRead::Unreadable { path, message } => Err(Error::Io { path: path.clone(), message: message.clone() }),
            SourceRead::Found { path, content } => {
                let v = parse_expanded(content.as_str(), path.as_str(), env)?;
                deep_merge(merged, v);
                *last = path.clone();
                Ok(())
            },
        },
    }
}

impl Loader {
    /// Merge the layers in order, given what reading each gave (`reads[i]`
    /// for `layers[i]`), starting from an empty table and `cwd` as the last
    /// path, then apply the environment overrides (see [`merged_spec`]).
    pub fn merge_layers(&self, reads: &Vec<SourceRead>, cwd: &str, env: &EnvSnapshot) -> (r: Result<(TomlValue, String), Error>)
        requires
            reads@.len() == self@.layers.len(),
        ensures
            match merged_spec(self@, read_views(reads@), cwd@, env.vars@) {
                Ok(st) => r matches Ok((v, p)) && v@ == st.0 && p@ == st.1 && value_wf(v),
                Err(f) => r matches Err(e) && failure_of(e) == f,
            },
    {
        let ghost lv = self@.layers;
        let ghost rv = read_views(reads@);
        let ghost st0 = (TomlModel::Table(Map::empty()), cwd@);
        let mut merged = TomlValue::new_table();
        let mut last = owned(cwd);
        let mut i: usize = 0;
        while i < self.layers.len()
            invariant
                i <= self.layers@.len(),
                reads@.len() == self.layers@.len(),
                lv == self@.layers,
                lv == layer_views(self.layers@),
                rv == read_views(reads@),
                st0 == (TomlModel::Table(Map::<Seq<char>, TomlModel>::empty()), cwd@),
                value_wf(merged),
                merge_upto(st0, lv, rv, env.vars@, i as nat) == Ok::<(TomlModel, Seq<char>), LoadFailure>((merged@, last@)),
            decreases self.layers@.len() - i,
        {
            assert(lv[i as int] == self.layers@[i as int]@);
            assert(rv[i as int] == reads@[i as int]@);
            let ghost old_merged = merged@;
            let ghost old_last = last@;
            let step = merge_layer(&mut merged, &mut last, &self.layers[i], &reads[i], env);
            match step {
                Ok(()) => {},
                Err(e) => {
                    proof {
                        lemma_merge_upto_stops(st0, lv, rv, env.vars@, (i + 1) as nat, lv.len());

                    }
                    return Err(e);
                },
            }
            i = i + 1;
        }
        match &self.env_prefix {
            Some(p) => {
                apply_env_overrides(&mut merged, p.as_str(), env);
            },
            None => {},
        }
        Ok((merged, last))
    }

    /// The merged value without the environment overrides, in the raw state.
    pub fn load_raw(self, reads: &Vec<SourceRead>, cwd: &str, env: &EnvSnapshot) -> (r: Result<Config<Raw>, Error>)
        requires
            reads@.len() == self@.layers.len(),
        ensures
            match merged_spec(LoaderView { env_prefix: None, ..self@ }, read_views(reads@), cwd@, env.vars@) {
                Ok(st) => r matches Ok(c) && c.state.0@ == st.0 && c.path@ == st.1 && value_wf(c.state.0),
                Err(f) => r matches Err(e) && failure_of(e) == f,
            },
    {
        let mut s = self;
        s.env_prefix = None;
        match s.merge_layers(reads, cwd, env) {
            Ok((v, p)) => Ok(Config { state: Raw(v), path: p }),
            Err(e) => Err(e),
        }
    }
}

// ---------------------------------------------------------------------------
// The configuration typestate
// ---------------------------------------------------------------------------

/// Normalization and extra validation hooks of a configuration type.
pub trait ConfigLifecycle {
    /// Normalize fields (trim strings, resolve relative paths, ...).
    fn normalize(&mut self) {
    }

    /// Extra validation run after deserialization.
    fn validate_lifecycle(&self, v: &mut crate::validation::Validator) {
    }
}

/// The merged layers, before environment overrides.
#[derive(Debug)]
pub struct Raw(pub TomlValue);

/// The merged value, after environment overrides.
#[derive(Debug)]
pub struct Merged(pub TomlValue);

/// Deserialized into `T`.
#[derive(Debug, Clone)]
pub struct Deserialized<T>(pub T);

/// Validated.
#[derive(Debug, Clone)]
pub struct Validated<T>(pub T);

/// Frozen: immutable from here on.
#[derive(Debug, Clone)]
pub struct Frozen<T>(pub T);

/// A configuration in state `S`, with the path of the last file loaded.
#[derive(Debug, Clone)]
pub struct Config<S> {
    /// The current state.
    pub state: S,
    /// The last file-based source loaded.
    pub path: String,
}


impl Config<Raw> {
    /// A raw configuration parsed from `content` (an empty table when it
    /// does not parse), with an empty path.
    pub fn new(content: &str) -> (r: Config<Raw>)
        ensures
            r.state.0@ == match toml_parsed(content@) {
                Ok(v) => v,
                Err(_) => TomlModel::Table(Map::empty()),
            },
            value_wf(r.state.0),
            r.path@.len() == 0,
    {
        let v = match parse_toml(content) {
            Ok(v) => v,
            Err(_) => TomlValue::new_table(),
        };
        Config { state: Raw(v), path: String::new() }
    }

    /// The name of this state.
    pub fn state_name(&self) -> (r: &'static str)
        ensures
            r@ == "Raw"@,
    {
        "Raw"
    }

    /// Apply the environment overrides under `env_prefix` (if any) and move
    /// to the merged state.
    pub fn merge(self, env_prefix: Option<&str>, env: &EnvSnapshot) -> (r: Result<Config<Merged>, Error>)
        requires
            value_wf(self.state.0),
        ensures
            r matches Ok(c) && c.path@ == self.path@ && value_wf(c.state.0) && c.state.0@ == match env_prefix {
                Some(p) => env_overlay(self.state.0@, env.vars@, p@),
                None => self.state.0@,
            },
    {
        let mut merged = self.state.0;
        match env_prefix {
            Some(p) => {
                apply_env_overrides(&mut merged, p, env);
            },
            None => {},
        }
        Ok(Config { state: Merged(merged), path: self.path })
    }
}

impl Config<Merged> {
    /// The name of this state.
    pub fn state_name(&self) -> (r: &'static str)
        ensures
            r@ == "Merged"@,
    {
        "Merged"
    }

    /// The merged value, to deserialize from.
    pub fn value(&self) -> (r: &TomlValue)
        ensures
            *r == self.state.0,
    {
        &self.state.0
    }

    /// Move to the deserialized state with `value` (deserialized from the
    /// merged value), normalized.
    pub fn deserialized<T: ConfigLifecycle>(self, value: T) -> (r: Config<Deserialized<T>>)
        ensures
            r.path == self.path,
    {
        let mut value = value;
        value.normalize();
        Config { state: Deserialized(value), path: self.path }
    }
}

impl<T> Config<Deserialized<T>> {
    /// The deserialized value.
    pub fn get(&self) -> (r: &T)
        ensures
            *r == self.state.0,
    {
        &self.state.0
    }

    /// The deserialized value, mutably.
    pub fn get_mut(&mut self) -> (r: &mut T)
        ensures
            *r == old(self).state.0,
            final(self).state.0 == *final(r),
            final(self).path == old(self).path,
    {
        &mut self.state.0
    }

    /// The name of this state.
    pub fn state_name(&self) -> (r: &'static str)
        ensures
            r@ == "Deserialized"@,
    {
        "Deserialized"
    }
}

/// The outcome of a validation whose validator recorded `report`: `Err`
/// with the report titled after the type at `type_path` when it holds a
/// failure of severity `Error` or above, `Ok` otherwise.
pub fn validation_outcome(report: ValidationErrors, type_path: &str) -> (r: Result<(), ValidationErrors>)
    ensures
        r is Err <==> crate::validation::failed_count(report@.errors) > 0,
        r matches Err(e) ==> e@ == (ReportView { title: Some(after_last_path_sep(type_path@)), ..report@ }),
{
    if report.failed() > 0 {
        let mut report = report;
        report.set_title_for_path(type_path);
        Err(report)
    } else {
        Ok(())
    }
}

impl<T: crate::validation::Validate + ConfigLifecycle> Config<Deserialized<T>> {
    /// Run the value's validation and lifecycle checks: any failure of
    /// severity `Error` or above makes the whole report, titled after the
    /// type at `type_path`, an `Invalid` error (see [`validation_outcome`]);
    /// otherwise move to the validated state.
    pub fn validate(self, type_path: &str) -> (r: Result<Config<Validated<T>>, Error>)
        ensures
            r matches Ok(c) ==> c.path == self.path && c.state.0 == self.state.0,
            r matches Err(e) ==> e matches Error::Invalid(rep) && crate::validation::failed_count(rep@.errors) > 0
                && rep@.title == Some(after_last_path_sep(type_path@)),
    {
        let mut v = crate::validation::Validator::new();
        self.state.0.validate(&mut v);
        self.state.0.validate_lifecycle(&mut v);
        match validation_outcome(v.into_report(), type_path) {
            Err(report) => Err(Error::Invalid(report)),
            Ok(()) => Ok(Config { state: Validated(self.state.0), path: self.path }),
        }
    }
}

/// `r` is what a validation outcome `checked` of `value` gives: the
/// validated configuration with an empty path on success, otherwise the
/// report as an `Invalid` error.
pub open spec fn validated_as<T>(r: Result<Config<Validated<T>>, Error>, value: T, checked: Result<(), ValidationErrors>) -> bool {
    match checked {
        Ok(()) => r matches Ok(c) && c.state.0 == value && c.path@.len() == 0,
        Err(e) => r matches Err(Error::Invalid(rep)) && rep == e,
    }
}

impl<T> Config<Validated<T>> {
    /// The validated configuration of `value` given the outcome `checked`
    /// of its validation (see [`validated_as`]).
    pub fn from_check(value: T, checked: Result<(), ValidationErrors>) -> (r: Result<Config<Validated<T>>, Error>)
        ensures
            validated_as(r, value, checked),
    {
        match checked {
            Ok(()) => Ok(Config { state: Validated(value), path: String::new() }),
            Err(errs) => Err(Error::Invalid(errs)),
        }
    }
}

impl<T: crate::validation::Validate> Config<Validated<T>> {
    /// A validated configuration of `value`, when its validation passes:
    /// what [`Config::from_check`] gives for the outcome of `value.check()`
    /// (which, when it fails, carries at least one error and no title).
    pub fn new(value: T) -> (r: Result<Config<Validated<T>>, Error>)
        ensures
            exists|checked: Result<(), ValidationErrors>|
                (checked matches Err(e) ==> e@.errors.len() > 0 && e@.title is None)
                    && #[trigger] validated_as(r, value, checked),
    {
        let checked = value.check();
        let ghost c = checked;
        let r = Self::from_check(value, checked);
        assert(validated_as(r, value, c));
        r
    }
}

impl<T> Config<Validated<T>> {
    /// The validated value.
    pub fn get(&self) -> (r: &T)
        ensures
            *r == self.state.0,
    {
        &self.state.0
    }

    /// The validated value, mutably.
    pub fn get_mut(&mut self) -> (r: &mut T)
        ensures
            *r == old(self).state.0,
            final(self).state.0 == *final(r),
            final(self).path == old(self).path,
    {
        &mut self.state.0
    }

    /// The name of this state.
    pub fn state_name(&self) -> (r: &'static str)
        ensures
            r@ == "Validated"@,
    {
        "Validated"
    }

    /// Freeze the configuration.
    pub fn freeze(self) -> (r: Config<Frozen<T>>)
        ensures
            r.state.0 == self.state.0,
            r.path == self.path,
    {
        Config { state: Frozen(self.state.0), path: self.path }
    }
}

impl<T> Config<Frozen<T>> {
    /// The frozen value.
    pub fn get(&self) -> (r: &T)
        ensures
            *r == self.state.0,
    {
        &self.state.0
    }

    /// The name of this state.
    pub fn state_name(&self) -> (r: &'static str)
        ensures
            r@ == "Frozen"@,
    {
        "Frozen"
    }
}


// ---------------------------------------------------------------------------
// Provenance-tracked loading
// ---------------------------------------------------------------------------

/// The model of a load in progress: the merged value, the last file path,
/// the sources and layers recorded, the cumulative winner map, and the
/// concatenated layer digests.
pub struct BoundedView {
    pub value: TomlModel,
    pub last: Seq<char>,
    pub sources: Seq<SourceEntryView>,
    pub layers: Seq<LayerEntryView>,
    pub winners: Map<Seq<char>, Seq<char>>,
    pub order: Seq<char>,
}

/// The BLAKE3 hex digest of a text's UTF-8 bytes.
pub open spec fn text_digest(c: Seq<char>) -> Seq<char> {
    blake3_hex_of(utf8(c))
}

/// The id text of the layer made from source `n`: `layer-n`.
pub open spec fn layer_id_text(n: nat) -> Seq<char> {
    "layer-"@ + dec_text(n)
}

/// The entry of a source that was found: literal sources have no path; file
/// sources record their directory and that directory's parent.
pub open spec fn found_entry(
    id: nat,
    kind: SourceKind,
    label: Seq<char>,
    path: Option<Seq<char>>,
    required: bool,
    content: Seq<char>,
) -> SourceEntryView {
    let root = match path {
        Some(p) => parent_text(p),
        None => None,
    };
    SourceEntryView {
        source_id: id,
        source_kind: kind,
        label,
        path,
        required,
        found: true,
        digest: Some(text_digest(content)),
        size_bytes: Some(utf8(content).len()),
        source_root: root,
        source_parent: match root {
            Some(r) => parent_text(r),
            None => None,
        },
    }
}

/// The entry of a source that was not found.
pub open spec fn missing_entry(id: nat, kind: SourceKind, label: Seq<char>, path: Option<Seq<char>>, required: bool) -> SourceEntryView {
    SourceEntryView {
        source_id: id,
        source_kind: kind,
        label,
        path,
        required,
        found: false,
        digest: None,
        size_bytes: None,
        source_root: None,
        source_parent: None,
    }
}

/// A found source merged as the next layer: its entry is recorded, its text
/// parsed after expansion (errors name `label`), merged with provenance
/// under `layer-<id>`, and a layer entry recorded with its digest and the
/// digest of all layer digests so far; `new_last` becomes the last path.
pub open spec fn merge_found_spec(
    st: BoundedView,
    entry: SourceEntryView,
    label: Seq<char>,
    content: Seq<char>,
    new_last: Option<Seq<char>>,
    env: Seq<(String, String)>,
) -> Result<BoundedView, LoadFailure> {
    match parse_expanded_spec(content, label, env) {
        Err(f) => Err(f),
        Ok(v) => {
            let lid = layer_id_text(entry.source_id);
            let d = text_digest(content);
            let order = st.order + d;
            let fields = const_map(written_paths(st.value, v, Seq::empty()), lid);
            Ok(BoundedView {
                value: merge_model(st.value, v),
                last: match new_last {
                    Some(p) => p,
                    None => st.last,
                },
                sources: st.sources.push(entry),
                layers: st.layers.push(
                    LayerEntryView {
                        layer_id: st.layers.len(),
                        layer_name: label,
                        priority: st.layers.len(),
                        source_id: entry.source_id,
                        digest: d,
                        layer_order_digest: text_digest(order),
                        winning_field_map: fields,
                    },
                ),
                winners: st.winners.union_prefer_right(fields),
                order,
            })
        },
    }
}

/// One layer of a provenance-tracked load (see [`merge_found_spec`]): a
/// missing required file fails; a missing optional or searched file is only
/// recorded; an unreadable file fails.
pub open spec fn bounded_step(st: BoundedView, layer: LayerView, read: ReadView, env: Seq<(String, String)>) -> Result<BoundedView, LoadFailure> {
    let id = st.sources.len();
    match layer {
        LayerView::Str { content, label } => merge_found_spec(
            st,
            found_entry(id, SourceKind::Str, label, None, true, content),
            label,
            content,
            None,
            env,
        ),
        LayerView::File { path } => match read {
            ReadView::Missing => Err(LoadFailure::NotFound(path)),
            ReadView::Unreadable { path: p, message } => Err(LoadFailure::Io(p, message)),
            ReadView::Found { path: p, content } => merge_found_spec(
                st,
                found_entry(id, SourceKind::File, p, Some(p), true, content),
                p,
                content,
                Some(p),
                env,
            ),
        },
        LayerView::FileIfExists { path } => match read {
            ReadView::Missing => Ok(BoundedView {
                sources: st.sources.push(missing_entry(id, SourceKind::OptionalFile, path, Some(path), false)),
                ..st
            }),
            ReadView::Unreadable { path: p, message } => Err(LoadFailure::Io(p, message)),
            ReadView::Found { path: p, content } => merge_found_spec(
                st,
                found_entry(id, SourceKind::OptionalFile, p, Some(p), false, content),
                p,
                content,
                Some(p),
                env,
            ),
        },
        LayerView::FindFile { name } => match read {
            ReadView::Missing => Ok(BoundedView {
                sources: st.sources.push(missing_entry(id, SourceKind::FindFile, name, None, false)),
                ..st
            }),
            ReadView::Unreadable { path: p, message } => Err(LoadFailure::Io(p, message)),
            ReadView::Found { path: p, content } => merge_found_spec(
                st,
                found_entry(id, SourceKind::FindFile, p, Some(p), false, content),
                p,
                content,
                Some(p),
                env,
            ),
        },
    }
}

/// The first `n` layers of a provenance-tracked load, stopping at the first
/// failure.
pub open spec fn bounded_upto(
    st0: BoundedView,
    layers: Seq<LayerView>,
    reads: Seq<ReadView>,
    env: Seq<(String, String)>,
    n: nat,
) -> Result<BoundedView, LoadFailure>
    decreases n,
{
    if n == 0 {
        Ok(st0)
    } else {
        match bounded_upto(st0, layers, reads, env, (n - 1) as nat) {
            Ok(st) => bounded_step(st, layers[n - 1], reads[n - 1], env),
            Err(f) => Err(f),
        }
    }
}

/// A failure stops the load: it is the result of every longer prefix.
pub proof fn lemma_bounded_upto_stops(
    st0: BoundedView,
    layers: Seq<LayerView>,
    reads: Seq<ReadView>,
    env: Seq<(String, String)>,
    n: nat,
    m: nat,
)
    requires
        n <= m,
        bounded_upto(st0, layers, reads, env, n) is Err,
    ensures
        bounded_upto(st0, layers, reads, env, m) == bounded_upto(st0, layers, reads, env, n),
    decreases m,
{
    if m > n {
        lemma_bounded_upto_stops(st0, layers, reads, env, n, (m - 1) as nat);
    }
}

/// The state a load starts from: an empty table, `cwd` as the last path,
/// nothing recorded.
pub open spec fn bounded_start(cwd: Seq<char>) -> BoundedView {
    BoundedView {
        value: TomlModel::Table(Map::empty()),
        last: cwd,
        sources: Seq::empty(),
        layers: Seq::empty(),
        winners: Map::empty(),
        order: Seq::empty(),
    }
}

/// All file layers loaded, merged with provenance, and registered.
#[derive(Debug)]
pub struct BoundedSources {
    /// The merged value (environment overrides not yet applied).
    pub value: TomlValue,
    /// Every source registered.
    pub source_report: SourceReport,
    /// Every layer merged.
    pub layer_report: LayerReport,
    /// Every leaf path mapped to the layer that last wrote it.
    pub global_winner_map: WinnerMap,
}

/// A load in progress.
struct BoundedLoad {
    value: TomlValue,
    last: String,
    sources: SourceReport,
    layers: LayerReport,
    winners: WinnerMap,
    order: String,
}

impl BoundedLoad {
    closed spec fn view(&self) -> BoundedView {
        BoundedView {
            value: self.value@,
            last: self.last@,
            sources: source_views(self.sources.entries@),
            layers: layer_entry_views(self.layers.entries@),
            winners: self.winners@,
            order: self.order@,
        }
    }

    fn start(cwd: &str) -> (r: BoundedLoad)
        ensures
            r.view() == bounded_start(cwd@),
            value_wf(r.value),
            r.sources.entries@.len() == 0,
    {
        let r = BoundedLoad {
            value: TomlValue::new_table(),
            last: owned(cwd),
            sources: SourceReport::new(),
            layers: LayerReport::new(),
            winners: WinnerMap::new(),
            order: String::new(),
        };
        assert(r.view().sources =~= Seq::<SourceEntryView>::empty());
        assert(r.view().layers =~= Seq::<LayerEntryView>::empty());
        assert(r.view() == bounded_start(cwd@));
        r
    }

    fn found_entry_exec(&self, kind: SourceKind, label: &str, path: Option<&str>, required: bool, content: &str) -> (r: SourceEntry)
        requires
            self.sources.entries@.len() < usize::MAX,
        ensures
            r@ == found_entry(self.view().sources.len(), kind, label@, match path {
                Some(p) => Some(p@),
                None => None,
            }, required, content@),
    {
        let (root, parent) = match path {
            Some(p) => {
                let root = parent_of(p);
                let parent = match &root {
                    Some(r) => parent_of(r.as_str()),
                    None => None,
                };
                (root, parent)
            },
            None => (None, None),
        };
        let bytes = utf8_bytes(content);
        SourceEntry {
            source_id: self.sources.entries.len(),
            source_kind: kind,
            label: owned(label),
            path: match path {
                Some(p) => Some(owned(p)),
                None => None,
            },
            required,
            found: true,
            digest: Some(blake3_hex_str(content)),
            size_bytes: Some(bytes.len() as u64),
            source_root: root,
            source_parent: parent,
        }
    }

    fn merge_found(&mut self, entry: SourceEntry, label: &str, content: &str, new_last: Option<&str>, env: &EnvSnapshot) -> (r: Result<(), Error>)
        requires
            value_wf(old(self).value),
            entry@.source_id == old(self).view().sources.len(),
            old(self).sources.entries@.len() < usize::MAX,
        ensures
            value_wf(final(self).value),
            final(self).sources.entries@.len() == old(self).sources.entries@.len() + 1,
            match merge_found_spec(old(self).view(), entry@, label@, content@, match new_last {
                Some(p) => Some(p@),
                None => None,
            }, env.vars@) {
                Ok(st) => r is Ok && final(self).view() == st,
                Err(f) => r matches Err(e) && failure_of(e) == f,
            },
    {
        let ghost st = self.view();
        let ghost ev = entry@;
        let source_id = entry.source_id;
        let digest = blake3_hex_str(content);
        self.sources.entries.push(entry);
        let v = parse_expanded(content, label, env)?;
        let mut lid = owned("layer-");
        push_dec(&mut lid, source_id as u64);
        push_str(&mut self.order, digest.as_str());
        let order_digest = blake3_hex_str(self.order.as_str());
        let mut lwm = WinnerMap::new();
        let ghost before_value = self.value@;
        deep_merge_traced(&mut self.value, v, lid.as_str(), "", &mut lwm);
        proof {
            reveal_strlit("");
            assert(""@ =~= Seq::<char>::empty());
            assert(lid@ == layer_id_text(ev.source_id));
            assert(lwm@ =~= const_map(written_paths(before_value, v@, Seq::empty()), layer_id_text(ev.source_id)));
        }
        self.winners.extend(&lwm);
        let n = self.layers.entries.len();
        let le = LayerEntry {
            layer_id: n,
            layer_name: owned(label),
            priority: n,
            source_id,
            digest,
            layer_order_digest: order_digest,
            winning_field_map: lwm,
        };
        self.layers.entries.push(le);
        match new_last {
            Some(p) => {
                self.last = owned(p);
            },
            None => {},
        }
        proof {
            assert(self.view().sources =~= st.sources.push(ev));
            assert(self.view().layers =~= st.layers.push(le@));
        }
        Ok(())
    }

    fn absorb(&mut self, layer: &ConfigLayer, read: &SourceRead, env: &EnvSnapshot) -> (r: Result<(), Error>)
        requires
            value_wf(old(self).value),
            old(self).sources.entries@.len() < usize::MAX,
        ensures
            value_wf(final(self).value),
            final(self).sources.entries@.len() <= old(self).sources.entries@.len() + 1,
            match bounded_step(old(self).view(), layer@, read@, env.vars@) {
                Ok(st) => r is Ok && final(self).view() == st,
                Err(f) => r matches Err(e) && failure_of(e) == f,
            },
    {
        let ghost st = self.view();
        match layer {
            ConfigLayer::Str(content, label) => {
                let e = self.found_entry_exec(SourceKind::Str, label.as_str(), None, true, content.as_str());
                self.merge_found(e, label.as_str(), content.as_str(), None, env)
            },
            ConfigLayer::File(path) => match read {
                SourceRead::Missing => Err(Error::FileNotFound(path.clone())),
                SourceRead::Unreadable { path: p, message } => Err(Error::Io { path: p.clone(), message: message.clone() }),
                SourceRead::Found { path: p, content } => {
                    let e = self.found_entry_exec(SourceKind::File, p.as_str(), Some(p.as_str()), true, content.as_str());
                    self.merge_found(e, p.as_str(), content.as_str(), Some(p.as_str()), env)
                },
            },
            ConfigLayer::FileIfExists(path) => match read {
                SourceRead::Missing => {
                    let e = SourceEntry {
                        source_id: self.sources.entries.len(),
                        source_kind: SourceKind::OptionalFile,
                        label: path.clone(),
                        path: Some(path.clone()),
                        required: false,
                        found: false,
                        digest: None,
                        size_bytes: None,
                        source_root: None,
                        source_parent: None,
                    };
                    self.sources.entries.push(e);
                    assert(self.view().sources =~= st.sources.push(e@));
                    Ok(())
                },
                SourceRead::Unreadable { path: p, message } => Err(Error::Io { path: p.clone(), message: message.clone() }),
                SourceRead::Found { path: p, content } => {
                    let e = self.found_entry_exec(SourceKind::OptionalFile, p.as_str(), Some(p.as_str()), false, content.as_str());
                    self.merge_found(e, p.as_str(), content.as_str(), Some(p.as_str()), env)
                },
            },
            ConfigLayer::FindFile(name) => match read {
                SourceRead::Missing => {
                    let e = SourceEntry {
                        source_id: self.sources.entries.len(),
                        source_kind: SourceKind::FindFile,
                        label: name.clone(),
                        path: None,
                        required: false,
                        found: false,
                        digest: None,
                        size_bytes: None,
                        source_root: None,
                        source_parent: None,
                    };
                    self.sources.entries.push(e);
                    assert(self.view().sources =~= st.sources.push(e@));
                    Ok(())
                },
                SourceRead::Unreadable { path: p, message } => Err(Error::Io { path: p.clone(), message: message.clone() }),
                SourceRead::Found { path: p, content } => {
                    let e = self.found_entry_exec(SourceKind::FindFile, p.as_str(), Some(p.as_str()), false, content.as_str());
                    self.merge_found(e, p.as_str(), content.as_str(), Some(p.as_str()), env)
                },
            },
        }
    }
}

/// The model of a bounded configuration's state.
pub open spec fn bounded_view_of(c: Config<BoundedSources>) -> BoundedView {
    BoundedView {
        value: c.state.value@,
        last: c.path@,
        sources: source_views(c.state.source_report.entries@),
        layers: layer_entry_views(c.state.layer_report.entries@),
        winners: c.state.global_winner_map@,
        order: Seq::empty(),
    }
}

impl Loader {
    /// Load every layer with full provenance, given what reading each gave
    /// (`reads[i]` for `layers[i]`), without environment overrides (see
    /// [`bounded_upto`]).
    pub fn load_bounded(self, reads: &Vec<SourceRead>, cwd: &str, env: &EnvSnapshot) -> (r: Result<Config<BoundedSources>, Error>)
        requires
            reads@.len() == self@.layers.len(),
        ensures
            match bounded_upto(bounded_start(cwd@), self@.layers, read_views(reads@), env.vars@, self@.layers.len()) {
                Ok(st) => r matches Ok(c) && bounded_view_of(c) == BoundedView { order: Seq::empty(), ..st }
                    && value_wf(c.state.value),
                Err(f) => r matches Err(e) && failure_of(e) == f,
            },
    {
        let ghost lv = self@.layers;
        let ghost rv = read_views(reads@);
        let ghost st0 = bounded_start(cwd@);
        let mut b = BoundedLoad::start(cwd);
        let mut i: usize = 0;
        while i < self.layers.len()
            invariant
                i <= self.layers@.len(),
                reads@.len() == self.layers@.len(),
                lv == self@.layers,
                lv == layer_views(self.layers@),
                rv == read_views(reads@),
                st0 == bounded_start(cwd@),
                value_wf(b.value),
                b.sources.entries@.len() <= i,
                bounded_upto(st0, lv, rv, env.vars@, i as nat) == Ok::<BoundedView, LoadFailure>(b.view()),
            decreases self.layers@.len() - i,
        {
            assert(lv[i as int] == self.layers@[i as int]@);
            assert(rv[i as int] == reads@[i as int]@);
            match b.absorb(&self.layers[i], &reads[i], env) {
                Ok(()) => {},
                Err(e) => {
                    proof {
                        lemma_bounded_upto_stops(st0, lv, rv, env.vars@, (i + 1) as nat, lv.len());
                    }
                    return Err(e);
                },
            }
            i = i + 1;
        }
        let c = Config {
            state: BoundedSources {
                value: b.value,
                source_report: b.sources,
                layer_report: b.layers,
                global_winner_map: b.winners,
            },
            path: b.last,
        };
        Ok(c)
    }
}


// ---------------------------------------------------------------------------
// Environment overrides with provenance
// ---------------------------------------------------------------------------

/// The type a coerced environment value has.
pub open spec fn coerced_of(m: TomlModel) -> CoercedType {
    match m {
        TomlModel::Bool(_) => CoercedType::Bool,
        TomlModel::Int(_) => CoercedType::Integer,
        TomlModel::Float(_) => CoercedType::Float,
        _ => CoercedType::Str,
    }
}

/// The model of overrides applied so far: the value, the winners, the entries.
pub struct EnvApplied {
    pub value: TomlModel,
    pub winners: Map<Seq<char>, Seq<char>>,
    pub entries: Seq<EnvEntryView>,
}

/// One variable considered under `prefix`: one that does not match is
/// ignored; one that maps to an empty key path is recorded as rejected with
/// `empty_path`; otherwise its coerced value is stored at the key path,
/// `env` wins the path, and an accepted entry with the digests is recorded.
pub open spec fn env_apply_step(st: EnvApplied, key: Seq<char>, val: Seq<char>, prefix: Seq<char>) -> EnvApplied {
    match env_key_path(key, prefix) {
        None => st,
        Some(tk) => if tk.len() > 0 {
            let m = env_value_model(val);
            EnvApplied {
                value: set_model(st.value, nonempty_pieces(tk, '.'), m),
                winners: st.winners.insert(tk, "env"@),
                entries: st.entries.push(
                    EnvEntryView {
                        raw_env_key: key,
                        configured_prefix: prefix,
                        mapped_path: tk,
                        raw_value_digest: text_digest(val),
                        coerced_type: Some(coerced_of(m)),
                        coerced_value_digest: Some(text_digest(toml_shown(m))),
                        accepted: true,
                        rejection_code: None,
                    },
                ),
            }
        } else {
            EnvApplied {
                entries: st.entries.push(
                    EnvEntryView {
                        raw_env_key: key,
                        configured_prefix: prefix,
                        mapped_path: Seq::empty(),
                        raw_value_digest: text_digest(val),
                        coerced_type: None,
                        coerced_value_digest: None,
                        accepted: false,
                        rejection_code: Some("empty_path"@),
                    },
                ),
                ..st
            }
        },
    }
}

/// The variables considered in order (see [`env_apply_step`]).
pub open spec fn env_apply(st: EnvApplied, vars: Seq<(String, String)>, prefix: Seq<char>) -> EnvApplied
    decreases vars.len(),
{
    if vars.len() == 0 {
        st
    } else {
        env_apply_step(env_apply(st, vars.drop_last(), prefix), vars.last().0@, vars.last().1@, prefix)
    }
}

/// The environment overrides applied and recorded.
#[derive(Debug)]
pub struct EnvResolved {
    /// The merged value with the overrides applied.
    pub value: TomlValue,
    /// Carried from the bounded state.
    pub source_report: SourceReport,
    /// Carried from the bounded state.
    pub layer_report: LayerReport,
    /// The variables that matched the prefix.
    pub env_report: EnvOverrideReport,
    /// Every leaf path mapped to its winner, `env` for the overridden ones.
    pub global_winner_map: WinnerMap,
}

impl Config<BoundedSources> {
    /// The name of this state.
    pub fn state_name(&self) -> (r: &'static str)
        ensures
            r@ == "BoundedSources"@,
    {
        "BoundedSources"
    }

    /// The source provenance report.
    pub fn source_report(&self) -> (r: &SourceReport)
        ensures
            *r == self.state.source_report,
    {
        &self.state.source_report
    }

    /// The layer provenance report.
    pub fn layer_report(&self) -> (r: &LayerReport)
        ensures
            *r == self.state.layer_report,
    {
        &self.state.layer_report
    }

    /// The cumulative winner map after all layers.
    pub fn global_winner_map(&self) -> (r: &WinnerMap)
        ensures
            *r == self.state.global_winner_map,
    {
        &self.state.global_winner_map
    }

    /// Apply the environment variables matching `prefix` (none when `None`),
    /// recording each (see [`env_apply`]), and move to the resolved state.
    pub fn apply_env(self, prefix: Option<&str>, env: &EnvSnapshot) -> (r: Result<Config<EnvResolved>, Error>)
        requires
            value_wf(self.state.value),
        ensures
            r matches Ok(c) && {
                &&& c.path == self.path
                &&& c.state.source_report == self.state.source_report
                &&& c.state.layer_report == self.state.layer_report
                &&& value_wf(c.state.value)
                &&& match prefix {
                    Some(p) => {
                        let a = env_apply(
                            EnvApplied { value: self.state.value@, winners: self.state.global_winner_map@, entries: Seq::empty() },
                            env.vars@,
                            p@,
                        );
                        &&& c.state.value@ == a.value
                        &&& c.state.global_winner_map@ == a.winners
                        &&& env_entry_views(c.state.env_report.entries@) == a.entries
                        &&& c.state.env_report.prefix@ == p@
                    },
                    None => {
                        &&& c.state.value@ == self.state.value@
                        &&& c.state.global_winner_map@ == self.state.global_winner_map@
                        &&& c.state.env_report.entries@.len() == 0
                        &&& c.state.env_report.prefix@.len() == 0
                    },
                }
            },
    {
        let mut value = self.state.value;
        let mut winners = self.state.global_winner_map;
        let mut report = EnvOverrideReport::new();
        match prefix {
            Some(p) => {
                report.prefix = owned(p);
                let ghost st0 = EnvApplied { value: value@, winners: winners@, entries: Seq::empty() };
                assert(env_entry_views(report.entries@) =~= Seq::<EnvEntryView>::empty());
                let mut i: usize = 0;
                while i < env.vars.len()
                    invariant
                        i <= env.vars@.len(),
                        value_wf(value),
                        report.prefix@ == p@,
                        env_apply(st0, env.vars@.take(i as int), p@) == (EnvApplied {
                            value: value@,
                            winners: winners@,
                            entries: env_entry_views(report.entries@),
                        }),
                    decreases env.vars@.len() - i,
                {
                    proof {
                        let t = env.vars@.take(i as int + 1);
                        assert(t.drop_last() =~= env.vars@.take(i as int));
                        assert(t.last() == env.vars@[i as int]);
                    }
                    let key = &env.vars[i].0;
                    let raw = &env.vars[i].1;
                    match env_key_to_path(key.as_str(), p) {
                        Some(tk) => {
                            let ghost before = env_entry_views(report.entries@);
                            let raw_digest = blake3_hex_str(raw.as_str());
                            if !tk.as_str().is_empty() {
                                let v = env_str_to_value(raw.as_str());
                                let coerced = match &v {
                                    TomlValue::Boolean(_) => CoercedType::Bool,
                                    TomlValue::Integer(_) => CoercedType::Integer,
                                    TomlValue::Float(_) => CoercedType::Float,
                                    _ => CoercedType::Str,
                                };
                                let shown = show_toml(&v);
                                let coerced_digest = blake3_hex_str(shown.as_str());
                                set_dotted(&mut value, tk.as_str(), v);
                                winners.insert(tk.clone(), owned("env"));
                                let e = EnvOverrideEntry {
                                    raw_env_key: key.clone(),
                                    configured_prefix: owned(p),
                                    mapped_path: tk,
                                    raw_value_digest: raw_digest,
                                    coerced_type: Some(coerced),
                                    coerced_value_digest: Some(coerced_digest),
                                    accepted: true,
                                    rejection_code: None,
                                };
                                report.entries.push(e);
                                assert(env_entry_views(report.entries@) =~= before.push(e@));
                            } else {
                                let e = EnvOverrideEntry {
                                    raw_env_key: key.clone(),
                                    configured_prefix: owned(p),
                                    mapped_path: String::new(),
                                    raw_value_digest: raw_digest,
                                    coerced_type: None,
                                    coerced_value_digest: None,
                                    accepted: false,
                                    rejection_code: Some(owned("empty_path")),
                                };
                                report.entries.push(e);
                                assert(env_entry_views(report.entries@) =~= before.push(e@));
                            }
                        },
                        None => {},
                    }
                    i = i + 1;
                }
                assert(env.vars@.take(env.vars@.len() as int) =~= env.vars@);
            },
            None => {},
        }
        Ok(Config {
            state: EnvResolved {
                value,
                source_report: self.state.source_report,
                layer_report: self.state.layer_report,
                env_report: report,
                global_winner_map: winners,
            },
            path: self.path,
        })
    }
}


// ---------------------------------------------------------------------------
// The resolved state, freezing and admission
// ---------------------------------------------------------------------------

/// The provenance of a load: sources, layers, overrides, winners.
#[derive(Debug)]
pub struct Provenance {
    /// Source provenance.
    pub source_report: SourceReport,
    /// Layer merge provenance.
    pub layer_report: LayerReport,
    /// Environment override provenance.
    pub env_report: EnvOverrideReport,
    /// Final cumulative winner map.
    pub global_winner_map: WinnerMap,
}

impl Config<EnvResolved> {
    /// The name of this state.
    pub fn state_name(&self) -> (r: &'static str)
        ensures
            r@ == "EnvResolved"@,
    {
        "EnvResolved"
    }

    /// The source provenance report.
    pub fn source_report(&self) -> (r: &SourceReport)
        ensures
            *r == self.state.source_report,
    {
        &self.state.source_report
    }

    /// The layer provenance report.
    pub fn layer_report(&self) -> (r: &LayerReport)
        ensures
            *r == self.state.layer_report,
    {
        &self.state.layer_report
    }

    /// The environment override report.
    pub fn env_report(&self) -> (r: &EnvOverrideReport)
        ensures
            *r == self.state.env_report,
    {
        &self.state.env_report
    }

    /// The cumulative winner map after the overrides.
    pub fn global_winner_map(&self) -> (r: &WinnerMap)
        ensures
            *r == self.state.global_winner_map,
    {
        &self.state.global_winner_map
    }

    /// The resolved value, to deserialize from.
    pub fn value(&self) -> (r: &TomlValue)
        ensures
            *r == self.state.value,
    {
        &self.state.value
    }

    /// Split into the merged configuration and its provenance.
    pub fn into_parts(self) -> (r: (Config<Merged>, Provenance))
        ensures
            r.0.state.0 == self.state.value,
            r.0.path == self.path,
            r.1.source_report == self.state.source_report,
            r.1.layer_report == self.state.layer_report,
            r.1.env_report == self.state.env_report,
            r.1.global_winner_map == self.state.global_winner_map,
    {
        let prov = Provenance {
            source_report: self.state.source_report,
            layer_report: self.state.layer_report,
            env_report: self.state.env_report,
            global_winner_map: self.state.global_winner_map,
        };
        (Config { state: Merged(self.state.value), path: self.path }, prov)
    }

    /// Move to the deserialized state with `value` (deserialized from the
    /// resolved value), normalized.
    pub fn deserialized<T: ConfigLifecycle>(self, value: T) -> (r: Config<Deserialized<T>>)
        ensures
            r.path == self.path,
    {
        let mut value = value;
        value.normalize();
        Config { state: Deserialized(value), path: self.path }
    }

    /// Deserialize (with `value`), validate and freeze, keeping the provenance.
    pub fn finish_frozen<T: crate::validation::Validate + ConfigLifecycle>(self, value: T, type_path: &str) -> (r: Result<FrozenLoadResult<T>, Error>)
        ensures
            r matches Ok(f) ==> {
                &&& f.config.path == self.path
                &&& f.source_report == self.state.source_report
                &&& f.layer_report == self.state.layer_report
                &&& f.env_report == self.state.env_report
                &&& f.global_winner_map == self.state.global_winner_map
            },
            r matches Err(e) ==> e matches Error::Invalid(rep) && crate::validation::failed_count(rep@.errors) > 0
                && rep@.title == Some(after_last_path_sep(type_path@)),
    {
        let (merged, prov) = self.into_parts();
        let deser = merged.deserialized(value);
        let validated = deser.validate(type_path)?;
        let config = validated.freeze();
        Ok(FrozenLoadResult {
            config,
            source_report: prov.source_report,
            layer_report: prov.layer_report,
            env_report: prov.env_report,
            global_winner_map: prov.global_winner_map,
        })
    }
}

/// A frozen, validated configuration with the provenance of its load.
#[derive(Debug)]
pub struct FrozenLoadResult<T> {
    /// The frozen configuration.
    pub config: Config<Frozen<T>>,
    /// Source provenance.
    pub source_report: SourceReport,
    /// Layer merge provenance.
    pub layer_report: LayerReport,
    /// Environment override provenance.
    pub env_report: EnvOverrideReport,
    /// Final cumulative winner map.
    pub global_winner_map: WinnerMap,
}

} // verus!
