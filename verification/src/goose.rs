//! The agent driver: which model a recipe runs on, with which arguments and
//! settings, and what is read from what the agent printed.
//!
//! An agent prints a JSON envelope `{"messages": [...]}`. The answer of a
//! recipe is the last JSON line of the last text block of the last message of
//! the assistant in it.

use vstd::prelude::*;
use crate::config;
use crate::config::{phases, ConfigError, TomlView};
use crate::discover;
use crate::discover::{to_segments, to_stem};
use crate::json;
use crate::json::{list_field, JsonView};
use crate::number;
use crate::number::{parse_unsigned, to_decimal};
use crate::text;
use crate::text::{
    bytes_before, chars_of, contains, contains_char, debug, ends_with, join, lines_of, member, owned, same,
    starts_with, trim, CharSet, Draft,
};

pub use crate::json::field;

verus! {

// ---------------------------------------------------------------------
// Models
// ---------------------------------------------------------------------

/// The model that the settings ask for; what is not set is left to the agent's
/// own default.
#[derive(Debug, PartialEq)]
pub struct ModelPin {
    pub provider: Option<String>,
    pub model: Option<String>,
}

/// The contents of a [`ModelPin`].
pub struct PinView {
    pub provider: Option<Seq<char>>,
    pub model: Option<Seq<char>>,
}

impl View for ModelPin {
    type V = PinView;

    open spec fn view(&self) -> PinView {
        PinView { provider: text::opt(self.provider), model: text::opt(self.model) }
    }
}

impl Default for ModelPin {
    /// Nothing set.
    fn default() -> (r: ModelPin)
        ensures
            r@ == (PinView { provider: None, model: None }),
    {
        ModelPin { provider: None, model: None }
    }
}

/// A string setting: none where it is not there or blank.
pub open spec fn setting(scope: Option<TomlView>, key: Seq<char>, place: Seq<char>) -> Result<
    Option<Seq<char>>,
    ConfigError<Seq<char>>,
> {
    match scope {
        None => Ok(None),
        Some(s) => match s.member(key) {
            None => Ok(None),
            Some(v) => match v.text() {
                None => Err(ConfigError::NotText { place, key, found: v.kind_name() }),
                Some(t) => if text::trimmed(t).len() == 0 {
                    Ok(None)
                } else {
                    Ok(Some(text::trimmed(t)))
                },
            },
        },
    }
}

pub open spec fn if_table(v: Option<TomlView>) -> Option<TomlView> {
    match v {
        Some(TomlView::Table(m)) => v,
        _ => None,
    }
}

/// A key of the model section that names neither a phase nor a base setting.
pub open spec fn stray(key: Seq<char>) -> bool {
    !config::known_phases().contains(key) && key != "provider"@ && key != "model"@
}

/// `key` is the first of the stray keys.
pub open spec fn first_stray(m: Map<Seq<char>, TomlView>, key: Seq<char>) -> bool {
    &&& m.dom().contains(key)
    &&& stray(key)
    &&& forall|k: Seq<char>| #[trigger]
        m.dom().contains(k) && stray(k) ==> k == key || text::before(key, k)
}

/// The first stray key of the model section; such a section is a typing error,
/// and ignoring it would run another model than was meant.
pub open spec fn stray_in(base: Option<TomlView>) -> Option<Seq<char>> {
    match base {
        Some(TomlView::Table(m)) => if has_stray(m) {
            Some(the_stray(m))
        } else {
            None
        },
        _ => None,
    }
}

pub open spec fn has_stray(m: Map<Seq<char>, TomlView>) -> bool {
    exists|k: Seq<char>| first_stray(m, k)
}

pub open spec fn the_stray(m: Map<Seq<char>, TomlView>) -> Seq<char> {
    choose|k: Seq<char>| first_stray(m, k)
}

/// The setting of a phase, or what it falls back to.
pub open spec fn or_base(
    own: Result<Option<Seq<char>>, ConfigError<Seq<char>>>,
    base: Option<Seq<char>>,
) -> Result<Option<Seq<char>>, ConfigError<Seq<char>>> {
    match own {
        Err(e) => Err(e),
        Ok(Some(v)) => Ok(Some(v)),
        Ok(None) => Ok(base),
    }
}

/// The provider without regard to phases: the top of the file before the
/// `[model]` section.
pub open spec fn base_provider(doc: TomlView) -> Result<Option<Seq<char>>, ConfigError<Seq<char>>> {
    match setting(Some(doc), "provider"@, "top-level"@) {
        Err(e) => Err(e),
        Ok(Some(v)) => Ok(Some(v)),
        Ok(None) => setting(if_table(doc.member("model"@)), "provider"@, "[model]"@),
    }
}

/// The model without regard to phases: that of the `[model]` section where
/// there is one, that of the top of the file otherwise.
pub open spec fn base_model(doc: TomlView) -> Result<Option<Seq<char>>, ConfigError<Seq<char>>> {
    match if_table(doc.member("model"@)) {
        Some(m) => setting(Some(m), "model"@, "[model]"@),
        None => setting(Some(doc), "model"@, "top-level"@),
    }
}

/// The section of a phase, where it has one.
pub open spec fn section_of(doc: TomlView, phase: Seq<char>) -> Option<TomlView> {
    match if_table(doc.member("model"@)) {
        Some(m) => if_table(m.member(phase)),
        None => None,
    }
}

/// The pin of a phase in a document.
pub open spec fn pin_in(doc: TomlView, phase: Seq<char>) -> Result<
    PinView,
    ConfigError<Seq<char>>,
> {
    let section = section_of(doc, phase);
    let place = "[model."@ + phase + "]"@;
    match stray_in(if_table(doc.member("model"@))) {
        Some(key) => Err(ConfigError::UnknownPhase { key }),
        None => match base_provider(doc) {
            Err(e) => Err(e),
            Ok(p) => match base_model(doc) {
                Err(e) => Err(e),
                Ok(m) => match or_base(setting(section, "provider"@, place), p) {
                    Err(e) => Err(e),
                    Ok(provider) => match or_base(setting(section, "model"@, place), m) {
                        Err(e) => Err(e),
                        Ok(model) => Ok(PinView { provider, model }),
                    },
                },
            },
        },
    }
}

/// The error of a file that is no document. A bare `model` key beside phase
/// sections is told apart.
pub open spec fn syntax_error(t: Seq<char>, detail: Seq<char>) -> ConfigError<Seq<char>> {
    if text::has_text(t, "[model."@) && (text::has_text(detail, "duplicate key"@)
        || text::has_text(detail, "attempted to extend non-table"@)) {
        ConfigError::BareModelKey { detail }
    } else {
        ConfigError::Syntax { detail }
    }
}

/// The pin of a phase in the settings file.
pub open spec fn pin_of(content: Option<Seq<char>>, phase: Seq<char>) -> Result<
    PinView,
    ConfigError<Seq<char>>,
> {
    match content {
        None => Ok(PinView { provider: None, model: None }),
        Some(t) => match config::toml_document(t) {
            Err(detail) => Err(syntax_error(t, detail)),
            Ok(doc) => pin_in(doc, phase),
        },
    }
}

pub open spec fn opt_toml(v: Option<&toml::Value>) -> Option<TomlView> {
    match v {
        Some(x) => Some(config::toml_view(*x)),
        None => None,
    }
}

fn read_setting(scope: Option<&toml::Value>, key: &str, place: &str) -> (r: Result<
    Option<String>,
    ConfigError<String>,
>)
    ensures
        match r {
            Ok(v) => setting(opt_toml(scope), key@, place@) == Ok::<
                Option<Seq<char>>,
                ConfigError<Seq<char>>,
            >(text::opt(v)),
            Err(e) => setting(opt_toml(scope), key@, place@) == Err::<
                Option<Seq<char>>,
                ConfigError<Seq<char>>,
            >(e@),
        },
{
    match scope {
        None => Ok(None),
        Some(s) => match config::get(s, key) {
            None => Ok(None),
            Some(v) => match config::as_str(v) {
                None => Err(
                    ConfigError::NotText {
                        place: owned(place),
                        key: owned(key),
                        found: config::kind_name(v),
                    },
                ),
                Some(t) => {
                    let cut = trim(t);
                    if cut.is_empty() {
                        Ok(None)
                    } else {
                        Ok(Some(owned(cut)))
                    }
                },
            },
        },
    }
}

fn table_under<'a>(v: &'a toml::Value, key: &str) -> (r: Option<&'a toml::Value>)
    ensures
        opt_toml(r) == if_table(config::toml_view(*v).member(key@)),
{
    match config::get(v, key) {
        Some(x) => if config::table_keys(x).is_some() {
            Some(x)
        } else {
            None
        },
        None => None,
    }
}

fn find_stray(base: Option<&toml::Value>) -> (r: Option<String>)
    ensures
        text::opt(r) == stray_in(opt_toml(base)),
{
    let v: &toml::Value = match base {
        Some(v) => v,
        None => {
            return None;
        },
    };
    let keys: Vec<String> = match config::table_keys(v) {
        Some(l) => l,
        None => {
            return None;
        },
    };
    let known: Vec<String> = phases();
    let ghost m = config::toml_view(*v)->Table_0;
    let ghost all = text::texts(keys@);
    let mut i: usize = 0;
    while i < keys.len()
        invariant
            i <= keys.len(),
            all == text::texts(keys@),
            text::texts(known@) == config::known_phases(),
            base == Some(v),
            config::toml_view(*v) == TomlView::Table(m),
            all.to_set() == m.dom(),
            forall|a: int, b: int|
                0 <= a < b < keys@.len() ==> text::before(
                    #[trigger] keys@[a]@,
                    #[trigger] keys@[b]@,
                ),
            forall|j: int| 0 <= j < i ==> !stray(#[trigger] all[j]),
        decreases keys.len() - i,
    {
        let k = keys[i].as_str();
        assert(all[i as int] == k@);
        if !member(&known, k) && !same(k, "provider") && !same(k, "model") {
            proof {
                assert(all.contains(k@));
                assert(m.dom().contains(k@));
                assert forall|x: Seq<char>| #[trigger] m.dom().contains(x) && stray(x) implies x == k@
                    || text::before(k@, x) by {
                    assert(all.to_set().contains(x));
                    let j = choose|j: int| 0 <= j < all.len() && all[j] == x;
                    assert(keys@[j]@ == x);
                    if j < i {
                        assert(!stray(all[j]));
                    }
                }
                assert(first_stray(m, k@));
                assert forall|x: Seq<char>| #[trigger] first_stray(m, x) implies x == k@ by {
                    assert(m.dom().contains(x) && m.dom().contains(k@));
                    text::lemma_before_strict(x, k@);
                }
                assert(has_stray(m));
                assert(first_stray(m, the_stray(m)));
                assert(opt_toml(base) == Some(TomlView::Table(m)));
            }
            return Some(owned(k));
        }
        i = i + 1;
    }
    proof {
        if has_stray(m) {
            let k = the_stray(m);
            assert(first_stray(m, k));
            assert(all.to_set().contains(k));
            let j = choose|j: int| 0 <= j < all.len() && all[j] == k;
            assert(!stray(all[j]));
        }
    }
    None
}

/// The model of a phase in a document.
pub fn pin_in_document(doc: &toml::Value, phase: &str) -> (r: Result<ModelPin, ConfigError<String>>)
    ensures
        match r {
            Ok(p) => pin_in(config::toml_view(*doc), phase@) == Ok::<
                PinView,
                ConfigError<Seq<char>>,
            >(p@),
            Err(e) => pin_in(config::toml_view(*doc), phase@) == Err::<
                PinView,
                ConfigError<Seq<char>>,
            >(e@),
        },
{
    let base = table_under(doc, "model");
    let section = match base {
        Some(m) => table_under(m, phase),
        None => None,
    };
    if let Some(key) = find_stray(base) {
        return Err(ConfigError::UnknownPhase { key });
    }
    let p: Option<String> = match read_setting(Some(doc), "provider", "top-level") {
        Err(e) => {
            return Err(e);
        },
        Ok(Some(v)) => Some(v),
        Ok(None) => match read_setting(base, "provider", "[model]") {
            Err(e) => {
                return Err(e);
            },
            Ok(v) => v,
        },
    };
    let m: Option<String> = match base {
        Some(_) => match read_setting(base, "model", "[model]") {
            Err(e) => {
                return Err(e);
            },
            Ok(v) => v,
        },
        None => match read_setting(Some(doc), "model", "top-level") {
            Err(e) => {
                return Err(e);
            },
            Ok(v) => v,
        },
    };
    let place = Draft::of("[model.").put(phase).put("]").text;
    let provider: Option<String> = match read_setting(section, "provider", place.as_str()) {
        Err(e) => {
            return Err(e);
        },
        Ok(Some(v)) => Some(v),
        Ok(None) => p,
    };
    let model: Option<String> = match read_setting(section, "model", place.as_str()) {
        Err(e) => {
            return Err(e);
        },
        Ok(Some(v)) => Some(v),
        Ok(None) => m,
    };
    Ok(ModelPin { provider, model })
}

/// The fault of settings that are not a TOML document, given their text and what
/// the parser says of it.
pub fn syntax_fault(t: &str, detail: String) -> (r: ConfigError<String>)
    ensures
        r@ == syntax_error(t@, detail@),
{
    if contains(t, "[model.") && (contains(detail.as_str(), "duplicate key") || contains(
        detail.as_str(),
        "attempted to extend non-table",
    )) {
        ConfigError::BareModelKey { detail }
    } else {
        ConfigError::Syntax { detail }
    }
}

/// The model of a phase: `[model.<phase>]` before `[model]` or the top of the
/// file, each key by itself.
pub fn model_pin_for(content: Option<&str>, phase: &str) -> (r: Result<
    ModelPin,
    ConfigError<String>,
>)
    ensures
        match r {
            Ok(p) => pin_of(text::opt_str(content), phase@) == Ok::<
                PinView,
                ConfigError<Seq<char>>,
            >(p@),
            Err(e) => pin_of(text::opt_str(content), phase@) == Err::<
                PinView,
                ConfigError<Seq<char>>,
            >(e@),
        },
{
    match content {
        None => Ok(ModelPin { provider: None, model: None }),
        Some(t) => match config::parse_toml(t) {
            Err(detail) => Err(syntax_fault(t, detail)),
            Ok(doc) => pin_in_document(&doc, phase),
        },
    }
}

/// The model without regard to phases.
pub fn model_pin(content: Option<&str>) -> (r: Result<ModelPin, ConfigError<String>>)
    ensures
        match r {
            Ok(p) => pin_of(text::opt_str(content), ""@) == Ok::<PinView, ConfigError<Seq<char>>>(
                p@,
            ),
            Err(e) => pin_of(text::opt_str(content), ""@) == Err::<
                PinView,
                ConfigError<Seq<char>>,
            >(e@),
        },
{
    model_pin_for(content, "")
}

/// The phase that a recipe file is for: its name without the extension, where
/// that is a known phase; empty otherwise.
pub open spec fn phase_of(recipe: Seq<char>) -> Seq<char> {
    match discover::file_name(recipe) {
        Some(n) => if config::known_phases().contains(discover::stem(n)) {
            discover::stem(n)
        } else {
            Seq::empty()
        },
        None => Seq::empty(),
    }
}

/// The phase that a recipe file is for.
pub fn phase_from_recipe(recipe: &str) -> (r: String)
    ensures
        r@ == phase_of(recipe@),
{
    let none: String = String::new();
    assert(none@ =~= Seq::empty());
    let segs = to_segments(recipe, CharSet::One('/'));
    let ghost all = text::texts(segs@);
    assert(all.len() == segs@.len());
    if segs.len() == 0 {
        return none;
    }
    assert(all.last() == segs@[segs@.len() - 1]@);
    let name = segs[segs.len() - 1].as_str();
    if same(name, "..") {
        return none;
    }
    let s = to_stem(name);
    if member(&phases(), s) {
        owned(s)
    } else {
        none
    }
}

pub open spec fn or_default(v: Option<Seq<char>>) -> Seq<char> {
    match v {
        Some(s) => s,
        None => "(goose default)"@,
    }
}

/// A pin in words.
pub open spec fn pin_text(p: PinView) -> Seq<char> {
    or_default(p.provider) + " / "@ + or_default(p.model)
}

fn show_pin(p: &ModelPin) -> (r: String)
    ensures
        r@ == pin_text(p@),
{
    let provider: &str = match &p.provider {
        Some(s) => s.as_str(),
        None => "(goose default)",
    };
    let model: &str = match &p.model {
        Some(s) => s.as_str(),
        None => "(goose default)",
    };
    Draft::of(provider).put(" / ").put(model).text
}

/// The phases that have a model of their own, with it.
pub open spec fn overrides(content: Option<Seq<char>>, base: PinView, ps: Seq<Seq<char>>) -> Seq<
    Seq<char>,
>
    decreases ps.len(),
{
    if ps.len() == 0 {
        Seq::empty()
    } else {
        let before = overrides(content, base, ps.drop_last());
        match pin_of(content, ps.last()) {
            Ok(p) => if p != base {
                before.push(ps.last() + ": "@ + pin_text(p))
            } else {
                before
            },
            Err(_) => before,
        }
    }
}

/// The models in words, for the settings file at `cfg`.
pub open spec fn models_text(content: Option<Seq<char>>, cfg: Seq<char>) -> Seq<char> {
    match pin_of(content, ""@) {
        Err(e) => "unusable .review/config.toml: "@ + e.words(cfg),
        Ok(base) => {
            let told = pin_text(base) + (if base.provider is Some || base.model is Some {
                " — from .review/config.toml"@
            } else {
                Seq::empty()
            });
            let own = overrides(content, base, config::known_phases());
            if own.len() == 0 {
                told
            } else {
                told + " ["@ + text::joined(own, "; "@) + "]"@
            }
        },
    }
}

fn same_opt(a: &Option<String>, b: &Option<String>) -> (r: bool)
    ensures
        r == (text::opt(*a) == text::opt(*b)),
{
    match (a, b) {
        (Some(x), Some(y)) => same(x.as_str(), y.as_str()),
        (None, None) => true,
        _ => false,
    }
}

/// The models in words: the base and the phases that differ from it.
pub fn effective_model(content: Option<&str>, cfg: &str) -> (r: String)
    ensures
        r@ == models_text(text::opt_str(content), cfg@),
{
    let base: ModelPin = match model_pin(content) {
        Ok(p) => p,
        Err(e) => {
            return Draft::of("unusable .review/config.toml: ").put(e.message(cfg).as_str()).text;
        },
    };
    let ghost given = text::opt_str(content);
    let mut told: String = show_pin(&base);
    if base.provider.is_some() || base.model.is_some() {
        told.append(" — from .review/config.toml");
    } else {
        assert(told@ + Seq::<char>::empty() =~= told@);
    }
    let ps = phases();
    let ghost all = text::texts(ps@);
    let mut own: Vec<String> = Vec::new();
    let mut i: usize = 0;
    assert(all.take(0) =~= Seq::empty());
    assert(text::texts(own@) =~= Seq::empty());
    while i < ps.len()
        invariant
            i <= ps.len(),
            all == text::texts(ps@),
            given == text::opt_str(content),
            text::texts(own@) == overrides(given, base@, all.take(i as int)),
        decreases ps.len() - i,
    {
        assert(all.take(i + 1).drop_last() =~= all.take(i as int));
        assert(all[i as int] == ps@[i as int]@);
        let phase = ps[i].as_str();
        if let Ok(p) = model_pin_for(content, phase) {
            if !same_opt(&p.provider, &base.provider) || !same_opt(&p.model, &base.model) {
                let line = Draft::of(phase).put(": ").put(show_pin(&p).as_str()).text;
                let ghost l = line@;
                let ghost was = text::texts(own@);
                own.push(line);
                assert(text::texts(own@) =~= was.push(l));
            }
        }
        i = i + 1;
    }
    assert(all.take(all.len() as int) =~= all);
    assert(text::texts(own@).len() == own@.len());
    if own.len() > 0 {
        told.append(" [");
        told.append(join(&own, "; ").as_str());
        told.append("]");
    }
    told
}

/// What a phase sets for itself wins, and each key that it does not set it
/// takes from the base.
pub proof fn law_phase_overrides_key_by_key(doc: TomlView, phase: Seq<char>)
    requires
        pin_in(doc, phase) is Ok,
    ensures
        ({
            let pin = pin_in(doc, phase)->Ok_0;
            let place = "[model."@ + phase + "]"@;
            let provider = setting(section_of(doc, phase), "provider"@, place);
            let model = setting(section_of(doc, phase), "model"@, place);
            &&& provider is Ok && model is Ok && base_provider(doc) is Ok && base_model(doc) is Ok
            &&& pin.provider == (if provider->Ok_0 is Some {
                provider->Ok_0
            } else {
                base_provider(doc)->Ok_0
            })
            &&& pin.model == (if model->Ok_0 is Some {
                model->Ok_0
            } else {
                base_model(doc)->Ok_0
            })
        }),
{
}

/// Without settings for it a phase runs on the base model.
pub proof fn law_phase_inherits_the_base(doc: TomlView, phase: Seq<char>)
    requires
        pin_in(doc, phase) is Ok,
        section_of(doc, phase) is None,
    ensures
        base_provider(doc) == Ok::<Option<Seq<char>>, ConfigError<Seq<char>>>(
            pin_in(doc, phase)->Ok_0.provider,
        ),
        base_model(doc) == Ok::<Option<Seq<char>>, ConfigError<Seq<char>>>(
            pin_in(doc, phase)->Ok_0.model,
        ),
{
}

// ---------------------------------------------------------------------
// Starting a recipe
// ---------------------------------------------------------------------

/// How long a recipe may run by default, in seconds: the slowest phase seen ran
/// for about half of it.
pub const GOOSE_RUN_TIMEOUT: u64 = 3600;

/// How long a recipe may run, by the environment.
pub open spec fn run_limit(env: Option<Seq<char>>) -> nat {
    match env {
        None => GOOSE_RUN_TIMEOUT as nat,
        Some(raw) => match number::parsed(text::trimmed(raw), u64::MAX as nat) {
            None => GOOSE_RUN_TIMEOUT as nat,
            Some(n) => if n < 1 {
                1
            } else {
                n
            },
        },
    }
}

/// How long a recipe may run in seconds, by the environment.
pub fn goose_run_timeout(env: Option<&str>) -> (r: u64)
    ensures
        r == run_limit(text::opt_str(env)),
{
    match env {
        None => GOOSE_RUN_TIMEOUT,
        Some(raw) => match parse_unsigned(trim(raw), u64::MAX) {
            None => GOOSE_RUN_TIMEOUT,
            Some(n) => if n < 1 {
                1
            } else {
                n
            },
        },
    }
}

/// The contents of a list of pairs of texts.
pub open spec fn pairs(l: Seq<(String, String)>) -> Seq<(Seq<char>, Seq<char>)> {
    l.map_values(|p: (String, String)| (p.0@, p.1@))
}

/// A text that cannot be handed to a recipe: it would be split at the wrong
/// place, or break out of its line.
pub open spec fn unsafe_text(s: Seq<char>) -> bool {
    text::has_char(s, CharSet::One('=')) || text::has_char(s, CharSet::LineEnd)
}

/// The arguments for the parameters, or the first key that cannot be handed
/// over.
pub open spec fn param_args(ps: Seq<(Seq<char>, Seq<char>)>) -> Result<Seq<Seq<char>>, Seq<char>>
    decreases ps.len(),
{
    if ps.len() == 0 {
        Ok(Seq::empty())
    } else {
        match param_args(ps.drop_last()) {
            Err(k) => Err(k),
            Ok(before) => {
                let (k, v) = ps.last();
                if unsafe_text(k) || unsafe_text(v) {
                    Err(k)
                } else {
                    Ok(before.push("--params"@).push(k + "="@ + v))
                }
            },
        }
    }
}

/// What every run of a recipe starts with.
pub open spec fn head_args(recipe: Seq<char>) -> Seq<Seq<char>> {
    seq!["run"@, "--recipe"@, recipe, "--no-session"@, "--output-format"@, "json"@]
}

pub open spec fn turn_args(max_turns: Option<u32>) -> Seq<Seq<char>> {
    match max_turns {
        Some(n) => seq!["--max-turns"@, number::decimal(n as nat)],
        None => Seq::empty(),
    }
}

/// The arguments of a run of a recipe, or the key of a parameter that cannot be
/// handed over.
pub open spec fn run_args(
    recipe: Seq<char>,
    ps: Seq<(Seq<char>, Seq<char>)>,
    max_turns: Option<u32>,
) -> Result<Seq<Seq<char>>, Seq<char>> {
    match param_args(ps) {
        Err(k) => Err(k),
        Ok(args) => Ok(head_args(recipe) + args + turn_args(max_turns)),
    }
}

proof fn lemma_param_args_stop(ps: Seq<(Seq<char>, Seq<char>)>, k: int)
    requires
        0 <= k <= ps.len(),
        param_args(ps.take(k)) is Err,
    ensures
        param_args(ps) == param_args(ps.take(k)),
    decreases ps.len(),
{
    if k < ps.len() {
        assert(ps.drop_last().take(k) =~= ps.take(k));
        lemma_param_args_stop(ps.drop_last(), k);
    } else {
        assert(ps.take(k) =~= ps);
    }
}

fn is_unsafe(s: &str) -> (r: bool)
    ensures
        r == unsafe_text(s@),
{
    contains_char(s, CharSet::One('=')) || contains_char(s, CharSet::LineEnd)
}

/// Why a parameter cannot be handed to a recipe.
pub open spec fn unsafe_param_text(key: Seq<char>) -> Seq<char> {
    "unsafe recipe param "@ + text::debug_text(key)
        + ": keys/values with '=' or line breaks cannot be passed via --params (use a file instead)"@
}

/// Why a parameter cannot be handed to a recipe.
pub fn unsafe_param(key: &str) -> (r: String)
    ensures
        r@ == unsafe_param_text(key@),
{
    Draft::of("unsafe recipe param ").put(debug(key).as_str()).put(
        ": keys/values with '=' or line breaks cannot be passed via --params (use a file instead)",
    ).text
}

/// The arguments of a run of a recipe, or the key of the first parameter that
/// cannot be handed over.
pub fn recipe_args(recipe: &str, params: &Vec<(String, String)>, max_turns: Option<u32>) -> (r:
    Result<Vec<String>, String>)
    ensures
        match r {
            Ok(args) => run_args(recipe@, pairs(params@), max_turns) == Ok::<
                Seq<Seq<char>>,
                Seq<char>,
            >(text::texts(args@)),
            Err(k) => run_args(recipe@, pairs(params@), max_turns) == Err::<
                Seq<Seq<char>>,
                Seq<char>,
            >(k@),
        },
{
    let mut args: Vec<String> = Vec::new();
    args.push(owned("run"));
    args.push(owned("--recipe"));
    args.push(owned(recipe));
    args.push(owned("--no-session"));
    args.push(owned("--output-format"));
    args.push(owned("json"));
    let ghost head = head_args(recipe@);
    assert(text::texts(args@) =~= head);
    let ghost all = pairs(params@);
    let mut i: usize = 0;
    assert(all.take(0) =~= Seq::empty());
    assert(head + Seq::<Seq<char>>::empty() =~= head);
    while i < params.len()
        invariant
            i <= params.len(),
            all == pairs(params@),
            head == head_args(recipe@),
            param_args(all.take(i as int)) is Ok,
            text::texts(args@) == head + param_args(all.take(i as int))->Ok_0,
        decreases params.len() - i,
    {
        assert(all.take(i + 1).drop_last() =~= all.take(i as int));
        assert(all.take(i + 1).last() == (params@[i as int].0@, params@[i as int].1@));
        let k = params[i].0.as_str();
        let v = params[i].1.as_str();
        if is_unsafe(k) || is_unsafe(v) {
            proof {
                lemma_param_args_stop(all, i + 1);
            }
            return Err(owned(k));
        }
        let ghost before = param_args(all.take(i as int))->Ok_0;
        let pair = Draft::of(k).put("=").put(v).text;
        let ghost p = pair@;
        let ghost was = text::texts(args@);
        args.push(owned("--params"));
        args.push(pair);
        assert(text::texts(args@) =~= was.push("--params"@).push(p));
        assert(was.push("--params"@).push(p) =~= head + before.push("--params"@).push(p));
        i = i + 1;
    }
    assert(all.take(all.len() as int) =~= all);
    let ghost was = text::texts(args@);
    match max_turns {
        Some(n) => {
            let turns = to_decimal(n as u64);
            let ghost d = turns@;
            args.push(owned("--max-turns"));
            args.push(turns);
            assert(text::texts(args@) =~= was + seq!["--max-turns"@, d]);
        },
        None => {
            assert(was + Seq::<Seq<char>>::empty() =~= was);
        },
    }
    Ok(args)
}

pub open spec fn opt_pair(key: Seq<char>, v: Option<Seq<char>>) -> Seq<(Seq<char>, Seq<char>)> {
    match v {
        Some(s) => seq![(key, s)],
        None => Seq::empty(),
    }
}

/// The environment of a run: the model where one is set, and limits on thinking
/// and on the length of an answer unless the caller's environment has its own.
pub open spec fn run_env_pairs(pin: PinView, effort_set: bool, tokens_set: bool) -> Seq<
    (Seq<char>, Seq<char>),
> {
    opt_pair("GOOSE_PROVIDER"@, pin.provider) + opt_pair("GOOSE_MODEL"@, pin.model) + opt_pair(
        "GOOSE_THINKING_EFFORT"@,
        if effort_set {
            None
        } else {
            Some("medium"@)
        },
    ) + opt_pair(
        "GOOSE_MAX_TOKENS"@,
        if tokens_set {
            None
        } else {
            Some("65536"@)
        },
    ) + seq![("GOOSE_MODE"@, "auto"@)]
}

fn push_pair(out: &mut Vec<(String, String)>, key: &str, v: &str)
    ensures
        pairs(final(out)@) == pairs(old(out)@) + seq![(key@, v@)],
{
    let ghost was = pairs(out@);
    out.push((owned(key), owned(v)));
    assert(pairs(out@) =~= was + seq![(key@, v@)]);
}

/// The environment of a run of a recipe.
pub fn run_env(pin: &ModelPin, effort_set: bool, tokens_set: bool) -> (r: Vec<(String, String)>)
    ensures
        pairs(r@) == run_env_pairs(pin@, effort_set, tokens_set),
{
    let mut out: Vec<(String, String)> = Vec::new();
    let ghost none = Seq::<(Seq<char>, Seq<char>)>::empty();
    assert(pairs(out@) =~= none);
    if let Some(p) = &pin.provider {
        push_pair(&mut out, "GOOSE_PROVIDER", p.as_str());
    }
    assert(pairs(out@) =~= opt_pair("GOOSE_PROVIDER"@, pin@.provider));
    let ghost one = pairs(out@);
    if let Some(m) = &pin.model {
        push_pair(&mut out, "GOOSE_MODEL", m.as_str());
    }
    assert(pairs(out@) =~= one + opt_pair("GOOSE_MODEL"@, pin@.model));
    let ghost two = pairs(out@);
    if !effort_set {
        push_pair(&mut out, "GOOSE_THINKING_EFFORT", "medium");
    }
    assert(pairs(out@) =~= two + opt_pair(
        "GOOSE_THINKING_EFFORT"@,
        if effort_set {
            None
        } else {
            Some("medium"@)
        },
    ));
    let ghost three = pairs(out@);
    if !tokens_set {
        push_pair(&mut out, "GOOSE_MAX_TOKENS", "65536");
    }
    assert(pairs(out@) =~= three + opt_pair(
        "GOOSE_MAX_TOKENS"@,
        if tokens_set {
            None
        } else {
            Some("65536"@)
        },
    ));
    push_pair(&mut out, "GOOSE_MODE", "auto");
    out
}

// ---------------------------------------------------------------------
// Reading an answer
// ---------------------------------------------------------------------

/// How far braces have been counted: the depth, and whether the place is inside
/// a string and behind a backslash.
pub struct Braces {
    pub depth: int,
    pub in_string: bool,
    pub escape: bool,
}

impl Braces {
    /// After one more character.
    pub open spec fn step(self, c: char) -> Braces {
        if self.in_string {
            if self.escape {
                Braces { escape: false, ..self }
            } else if c == '\\' {
                Braces { escape: true, ..self }
            } else if c == '"' {
                Braces { in_string: false, ..self }
            } else {
                self
            }
        } else if c == '"' {
            Braces { in_string: true, ..self }
        } else if c == '{' {
            Braces { depth: self.depth + 1, ..self }
        } else if c == '}' {
            Braces { depth: self.depth - 1, ..self }
        } else {
            self
        }
    }
}

/// The braces of the first `n` characters.
pub open spec fn braces(s: Seq<char>, n: int) -> Braces
    decreases n,
{
    if n <= 0 {
        Braces { depth: 0, in_string: false, escape: false }
    } else {
        braces(s, n - 1).step(s[n - 1])
    }
}

/// The brace at `i` closes what was opened.
pub open spec fn closes(s: Seq<char>, i: int) -> bool {
    &&& 0 <= i < s.len()
    &&& !braces(s, i).in_string
    &&& s[i] == '}'
    &&& braces(s, i).depth == 1
}

/// The first brace from `i` on that closes what was opened.
pub open spec fn closing(s: Seq<char>, i: int) -> Option<int>
    decreases s.len() - i,
{
    if i < 0 || i >= s.len() {
        None
    } else if closes(s, i) {
        Some(i)
    } else {
        closing(s, i + 1)
    }
}

/// The place, in bytes, of the brace that closes the one with which the text
/// starts; braces inside JSON strings do not count.
pub fn match_brace(s: &str) -> (r: Option<usize>)
    ensures
        match r {
            Some(b) => closing(s@, 0) is Some && b == text::byte_count(
                s@.take(closing(s@, 0)->Some_0),
            ),
            None => closing(s@, 0) is None,
        },
{
    let x: Vec<char> = chars_of(s);
    assert(x@.skip(0) =~= s@);
    match match_brace_from(&x, 0) {
        Some(i) => Some(bytes_before(s, i)),
        None => None,
    }
}

fn match_brace_from(x: &Vec<char>, from: usize) -> (r: Option<usize>)
    requires
        from <= x.len(),
    ensures
        match r {
            Some(i) => closing(x@.skip(from as int), 0) == Some(i as int) && i < x.len() - from,
            None => closing(x@.skip(from as int), 0) is None,
        },
{
    let ghost s = x@.skip(from as int);
    let mut depth: i128 = 0;
    let mut in_string: bool = false;
    let mut escape: bool = false;
    let mut i: usize = 0;
    while i < x.len() - from
        invariant
            from <= x.len(),
            i <= x.len() - from,
            s == x@.skip(from as int),
            closing(s, 0) == closing(s, i as int),
            braces(s, i as int) == (Braces { depth: depth as int, in_string, escape }),
            -(i as int) <= depth <= i as int,
        decreases x.len() - from - i,
    {
        let c: char = x[from + i];
        assert(s[i as int] == c);
        assert(braces(s, i + 1) == braces(s, i as int).step(c));
        if in_string {
            if escape {
                escape = false;
            } else if c == '\\' {
                escape = true;
            } else if c == '"' {
                in_string = false;
            }
        } else if c == '"' {
            in_string = true;
        } else if c == '{' {
            depth = depth + 1;
        } else if c == '}' {
            depth = depth - 1;
            if depth == 0 {
                return Some(i);
            }
        }
        i = i + 1;
    }
    None
}

/// The envelope that starts at `i`: an object that closes, can be read and has
/// a list of messages.
pub open spec fn envelope_at(s: Seq<char>, i: int) -> Option<JsonView> {
    match closing(s.skip(i), 0) {
        None => None,
        Some(l) => match json::json_document(s.subrange(i, i + l + 1)) {
            Ok(v) => if s[i] == '{' && v.list_member("messages"@) is Some {
                Some(v)
            } else {
                None
            },
            Err(_) => None,
        },
    }
}

/// The last of the envelopes that start among the first `n` characters.
pub open spec fn last_envelope(s: Seq<char>, n: int) -> Option<JsonView>
    decreases n,
{
    if n <= 0 {
        None
    } else {
        match envelope_at(s, n - 1) {
            Some(v) => Some(v),
            None => last_envelope(s, n - 1),
        }
    }
}

pub open spec fn opt_json(v: Option<serde_json::Value>) -> Option<JsonView> {
    match v {
        Some(x) => Some(json::json_view(x)),
        None => None,
    }
}

/// The last envelope in what an agent printed. An earlier one may be stale, and
/// a banner may hold a brace that never closes.
pub fn extract_last_envelope(stdout: &str) -> (r: Option<serde_json::Value>)
    ensures
        opt_json(r) == last_envelope(stdout@, stdout@.len() as int),
{
    let x: Vec<char> = chars_of(stdout);
    let mut n: usize = x.len();
    while n > 0
        invariant
            n <= x.len(),
            x@ == stdout@,
            last_envelope(stdout@, stdout@.len() as int) == last_envelope(stdout@, n as int),
        decreases n,
    {
        let i: usize = n - 1;
        if x[i] == '{' {
            if let Some(l) = match_brace_from(&x, i) {
                let part = stdout.substring_char(i, i + l + 1);
                if let Ok(v) = json::parse_json(part) {
                    if list_field(&v, "messages").is_some() {
                        return Some(v);
                    }
                }
            }
        }
        n = i;
    }
    None
}

/// The last of the lines that is an object.
pub open spec fn last_object(ls: Seq<Seq<char>>) -> Option<JsonView>
    decreases ls.len(),
{
    if ls.len() == 0 {
        None
    } else {
        let l = text::trimmed(ls.last());
        if text::begins(l, "{"@) && text::ends(l, "}"@) && json::json_document(l) is Ok {
            Some(json::json_document(l)->Ok_0)
        } else {
            last_object(ls.drop_last())
        }
    }
}

/// The JSON value at the end of a text: its last line that is an object, or the
/// whole text.
pub open spec fn trailing_json(t: Seq<char>) -> Option<JsonView> {
    match last_object(text::lines(t)) {
        Some(v) => Some(v),
        None => match json::json_document(text::trimmed(t)) {
            Ok(v) => Some(v),
            Err(_) => None,
        },
    }
}

/// The JSON value at the end of a text.
pub fn scan_trailing_json(t: &str) -> (r: Option<serde_json::Value>)
    ensures
        opt_json(r) == trailing_json(t@),
{
    let ls = lines_of(t);
    let ghost all = text::texts(ls@);
    let mut i: usize = ls.len();
    assert(all.take(all.len() as int) =~= all);
    while i > 0
        invariant
            i <= ls.len(),
            all == text::texts(ls@),
            all == text::lines(t@),
            last_object(all) == last_object(all.take(i as int)),
        decreases i,
    {
        assert(all.take(i as int).drop_last() =~= all.take(i - 1));
        assert(all.take(i as int).last() == ls@[i - 1]@);
        let l = trim(ls[i - 1].as_str());
        if starts_with(l, "{") && ends_with(l, "}") {
            if let Ok(v) = json::parse_json(l) {
                return Some(v);
            }
        }
        i = i - 1;
    }
    match json::parse_json(trim(t)) {
        Ok(v) => Some(v),
        Err(_) => None,
    }
}

/// The answer in the last of the blocks that holds one.
pub open spec fn block_answer(blocks: Seq<JsonView>) -> Option<JsonView>
    decreases blocks.len(),
{
    if blocks.len() == 0 {
        None
    } else {
        let b = blocks.last();
        let own = match b.text_member("text"@) {
            Some(t) => trailing_json(t),
            None => None,
        };
        if b.text_member("type"@) == Some("text"@) && own is Some {
            own
        } else {
            block_answer(blocks.drop_last())
        }
    }
}

/// The answer in the last of the assistant's messages that holds one.
pub open spec fn message_answer(messages: Seq<JsonView>) -> Option<JsonView>
    decreases messages.len(),
{
    if messages.len() == 0 {
        None
    } else {
        let m = messages.last();
        let own = match m.list_member("content"@) {
            Some(blocks) => block_answer(blocks),
            None => None,
        };
        if m.text_member("role"@) == Some("assistant"@) && own is Some {
            own
        } else {
            message_answer(messages.drop_last())
        }
    }
}

/// The answer in an envelope.
pub open spec fn envelope_answer(v: JsonView) -> Option<JsonView> {
    match v.list_member("messages"@) {
        Some(messages) => message_answer(messages),
        None => None,
    }
}

fn is_field(v: &serde_json::Value, key: &str, word: &str) -> (r: bool)
    ensures
        r == (json::json_view(*v).text_member(key@) == Some(word@)),
{
    match json::field(v, key) {
        Some(s) => same(s, word),
        None => false,
    }
}

fn find_block_answer(blocks: &Vec<serde_json::Value>) -> (r: Option<serde_json::Value>)
    ensures
        opt_json(r) == block_answer(json::json_views(blocks@)),
{
    let ghost all = json::json_views(blocks@);
    let mut i: usize = blocks.len();
    assert(all.take(all.len() as int) =~= all);
    while i > 0
        invariant
            i <= blocks.len(),
            all == json::json_views(blocks@),
            block_answer(all) == block_answer(all.take(i as int)),
        decreases i,
    {
        let b = &blocks[i - 1];
        assert(all.take(i as int).drop_last() =~= all.take(i - 1));
        assert(all.take(i as int).last() == json::json_view(*b));
        if is_field(b, "type", "text") {
            if let Some(t) = json::field(b, "text") {
                if let Some(v) = scan_trailing_json(t) {
                    return Some(v);
                }
            }
        }
        i = i - 1;
    }
    None
}

/// The answer in an envelope.
pub fn extract_from_envelope(obj: &serde_json::Value) -> (r: Option<serde_json::Value>)
    ensures
        opt_json(r) == envelope_answer(json::json_view(*obj)),
{
    let messages: &Vec<serde_json::Value> = match list_field(obj, "messages") {
        Some(l) => l,
        None => {
            return None;
        },
    };
    let ghost all = json::json_views(messages@);
    let mut i: usize = messages.len();
    assert(all.take(all.len() as int) =~= all);
    while i > 0
        invariant
            i <= messages.len(),
            all == json::json_views(messages@),
            envelope_answer(json::json_view(*obj)) == message_answer(all),
            message_answer(all) == message_answer(all.take(i as int)),
        decreases i,
    {
        let m = &messages[i - 1];
        assert(all.take(i as int).drop_last() =~= all.take(i - 1));
        assert(all.take(i as int).last() == json::json_view(*m));
        if is_field(m, "role", "assistant") {
            if let Some(blocks) = list_field(m, "content") {
                if let Some(v) = find_block_answer(blocks) {
                    return Some(v);
                }
            }
        }
        i = i - 1;
    }
    None
}

/// The answer in what an agent printed: that of the last envelope, or a JSON
/// value at the end.
pub open spec fn answer(stdout: Seq<char>) -> Option<JsonView> {
    let own = match last_envelope(stdout, stdout.len() as int) {
        Some(e) => envelope_answer(e),
        None => None,
    };
    match own {
        Some(v) => Some(v),
        None => trailing_json(stdout),
    }
}

// ---------------------------------------------------------------------
// Usage
// ---------------------------------------------------------------------

/// The tokens that a run used, as far as the provider reports them.
#[derive(Debug, Clone, Copy, PartialEq, Eq, Structural)]
pub struct Usage {
    pub total_tokens: Option<u64>,
    pub input_tokens: Option<u64>,
    pub output_tokens: Option<u64>,
    pub cache_read_input_tokens: Option<u64>,
    pub cache_write_input_tokens: Option<u64>,
}

impl Default for Usage {
    /// Nothing reported.
    fn default() -> (r: Usage)
        ensures
            r == Usage::none(),
    {
        Usage {
            total_tokens: None,
            input_tokens: None,
            output_tokens: None,
            cache_read_input_tokens: None,
            cache_write_input_tokens: None,
        }
    }
}

/// The sum of two numbers of which each may be absent.
pub open spec fn sum(a: Option<u64>, b: Option<u64>) -> Option<int> {
    match (a, b) {
        (Some(x), Some(y)) => Some(x + y),
        (Some(x), None) => Some(x as int),
        (None, Some(y)) => Some(y as int),
        (None, None) => None,
    }
}

pub open spec fn fits(a: Option<u64>, b: Option<u64>) -> bool {
    sum(a, b) is Some ==> sum(a, b)->Some_0 <= u64::MAX
}

pub open spec fn as_int(a: Option<u64>) -> Option<int> {
    match a {
        Some(x) => Some(x as int),
        None => None,
    }
}

fn plus(a: Option<u64>, b: Option<u64>) -> (r: Option<u64>)
    requires
        fits(a, b),
    ensures
        as_int(r) == sum(a, b),
{
    match (a, b) {
        (Some(x), Some(y)) => Some(x + y),
        (Some(x), None) => Some(x),
        (None, Some(y)) => Some(y),
        (None, None) => None,
    }
}

pub open spec fn opt_part(n: Option<u64>, unit: Seq<char>) -> Seq<Seq<char>> {
    match n {
        Some(x) => seq![number::decimal(x as nat) + unit],
        None => Seq::empty(),
    }
}

impl Usage {
    pub open spec fn none() -> Usage {
        Usage {
            total_tokens: None,
            input_tokens: None,
            output_tokens: None,
            cache_read_input_tokens: None,
            cache_write_input_tokens: None,
        }
    }

    /// What the metadata of an envelope reports.
    pub open spec fn reported(meta: JsonView) -> Usage {
        Usage {
            total_tokens: meta.unsigned_member("total_tokens"@),
            input_tokens: meta.unsigned_member("input_tokens"@),
            output_tokens: meta.unsigned_member("output_tokens"@),
            cache_read_input_tokens: meta.unsigned_member("cache_read_input_tokens"@),
            cache_write_input_tokens: meta.unsigned_member("cache_write_input_tokens"@),
        }
    }

    /// What the metadata of an envelope reports.
    pub fn from_metadata(meta: &serde_json::Value) -> (r: Usage)
        ensures
            r == Usage::reported(json::json_view(*meta)),
    {
        Usage {
            total_tokens: json::unsigned_field(meta, "total_tokens"),
            input_tokens: json::unsigned_field(meta, "input_tokens"),
            output_tokens: json::unsigned_field(meta, "output_tokens"),
            cache_read_input_tokens: json::unsigned_field(meta, "cache_read_input_tokens"),
            cache_write_input_tokens: json::unsigned_field(meta, "cache_write_input_tokens"),
        }
    }

    /// Whether nothing was reported.
    pub fn is_empty(&self) -> (r: bool)
        ensures
            r == (*self == Usage::none()),
    {
        self.total_tokens.is_none() && self.input_tokens.is_none() && self.output_tokens.is_none()
            && self.cache_read_input_tokens.is_none() && self.cache_write_input_tokens.is_none()
    }

    /// The sums of all numbers fit.
    pub open spec fn can_add(self, other: Usage) -> bool {
        &&& fits(self.total_tokens, other.total_tokens)
        &&& fits(self.input_tokens, other.input_tokens)
        &&& fits(self.output_tokens, other.output_tokens)
        &&& fits(self.cache_read_input_tokens, other.cache_read_input_tokens)
        &&& fits(self.cache_write_input_tokens, other.cache_write_input_tokens)
    }

    /// Whether the sums of all numbers fit.
    pub fn can_grow(&self, other: &Usage) -> (r: bool)
        ensures
            r == self.can_add(*other),
    {
        fits_in(self.total_tokens, other.total_tokens) && fits_in(
            self.input_tokens,
            other.input_tokens,
        ) && fits_in(self.output_tokens, other.output_tokens) && fits_in(
            self.cache_read_input_tokens,
            other.cache_read_input_tokens,
        ) && fits_in(self.cache_write_input_tokens, other.cache_write_input_tokens)
    }

    /// Adds the numbers of another run. What neither reports stays absent.
    pub fn add(&mut self, other: &Usage)
        requires
            old(self).can_add(*other),
        ensures
            as_int(final(self).total_tokens) == sum(old(self).total_tokens, other.total_tokens),
            as_int(final(self).input_tokens) == sum(old(self).input_tokens, other.input_tokens),
            as_int(final(self).output_tokens) == sum(old(self).output_tokens, other.output_tokens),
            as_int(final(self).cache_read_input_tokens) == sum(
                old(self).cache_read_input_tokens,
                other.cache_read_input_tokens,
            ),
            as_int(final(self).cache_write_input_tokens) == sum(
                old(self).cache_write_input_tokens,
                other.cache_write_input_tokens,
            ),
    {
        self.total_tokens = plus(self.total_tokens, other.total_tokens);
        self.input_tokens = plus(self.input_tokens, other.input_tokens);
        self.output_tokens = plus(self.output_tokens, other.output_tokens);
        self.cache_read_input_tokens =
        plus(self.cache_read_input_tokens, other.cache_read_input_tokens);
        self.cache_write_input_tokens =
        plus(self.cache_write_input_tokens, other.cache_write_input_tokens);
    }

    /// The parts of the summary.
    pub open spec fn parts(self, cost: Option<Seq<char>>) -> Seq<Seq<char>> {
        (match cost {
            Some(c) => seq![c],
            None => Seq::empty(),
        }) + opt_part(self.input_tokens, " in"@) + opt_part(self.output_tokens, " out"@) + opt_part(
            self.cache_read_input_tokens,
            " cache-read"@,
        )
    }

    pub open spec fn words(self, cost: Option<Seq<char>>) -> Seq<char> {
        if self.parts(cost).len() == 0 {
            "(usage not reported)"@
        } else {
            text::joined(self.parts(cost), " / "@)
        }
    }

    /// The usage on one line, with the cost in front where it is known.
    pub fn summary(&self, cost: Option<&str>) -> (r: String)
        ensures
            r@ == self.words(text::opt_str(cost)),
    {
        let mut parts: Vec<String> = Vec::new();
        assert(text::texts(parts@) =~= Seq::empty());
        if let Some(c) = cost {
            parts.push(owned(c));
            assert(text::texts(parts@) =~= seq![c@]);
        }
        push_part(&mut parts, self.input_tokens, " in");
        push_part(&mut parts, self.output_tokens, " out");
        push_part(&mut parts, self.cache_read_input_tokens, " cache-read");
        assert(text::texts(parts@) == self.parts(text::opt_str(cost)));
        assert(text::texts(parts@).len() == parts@.len());
        if parts.len() == 0 {
            owned("(usage not reported)")
        } else {
            join(&parts, " / ")
        }
    }
}

fn fits_in(a: Option<u64>, b: Option<u64>) -> (r: bool)
    ensures
        r == fits(a, b),
{
    match (a, b) {
        (Some(x), Some(y)) => x <= u64::MAX - y,
        _ => true,
    }
}

fn push_part(parts: &mut Vec<String>, n: Option<u64>, unit: &str)
    ensures
        text::texts(final(parts)@) == text::texts(old(parts)@) + opt_part(n, unit@),
{
    let ghost was = text::texts(parts@);
    match n {
        Some(x) => {
            let p = Draft::of(to_decimal(x).as_str()).put(unit).text;
            let ghost v = p@;
            parts.push(p);
            assert(text::texts(parts@) =~= was + seq![v]);
        },
        None => {
            assert(was + Seq::<Seq<char>>::empty() =~= was);
        },
    }
}

// ---------------------------------------------------------------------
// Attempts
// ---------------------------------------------------------------------

/// How one run of a recipe ended.
#[derive(Debug)]
pub enum Attempt {
    /// The agent failed.
    Failed,
    /// It ended without an answer, which a second attempt usually mends.
    Silent,
    /// It answered.
    Answered { result: serde_json::Value, usage: Usage },
}

/// The usage that an agent reported.
pub open spec fn usage_in(stdout: Seq<char>) -> Usage {
    match last_envelope(stdout, stdout.len() as int) {
        Some(e) => match e.member("metadata"@) {
            Some(m) => Usage::reported(m),
            None => Usage::none(),
        },
        None => Usage::none(),
    }
}

/// Reads how a run ended. A run that failed is a failure whatever it printed.
pub fn read_attempt(success: bool, stdout: &str) -> (r: Attempt)
    ensures
        !success ==> r is Failed,
        success && answer(stdout@) is None ==> r is Silent,
        success && answer(stdout@) is Some ==> (r matches Attempt::Answered { result, usage }
            && json::json_view(result) == answer(stdout@)->Some_0 && usage == usage_in(stdout@)),
{
    if !success {
        return Attempt::Failed;
    }
    let envelope = extract_last_envelope(stdout);
    let mut own: Option<serde_json::Value> = None;
    let mut usage: Usage = Usage::default();
    if let Some(e) = &envelope {
        own = extract_from_envelope(e);
        if let Some(m) = json::get(e, "metadata") {
            usage = Usage::from_metadata(m);
        }
    }
    let result: Option<serde_json::Value> = match own {
        Some(v) => Some(v),
        None => scan_trailing_json(stdout),
    };
    match result {
        Some(v) => Attempt::Answered { result: v, usage },
        None => Attempt::Silent,
    }
}

/// How often a recipe is run at most.
pub const ATTEMPTS: u8 = 2;

/// Whether a recipe is run again after attempt number `attempt` ended without
/// an answer.
pub fn run_recipe(attempt: u8, a: &Attempt) -> (r: bool)
    ensures
        r == (*a is Silent && attempt < ATTEMPTS),
{
    match a {
        Attempt::Silent => attempt < ATTEMPTS,
        _ => false,
    }
}

/// Why a recipe has no result.
pub open spec fn no_answer_text(recipe: Seq<char>) -> Seq<char> {
    "goose produced no parseable JSON in stdout for recipe "@ + recipe
        + " after 2 attempts (the model ended both runs without a text answer)"@
}

/// Why a recipe has no result.
pub fn no_answer(recipe: &str) -> (r: String)
    ensures
        r@ == no_answer_text(recipe@),
{
    Draft::of("goose produced no parseable JSON in stdout for recipe ").put(recipe).put(
        " after 2 attempts (the model ended both runs without a text answer)",
    ).text
}

/// The report of an agent that failed, with the beginnings of what it printed.
pub open spec fn failed_text(
    recipe: Seq<char>,
    code: Option<i32>,
    stdout: Seq<char>,
    stderr: Seq<char>,
) -> Seq<char> {
    "goose recipe "@ + recipe + " failed (exit "@ + crate::commit::code_text(code) + ")\nstdout: "@
        + text::first_chars(stdout, 2000) + "\nstderr: "@ + text::first_chars(stderr, 2000)
}

/// The report of an agent that failed.
pub fn failed(recipe: &str, code: Option<i32>, stdout: &str, stderr: &str) -> (r: String)
    ensures
        r@ == failed_text(recipe@, code, stdout@, stderr@),
{
    Draft::of("goose recipe ").put(recipe).put(" failed (exit ").put(
        crate::commit::show_code(code).as_str(),
    ).put(")\nstdout: ").put(text::head_chars(stdout, 2000)).put("\nstderr: ").put(
        text::head_chars(stderr, 2000),
    ).text
}

/// The report of an agent that ran for too long.
pub open spec fn overdue_text(recipe: Seq<char>, secs: nat) -> Seq<char> {
    "goose recipe "@ + recipe + " timed out after "@ + number::decimal(secs) + "s (killed)"@
}

/// The report of an agent that ran for too long.
pub fn overdue(recipe: &str, secs: u64) -> (r: String)
    ensures
        r@ == overdue_text(recipe@, secs as nat),
{
    Draft::of("goose recipe ").put(recipe).put(" timed out after ").put(
        to_decimal(secs).as_str(),
    ).put("s (killed)").text
}

// ---------------------------------------------------------------------
// Laws of answers
// ---------------------------------------------------------------------

/// The last object wins: of the lines of a text that are JSON objects, the last
/// is its value.
pub proof fn law_last_object_line_wins(t: Seq<char>, i: int, v: JsonView)
    requires
        0 <= i < text::lines(t).len(),
        text::begins(text::trimmed(text::lines(t)[i]), "{"@),
        text::ends(text::trimmed(text::lines(t)[i]), "}"@),
        json::json_document(text::trimmed(text::lines(t)[i])) == Ok::<JsonView, Seq<char>>(v),
        forall|j: int|
            i < j < text::lines(t).len() ==> {
                let l = text::trimmed(#[trigger] text::lines(t)[j]);
                !text::begins(l, "{"@) || !text::ends(l, "}"@) || json::json_document(l) is Err
            },
    ensures
        trailing_json(t) == Some(v),
{
    lemma_last_object(text::lines(t), i);
}

proof fn lemma_last_object(ls: Seq<Seq<char>>, i: int)
    requires
        0 <= i < ls.len(),
        text::begins(text::trimmed(ls[i]), "{"@),
        text::ends(text::trimmed(ls[i]), "}"@),
        json::json_document(text::trimmed(ls[i])) is Ok,
        forall|j: int|
            i < j < ls.len() ==> {
                let l = text::trimmed(#[trigger] ls[j]);
                !text::begins(l, "{"@) || !text::ends(l, "}"@) || json::json_document(l) is Err
            },
    ensures
        last_object(ls) == Some(json::json_document(text::trimmed(ls[i]))->Ok_0),
    decreases ls.len(),
{
    assert(ls[ls.len() - 1] == ls.last());
    if i < ls.len() - 1 {
        let front = ls.drop_last();
        assert forall|j: int| i < j < front.len() implies ({
            let l = text::trimmed(#[trigger] front[j]);
            !text::begins(l, "{"@) || !text::ends(l, "}"@) || json::json_document(l) is Err
        }) by {
            assert(front[j] == ls[j]);
        }
        lemma_last_object(front, i);
    }
}

/// A text without a line that is a JSON object is read as a whole, and where
/// that fails too it has no value.
pub proof fn law_texts_without_object_lines(t: Seq<char>)
    requires
        forall|j: int|
            0 <= j < text::lines(t).len() ==> {
                let l = text::trimmed(#[trigger] text::lines(t)[j]);
                !text::begins(l, "{"@) || !text::ends(l, "}"@) || json::json_document(l) is Err
            },
    ensures
        json::json_document(text::trimmed(t)) matches Ok(v) ==> trailing_json(t) == Some(v),
        json::json_document(text::trimmed(t)) is Err ==> trailing_json(t) is None,
{
    lemma_no_object(text::lines(t));
}

proof fn lemma_no_object(ls: Seq<Seq<char>>)
    requires
        forall|j: int|
            0 <= j < ls.len() ==> {
                let l = text::trimmed(#[trigger] ls[j]);
                !text::begins(l, "{"@) || !text::ends(l, "}"@) || json::json_document(l) is Err
            },
    ensures
        last_object(ls) is None,
    decreases ls.len(),
{
    if ls.len() > 0 {
        assert(ls[ls.len() - 1] == ls.last());
        let front = ls.drop_last();
        assert forall|j: int| 0 <= j < front.len() implies ({
            let l = text::trimmed(#[trigger] front[j]);
            !text::begins(l, "{"@) || !text::ends(l, "}"@) || json::json_document(l) is Err
        }) by {
            assert(front[j] == ls[j]);
        }
        lemma_no_object(front);
    }
}

/// A block that holds an answer: one of text with a JSON value at its end.
pub open spec fn answering_block(b: JsonView) -> bool {
    b.member("type"@) == Some(JsonView::Text("text"@)) && (b.member("text"@) matches Some(
        JsonView::Text(t),
    ) && trailing_json(t) is Some)
}

/// The last block wins: of the blocks of a message that hold an answer, the
/// last gives it.
pub proof fn law_last_block_wins(blocks: Seq<JsonView>, i: int, t: Seq<char>, v: JsonView)
    requires
        0 <= i < blocks.len(),
        blocks[i].member("type"@) == Some(JsonView::Text("text"@)),
        blocks[i].member("text"@) == Some(JsonView::Text(t)),
        trailing_json(t) == Some(v),
        forall|j: int| i < j < blocks.len() ==> !answering_block(#[trigger] blocks[j]),
    ensures
        block_answer(blocks) == Some(v),
    decreases blocks.len(),
{
    assert(blocks[blocks.len() - 1] == blocks.last());
    if i < blocks.len() - 1 {
        let front = blocks.drop_last();
        assert(!answering_block(blocks[blocks.len() - 1]));
        assert forall|j: int| i < j < front.len() implies !answering_block(#[trigger] front[j]) by {
            assert(front[j] == blocks[j]);
        }
        law_last_block_wins(front, i, t, v);
    }
}

/// Blocks of which none holds an answer give none.
pub proof fn law_blocks_without_an_answer(blocks: Seq<JsonView>)
    requires
        forall|j: int| 0 <= j < blocks.len() ==> !answering_block(#[trigger] blocks[j]),
    ensures
        block_answer(blocks) is None,
    decreases blocks.len(),
{
    if blocks.len() > 0 {
        let front = blocks.drop_last();
        assert(!answering_block(blocks[blocks.len() - 1]));
        assert forall|j: int| 0 <= j < front.len() implies !answering_block(#[trigger] front[j]) by {
            assert(front[j] == blocks[j]);
        }
        law_blocks_without_an_answer(front);
    }
}

/// A message that holds an answer: one of the assistant with a block that does.
pub open spec fn answering_message(m: JsonView) -> bool {
    m.member("role"@) == Some(JsonView::Text("assistant"@)) && (m.member("content"@) matches Some(
        JsonView::List(blocks),
    ) && exists|k: int| 0 <= k < blocks.len() && answering_block(#[trigger] blocks[k]))
}

proof fn lemma_answering(m: JsonView, blocks: Seq<JsonView>)
    requires
        m.member("content"@) == Some(JsonView::List(blocks)),
    ensures
        block_answer(blocks) is Some <==> exists|k: int|
            0 <= k < blocks.len() && answering_block(#[trigger] blocks[k]),
{
    if exists|k: int| 0 <= k < blocks.len() && answering_block(#[trigger] blocks[k]) {
        lemma_some_block(blocks);
    } else {
        law_blocks_without_an_answer(blocks);
    }
}

proof fn lemma_some_block(blocks: Seq<JsonView>)
    requires
        exists|k: int| 0 <= k < blocks.len() && answering_block(#[trigger] blocks[k]),
    ensures
        block_answer(blocks) is Some,
    decreases blocks.len(),
{
    let k = choose|k: int| 0 <= k < blocks.len() && answering_block(#[trigger] blocks[k]);
    if !answering_block(blocks.last()) {
        assert(k < blocks.len() - 1);
        assert(answering_block(blocks.drop_last()[k]));
        lemma_some_block(blocks.drop_last());
    }
}

/// The last answer wins: of the messages of the assistant that hold an answer,
/// the last gives that of the envelope, and later messages of anyone else, or
/// without an answer, do not matter.
pub proof fn law_last_answer_wins(
    envelope: JsonView,
    messages: Seq<JsonView>,
    i: int,
    blocks: Seq<JsonView>,
)
    requires
        envelope.member("messages"@) == Some(JsonView::List(messages)),
        0 <= i < messages.len(),
        messages[i].member("role"@) == Some(JsonView::Text("assistant"@)),
        messages[i].member("content"@) == Some(JsonView::List(blocks)),
        block_answer(blocks) is Some,
        forall|j: int| i < j < messages.len() ==> !answering_message(#[trigger] messages[j]),
    ensures
        envelope_answer(envelope) == block_answer(blocks),
{
    lemma_last_message(messages, i, blocks);
}

proof fn lemma_last_message(messages: Seq<JsonView>, i: int, blocks: Seq<JsonView>)
    requires
        0 <= i < messages.len(),
        messages[i].member("role"@) == Some(JsonView::Text("assistant"@)),
        messages[i].member("content"@) == Some(JsonView::List(blocks)),
        block_answer(blocks) is Some,
        forall|j: int| i < j < messages.len() ==> !answering_message(#[trigger] messages[j]),
    ensures
        message_answer(messages) == block_answer(blocks),
    decreases messages.len(),
{
    let m = messages.last();
    assert(messages[messages.len() - 1] == m);
    if i < messages.len() - 1 {
        let front = messages.drop_last();
        assert(!answering_message(messages[messages.len() - 1]));
        if let Some(JsonView::List(bs)) = m.member("content"@) {
            lemma_answering(m, bs);
        }
        assert forall|j: int| i < j < front.len() implies !answering_message(
            #[trigger] front[j],
        ) by {
            assert(front[j] == messages[j]);
        }
        lemma_last_message(front, i, blocks);
    }
}

/// An envelope of which no message of the assistant holds an answer has none.
pub proof fn law_envelopes_without_an_answer(envelope: JsonView, messages: Seq<JsonView>)
    requires
        envelope.member("messages"@) == Some(JsonView::List(messages)),
        forall|j: int| 0 <= j < messages.len() ==> !answering_message(#[trigger] messages[j]),
    ensures
        envelope_answer(envelope) is None,
{
    lemma_no_message(messages);
}

proof fn lemma_no_message(messages: Seq<JsonView>)
    requires
        forall|j: int| 0 <= j < messages.len() ==> !answering_message(#[trigger] messages[j]),
    ensures
        message_answer(messages) is None,
    decreases messages.len(),
{
    if messages.len() > 0 {
        let m = messages.last();
        let front = messages.drop_last();
        assert(!answering_message(messages[messages.len() - 1]));
        if let Some(JsonView::List(bs)) = m.member("content"@) {
            lemma_answering(m, bs);
        }
        assert forall|j: int| 0 <= j < front.len() implies !answering_message(
            #[trigger] front[j],
        ) by {
            assert(front[j] == messages[j]);
        }
        lemma_no_message(front);
    }
}

/// An envelope starts at this place: an object that is closed, can be read, and
/// has a list of messages.
pub open spec fn starts_envelope(s: Seq<char>, i: int) -> bool {
    0 <= i < s.len() && s[i] == '{' && (closing(s.skip(i), 0) matches Some(l) && (
    json::json_document(s.subrange(i, i + l + 1)) matches Ok(v) && v.member(
        "messages"@,
    ) matches Some(JsonView::List(_))))
}

/// The last envelope wins: of the envelopes in what an agent printed, the one
/// that starts last counts.
pub proof fn law_last_envelope_wins(s: Seq<char>, i: int, l: int, v: JsonView)
    requires
        starts_envelope(s, i),
        closing(s.skip(i), 0) == Some(l),
        json::json_document(s.subrange(i, i + l + 1)) == Ok::<JsonView, Seq<char>>(v),
        forall|j: int| i < j < s.len() ==> !#[trigger] starts_envelope(s, j),
    ensures
        last_envelope(s, s.len() as int) == Some(v),
{
    lemma_last_envelope(s, s.len() as int, i);
}

proof fn lemma_last_envelope(s: Seq<char>, n: int, i: int)
    requires
        0 <= i < n <= s.len(),
        starts_envelope(s, i),
        forall|j: int| i < j < n ==> !#[trigger] starts_envelope(s, j),
    ensures
        last_envelope(s, n) == envelope_at(s, i),
        envelope_at(s, i) is Some,
    decreases n,
{
    if i < n - 1 {
        assert(!starts_envelope(s, n - 1));
        assert(envelope_at(s, n - 1) is None);
        lemma_last_envelope(s, n - 1, i);
    }
}

/// Without an envelope what was printed has none.
pub proof fn law_no_envelope(s: Seq<char>)
    requires
        forall|j: int| 0 <= j < s.len() ==> !#[trigger] starts_envelope(s, j),
    ensures
        last_envelope(s, s.len() as int) is None,
{
    lemma_no_envelope(s, s.len() as int);
}

proof fn lemma_no_envelope(s: Seq<char>, n: int)
    requires
        n <= s.len(),
        forall|j: int| 0 <= j < n ==> !#[trigger] starts_envelope(s, j),
    ensures
        last_envelope(s, n) is None,
    decreases n,
{
    if n > 0 {
        assert(!starts_envelope(s, n - 1));
        assert(envelope_at(s, n - 1) is None);
        lemma_no_envelope(s, n - 1);
    }
}

/// What an agent printed is answered by its last envelope, and only where that
/// has no answer by a JSON value at the end; the usage is that of the same
/// envelope.
pub proof fn law_envelopes_answer_first(s: Seq<char>, e: JsonView)
    ensures
        last_envelope(s, s.len() as int) == Some(e) && envelope_answer(e) is Some ==> answer(s)
            == envelope_answer(e),
        last_envelope(s, s.len() as int) == Some(e) && envelope_answer(e) is None ==> answer(s)
            == trailing_json(s),
        last_envelope(s, s.len() as int) is None ==> answer(s) == trailing_json(s) && usage_in(s)
            == Usage::none(),
        last_envelope(s, s.len() as int) == Some(e) ==> (e.member("metadata"@) matches Some(m)
            ==> usage_in(s) == Usage::reported(m)) && (e.member("metadata"@) is None ==> usage_in(
            s,
        ) == Usage::none()),
{
}

/// The brace that closes is the first that does: it ends what the first opened.
pub proof fn law_closing_is_the_first(s: Seq<char>)
    ensures
        match closing(s, 0) {
            Some(k) => 0 <= k < s.len() && s[k] == '}' && !braces(s, k).in_string && braces(
                s,
                k,
            ).depth == 1 && (forall|j: int|
                0 <= j < k ==> !(#[trigger] s[j] == '}' && !braces(s, j).in_string && braces(
                    s,
                    j,
                ).depth == 1)),
            None => forall|j: int|
                0 <= j < s.len() ==> !(#[trigger] s[j] == '}' && !braces(s, j).in_string && braces(
                    s,
                    j,
                ).depth == 1),
        },
{
    lemma_closing(s, 0);
    let n = match closing(s, 0) {
        Some(k) => k,
        None => s.len() as int,
    };
    assert forall|j: int| 0 <= j < n implies !(#[trigger] s[j] == '}' && !braces(s, j).in_string
        && braces(s, j).depth == 1) by {
        assert(!closes(s, j));
    }
}

proof fn lemma_closing(s: Seq<char>, i: int)
    requires
        0 <= i,
    ensures
        match closing(s, i) {
            Some(k) => i <= k && closes(s, k) && forall|j: int| i <= j < k ==> !closes(s, j),
            None => forall|j: int| i <= j ==> !closes(s, j),
        },
    decreases s.len() - i,
{
    if i < s.len() && !closes(s, i) {
        lemma_closing(s, i + 1);
    }
}

/// Braces are counted outside of strings only; a quote opens a string and the
/// next one closes it, unless a backslash stands before it.
pub proof fn law_strings_hide_braces(b: Braces, c: char)
    ensures
        b.in_string ==> b.step(c).depth == b.depth,
        b.in_string && b.escape ==> b.step(c).in_string && !b.step(c).escape,
        b.in_string && !b.escape && c == '"' ==> !b.step(c).in_string,
        b.in_string && !b.escape && c != '"' ==> b.step(c).in_string && (b.step(c).escape <==> c
            == '\\'),
        !b.in_string ==> b.step(c).depth == b.depth + (if c == '{' {
            1int
        } else if c == '}' {
            -1int
        } else {
            0int
        }),
        !b.in_string ==> (b.step(c).in_string <==> c == '"') && b.step(c).escape == b.escape,
{
}

// ---------------------------------------------------------------------
// Laws of usage
// ---------------------------------------------------------------------

/// What was used is read key by key from what was reported.
pub proof fn law_reported_usage(m: JsonView)
    ensures
        ({
            let u = Usage::reported(m);
            &&& u.total_tokens == m.unsigned_member("total_tokens"@)
            &&& u.input_tokens == m.unsigned_member("input_tokens"@)
            &&& u.output_tokens == m.unsigned_member("output_tokens"@)
            &&& u.cache_read_input_tokens == m.unsigned_member("cache_read_input_tokens"@)
            &&& u.cache_write_input_tokens == m.unsigned_member("cache_write_input_tokens"@)
        }),
{
}

/// Numbers of tokens add up, and one that was not reported counts as nothing
/// beside one that was.
pub proof fn law_tokens_add_up(a: Option<u64>, b: Option<u64>)
    ensures
        sum(a, b) == sum(b, a),
        sum(a, b) is None <==> a is None && b is None,
        a is Some && b is Some ==> sum(a, b) == Some(a->Some_0 + b->Some_0),
        a is Some && b is None ==> sum(a, b) == Some(a->Some_0 as int),
{
}

/// A usage in words shows the cost, and the tokens in, out and from the cache,
/// in this order, as far as they are known.
pub proof fn law_usage_in_words(u: Usage, cost: Option<Seq<char>>)
    ensures
        cost is None && u.input_tokens is None && u.output_tokens is None
            && u.cache_read_input_tokens is None ==> u.words(cost) == "(usage not reported)"@,
        u.input_tokens matches Some(n) ==> u.parts(cost).contains(
            number::decimal(n as nat) + " in"@,
        ),
        u.output_tokens matches Some(n) ==> u.parts(cost).contains(
            number::decimal(n as nat) + " out"@,
        ),
        u.cache_read_input_tokens matches Some(n) ==> u.parts(cost).contains(
            number::decimal(n as nat) + " cache-read"@,
        ),
        cost matches Some(c) ==> u.parts(cost).len() > 0 && u.parts(cost)[0] == c,
        u.parts(cost).len() > 0 ==> u.words(cost) == text::joined(u.parts(cost), " / "@),
        cost is Some && u.input_tokens is Some && u.output_tokens is Some
            && u.cache_read_input_tokens is Some ==> u.parts(cost) == seq![
            cost->Some_0,
            number::decimal(u.input_tokens->Some_0 as nat) + " in"@,
            number::decimal(u.output_tokens->Some_0 as nat) + " out"@,
            number::decimal(u.cache_read_input_tokens->Some_0 as nat) + " cache-read"@,
        ],
{
    let p = u.parts(cost);
    let a: int = if cost is Some {
        1
    } else {
        0
    };
    let b: int = if u.input_tokens is Some {
        a + 1
    } else {
        a
    };
    let c: int = if u.output_tokens is Some {
        b + 1
    } else {
        b
    };
    if let Some(n) = u.input_tokens {
        assert(p[a] == number::decimal(n as nat) + " in"@);
    }
    if let Some(n) = u.output_tokens {
        assert(p[b] == number::decimal(n as nat) + " out"@);
    }
    if let Some(n) = u.cache_read_input_tokens {
        assert(p[c] == number::decimal(n as nat) + " cache-read"@);
    }
    if cost is Some && u.input_tokens is Some && u.output_tokens is Some
        && u.cache_read_input_tokens is Some {
        assert(p =~= seq![
            cost->Some_0,
            number::decimal(u.input_tokens->Some_0 as nat) + " in"@,
            number::decimal(u.output_tokens->Some_0 as nat) + " out"@,
            number::decimal(u.cache_read_input_tokens->Some_0 as nat) + " cache-read"@,
        ]);
    }
}

// ---------------------------------------------------------------------
// Laws of a run
// ---------------------------------------------------------------------

/// A key or value that a recipe can be handed: without `=` and line breaks.
pub open spec fn passable(s: Seq<char>) -> bool {
    forall|i: int| 0 <= i < s.len() ==> #[trigger] s[i] != '=' && s[i] != '\n' && s[i] != '\r'
}

proof fn lemma_passable(s: Seq<char>)
    ensures
        passable(s) <==> !unsafe_text(s),
{
    if !unsafe_text(s) {
        assert forall|i: int| 0 <= i < s.len() implies #[trigger] s[i] != '=' && s[i] != '\n' && s[i]
            != '\r' by {
            assert(!CharSet::One('=').has(s[i]));
            assert(!CharSet::LineEnd.has(s[i]));
        }
    }
}

/// The parameter in this place is among the arguments as `key=value`.
pub open spec fn handed_over(
    args: Seq<Seq<char>>,
    ps: Seq<(Seq<char>, Seq<char>)>,
    i: int,
) -> bool {
    args[2 * i] == "--params"@ && args[2 * i + 1] == ps[i].0 + "="@ + ps[i].1
}

/// Every parameter is handed over, in its place and as `key=value`; this is
/// refused exactly where some key or value cannot be passed.
pub proof fn law_every_parameter_is_handed_over(ps: Seq<(Seq<char>, Seq<char>)>)
    ensures
        param_args(ps) is Ok <==> forall|i: int|
            0 <= i < ps.len() ==> passable((#[trigger] ps[i]).0) && passable(ps[i].1),
        param_args(ps) is Ok ==> param_args(ps)->Ok_0.len() == 2 * ps.len(),
        param_args(ps) is Ok ==> forall|i: int|
            0 <= i < ps.len() ==> #[trigger] handed_over(param_args(ps)->Ok_0, ps, i),
    decreases ps.len(),
{
    if ps.len() > 0 {
        let front = ps.drop_last();
        law_every_parameter_is_handed_over(front);
        assert(ps[ps.len() - 1] == ps.last());
        lemma_passable(ps.last().0);
        lemma_passable(ps.last().1);
        if param_args(ps) is Ok {
            assert forall|i: int| 0 <= i < ps.len() implies passable((#[trigger] ps[i]).0)
                && passable(ps[i].1) by {
                if i < front.len() {
                    assert(front[i] == ps[i]);
                }
            }
            let args = param_args(ps)->Ok_0;
            let before = param_args(front)->Ok_0;
            assert(before.len() == 2 * front.len());
            assert(args == before.push("--params"@).push(ps.last().0 + "="@ + ps.last().1));
            assert(args.len() == 2 * ps.len());
            assert forall|i: int| 0 <= i < ps.len() implies #[trigger] handed_over(args, ps, i) by {
                if i < front.len() {
                    assert(handed_over(before, front, i));
                }
            }
        }
        if forall|i: int|
            0 <= i < ps.len() ==> passable((#[trigger] ps[i]).0) && passable(ps[i].1) {
            assert forall|i: int| 0 <= i < front.len() implies passable((#[trigger] front[i]).0)
                && passable(front[i].1) by {
                assert(front[i] == ps[i]);
            }
        }
    }
}

/// The first parameter that cannot be passed is the one that is named.
pub proof fn law_first_unsafe_parameter_is_named(ps: Seq<(Seq<char>, Seq<char>)>, i: int)
    requires
        0 <= i < ps.len(),
        forall|j: int| 0 <= j < i ==> passable((#[trigger] ps[j]).0) && passable(ps[j].1),
        !passable(ps[i].0) || !passable(ps[i].1),
    ensures
        param_args(ps) == Err::<Seq<Seq<char>>, Seq<char>>(ps[i].0),
{
    let head = ps.take(i + 1);
    let good = head.drop_last();
    assert forall|j: int| 0 <= j < good.len() implies passable((#[trigger] good[j]).0) && passable(
        good[j].1,
    ) by {
        assert(good[j] == ps[j]);
    }
    law_every_parameter_is_handed_over(good);
    lemma_passable(ps[i].0);
    lemma_passable(ps[i].1);
    assert(head.last() == ps[i]);
    lemma_param_args_stop(ps, i + 1);
}

/// A run of a recipe names the recipe, keeps no session, answers in JSON, and
/// has its parameters and then the limit of turns where there is one.
pub proof fn law_arguments_of_a_run(
    recipe: Seq<char>,
    ps: Seq<(Seq<char>, Seq<char>)>,
    turns: Option<u32>,
)
    requires
        param_args(ps) is Ok,
    ensures
        ({
            let a = run_args(recipe, ps, turns);
            let n = param_args(ps)->Ok_0.len() as int;
            &&& a is Ok
            &&& a->Ok_0.len() == 6 + n + (if turns is Some {
                2int
            } else {
                0int
            })
            &&& a->Ok_0.take(6) == seq![
                "run"@,
                "--recipe"@,
                recipe,
                "--no-session"@,
                "--output-format"@,
                "json"@,
            ]
            &&& a->Ok_0.subrange(6, 6 + n) == param_args(ps)->Ok_0
            &&& turns matches Some(t) ==> a->Ok_0[6 + n] == "--max-turns"@ && a->Ok_0[7 + n]
                == number::decimal(t as nat)
        }),
{
    let a = run_args(recipe, ps, turns)->Ok_0;
    let n = param_args(ps)->Ok_0.len() as int;
    assert(a.take(6) =~= head_args(recipe));
    assert(a.subrange(6, 6 + n) =~= param_args(ps)->Ok_0);
}

/// The environment of a run pins the model and the provider where they are set,
/// leaves the caller's own limits alone, and always runs without asking.
pub proof fn law_environment_of_a_run(
    pin: PinView,
    effort_set: bool,
    tokens_set: bool,
    key: Seq<char>,
    v: Seq<char>,
)
    ensures
        run_env_pairs(pin, effort_set, tokens_set).contains((key, v)) <==> {
            ||| key == "GOOSE_PROVIDER"@ && pin.provider == Some(v)
            ||| key == "GOOSE_MODEL"@ && pin.model == Some(v)
            ||| key == "GOOSE_THINKING_EFFORT"@ && v == "medium"@ && !effort_set
            ||| key == "GOOSE_MAX_TOKENS"@ && v == "65536"@ && !tokens_set
            ||| key == "GOOSE_MODE"@ && v == "auto"@
        },
{
    let a = opt_pair("GOOSE_PROVIDER"@, pin.provider);
    let b = opt_pair("GOOSE_MODEL"@, pin.model);
    let c = opt_pair(
        "GOOSE_THINKING_EFFORT"@,
        if effort_set {
            None
        } else {
            Some("medium"@)
        },
    );
    let d = opt_pair(
        "GOOSE_MAX_TOKENS"@,
        if tokens_set {
            None
        } else {
            Some("65536"@)
        },
    );
    let e = seq![("GOOSE_MODE"@, "auto"@)];
    let all = a + b + c + d + e;
    assert(all == run_env_pairs(pin, effort_set, tokens_set));
    let x = (key, v);
    if a.contains(x) {
        assert(all[0] == x);
    }
    if b.contains(x) {
        assert(all[a.len() as int] == x);
    }
    if c.contains(x) {
        assert(all[(a.len() + b.len()) as int] == x);
    }
    if d.contains(x) {
        assert(all[(a.len() + b.len() + c.len()) as int] == x);
    }
    assert(all[all.len() - 1] == ("GOOSE_MODE"@, "auto"@));
    if pin.provider == Some(v) {
        assert(a[0] == ("GOOSE_PROVIDER"@, v));
    }
    if pin.model == Some(v) {
        assert(b[0] == ("GOOSE_MODEL"@, v));
    }
    if !effort_set {
        assert(c[0] == ("GOOSE_THINKING_EFFORT"@, "medium"@));
    }
    if !tokens_set {
        assert(d[0] == ("GOOSE_MAX_TOKENS"@, "65536"@));
    }
}

/// A number of seconds in the environment limits a run, but to no less than one
/// second; anything else there leaves the limit of an hour.
pub proof fn law_limit_of_a_run(env: Option<Seq<char>>, n: u64)
    ensures
        run_limit(Some(number::decimal(n as nat))) == (if n == 0 {
            1nat
        } else {
            n as nat
        }),
        env is None || number::parsed(text::trimmed(env->Some_0), u64::MAX as nat) is None
            ==> run_limit(env) == 3600,
{
    number::lemma_decimal(n as nat);
    number::law_decimals_read_back(n as nat, u64::MAX as nat);
    let d = number::decimal(n as nat);
    assert(text::is_digit(d[0]) && text::is_digit(d[d.len() - 1]));
    text::law_trimmed_stays(d);
}

// ---------------------------------------------------------------------
// Laws of models
// ---------------------------------------------------------------------

/// A setting is the trimmed text under its key; it counts as not set where it
/// is blank or missing, and anything but a text is refused.
pub proof fn law_settings_are_texts(v: TomlView, key: Seq<char>, place: Seq<char>)
    ensures
        setting(None, key, place) == Ok::<Option<Seq<char>>, ConfigError<Seq<char>>>(None),
        v.member(key) is None ==> setting(Some(v), key, place) == Ok::<
            Option<Seq<char>>,
            ConfigError<Seq<char>>,
        >(None),
        v.member(key) matches Some(TomlView::Text(t)) ==> text::trimmed(t).len() > 0 ==> setting(
            Some(v),
            key,
            place,
        ) == Ok::<Option<Seq<char>>, ConfigError<Seq<char>>>(Some(text::trimmed(t))),
        v.member(key) matches Some(TomlView::Text(t)) ==> text::trimmed(t).len() == 0 ==> setting(
            Some(v),
            key,
            place,
        ) == Ok::<Option<Seq<char>>, ConfigError<Seq<char>>>(None),
        v.member(key) matches Some(x) ==> !(x is Text) ==> setting(Some(v), key, place) == Err::<
            Option<Seq<char>>,
            ConfigError<Seq<char>>,
        >(ConfigError::NotText { place, key, found: x.kind_name() }),
{
}

/// The base model is that of the section where there is one and that of the top
/// otherwise; the base provider is that of the top before that of the section.
pub proof fn law_base_of_the_models(doc: TomlView)
    ensures
        !(doc.member("model"@) matches Some(TomlView::Table(_))) ==> base_model(doc) == setting(
            Some(doc),
            "model"@,
            "top-level"@,
        ),
        doc.member("model"@) matches Some(TomlView::Table(m)) ==> base_model(doc) == setting(
            doc.member("model"@),
            "model"@,
            "[model]"@,
        ),
        setting(Some(doc), "provider"@, "top-level"@) matches Ok(Some(p)) ==> base_provider(doc)
            == Ok::<Option<Seq<char>>, ConfigError<Seq<char>>>(Some(p)),
        setting(Some(doc), "provider"@, "top-level"@) == Ok::<
            Option<Seq<char>>,
            ConfigError<Seq<char>>,
        >(None) && (doc.member("model"@) matches Some(TomlView::Table(_))) ==> base_provider(doc)
            == setting(doc.member("model"@), "provider"@, "[model]"@),
        setting(Some(doc), "provider"@, "top-level"@) == Ok::<
            Option<Seq<char>>,
            ConfigError<Seq<char>>,
        >(None) && !(doc.member("model"@) matches Some(TomlView::Table(_))) ==> base_provider(doc)
            == Ok::<Option<Seq<char>>, ConfigError<Seq<char>>>(None),
{
}

/// A model section for a phase that does not exist is refused and not passed
/// over.
pub proof fn law_unknown_phases_are_refused(
    doc: TomlView,
    m: Map<Seq<char>, TomlView>,
    key: Seq<char>,
    phase: Seq<char>,
)
    requires
        doc.member("model"@) == Some(TomlView::Table(m)),
        m.dom().contains(key),
        key != "provider"@ && key != "model"@ && key != "discover"@ && key != "review"@ && key
            != "confirm"@ && key != "fix"@ && key != "verify"@ && key != "report"@,
        forall|k: Seq<char>| #[trigger]
            m.dom().contains(k) && stray(k) ==> k == key || text::before(key, k),
    ensures
        pin_in(doc, phase) == Err::<PinView, ConfigError<Seq<char>>>(
            ConfigError::UnknownPhase { key },
        ),
{
    let l = config::known_phases();
    if l.contains(key) {
        let i = choose|i: int| 0 <= i < l.len() && l[i] == key;
        assert(l[0] == "discover"@ && l[1] == "review"@ && l[2] == "confirm"@ && l[3] == "fix"@
            && l[4] == "verify"@ && l[5] == "report"@);
    }
    assert(first_stray(m, key));
    let other = the_stray(m);
    assert(first_stray(m, other));
    assert(m.dom().contains(other) && m.dom().contains(key));
    text::lemma_before_strict(other, key);
}

/// Every phase that runs on another model than the base is listed with it, and
/// no other phase is.
pub proof fn law_differing_phases_are_listed(
    content: Option<Seq<char>>,
    base: PinView,
    ps: Seq<Seq<char>>,
    l: Seq<char>,
)
    ensures
        overrides(content, base, ps).contains(l) <==> exists|i: int|
            0 <= i < ps.len() && (pin_of(content, #[trigger] ps[i]) matches Ok(p) && p != base && l
                == ps[i] + ": "@ + pin_text(p)),
    decreases ps.len(),
{
    if ps.len() > 0 {
        let front = ps.drop_last();
        law_differing_phases_are_listed(content, base, front, l);
        let before = overrides(content, base, front);
        let all = overrides(content, base, ps);
        assert(ps[ps.len() - 1] == ps.last());
        if before.contains(l) {
            let k = choose|k: int| 0 <= k < before.len() && before[k] == l;
            assert(all[k] == l);
            let i = choose|i: int|
                0 <= i < front.len() && (pin_of(content, #[trigger] front[i]) matches Ok(p) && p
                    != base && l == front[i] + ": "@ + pin_text(p));
            assert(pin_of(content, ps[i]) is Ok);
        }
        if all.contains(l) && !before.contains(l) {
            let k = choose|k: int| 0 <= k < all.len() && all[k] == l;
            if k < before.len() {
                assert(before[k] == l);
            }
        }
        if exists|i: int|
            0 <= i < ps.len() && (pin_of(content, #[trigger] ps[i]) matches Ok(p) && p != base && l
                == ps[i] + ": "@ + pin_text(p)) {
            let i = choose|i: int|
                0 <= i < ps.len() && (pin_of(content, #[trigger] ps[i]) matches Ok(p) && p != base
                    && l == ps[i] + ": "@ + pin_text(p));
            if i < front.len() {
                assert(pin_of(content, front[i]) is Ok);
            } else {
                assert(all[all.len() - 1] == l);
            }
        }
    }
}

/// A pin in words names the provider and the model, each by the agent's default
/// where it is not set.
pub proof fn law_pins_in_words(p: Seq<char>, m: Seq<char>)
    ensures
        pin_text(PinView { provider: Some(p), model: Some(m) }) == p + " / "@ + m,
        pin_text(PinView { provider: None, model: Some(m) }) == "(goose default)"@ + " / "@ + m,
        pin_text(PinView { provider: Some(p), model: None }) == p + " / "@ + "(goose default)"@,
{
}

/// A recipe file is for the phase that its name says, in whatever directory it
/// lies.
pub proof fn law_recipes_are_for_their_phase(dir: Seq<char>, phase: Seq<char>)
    requires
        config::known_phases().contains(phase),
    ensures
        phase_of(dir + "/"@ + phase + ".yaml"@) == phase,
{
    reveal_strlit("/");
    reveal_strlit(".yaml");
    reveal_strlit("discover");
    reveal_strlit("review");
    reveal_strlit("confirm");
    reveal_strlit("fix");
    reveal_strlit("verify");
    reveal_strlit("report");
    reveal_strlit(".");
    reveal_strlit("..");
    let l = config::known_phases();
    let i = choose|i: int| 0 <= i < l.len() && l[i] == phase;
    assert(l[0] == "discover"@ && l[1] == "review"@ && l[2] == "confirm"@ && l[3] == "fix"@ && l[4]
        == "verify"@ && l[5] == "report"@);
    let name = phase + ".yaml"@;
    let p = dir + "/"@ + phase + ".yaml"@;
    let set = CharSet::One('/');
    assert forall|k: int| 0 <= k < name.len() implies name[k] != '/' by {
        if k < phase.len() {
            assert(name[k] == phase[k]);
        } else {
            assert(name[k] == ".yaml"@[k - phase.len()]);
        }
    }
    assert(p =~= dir.push('/') + name);
    assert(!text::has_char(name, set));
    crate::roundtrip::lemma_pieces_cut(dir, '/', name);
    let keep = |s: Seq<char>| s.len() > 0 && s != "."@;
    let ps = text::pieces(dir, set);
    reveal(Seq::filter);
    assert(ps.push(name).drop_last() =~= ps);
    assert(name.len() > 5);
    assert(discover::segments(p, set).last() == name);
    assert(discover::file_name(p) == Some(name));
    let n = name.len() as int;
    assert(name[n - 5] == '.' && name[n - 4] == 'y' && name[n - 3] == 'a' && name[n - 2] == 'm'
        && name[n - 1] == 'l');
    assert(discover::stem_before(name, n - 4) == name.take(n - 5));
    assert(discover::stem_before(name, n - 3) == discover::stem_before(name, n - 4));
    assert(discover::stem_before(name, n - 2) == discover::stem_before(name, n - 3));
    assert(discover::stem_before(name, n - 1) == discover::stem_before(name, n - 2));
    assert(discover::stem_before(name, n) == discover::stem_before(name, n - 1));
    assert(name.take(n - 5) =~= phase);
}

/// A usage can be added exactly where no sum of two counts is over the limit of
/// the machine.
pub proof fn law_sums_that_fit(a: Usage, b: Usage, x: u64, y: u64)
    ensures
        fits(Some(x), Some(y)) <==> x + y <= u64::MAX,
        fits(None, Some(y)) && fits(Some(x), None) && fits(None, None),
        a.can_add(b) <==> fits(a.total_tokens, b.total_tokens) && fits(a.input_tokens, b.input_tokens)
            && fits(a.output_tokens, b.output_tokens) && fits(
            a.cache_read_input_tokens,
            b.cache_read_input_tokens,
        ) && fits(a.cache_write_input_tokens, b.cache_write_input_tokens),
        as_int(Some(x)) == Some(x as int),
        as_int(None) is None,
{
}

/// A run that failed is told with the recipe, the code and the beginnings of
/// what it printed; one that took too long with its limit; and one without an
/// answer as such.
pub proof fn law_failed_runs_in_words(
    recipe: Seq<char>,
    code: i32,
    stdout: Seq<char>,
    stderr: Seq<char>,
    secs: nat,
    key: Seq<char>,
)
    ensures
        stdout.len() <= 2000 && stderr.len() <= 2000 ==> failed_text(recipe, Some(code), stdout, stderr)
            == "goose recipe "@ + recipe + " failed (exit "@ + crate::commit::code_text(Some(code))
            + ")\nstdout: "@ + stdout + "\nstderr: "@ + stderr,
        stdout.len() > 2000 && stderr.len() > 2000 ==> failed_text(recipe, Some(code), stdout, stderr)
            == "goose recipe "@ + recipe + " failed (exit "@ + crate::commit::code_text(Some(code))
            + ")\nstdout: "@ + stdout.take(2000) + "\nstderr: "@ + stderr.take(2000),
        overdue_text(recipe, secs) == "goose recipe "@ + recipe + " timed out after "@
            + number::decimal(secs) + "s (killed)"@,
        no_answer_text(recipe) == "goose produced no parseable JSON in stdout for recipe "@ + recipe
            + " after 2 attempts (the model ended both runs without a text answer)"@,
        unsafe_param_text(key) == "unsafe recipe param "@ + text::debug_text(key)
            + ": keys/values with '=' or line breaks cannot be passed via --params (use a file instead)"@,
{
    text::law_first_chars(stdout, 2000);
    text::law_first_chars(stderr, 2000);
}

/// The models in words: the base pin, where it comes from, and every phase that
/// differs from it; a fault where the settings cannot be used.
pub proof fn law_models_in_words(content: Option<Seq<char>>, cfg: Seq<char>)
    ensures
        pin_of(content, ""@) matches Err(e) ==> models_text(content, cfg)
            == "unusable .review/config.toml: "@ + e.words(cfg),
        pin_of(content, ""@) matches Ok(b) ==> {
            let own = overrides(content, b, config::known_phases());
            &&& b.provider is None && b.model is None && own.len() == 0 ==> models_text(content, cfg)
                == pin_text(b)
            &&& (b.provider is Some || b.model is Some) && own.len() == 0 ==> models_text(content, cfg)
                == pin_text(b) + " — from .review/config.toml"@
            &&& b.provider is None && b.model is None && own.len() > 0 ==> models_text(content, cfg)
                == pin_text(b) + " ["@ + text::joined(own, "; "@) + "]"@
            &&& (b.provider is Some || b.model is Some) && own.len() > 0 ==> models_text(content, cfg)
                == pin_text(b) + " — from .review/config.toml"@ + " ["@ + text::joined(own, "; "@) + "]"@
        },
{
    if pin_of(content, ""@) is Ok {
        let t = pin_text(pin_of(content, ""@)->Ok_0);
        assert(t + Seq::<char>::empty() =~= t);
    }
}

/// A file that is no document is told with the error of the parser; only where
/// a bare `model` key collides with a section of a phase is that said instead.
pub proof fn law_syntax_errors(t: Seq<char>, detail: Seq<char>, phase: Seq<char>)
    ensures
        config::toml_document(t) == Err::<TomlView, Seq<char>>(detail) ==> {
            let collides = text::has_text(t, "[model."@) && (text::has_text(detail, "duplicate key"@)
                || text::has_text(detail, "attempted to extend non-table"@));
            &&& collides ==> pin_of(Some(t), phase) == Err::<PinView, ConfigError<Seq<char>>>(
                ConfigError::BareModelKey { detail },
            )
            &&& !collides ==> pin_of(Some(t), phase) == Err::<PinView, ConfigError<Seq<char>>>(
                ConfigError::Syntax { detail },
            )
        },
        pin_of(None, phase) == Ok::<PinView, ConfigError<Seq<char>>>(
            PinView { provider: None, model: None },
        ),
{
}

} // verus!
