//! The settings file `.review/config.toml`: TOML documents, held as `toml`
//! values and read through a model of what they contain, and the faults that
//! reading a setting can end in.

use vstd::prelude::*;
use crate::number;
use crate::number::to_decimal;
use crate::text;
use crate::text::{join, owned, Draft};

verus! {

/// What a TOML value holds, as far as the settings read it.
pub enum TomlView {
    Text(Seq<char>),
    Integer(i64),
    Float,
    Boolean(bool),
    Datetime,
    List(Seq<TomlView>),
    Table(Map<Seq<char>, TomlView>),
}

impl TomlView {
    /// The entry `key` of a table; nothing in any other value.
    pub open spec fn member(self, key: Seq<char>) -> Option<TomlView> {
        match self {
            TomlView::Table(m) => if m.contains_key(key) {
                Some(m[key])
            } else {
                None
            },
            _ => None,
        }
    }

    pub open spec fn list(self) -> Option<Seq<TomlView>> {
        match self {
            TomlView::List(l) => Some(l),
            _ => None,
        }
    }

    pub open spec fn text(self) -> Option<Seq<char>> {
        match self {
            TomlView::Text(s) => Some(s),
            _ => None,
        }
    }

    /// The name of the type of the value.
    pub open spec fn kind_name(self) -> Seq<char> {
        match self {
            TomlView::Text(_) => "string"@,
            TomlView::Integer(_) => "integer"@,
            TomlView::Float => "float"@,
            TomlView::Boolean(_) => "boolean"@,
            TomlView::Datetime => "datetime"@,
            TomlView::List(_) => "array"@,
            TomlView::Table(_) => "table"@,
        }
    }
}

/// `toml::Value`, a tree of TOML values.
#[verifier::external_type_specification]
#[verifier::external_body]
pub struct ExTomlValue(toml::Value);

/// What a `toml::Value` holds.
pub uninterp spec fn toml_view(v: toml::Value) -> TomlView;

pub open spec fn toml_views(v: Seq<toml::Value>) -> Seq<TomlView> {
    v.map_values(|x: toml::Value| toml_view(x))
}

/// What parsing a text as a TOML document ends in: the document, or the text
/// of the error.
pub uninterp spec fn toml_document(text: Seq<char>) -> Result<TomlView, Seq<char>>;

/// `str::parse::<toml::Value>`: the document that the text holds, or its error
/// as text.
#[verifier::external_body]
pub(crate) fn parse_toml(text: &str) -> (r: Result<toml::Value, String>)
    ensures
        match r {
            Ok(v) => toml_document(text@) == Ok::<TomlView, Seq<char>>(toml_view(v)),
            Err(e) => toml_document(text@) == Err::<TomlView, Seq<char>>(e@),
        },
{
    match text.parse::<toml::Value>() {
        Ok(v) => Ok(v),
        Err(e) => Err(e.to_string()),
    }
}

/// `Value::get` with a string: the entry of that name of a table, and nothing
/// where there is none or the value is not a table.
#[verifier::external_body]
pub(crate) fn get<'a>(v: &'a toml::Value, key: &str) -> (r: Option<&'a toml::Value>)
    ensures
        match r {
            Some(x) => toml_view(*v).member(key@) == Some(toml_view(*x)),
            None => toml_view(*v).member(key@) is None,
        },
{
    v.get(key)
}

/// `Value::as_str`: the text of a string.
#[verifier::external_body]
pub(crate) fn as_str<'a>(v: &'a toml::Value) -> (r: Option<&'a str>)
    ensures
        match r {
            Some(s) => toml_view(*v) == TomlView::Text(s@),
            None => toml_view(*v).text() is None,
        },
{
    v.as_str()
}

/// `Value::as_array`: the elements of an array.
#[verifier::external_body]
pub(crate) fn as_array<'a>(v: &'a toml::Value) -> (r: Option<&'a Vec<toml::Value>>)
    ensures
        match r {
            Some(l) => toml_view(*v) == TomlView::List(toml_views(l@)),
            None => toml_view(*v).list() is None,
        },
{
    v.as_array()
}

/// `Value::as_integer`: the value of an integer.
#[verifier::external_body]
pub(crate) fn as_integer(v: &toml::Value) -> (r: Option<i64>)
    ensures
        r == (match toml_view(*v) {
            TomlView::Integer(n) => Some(n),
            _ => None,
        }),
{
    v.as_integer()
}

/// `Value::as_bool`: the value of a boolean.
#[verifier::external_body]
pub(crate) fn as_bool(v: &toml::Value) -> (r: Option<bool>)
    ensures
        r == (match toml_view(*v) {
            TomlView::Boolean(b) => Some(b),
            _ => None,
        }),
{
    v.as_bool()
}

/// `Value::as_table` and the keys of the table: the names of its entries, in
/// ascending order, as the ordered map behind the table walks them.
#[verifier::external_body]
pub(crate) fn table_keys(v: &toml::Value) -> (r: Option<Vec<String>>)
    ensures
        match r {
            Some(l) => toml_view(*v) is Table && text::texts(l@).to_set() == toml_view(*v)->Table_0.dom() && (
            forall|i: int, j: int|
                0 <= i < j < l@.len() ==> text::before(#[trigger] l@[i]@, #[trigger] l@[j]@)),
            None => !(toml_view(*v) is Table),
        },
{
    v.as_table().map(|t| t.keys().cloned().collect())
}

/// `Value::type_str`: the name of the type of the value.
#[verifier::external_body]
pub(crate) fn kind_name(v: &toml::Value) -> (r: String)
    ensures
        r@ == toml_view(*v).kind_name(),
{
    v.type_str().to_string()
}

// ---------------------------------------------------------------------
// Faults
// ---------------------------------------------------------------------

/// Why a setting could not be read. `T` is the type of the texts in it.
#[derive(Debug)]
pub enum ConfigError<T> {
    /// The file does not exist.
    NotFound,
    /// The file is not a TOML document.
    Syntax { detail: T },
    /// A bare `model` key stands beside `[model.<phase>]` sections.
    BareModelKey { detail: T },
    /// A required command list is not there.
    KeyMissing { key: T },
    /// A command list is not an array.
    NotAnArray { key: T },
    /// An entry of a command list is not a string.
    EntryNotText { key: T, index: usize, found: T },
    /// An entry of a command list is blank.
    EntryBlank { key: T, index: usize },
    /// A required command list has no entry.
    EmptyList { key: T },
    /// `[model.<key>]` names no phase.
    UnknownPhase { key: T },
    /// A string setting holds something else.
    NotText { place: T, key: T, found: T },
    /// `commit.sign` is not a boolean.
    SignNotBoolean { found: T },
    /// `branch.dedicated` is not a boolean.
    DedicatedNotBoolean { found: T },
}

impl View for ConfigError<String> {
    type V = ConfigError<Seq<char>>;

    open spec fn view(&self) -> ConfigError<Seq<char>> {
        match *self {
            ConfigError::NotFound => ConfigError::NotFound,
            ConfigError::Syntax { detail } => ConfigError::Syntax { detail: detail@ },
            ConfigError::BareModelKey { detail } => ConfigError::BareModelKey { detail: detail@ },
            ConfigError::KeyMissing { key } => ConfigError::KeyMissing { key: key@ },
            ConfigError::NotAnArray { key } => ConfigError::NotAnArray { key: key@ },
            ConfigError::EntryNotText { key, index, found } => ConfigError::EntryNotText {
                key: key@,
                index,
                found: found@,
            },
            ConfigError::EntryBlank { key, index } => ConfigError::EntryBlank { key: key@, index },
            ConfigError::EmptyList { key } => ConfigError::EmptyList { key: key@ },
            ConfigError::UnknownPhase { key } => ConfigError::UnknownPhase { key: key@ },
            ConfigError::NotText { place, key, found } => ConfigError::NotText {
                place: place@,
                key: key@,
                found: found@,
            },
            ConfigError::SignNotBoolean { found } => ConfigError::SignNotBoolean { found: found@ },
            ConfigError::DedicatedNotBoolean { found } => ConfigError::DedicatedNotBoolean {
                found: found@,
            },
        }
    }
}

/// The phases that may have a model section of their own, in order.
pub open spec fn known_phases() -> Seq<Seq<char>> {
    seq!["discover"@, "review"@, "confirm"@, "fix"@, "verify"@, "report"@]
}

/// The phases that may have a model section of their own, in order.
pub fn phases() -> (r: Vec<String>)
    ensures
        text::texts(r@) == known_phases(),
{
    let mut r: Vec<String> = Vec::new();
    r.push(owned("discover"));
    r.push(owned("review"));
    r.push(owned("confirm"));
    r.push(owned("fix"));
    r.push(owned("verify"));
    r.push(owned("report"));
    assert(text::texts(r@) =~= known_phases());
    r
}

impl ConfigError<Seq<char>> {
    /// The fault in words, for the settings file at `cfg`.
    pub open spec fn words(self, cfg: Seq<char>) -> Seq<char> {
        match self {
            ConfigError::NotFound => "config not found: "@ + cfg
                + " — expected a `verify` array (see config.toml.example)"@,
            ConfigError::Syntax { detail } => "failed to parse `"@ + cfg + "`: "@ + detail,
            ConfigError::BareModelKey { detail } => cfg + " failed to parse ("@ + detail
                + ") — a bare top-level `model =` key cannot coexist with `[model.<phase>]` sections. Move the base keys INSIDE `[model]` (section form)."@,
            ConfigError::KeyMissing { key } => "`"@ + key + "` key missing from "@ + cfg
                + " — expected a non-empty command array (see config.toml.example)"@,
            ConfigError::NotAnArray { key } => "`"@ + key
                + "` must be an array of command strings in "@ + cfg
                + " (see config.toml.example)"@,
            ConfigError::EntryNotText { key, index, found } => "`"@ + key + "["@ + number::decimal(
                index as nat,
            ) + "]` must be a string in "@ + cfg + ", but found `"@ + found
                + "` (see config.toml.example)"@,
            ConfigError::EntryBlank { key, index } => "`"@ + key + "["@ + number::decimal(
                index as nat,
            ) + "]` is empty/whitespace-only in "@ + cfg
                + " — entries must be non-empty command strings (see config.toml.example)"@,
            ConfigError::EmptyList { key } => "`"@ + key + "` is empty in "@ + cfg
                + " — an empty array is rejected (it would silently pass with zero commands run)"@,
            ConfigError::UnknownPhase { key } => "`[model."@ + key + "]` in "@ + cfg
                + " is not a known phase — expected one of: "@ + text::joined(
                known_phases(),
                ", "@,
            ) + " (or the base keys provider/model)"@,
            ConfigError::NotText { place, key, found } => "`"@ + place + "."@ + key + "` in "@ + cfg
                + " must be a string, found `"@ + found
                + "` — refusing to silently fall back to a different model"@,
            ConfigError::SignNotBoolean { found } => "`commit.sign` in "@ + cfg
                + " must be a boolean (true/false), found `"@ + found
                + "` — refusing to guess intent"@,
            ConfigError::DedicatedNotBoolean { found } => "`branch.dedicated` in "@ + cfg
                + " must be a boolean, found `"@ + found + "`"@,
        }
    }
}

impl ConfigError<String> {
    /// The fault in words, for the settings file at `cfg`.
    pub fn message(&self, cfg: &str) -> (r: String)
        ensures
            r@ == self@.words(cfg@),
    {
        let b: Draft = match self {
            ConfigError::NotFound => Draft::of("config not found: ").put(cfg).put(
                " — expected a `verify` array (see config.toml.example)",
            ),
            ConfigError::Syntax { detail } => Draft::of("failed to parse `").put(
                cfg,
            ).put("`: ").put(detail.as_str()),
            ConfigError::BareModelKey { detail } => Draft::of(cfg).put(
                " failed to parse (",
            ).put(detail.as_str()).put(
                ") — a bare top-level `model =` key cannot coexist with `[model.<phase>]` sections. Move the base keys INSIDE `[model]` (section form).",
            ),
            ConfigError::KeyMissing { key } => Draft::of("`").put(
                key.as_str(),
            ).put("` key missing from ").put(cfg).put(
                " — expected a non-empty command array (see config.toml.example)",
            ),
            ConfigError::NotAnArray { key } => Draft::of("`").put(
                key.as_str(),
            ).put("` must be an array of command strings in ").put(cfg).put(
                " (see config.toml.example)",
            ),
            ConfigError::EntryNotText { key, index, found } => Draft::of("`").put(
                key.as_str(),
            ).put("[").put(to_decimal(*index as u64).as_str()).put(
                "]` must be a string in ",
            ).put(cfg).put(", but found `").put(found.as_str()).put(
                "` (see config.toml.example)",
            ),
            ConfigError::EntryBlank { key, index } => Draft::of("`").put(
                key.as_str(),
            ).put("[").put(to_decimal(*index as u64).as_str()).put(
                "]` is empty/whitespace-only in ",
            ).put(cfg).put(
                " — entries must be non-empty command strings (see config.toml.example)",
            ),
            ConfigError::EmptyList { key } => Draft::of("`").put(
                key.as_str(),
            ).put("` is empty in ").put(cfg).put(
                " — an empty array is rejected (it would silently pass with zero commands run)",
            ),
            ConfigError::UnknownPhase { key } => Draft::of("`[model.").put(
                key.as_str(),
            ).put("]` in ").put(cfg).put(
                " is not a known phase — expected one of: ",
            ).put(join(&phases(), ", ").as_str()).put(
                " (or the base keys provider/model)",
            ),
            ConfigError::NotText { place, key, found } => Draft::of("`").put(
                place.as_str(),
            ).put(".").put(key.as_str()).put("` in ").put(cfg).put(
                " must be a string, found `",
            ).put(found.as_str()).put(
                "` — refusing to silently fall back to a different model",
            ),
            ConfigError::SignNotBoolean { found } => Draft::of(
                "`commit.sign` in ",
            ).put(cfg).put(" must be a boolean (true/false), found `").put(
                found.as_str(),
            ).put("` — refusing to guess intent"),
            ConfigError::DedicatedNotBoolean { found } => Draft::of(
                "`branch.dedicated` in ",
            ).put(cfg).put(" must be a boolean, found `").put(
                found.as_str(),
            ).put("`"),
        };
        b.text
    }
}

// ---------------------------------------------------------------------
// Laws of settings
// ---------------------------------------------------------------------

/// An entry of a table is found under its own key and under no other, and what
/// is no table has no entries.
pub proof fn law_entries_of_tables(m: Map<Seq<char>, TomlView>, k: Seq<char>, j: Seq<char>, v: TomlView)
    ensures
        TomlView::Table(m.insert(k, v)).member(k) == Some(v),
        j != k ==> TomlView::Table(m.insert(k, v)).member(j) == TomlView::Table(m).member(j),
        TomlView::Table(m.remove(k)).member(k) is None,
        !(v is Table) ==> v.member(k) is None,
{
}

/// The values that are texts or lists, and no others, give one.
pub proof fn law_texts_and_lists(v: TomlView, s: Seq<char>, l: Seq<TomlView>)
    ensures
        v.text() == Some(s) <==> v == TomlView::Text(s),
        v.list() == Some(l) <==> v == TomlView::List(l),
{
}

/// Values of different types have types of different names.
pub proof fn law_names_of_types(a: TomlView, b: TomlView)
    ensures
        a is Text ==> a.kind_name() == "string"@,
        a is Integer ==> a.kind_name() == "integer"@,
        a is Float ==> a.kind_name() == "float"@,
        a is Boolean ==> a.kind_name() == "boolean"@,
        a is Datetime ==> a.kind_name() == "datetime"@,
        a is List ==> a.kind_name() == "array"@,
        a is Table ==> a.kind_name() == "table"@,
        a.kind_name() == b.kind_name() ==> (a is Text <==> b is Text) && (a is Integer <==> b is Integer)
            && (a is Float <==> b is Float) && (a is Boolean <==> b is Boolean) && (a is Datetime
            <==> b is Datetime) && (a is List <==> b is List) && (a is Table <==> b is Table),
{
    reveal_strlit("string");
    reveal_strlit("integer");
    reveal_strlit("float");
    reveal_strlit("boolean");
    reveal_strlit("datetime");
    reveal_strlit("array");
    reveal_strlit("table");
    assert("string"@.len() == 6 && "integer"@.len() == 7 && "float"@.len() == 5 && "boolean"@.len()
        == 7 && "datetime"@.len() == 8 && "array"@.len() == 5 && "table"@.len() == 5);
    assert("integer"@[0] == 'i' && "boolean"@[0] == 'b' && "float"@[0] == 'f' && "array"@[0] == 'a'
        && "table"@[0] == 't');
}

/// A fault is told with the settings file in which it is, the key and the place
/// of the entry.
pub proof fn law_faults_in_words(cfg: Seq<char>, key: Seq<char>, place: Seq<char>, found: Seq<char>, index: usize)
    ensures
        ConfigError::NotFound::<Seq<char>>.words(cfg) == "config not found: "@ + cfg
            + " — expected a `verify` array (see config.toml.example)"@,
        (ConfigError::Syntax { detail: found }).words(cfg) == "failed to parse `"@ + cfg + "`: "@
            + found,
        (ConfigError::KeyMissing { key }).words(cfg) == "`"@ + key + "` key missing from "@ + cfg
            + " — expected a non-empty command array (see config.toml.example)"@,
        (ConfigError::NotAnArray { key }).words(cfg) == "`"@ + key
            + "` must be an array of command strings in "@ + cfg + " (see config.toml.example)"@,
        (ConfigError::EntryNotText { key, index, found }).words(cfg) == "`"@ + key + "["@
            + number::decimal(index as nat) + "]` must be a string in "@ + cfg + ", but found `"@
            + found + "` (see config.toml.example)"@,
        (ConfigError::EntryBlank { key, index }).words(cfg) == "`"@ + key + "["@ + number::decimal(
            index as nat,
        ) + "]` is empty/whitespace-only in "@ + cfg
            + " — entries must be non-empty command strings (see config.toml.example)"@,
        (ConfigError::EmptyList { key }).words(cfg) == "`"@ + key + "` is empty in "@ + cfg
            + " — an empty array is rejected (it would silently pass with zero commands run)"@,
        (ConfigError::UnknownPhase { key }).words(cfg) == "`[model."@ + key + "]` in "@ + cfg
            + " is not a known phase — expected one of: "@ + text::joined(
            seq!["discover"@, "review"@, "confirm"@, "fix"@, "verify"@, "report"@],
            ", "@,
        ) + " (or the base keys provider/model)"@,
        (ConfigError::NotText { place, key, found }).words(cfg) == "`"@ + place + "."@ + key
            + "` in "@ + cfg + " must be a string, found `"@ + found
            + "` — refusing to silently fall back to a different model"@,
        (ConfigError::SignNotBoolean { found }).words(cfg) == "`commit.sign` in "@ + cfg
            + " must be a boolean (true/false), found `"@ + found + "` — refusing to guess intent"@,
        (ConfigError::DedicatedNotBoolean { found }).words(cfg) == "`branch.dedicated` in "@ + cfg
            + " must be a boolean, found `"@ + found + "`"@,
{
}

} // verus!
