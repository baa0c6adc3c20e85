use vstd::prelude::*;
use vstd::utf8::encode_utf8;

use crate::error::{mod_error, ErrorResponse};
use crate::ieee::{double_le, double_lt, finite_double, is_finite_double, less_than, at_most, positive_zero};
use crate::rules::{
    spec_valid_config_name, spec_valid_identifier, spec_valid_localized_text, valid_config_name,
    valid_identifier, valid_localized_text,
};
use crate::cfgfile::{index_of_char, lemma_index_of_char};
use crate::text::{chars_of, decimal_text, integer_text, string_of, trim, trim_bounds};

verus! {

/// A text in English, with the German text where there is one.
#[derive(Clone, Debug)]
pub struct LocalizedText {
    pub en: String,
    pub de: Option<String>,
}

/// When a changed setting takes effect.
#[derive(Clone, Copy, Debug, PartialEq, Eq, Structural)]
pub enum ConfigApplyMode {
    Live,
    RestartRequired,
    NextLaunch,
}

/// How a Boolean setting is shown.
#[derive(Clone, Copy, Debug, PartialEq, Eq, Structural)]
pub enum BooleanDisplay {
    Switch,
    Checkbox,
}

/// How a single selection is shown.
#[derive(Clone, Copy, Debug, PartialEq, Eq, Structural)]
pub enum SelectionDisplay {
    Dropdown,
    Radio,
}

/// One choice of a selection setting.
#[derive(Clone, Debug)]
pub struct SelectOption {
    pub value: String,
    pub label: LocalizedText,
}

/// A configurable setting of a mod, as the catalog or a connected agent
/// describes it. The numbers of a decimal setting are held as the bit
/// patterns of IEEE-754 double-precision values, together with the text
/// that displays the default.
#[derive(Clone, Debug)]
pub enum ConfigField {
    Boolean {
        id: String,
        section: String,
        key: String,
        label: LocalizedText,
        description: Option<LocalizedText>,
        locked: bool,
        default: bool,
        apply_mode: ConfigApplyMode,
        display: BooleanDisplay,
    },
    String {
        id: String,
        section: String,
        key: String,
        label: LocalizedText,
        description: Option<LocalizedText>,
        locked: bool,
        default: String,
        max_length: u16,
        apply_mode: ConfigApplyMode,
    },
    Integer {
        id: String,
        section: String,
        key: String,
        label: LocalizedText,
        description: Option<LocalizedText>,
        locked: bool,
        default: i64,
        min: i64,
        max: i64,
        step: i64,
        apply_mode: ConfigApplyMode,
    },
    Decimal {
        id: String,
        section: String,
        key: String,
        label: LocalizedText,
        description: Option<LocalizedText>,
        locked: bool,
        default: u64,
        default_text: String,
        min: u64,
        max: u64,
        step: u64,
        apply_mode: ConfigApplyMode,
    },
    SingleSelect {
        id: String,
        section: String,
        key: String,
        label: LocalizedText,
        description: Option<LocalizedText>,
        locked: bool,
        default: String,
        options: Vec<SelectOption>,
        apply_mode: ConfigApplyMode,
        display: SelectionDisplay,
    },
    MultiSelect {
        id: String,
        section: String,
        key: String,
        label: LocalizedText,
        description: Option<LocalizedText>,
        locked: bool,
        default: Vec<String>,
        options: Vec<SelectOption>,
        apply_mode: ConfigApplyMode,
    },
}


impl ConfigField {
    /// The field's identifier.
    pub open spec fn spec_id(self) -> Seq<char> {
        match self {
            ConfigField::Boolean { id, .. } => id@,
            ConfigField::String { id, .. } => id@,
            ConfigField::Integer { id, .. } => id@,
            ConfigField::Decimal { id, .. } => id@,
            ConfigField::SingleSelect { id, .. } => id@,
            ConfigField::MultiSelect { id, .. } => id@,
        }
    }

    /// The configuration file section the field is stored in.
    pub open spec fn spec_section(self) -> Seq<char> {
        match self {
            ConfigField::Boolean { section, .. } => section@,
            ConfigField::String { section, .. } => section@,
            ConfigField::Integer { section, .. } => section@,
            ConfigField::Decimal { section, .. } => section@,
            ConfigField::SingleSelect { section, .. } => section@,
            ConfigField::MultiSelect { section, .. } => section@,
        }
    }

    /// The key the field is stored under.
    pub open spec fn spec_key(self) -> Seq<char> {
        match self {
            ConfigField::Boolean { key, .. } => key@,
            ConfigField::String { key, .. } => key@,
            ConfigField::Integer { key, .. } => key@,
            ConfigField::Decimal { key, .. } => key@,
            ConfigField::SingleSelect { key, .. } => key@,
            ConfigField::MultiSelect { key, .. } => key@,
        }
    }

    /// Whether the field may not be changed.
    pub open spec fn spec_locked(self) -> bool {
        match self {
            ConfigField::Boolean { locked, .. } => locked,
            ConfigField::String { locked, .. } => locked,
            ConfigField::Integer { locked, .. } => locked,
            ConfigField::Decimal { locked, .. } => locked,
            ConfigField::SingleSelect { locked, .. } => locked,
            ConfigField::MultiSelect { locked, .. } => locked,
        }
    }

    /// The field's identifier.
    pub fn id(&self) -> (id: &str)
        ensures
            id@ == self.spec_id(),
    {
        match self {
            ConfigField::Boolean { id, .. } => id.as_str(),
            ConfigField::String { id, .. } => id.as_str(),
            ConfigField::Integer { id, .. } => id.as_str(),
            ConfigField::Decimal { id, .. } => id.as_str(),
            ConfigField::SingleSelect { id, .. } => id.as_str(),
            ConfigField::MultiSelect { id, .. } => id.as_str(),
        }
    }

    /// The field's identifier, as the agent protocol names it.
    pub fn id_for_agent(&self) -> (id: &str)
        ensures
            id@ == self.spec_id(),
    {
        self.id()
    }

    /// Whether the field may not be changed.
    pub fn is_locked(&self) -> (locked: bool)
        ensures
            locked == self.spec_locked(),
    {
        match self {
            ConfigField::Boolean { locked, .. } => *locked,
            ConfigField::String { locked, .. } => *locked,
            ConfigField::Integer { locked, .. } => *locked,
            ConfigField::Decimal { locked, .. } => *locked,
            ConfigField::SingleSelect { locked, .. } => *locked,
            ConfigField::MultiSelect { locked, .. } => *locked,
        }
    }

    /// Locks or unlocks the field; nothing else changes.
    pub fn set_locked(&mut self, value: bool)
        ensures
            final(self).spec_locked() == value,
            final(self).spec_id() == old(self).spec_id(),
            final(self).spec_section() == old(self).spec_section(),
            final(self).spec_key() == old(self).spec_key(),
            final(self).with_lock(old(self).spec_locked()) == *old(self),
            *final(self) == old(self).with_lock(value),
    {
        match self {
            ConfigField::Boolean { locked, .. } => *locked = value,
            ConfigField::String { locked, .. } => *locked = value,
            ConfigField::Integer { locked, .. } => *locked = value,
            ConfigField::Decimal { locked, .. } => *locked = value,
            ConfigField::SingleSelect { locked, .. } => *locked = value,
            ConfigField::MultiSelect { locked, .. } => *locked = value,
        }
    }

    /// The same field with its lock set to `value`.
    pub open spec fn with_lock(self, value: bool) -> ConfigField {
        match self {
            ConfigField::Boolean { id, section, key, label, description, locked, default, apply_mode, display } =>
                ConfigField::Boolean { id, section, key, label, description, locked: value, default, apply_mode, display },
            ConfigField::String { id, section, key, label, description, locked, default, max_length, apply_mode } =>
                ConfigField::String { id, section, key, label, description, locked: value, default, max_length, apply_mode },
            ConfigField::Integer { id, section, key, label, description, locked, default, min, max, step, apply_mode } =>
                ConfigField::Integer { id, section, key, label, description, locked: value, default, min, max, step, apply_mode },
            ConfigField::Decimal { id, section, key, label, description, locked, default, default_text, min, max, step, apply_mode } =>
                ConfigField::Decimal { id, section, key, label, description, locked: value, default, default_text, min, max, step, apply_mode },
            ConfigField::SingleSelect { id, section, key, label, description, locked, default, options, apply_mode, display } =>
                ConfigField::SingleSelect { id, section, key, label, description, locked: value, default, options, apply_mode, display },
            ConfigField::MultiSelect { id, section, key, label, description, locked, default, options, apply_mode } =>
                ConfigField::MultiSelect { id, section, key, label, description, locked: value, default, options, apply_mode },
        }
    }

    /// The configuration file section and key the field is stored under.
    pub fn section_key(&self) -> (names: (&str, &str))
        ensures
            names.0@ == self.spec_section(),
            names.1@ == self.spec_key(),
    {
        match self {
            ConfigField::Boolean { section, key, .. } => (section.as_str(), key.as_str()),
            ConfigField::String { section, key, .. } => (section.as_str(), key.as_str()),
            ConfigField::Integer { section, key, .. } => (section.as_str(), key.as_str()),
            ConfigField::Decimal { section, key, .. } => (section.as_str(), key.as_str()),
            ConfigField::SingleSelect { section, key, .. } => (section.as_str(), key.as_str()),
            ConfigField::MultiSelect { section, key, .. } => (section.as_str(), key.as_str()),
        }
    }
}


// ---------------------------------------------------------------------------
// Values of settings.
// ---------------------------------------------------------------------------
/// A double-precision number: its bit pattern and its text as `f64`'s
/// `Display` writes it.
#[derive(Clone, Debug)]
pub struct Double {
    pub bits: u64,
    pub text: String,
}

/// The JSON value of a setting.
#[derive(Debug)]
pub enum ConfigValue {
    Null,
    Bool(bool),
    /// A number that reads as a 64-bit integer, with the double it reads as
    /// where it came in as JSON; a number made here from an integer has none.
    Integer(i64, Option<Double>),
    /// Any other number, as the double it reads as.
    Number(Double),
    Text(String),
    Array(Vec<ConfigValue>),
    Object(Vec<(String, ConfigValue)>),
}

/// The mathematical model of a setting's value.
pub enum ValueModel {
    Null,
    Bool(bool),
    Integer(i64, Option<(u64, Seq<char>)>),
    Number(u64, Seq<char>),
    Text(Seq<char>),
    Array(Seq<ValueModel>),
    Object(Seq<(Seq<char>, ValueModel)>),
}

impl Double {
    pub open spec fn model(&self) -> (u64, Seq<char>) {
        (self.bits, self.text@)
    }
}

impl ConfigValue {
    pub open spec fn model(&self) -> ValueModel
        decreases self,
    {
        match self {
            ConfigValue::Null => ValueModel::Null,
            ConfigValue::Bool(b) => ValueModel::Bool(*b),
            ConfigValue::Integer(v, d) => ValueModel::Integer(
                *v,
                match d {
                    Some(d) => Some(d.model()),
                    None => None,
                },
            ),
            ConfigValue::Number(d) => ValueModel::Number(d.bits, d.text@),
            ConfigValue::Text(t) => ValueModel::Text(t@),
            ConfigValue::Array(items) => ValueModel::Array(
                Seq::new(
                    items@.len(),
                    |i: int|
                        if 0 <= i < items@.len() {
                            items@[i].model()
                        } else {
                            ValueModel::Null
                        },
                ),
            ),
            ConfigValue::Object(entries) => ValueModel::Object(
                Seq::new(
                    entries@.len(),
                    |i: int|
                        if 0 <= i < entries@.len() {
                            (entries@[i].0@, entries@[i].1.model())
                        } else {
                            (Seq::empty(), ValueModel::Null)
                        },
                ),
            ),
        }
    }
}

/// A copy of a number.
pub fn copy_double(d: &Double) -> (copy: Double)
    ensures
        copy.model() == d.model(),
{
    Double { bits: d.bits, text: d.text.clone() }
}

/// A copy of a setting's value.
pub fn copy_value(value: &ConfigValue) -> (copy: ConfigValue)
    ensures
        copy.model() == value.model(),
    decreases value,
{
    match value {
        ConfigValue::Null => ConfigValue::Null,
        ConfigValue::Bool(b) => ConfigValue::Bool(*b),
        ConfigValue::Integer(v, d) => ConfigValue::Integer(
            *v,
            match d {
                Some(d) => Some(copy_double(d)),
                None => None,
            },
        ),
        ConfigValue::Number(d) => ConfigValue::Number(copy_double(d)),
        ConfigValue::Text(t) => ConfigValue::Text(t.clone()),
        ConfigValue::Array(items) => {
            let mut copies: Vec<ConfigValue> = Vec::new();
            let mut i: usize = 0;
            while i < items.len()
                invariant
                    i <= items@.len(),
                    copies@.len() == i,
                    forall|j: int| 0 <= j < i ==> (#[trigger] copies@[j]).model() == items@[j].model(),
                    *value == ConfigValue::Array(*items),
                decreases items@.len() - i,
            {
                proof {
                    vstd::std_specs::vec::axiom_vec_index_decreases(*items, i as int);
                    assert(decreases_to!(*value => (*value)->Array_0));
                    assert(decreases_to!(*items => items[i as int]));
                }
                let c = copy_value(&items[i]);
                copies.push(c);
                i = i + 1;
            }
            let copy = ConfigValue::Array(copies);
            proof {
                assert(copy.model()->Array_0 =~= value.model()->Array_0);
            }
            copy
        },
        ConfigValue::Object(entries) => {
            let mut copies: Vec<(String, ConfigValue)> = Vec::new();
            let mut i: usize = 0;
            while i < entries.len()
                invariant
                    i <= entries@.len(),
                    copies@.len() == i,
                    forall|j: int| 0 <= j < i ==> (#[trigger] copies@[j]).0@ == entries@[j].0@ && copies@[j].1.model() == entries@[j].1.model(),
                    *value == ConfigValue::Object(*entries),
                decreases entries@.len() - i,
            {
                proof {
                    vstd::std_specs::vec::axiom_vec_index_decreases(*entries, i as int);
                    assert(decreases_to!(*value => (*value)->Object_0));
                    assert(decreases_to!(*entries => entries[i as int]));
                    assert(decreases_to!(entries[i as int] => entries[i as int].1));
                }
                let c = copy_value(&entries[i].1);
                copies.push((entries[i].0.clone(), c));
                i = i + 1;
            }
            let copy = ConfigValue::Object(copies);
            proof {
                assert(copy.model()->Object_0 =~= value.model()->Object_0);
            }
            copy
        },
    }
}

/// The models of a list of values.
pub open spec fn item_models(items: Seq<ConfigValue>) -> Seq<ValueModel> {
    Seq::new(items.len(), |i: int| items[i].model())
}

pub proof fn lemma_array_model(items: Vec<ConfigValue>)
    ensures
        ConfigValue::Array(items).model() == ValueModel::Array(item_models(items@)),
{
    assert(item_models(items@) =~= match ConfigValue::Array(items).model() {
        ValueModel::Array(m) => m,
        _ => Seq::empty(),
    });
}

/// `Value::as_i64`.
pub open spec fn value_integer(v: ValueModel) -> Option<i64> {
    match v {
        ValueModel::Integer(i, _) => Some(i),
        _ => None,
    }
}

/// `Value::as_f64`, by bits and display text; a number made here from an
/// integer has no double.
pub open spec fn value_double(v: ValueModel) -> Option<(u64, Seq<char>)> {
    match v {
        ValueModel::Integer(_, d) => d,
        ValueModel::Number(bits, text) => Some((bits, text)),
        _ => None,
    }
}

/// The values of a field's choices.
pub open spec fn option_values(options: Seq<SelectOption>) -> Seq<Seq<char>> {
    options.map_values(|o: SelectOption| o.value@)
}

/// A choice value: 1 to 128 bytes, no NUL, CR or LF.
pub open spec fn valid_option_value(v: Seq<char>) -> bool {
    &&& v.len() > 0
    &&& encode_utf8(v).len() <= 128
    &&& !v.contains('\0')
    &&& !v.contains('\r')
    &&& !v.contains('\n')
}

/// A choice with a valid value and label.
pub open spec fn valid_option(option: SelectOption) -> bool {
    valid_option_value(option.value@) && spec_valid_localized_text(option.label)
}

/// No text occurs twice.
pub open spec fn distinct(values: Seq<Seq<char>>) -> bool {
    forall|i: int, j: int| 0 <= i < j < values.len() ==> values[i] != values[j]
}

/// The choices of a selection: 1 to 256 of them, each with a valid value
/// and label, no value twice.
pub open spec fn spec_valid_options(options: Seq<SelectOption>) -> bool {
    &&& 0 < options.len() <= 256
    &&& forall|i: int| 0 <= i < options.len() ==> valid_option(#[trigger] options[i])
    &&& distinct(option_values(options))
}

/// The texts of a list of strings.
pub open spec fn string_texts(values: Seq<String>) -> Seq<Seq<char>> {
    values.map_values(|v: String| v@)
}

impl ConfigField {
    pub open spec fn spec_label(self) -> LocalizedText {
        match self {
            ConfigField::Boolean { label, .. } => label,
            ConfigField::String { label, .. } => label,
            ConfigField::Integer { label, .. } => label,
            ConfigField::Decimal { label, .. } => label,
            ConfigField::SingleSelect { label, .. } => label,
            ConfigField::MultiSelect { label, .. } => label,
        }
    }

    pub open spec fn spec_description(self) -> Option<LocalizedText> {
        match self {
            ConfigField::Boolean { description, .. } => description,
            ConfigField::String { description, .. } => description,
            ConfigField::Integer { description, .. } => description,
            ConfigField::Decimal { description, .. } => description,
            ConfigField::SingleSelect { description, .. } => description,
            ConfigField::MultiSelect { description, .. } => description,
        }
    }

    /// The field's texts are valid and its default lies within its own
    /// rules.
    pub open spec fn spec_metadata_valid(self) -> bool {
        &&& spec_valid_localized_text(self.spec_label())
        &&& (self.spec_description() matches Some(d) ==> spec_valid_localized_text(d))
        &&& match self {
            ConfigField::Boolean { .. } => true,
            ConfigField::String { default, max_length, .. } => max_length > 0 && encode_utf8(
                default@,
            ).len() <= max_length,
            ConfigField::Integer { default, min, max, step, .. } => min <= max && step > 0
                && min <= default <= max && default - min <= i64::MAX && (default - min) % (
                step as int) == 0,
            ConfigField::Decimal { default, min, max, step, .. } => is_finite_double(default)
                && is_finite_double(min) && is_finite_double(max) && is_finite_double(step)
                && double_le(min, max) && double_lt(positive_zero(), step) && double_le(min, default)
                && double_le(default, max),
            ConfigField::SingleSelect { default, options, .. } => spec_valid_options(options@)
                && option_values(options@).contains(default@),
            ConfigField::MultiSelect { default, options, .. } => spec_valid_options(options@)
                && default@.len() <= options@.len() && distinct(string_texts(default@)) && forall|
                i: int,
            |
                0 <= i < default@.len() ==> option_values(options@).contains(
                    #[trigger] default@[i]@,
                ),
        }
    }

    /// The value a field holds when nothing else is known.
    pub open spec fn spec_default_value(self) -> ValueModel {
        match self {
            ConfigField::Boolean { default, .. } => ValueModel::Bool(default),
            ConfigField::String { default, .. } => ValueModel::Text(default@),
            ConfigField::SingleSelect { default, .. } => ValueModel::Text(default@),
            ConfigField::Integer { default, .. } => ValueModel::Integer(default, None),
            ConfigField::Decimal { default, default_text, .. } => if is_finite_double(default) {
                ValueModel::Number(default, default_text@)
            } else {
                ValueModel::Null
            },
            ConfigField::MultiSelect { default, .. } => ValueModel::Array(
                Seq::new(default@.len(), |i: int| ValueModel::Text(default@[i]@)),
            ),
        }
    }

    /// The text that a value is written to a configuration file as, or
    /// `None` where the value does not fit the field.
    pub open spec fn spec_serialized(self, value: ValueModel) -> Option<Seq<char>> {
        match self {
            ConfigField::Boolean { .. } => match value {
                ValueModel::Bool(b) => Some(
                    if b {
                        seq!['t', 'r', 'u', 'e']
                    } else {
                        seq!['f', 'a', 'l', 's', 'e']
                    },
                ),
                _ => None,
            },
            ConfigField::String { max_length, .. } => match value {
                ValueModel::Text(t) => if encode_utf8(t).len() > max_length || t.contains('\r')
                    || t.contains('\n') || t.contains('\0') {
                    None
                } else {
                    Some(t)
                },
                _ => None,
            },
            ConfigField::Integer { min, max, step, .. } => match value_integer(value) {
                Some(v) => if v < min || v > max || step <= 0 || (v - min) % (step as int) != 0 {
                    None
                } else {
                    Some(decimal_text(v as int))
                },
                None => None,
            },
            ConfigField::Decimal { min, max, step, .. } => match value_double(value) {
                Some((bits, text)) => if !is_finite_double(bits) || double_lt(bits, min)
                    || double_lt(max, bits) || !is_finite_double(step) || double_le(
                    step,
                    positive_zero(),
                ) {
                    None
                } else {
                    Some(text)
                },
                None => None,
            },
            ConfigField::SingleSelect { options, .. } => match value {
                ValueModel::Text(t) => if option_values(options@).contains(t) {
                    Some(t)
                } else {
                    None
                },
                _ => None,
            },
            ConfigField::MultiSelect { options, .. } => match value {
                ValueModel::Array(items) => match selected_values(items, option_values(options@)) {
                    Some(parts) => Some(comma_joined(parts)),
                    None => None,
                },
                _ => None,
            },
        }
    }

    /// The one integer computation of serialization that Rust's `-` would
    /// overflow on: an integer within a field's bounds lies so far above the
    /// minimum that the difference exceeds `i64::MAX`.
    pub open spec fn serializes_without_overflow(self, value: ValueModel) -> bool {
        match self {
            ConfigField::Integer { min, max, step, .. } => match value_integer(value) {
                Some(v) => (min <= v <= max && step > 0) ==> v - min <= i64::MAX,
                None => true,
            },
            _ => true,
        }
    }

    /// A field that an agent may describe: unlocked, with a valid
    /// identifier, section and key, valid metadata and a default that
    /// serializes.
    pub open spec fn spec_valid_for_agent(self) -> bool {
        &&& !self.spec_locked()
        &&& spec_valid_identifier(self.spec_id())
        &&& spec_valid_config_name(self.spec_section())
        &&& spec_valid_config_name(self.spec_key())
        &&& self.spec_metadata_valid()
        &&& self.spec_serialized(self.spec_default_value()) is Some
    }
}

/// The texts chosen in a multi-selection, in order, where every item is a
/// text among the choices and none repeats.
pub open spec fn selected_values(items: Seq<ValueModel>, choices: Seq<Seq<char>>) -> Option<Seq<Seq<char>>>
    decreases items.len(),
{
    if items.len() == 0 {
        Some(Seq::empty())
    } else {
        match selected_values(items.drop_last(), choices) {
            Some(parts) => match items.last() {
                ValueModel::Text(t) => if choices.contains(t) && !parts.contains(t) {
                    Some(parts.push(t))
                } else {
                    None
                },
                _ => None,
            },
            None => None,
        }
    }
}

/// Texts joined by commas.
pub open spec fn comma_joined(parts: Seq<Seq<char>>) -> Seq<char>
    decreases parts.len(),
{
    if parts.len() == 0 {
        Seq::empty()
    } else if parts.len() == 1 {
        parts[0]
    } else {
        comma_joined(parts.drop_last()) + seq![','] + parts.last()
    }
}


/// The texts of a list of values; a value that is not a text counts as the
/// empty text.
pub open spec fn item_texts(items: Seq<ValueModel>) -> Seq<Seq<char>> {
    items.map_values(
        |v: ValueModel|
            match v {
                ValueModel::Text(t) => t,
                _ => Seq::empty(),
            },
    )
}

/// Every item is a text among the choices, and no item comes twice.
pub open spec fn distinct_listed_texts(items: Seq<ValueModel>, choices: Seq<Seq<char>>) -> bool {
    &&& forall|i: int| 0 <= i < items.len() ==> (#[trigger] items[i] matches ValueModel::Text(t) && choices.contains(t))
    &&& forall|i: int, j: int| 0 <= i < j < items.len() ==> items[i] != items[j]
}

proof fn lemma_selected_values(items: Seq<ValueModel>, choices: Seq<Seq<char>>)
    ensures
        (selected_values(items, choices) is Some) <==> distinct_listed_texts(items, choices),
        selected_values(items, choices) matches Some(parts) ==> parts =~= item_texts(items),
    decreases items.len(),
{
    if items.len() > 0 {
        let prev = items.drop_last();
        lemma_selected_values(prev, choices);
        assert forall|i: int| 0 <= i < prev.len() implies prev[i] == items[i] by {}
        let last = items.len() - 1;
        match selected_values(prev, choices) {
            Some(parts) => {
                match items.last() {
                    ValueModel::Text(t) => {
                        if choices.contains(t) && !parts.contains(t) {
                            assert forall|i: int, j: int| 0 <= i < j < items.len() implies items[i] != items[j] by {
                                if j == last {
                                    assert(prev[i] == items[i]);
                                    assert(item_texts(prev)[i] == parts[i]);
                                    assert(items[i] == ValueModel::Text(parts[i]));
                                }
                            }
                            assert(distinct_listed_texts(items, choices));
                        } else if parts.contains(t) {
                            let k = choose|k: int| 0 <= k < parts.len() && parts[k] == t;
                            assert(item_texts(prev)[k] == t);
                            assert(items[k] == prev[k]);
                            assert(items[k] == items[last]);
                        } else {
                            assert(!(items[last] matches ValueModel::Text(u) && choices.contains(u)));
                        }
                    },
                    _ => {
                        assert(!(items[last] matches ValueModel::Text(u) && choices.contains(u)));
                    },
                }
            },
            None => {
                if distinct_listed_texts(items, choices) {
                    assert(distinct_listed_texts(prev, choices));
                }
            },
        }
    }
}

/// A multi-select setting takes a list of texts, each one of its choices,
/// none twice, and writes them joined by commas in the order given; any
/// other value it refuses.
pub proof fn multi_select_takes_distinct_choices(field: ConfigField, value: ValueModel)
    requires
        field is MultiSelect,
    ensures
        match field {
            ConfigField::MultiSelect { options, .. } => match value {
                ValueModel::Array(items) => {
                    &&& (field.spec_serialized(value) is Some) <==> distinct_listed_texts(
                        items,
                        option_values(options@),
                    )
                    &&& field.spec_serialized(value) matches Some(text) ==> text == comma_joined(item_texts(items))
                },
                _ => field.spec_serialized(value) is None,
            },
            _ => true,
        },
{
    match field {
        ConfigField::MultiSelect { options, .. } => match value {
            ValueModel::Array(items) => {
                lemma_selected_values(items, option_values(options@));
            },
            _ => {},
        },
        _ => {},
    }
}

/// Whether a choice value is valid.
fn valid_option_value_text(value: &str) -> (valid: bool)
    ensures
        valid == valid_option_value(value@),
{
    !value.is_empty() && value.as_bytes().len() <= 128 && !crate::rules::contains_char(value, '\0')
        && !crate::rules::contains_char(value, '\r') && !crate::rules::contains_char(value, '\n')
}

/// Whether a text is the value of one of the choices.
pub fn option_contains(options: &Vec<SelectOption>, value: &str) -> (found: bool)
    ensures
        found == option_values(options@).contains(value@),
{
    let mut i: usize = 0;
    while i < options.len()
        invariant
            i <= options@.len(),
            forall|j: int| 0 <= j < i ==> option_values(options@)[j] != value@,
        decreases options@.len() - i,
    {
        if crate::text::str_equal(options[i].value.as_str(), value) {
            proof {
                assert(option_values(options@)[i as int] == value@);
            }
            return true;
        }
        i = i + 1;
    }
    false
}

/// Whether no value occurs twice among the first `n` texts.
fn distinct_texts(values: &Vec<String>) -> (unique: bool)
    ensures
        unique == distinct(string_texts(values@)),
{
    let ghost t = string_texts(values@);
    let mut j: usize = 0;
    while j < values.len()
        invariant
            j <= values@.len(),
            t == string_texts(values@),
            forall|a: int, b: int| 0 <= a < b < j ==> t[a] != t[b],
        decreases values@.len() - j,
    {
        let mut i: usize = 0;
        while i < j
            invariant
                i <= j < values@.len(),
                t == string_texts(values@),
                forall|a: int, b: int| 0 <= a < b < j ==> t[a] != t[b],
                forall|a: int| 0 <= a < i ==> t[a] != t[j as int],
            decreases j - i,
        {
            if crate::text::str_equal(values[i].as_str(), values[j].as_str()) {
                proof {
                    assert(t[i as int] == values@[i as int]@);
                    assert(t[j as int] == values@[j as int]@);
                }
                return false;
            }
            proof {
                assert(t[i as int] == values@[i as int]@);
                assert(t[j as int] == values@[j as int]@);
            }
            i = i + 1;
        }
        j = j + 1;
    }
    true
}

/// Whether the choices of a selection are valid.
pub fn valid_options(options: &Vec<SelectOption>) -> (valid: bool)
    ensures
        valid == spec_valid_options(options@),
{
    if options.len() == 0 || options.len() > 256 {
        return false;
    }
    let mut i: usize = 0;
    while i < options.len()
        invariant
            i <= options@.len(),
            forall|j: int| 0 <= j < i ==> valid_option(#[trigger] options@[j]),
        decreases options@.len() - i,
    {
        if !valid_option_value_text(options[i].value.as_str()) || !valid_localized_text(
            &options[i].label,
        ) {
            return false;
        }
        proof {
            assert(valid_option(options@[i as int]));
        }
        i = i + 1;
    }
    let mut values: Vec<String> = Vec::new();
    let mut k: usize = 0;
    while k < options.len()
        invariant
            k <= options@.len(),
            values@.len() == k,
            forall|j: int| 0 <= j < k ==> (#[trigger] values@[j])@ == options@[j].value@,
        decreases options@.len() - k,
    {
        values.push(options[k].value.clone());
        k = k + 1;
    }
    proof {
        assert(string_texts(values@) =~= option_values(options@));
    }
    distinct_texts(&values)
}

/// Whether every text is the value of one of the choices.
fn all_among(values: &Vec<String>, options: &Vec<SelectOption>) -> (all: bool)
    ensures
        all == forall|i: int|
            0 <= i < values@.len() ==> option_values(options@).contains(#[trigger] values@[i]@),
{
    let mut i: usize = 0;
    while i < values.len()
        invariant
            i <= values@.len(),
            forall|j: int| 0 <= j < i ==> option_values(options@).contains(#[trigger] values@[j]@),
        decreases values@.len() - i,
    {
        if !option_contains(options, values[i].as_str()) {
            return false;
        }
        i = i + 1;
    }
    true
}

impl ConfigField {
    /// Whether the field's texts are valid and its default keeps its rules.
    pub fn metadata_is_valid(&self) -> (valid: bool)
        ensures
            valid == self.spec_metadata_valid(),
    {
        let (label, description) = match self {
            ConfigField::Boolean { label, description, .. } => (label, description),
            ConfigField::String { label, description, .. } => (label, description),
            ConfigField::Integer { label, description, .. } => (label, description),
            ConfigField::Decimal { label, description, .. } => (label, description),
            ConfigField::SingleSelect { label, description, .. } => (label, description),
            ConfigField::MultiSelect { label, description, .. } => (label, description),
        };
        if !valid_localized_text(label) {
            return false;
        }
        match description {
            Some(d) => {
                if !valid_localized_text(d) {
                    return false;
                }
            },
            None => {},
        }
        match self {
            ConfigField::Boolean { .. } => true,
            ConfigField::String { default, max_length, .. } => *max_length > 0
                && default.as_str().as_bytes().len() <= *max_length as usize,
            ConfigField::Integer { default, min, max, step, .. } => {
                if !(*min <= *max && *step > 0 && *default >= *min && *default <= *max) {
                    return false;
                }
                let offset = *default as i128 - *min as i128;
                if offset > i64::MAX as i128 {
                    return false;
                }
                (offset as i64) % *step == 0
            },
            ConfigField::Decimal { default, min, max, step, .. } => finite_double(*default)
                && finite_double(*min) && finite_double(*max) && finite_double(*step) && at_most(
                *min,
                *max,
            ) && less_than(0, *step) && at_most(*min, *default) && at_most(*default, *max),
            ConfigField::SingleSelect { default, options, .. } => valid_options(options)
                && option_contains(options, default.as_str()),
            ConfigField::MultiSelect { default, options, .. } => valid_options(options)
                && default.len() <= options.len() && distinct_texts(default) && all_among(
                default,
                options,
            ),
        }
    }

    /// The value a field holds when nothing else is known.
    pub fn default_value(&self) -> (value: ConfigValue)
        ensures
            value.model() == self.spec_default_value(),
    {
        match self {
            ConfigField::Boolean { default, .. } => ConfigValue::Bool(*default),
            ConfigField::String { default, .. } => ConfigValue::Text(default.clone()),
            ConfigField::SingleSelect { default, .. } => ConfigValue::Text(default.clone()),
            ConfigField::Integer { default, .. } => ConfigValue::Integer(*default, None),
            ConfigField::Decimal { default, default_text, .. } => {
                if finite_double(*default) {
                    ConfigValue::Number(Double { bits: *default, text: default_text.clone() })
                } else {
                    ConfigValue::Null
                }
            },
            ConfigField::MultiSelect { default, .. } => {
                let mut items: Vec<ConfigValue> = Vec::new();
                let mut i: usize = 0;
                while i < default.len()
                    invariant
                        i <= default@.len(),
                        items@.len() == i,
                        forall|j: int|
                            0 <= j < i ==> (#[trigger] items@[j]).model() == ValueModel::Text(
                                default@[j]@,
                            ),
                    decreases default@.len() - i,
                {
                    items.push(ConfigValue::Text(default[i].clone()));
                    i = i + 1;
                }
                proof {
                    lemma_array_model(items);
                    assert(item_models(items@) =~= Seq::new(
                        default@.len(),
                        |i: int| ValueModel::Text(default@[i]@),
                    ));
                }
                ConfigValue::Array(items)
            },
        }
    }
}


fn invalid_value() -> (e: ErrorResponse)
    ensures
        e.code@ == "mod_config_invalid"@,
{
    mod_error("mod_config_invalid", "a setting value was invalid")
}

/// Whether a list of texts holds `value`.
fn holds_text(values: &Vec<String>, value: &str) -> (found: bool)
    ensures
        found == string_texts(values@).contains(value@),
{
    let mut i: usize = 0;
    while i < values.len()
        invariant
            i <= values@.len(),
            forall|j: int| 0 <= j < i ==> values@[j]@ != value@,
        decreases values@.len() - i,
    {
        if crate::text::str_equal(values[i].as_str(), value) {
            proof {
                assert(string_texts(values@)[i as int] == value@);
            }
            return true;
        }
        i = i + 1;
    }
    proof {
        if string_texts(values@).contains(value@) {
            let j = choose|j: int| 0 <= j < values@.len() && string_texts(values@)[j] == value@;
            assert(values@[j]@ == value@);
        }
    }
    false
}

/// Joins texts with commas.
fn join_with_commas(parts: &Vec<String>) -> (joined: String)
    ensures
        joined@ == comma_joined(string_texts(parts@)),
{
    let mut joined = String::new();
    let mut i: usize = 0;
    let comma = ",";
    proof {
        reveal_strlit(",");
    }
    while i < parts.len()
        invariant
            i <= parts@.len(),
            comma@ == seq![','],
            joined@ == comma_joined(string_texts(parts@).take(i as int)),
        decreases parts@.len() - i,
    {
        proof {
            let t = string_texts(parts@);
            assert(t.take(i + 1).drop_last() =~= t.take(i as int));
            assert(t.take(i + 1).last() == parts@[i as int]@);
            if i == 0 {
                assert(comma_joined(t.take(1)) == t.take(1)[0]);
                assert(joined@ =~= Seq::<char>::empty());
            }
        }
        if i > 0 {
            joined.append(comma);
        }
        joined.append(parts[i].as_str());
        proof {
            let t = string_texts(parts@);
            if i == 0 {
                assert(joined@ =~= comma_joined(t.take(1)));
            } else {
                assert(joined@ =~= comma_joined(t.take(i + 1)));
            }
        }
        i = i + 1;
    }
    proof {
        assert(string_texts(parts@).take(i as int) =~= string_texts(parts@));
    }
    joined
}

/// The texts chosen in a multi-selection, or `None`.
fn collect_selected(items: &Vec<ConfigValue>, options: &Vec<SelectOption>) -> (parts: Option<
    Vec<String>,
>)
    ensures
        match selected_values(item_models(items@), option_values(options@)) {
            Some(texts) => parts matches Some(p) && string_texts(p@) == texts,
            None => parts is None,
        },
{
    let ghost models = item_models(items@);
    let mut parts: Vec<String> = Vec::new();
    let mut i: usize = 0;
    while i < items.len()
        invariant
            i <= items@.len(),
            models == item_models(items@),
            selected_values(models.take(i as int), option_values(options@)) == Some(
                string_texts(parts@),
            ),
        decreases items@.len() - i,
    {
        proof {
            assert(models.take(i + 1).drop_last() =~= models.take(i as int));
            assert(models.take(i + 1).last() == items@[i as int].model());
        }
        match &items[i] {
            ConfigValue::Text(t) => {
                if !option_contains(options, t.as_str()) || holds_text(&parts, t.as_str()) {
                    proof {
                        lemma_selected_prefix(models, option_values(options@), i + 1);
                    }
                    return None;
                }
                let ghost before = parts@;
                parts.push(t.clone());
                proof {
                    assert(string_texts(parts@) =~= string_texts(before).push(t@));
                }
            },
            _ => {
                proof {
                    lemma_selected_prefix(models, option_values(options@), i + 1);
                }
                return None;
            },
        }
        i = i + 1;
    }
    proof {
        assert(models.take(i as int) =~= models);
    }
    Some(parts)
}

/// A multi-selection that fails on a prefix fails as a whole.
proof fn lemma_selected_prefix(items: Seq<ValueModel>, choices: Seq<Seq<char>>, n: int)
    requires
        0 <= n <= items.len(),
        selected_values(items.take(n), choices) is None,
    ensures
        selected_values(items, choices) is None,
    decreases items.len() - n,
{
    if n < items.len() {
        assert(items.take(n + 1).drop_last() =~= items.take(n));
        lemma_selected_prefix(items, choices, n + 1);
    } else {
        assert(items.take(n) =~= items);
    }
}

impl ConfigField {
    /// The text a value is written to the configuration file as; values
    /// that do not fit the field are refused with `mod_config_invalid`.
    pub fn serialize_value(&self, value: &ConfigValue) -> (result: Result<String, ErrorResponse>)
        requires
            self.serializes_without_overflow(value.model()),
        ensures
            match self.spec_serialized(value.model()) {
                Some(text) => result matches Ok(s) && s@ == text,
                None => result matches Err(e) && e.code@ == "mod_config_invalid"@,
            },
    {
        match self {
            ConfigField::Boolean { .. } => match value {
                ConfigValue::Bool(b) => {
                    let text = if *b {
                        "true"
                    } else {
                        "false"
                    };
                    proof {
                        reveal_strlit("true");
                        reveal_strlit("false");
                    }
                    Ok(text.to_string())
                },
                _ => Err(invalid_value()),
            },
            ConfigField::String { max_length, .. } => match value {
                ConfigValue::Text(t) => {
                    if t.as_str().as_bytes().len() > *max_length as usize
                        || crate::rules::contains_char(t.as_str(), '\r')
                        || crate::rules::contains_char(t.as_str(), '\n')
                        || crate::rules::contains_char(t.as_str(), '\0') {
                        Err(invalid_value())
                    } else {
                        Ok(t.clone())
                    }
                },
                _ => Err(invalid_value()),
            },
            ConfigField::Integer { min, max, step, .. } => {
                let v = match value {
                    ConfigValue::Integer(v, _) => *v,
                    _ => {
                        return Err(invalid_value());
                    },
                };
                if v < *min || v > *max || *step <= 0 || (v - *min) % *step != 0 {
                    Err(invalid_value())
                } else {
                    Ok(integer_text(v))
                }
            },
            ConfigField::Decimal { min, max, step, .. } => {
                let d = match value {
                    ConfigValue::Integer(_, Some(d)) => d,
                    ConfigValue::Number(d) => d,
                    _ => {
                        return Err(invalid_value());
                    },
                };
                if !finite_double(d.bits) || less_than(d.bits, *min) || less_than(*max, d.bits)
                    || !finite_double(*step) || at_most(*step, 0) {
                    Err(invalid_value())
                } else {
                    Ok(d.text.clone())
                }
            },
            ConfigField::SingleSelect { options, .. } => match value {
                ConfigValue::Text(t) => {
                    if option_contains(options, t.as_str()) {
                        Ok(t.clone())
                    } else {
                        Err(invalid_value())
                    }
                },
                _ => Err(invalid_value()),
            },
            ConfigField::MultiSelect { options, .. } => match value {
                ConfigValue::Array(items) => {
                    proof {
                        lemma_array_model(*items);
                    }
                    match collect_selected(items, options) {
                        Some(parts) => Ok(join_with_commas(&parts)),
                        None => Err(invalid_value()),
                    }
                },
                _ => Err(invalid_value()),
            },
        }
    }

    /// Whether an agent may describe this field.
    pub fn valid_for_agent(&self) -> (valid: bool)
        ensures
            valid == self.spec_valid_for_agent(),
    {
        let (section, key) = self.section_key();
        if self.is_locked() || !valid_identifier(self.id()) || !valid_config_name(section)
            || !valid_config_name(key) || !self.metadata_is_valid() {
            return false;
        }
        let default = self.default_value();
        self.serialize_value(&default).is_ok()
    }
}


// ---------------------------------------------------------------------------
// Reading values from a configuration file.
// ---------------------------------------------------------------------------
/// An ASCII digit.
pub open spec fn is_digit(c: char) -> bool {
    '0' <= c <= '9'
}

/// Every character is an ASCII digit.
pub open spec fn all_digits(s: Seq<char>) -> bool {
    forall|i: int| 0 <= i < s.len() ==> is_digit(#[trigger] s[i])
}

/// The number that a string of digits writes.
pub open spec fn digits_number(s: Seq<char>) -> int
    decreases s.len(),
{
    if s.len() == 0 {
        0
    } else {
        digits_number(s.drop_last()) * 10 + (s.last() as int - 48)
    }
}

/// `i64::from_str`: an optional `+` or `-`, then at least one digit, with
/// the value in range.
pub open spec fn spec_parse_integer(s: Seq<char>) -> Option<i64> {
    let negative = s.len() > 0 && s[0] == '-';
    let signed = s.len() > 0 && (s[0] == '-' || s[0] == '+');
    let body = if signed {
        s.drop_first()
    } else {
        s
    };
    if body.len() == 0 || !all_digits(body) {
        None
    } else {
        let v = if negative {
            -digits_number(body)
        } else {
            digits_number(body)
        };
        if i64::MIN <= v <= i64::MAX {
            Some(v as i64)
        } else {
            None
        }
    }
}

proof fn lemma_digits_number_grows(s: Seq<char>, n: int)
    requires
        0 <= n <= s.len(),
        forall|i: int| 0 <= i < s.len() ==> is_digit(#[trigger] s[i]),
    ensures
        0 <= digits_number(s.take(n)) <= digits_number(s),
    decreases s.len() - n,
{
    if n < s.len() {
        lemma_digits_number_grows(s, n + 1);
        assert(s.take(n + 1).drop_last() =~= s.take(n));
        assert(is_digit(s.take(n + 1).last()));
    } else {
        assert(s.take(n) =~= s);
    }
    lemma_digits_number_nonnegative(s.take(n));
}

proof fn lemma_digits_number_nonnegative(s: Seq<char>)
    requires
        forall|i: int| 0 <= i < s.len() ==> is_digit(#[trigger] s[i]),
    ensures
        digits_number(s) >= 0,
    decreases s.len(),
{
    if s.len() > 0 {
        assert(is_digit(s.last()));
        lemma_digits_number_nonnegative(s.drop_last());
    }
}

/// Parses a decimal integer as `i64::from_str` does.
pub fn parse_integer(text: &str) -> (value: Option<i64>)
    ensures
        value == spec_parse_integer(text@),
{
    let chars = chars_of(text);
    let ghost s = text@;
    let negative = chars.len() > 0 && chars[0] == '-';
    let signed = chars.len() > 0 && (chars[0] == '-' || chars[0] == '+');
    let start: usize = if signed {
        1
    } else {
        0
    };
    let ghost body = if signed {
        s.drop_first()
    } else {
        s
    };
    proof {
        assert(body =~= s.subrange(start as int, s.len() as int));
    }
    if start == chars.len() {
        return None;
    }
    let limit: u128 = 0x8000_0000_0000_0000u128;
    let mut acc: u128 = 0;
    let mut i: usize = start;
    while i < chars.len()
        invariant
            chars@ == s,
            s == text@,
            start <= i <= s.len(),
            body == s.subrange(start as int, s.len() as int),
            signed == (s.len() > 0 && (s[0] == '-' || s[0] == '+')),
            body == if signed {
                s.drop_first()
            } else {
                s
            },
            limit == 0x8000_0000_0000_0000u128,
            forall|k: int| start <= k < i ==> is_digit(#[trigger] s[k]),
            acc <= 10 * limit + 9,
            digits_number(body.take(i - start)) <= limit ==> acc == digits_number(
                body.take(i - start),
            ),
            digits_number(body.take(i - start)) > limit ==> acc > limit,
            digits_number(body.take(i - start)) >= 0,
        decreases s.len() - i,
    {
        let c = chars[i];
        if !('0' <= c && c <= '9') {
            proof {
                assert(body[i - start] == c);
                assert(!is_digit(body[i - start]));
                assert(!all_digits(body));
            }
            return None;
        }
        let d = (c as u8 - 48) as u128;
        proof {
            let p = body.take(i - start);
            assert(body.take(i - start + 1).drop_last() =~= p);
            assert(body.take(i - start + 1).last() == c);
            assert(digits_number(body.take(i - start + 1)) == digits_number(p) * 10 + d);
        }
        if acc <= limit {
            acc = acc * 10 + d;
        }
        i = i + 1;
    }
    proof {
        assert(body.take(i - start) =~= body);
        assert forall|k: int| 0 <= k < body.len() implies is_digit(#[trigger] body[k]) by {
            assert(body[k] == s[k + start]);
        }
    }
    if negative {
        if acc <= limit {
            Some((0 - acc as i128) as i64)
        } else {
            None
        }
    } else {
        if acc < limit {
            Some(acc as i64)
        } else {
            None
        }
    }
}

/// The trimmed, non-empty pieces of a text cut at each comma from index
/// `i` on.
pub open spec fn selection_items(s: Seq<char>, i: int) -> Seq<Seq<char>>
    decreases s.len() - i,
{
    if i < 0 || i > s.len() {
        Seq::empty()
    } else {
        proof {
            lemma_index_of_char(s, ',', i);
        }
        let j = index_of_char(s, ',', i);
        let end = if j < 0 {
            s.len() as int
        } else {
            j
        };
        let piece = trim(s.subrange(i, end));
        let rest = if j < 0 {
            Seq::empty()
        } else {
            selection_items(s, j + 1)
        };
        if piece.len() > 0 {
            seq![piece] + rest
        } else {
            rest
        }
    }
}

/// Texts as values.
pub open spec fn text_models(parts: Seq<Seq<char>>) -> Seq<ValueModel> {
    Seq::new(parts.len(), |i: int| ValueModel::Text(parts[i]))
}

/// The value a field reads from the raw text of its key: `true` or `false`
/// for a switch, the trimmed text for a string or single selection, an
/// integer as `i64::from_str` reads it, the trimmed non-empty pieces
/// between commas for a multi-selection, and for a decimal `decimal`, the
/// trimmed text as a double, which `f64::from_str` reads.
pub open spec fn spec_parse_field_value(field: ConfigField, raw: Seq<char>, decimal: Option<ValueModel>) -> Option<ValueModel> {
    let t = trim(raw);
    match field {
        ConfigField::Boolean { .. } => if t == seq!['t', 'r', 'u', 'e'] {
            Some(ValueModel::Bool(true))
        } else if t == seq!['f', 'a', 'l', 's', 'e'] {
            Some(ValueModel::Bool(false))
        } else {
            None
        },
        ConfigField::String { .. } => Some(ValueModel::Text(t)),
        ConfigField::SingleSelect { .. } => Some(ValueModel::Text(t)),
        ConfigField::Integer { .. } => match spec_parse_integer(t) {
            Some(v) => Some(ValueModel::Integer(v, None)),
            None => None,
        },
        ConfigField::Decimal { .. } => decimal,
        ConfigField::MultiSelect { .. } => Some(
            ValueModel::Array(text_models(selection_items(raw, 0))),
        ),
    }
}

/// Cuts a text at commas into trimmed, non-empty pieces.
fn split_selection(raw: &str) -> (items: Vec<ConfigValue>)
    ensures
        item_models(items@) == text_models(selection_items(raw@, 0)),
{
    let chars = chars_of(raw);
    let ghost s = raw@;
    let mut items: Vec<ConfigValue> = Vec::new();
    let mut i: usize = 0;
    loop
        invariant
            chars@ == s,
            s == raw@,
            i <= s.len(),
            item_models(items@) + text_models(selection_items(s, i as int)) == text_models(
                selection_items(s, 0),
            ),
        decreases s.len() - i,
    {
        let mut j = i;
        while j < chars.len() && chars[j] != ','
            invariant
                chars@ == s,
                i <= j <= s.len(),
                index_of_char(s, ',', i as int) == index_of_char(s, ',', j as int),
            decreases s.len() - j,
        {
            j = j + 1;
        }
        proof {
            lemma_index_of_char(s, ',', i as int);
        }
        let (a, b) = trim_bounds(&chars, i, j);
        let ghost before = items@;
        let ghost rest: Seq<Seq<char>> = if j < s.len() {
            selection_items(s, j + 1)
        } else {
            Seq::empty()
        };
        if a < b {
            items.push(ConfigValue::Text(string_of(&chars, a, b)));
            proof {
                assert(item_models(items@) =~= item_models(before).push(
                    ValueModel::Text(chars@.subrange(a as int, b as int)),
                ));
                let piece = chars@.subrange(a as int, b as int);
                assert(selection_items(s, i as int) == seq![piece] + rest);
                assert(text_models(seq![piece] + rest) =~= seq![ValueModel::Text(piece)]
                    + text_models(rest));
                assert(item_models(items@) + text_models(rest) =~= item_models(before)
                    + text_models(seq![piece] + rest));
            }
        } else {
            proof {
                assert(selection_items(s, i as int) == rest);
            }
        }
        assert(item_models(items@) + text_models(rest) == text_models(selection_items(s, 0)));
        if j == chars.len() {
            proof {
                assert(text_models(rest) =~= Seq::<ValueModel>::empty());
                assert(item_models(items@) + text_models(rest) =~= item_models(items@));
            }
            return items;
        }
        i = j + 1;
    }
}

/// Reads a field's value from the raw text of its key; `decimal` is the
/// trimmed text read as a double, which a decimal field takes as it is.
pub fn parse_field_value(field: &ConfigField, raw: &str, decimal: Option<ConfigValue>) -> (value:
    Option<ConfigValue>)
    ensures
        match value {
            Some(v) => spec_parse_field_value(*field, raw@, match decimal {
                Some(d) => Some(d.model()),
                None => None,
            }) == Some(v.model()),
            None => spec_parse_field_value(*field, raw@, match decimal {
                Some(d) => Some(d.model()),
                None => None,
            }) is None,
        },
{
    let chars = chars_of(raw);
    let (a, b) = trim_bounds(&chars, 0, chars.len());
    proof {
        assert(chars@.subrange(0, chars@.len() as int) =~= raw@);
    }
    let t = string_of(&chars, a, b);
    match field {
        ConfigField::Boolean { .. } => {
            let yes = "true";
            let no = "false";
            proof {
                reveal_strlit("true");
                reveal_strlit("false");
                assert(yes@ =~= seq!['t', 'r', 'u', 'e']);
                assert(no@ =~= seq!['f', 'a', 'l', 's', 'e']);
            }
            if crate::text::str_equal(t.as_str(), yes) {
                Some(ConfigValue::Bool(true))
            } else if crate::text::str_equal(t.as_str(), no) {
                Some(ConfigValue::Bool(false))
            } else {
                None
            }
        },
        ConfigField::String { .. } => Some(ConfigValue::Text(t)),
        ConfigField::SingleSelect { .. } => Some(ConfigValue::Text(t)),
        ConfigField::Integer { .. } => match parse_integer(t.as_str()) {
            Some(v) => Some(ConfigValue::Integer(v, None)),
            None => None,
        },
        ConfigField::Decimal { .. } => decimal,
        ConfigField::MultiSelect { .. } => {
            let items = split_selection(raw);
            proof {
                lemma_array_model(items);
            }
            Some(ConfigValue::Array(items))
        },
    }
}

/// The pieces of `s[i..]` between its commas, in order, as they stand.
pub open spec fn raw_pieces(s: Seq<char>, i: int) -> Seq<Seq<char>>
    decreases s.len() - i,
{
    if i < 0 || i > s.len() {
        Seq::empty()
    } else {
        proof {
            lemma_index_of_char(s, ',', i);
        }
        let j = index_of_char(s, ',', i);
        if j < 0 {
            seq![s.subrange(i, s.len() as int)]
        } else {
            seq![s.subrange(i, j)] + raw_pieces(s, j + 1)
        }
    }
}

/// Pieces trimmed, those left empty dropped.
pub open spec fn kept_pieces(pieces: Seq<Seq<char>>) -> Seq<Seq<char>>
    decreases pieces.len(),
{
    if pieces.len() == 0 {
        Seq::empty()
    } else {
        let rest = kept_pieces(pieces.drop_first());
        if trim(pieces[0]).len() > 0 {
            seq![trim(pieces[0])] + rest
        } else {
            rest
        }
    }
}

proof fn lemma_comma_joined_front(a: Seq<char>, rest: Seq<Seq<char>>)
    requires
        rest.len() > 0,
    ensures
        comma_joined(seq![a] + rest) == a + seq![','] + comma_joined(rest),
    decreases rest.len(),
{
    let all = seq![a] + rest;
    if rest.len() == 1 {
        assert(all.drop_last() =~= seq![a]);
        assert(all.last() == rest[0]);
        assert(comma_joined(seq![a]) == a);
        assert(comma_joined(rest) == rest[0]);
        assert(comma_joined(all) == comma_joined(all.drop_last()) + seq![','] + all.last());
        assert(comma_joined(all) =~= a + seq![','] + comma_joined(rest));
    } else {
        lemma_comma_joined_front(a, rest.drop_last());
        assert(all.drop_last() =~= seq![a] + rest.drop_last());
        assert(all.last() == rest.last());
        assert(comma_joined(all) == comma_joined(all.drop_last()) + seq![','] + all.last());
        assert(comma_joined(rest) == comma_joined(rest.drop_last()) + seq![','] + rest.last());
        assert(comma_joined(all) =~= a + seq![','] + comma_joined(rest));
    }
}

proof fn lemma_raw_pieces(s: Seq<char>, i: int)
    requires
        0 <= i <= s.len(),
    ensures
        raw_pieces(s, i).len() > 0,
        comma_joined(raw_pieces(s, i)) == s.subrange(i, s.len() as int),
        forall|k: int| 0 <= k < raw_pieces(s, i).len() ==> !(#[trigger] raw_pieces(s, i)[k]).contains(','),
        selection_items(s, i) == kept_pieces(raw_pieces(s, i)),
    decreases s.len() - i,
{
    lemma_index_of_char(s, ',', i);
    let j = index_of_char(s, ',', i);
    let end = if j < 0 {
        s.len() as int
    } else {
        j
    };
    let first = s.subrange(i, end);
    assert(!first.contains(',')) by {
        if first.contains(',') {
            let k = choose|k: int| 0 <= k < first.len() && first[k] == ',';
            assert(s[i + k] == ',');
        }
    }
    let pieces = raw_pieces(s, i);
    if j < 0 {
        assert(pieces == seq![first]);
        assert(pieces.drop_first() =~= Seq::<Seq<char>>::empty());
        assert(kept_pieces(pieces.drop_first()) =~= Seq::<Seq<char>>::empty());
    } else {
        lemma_raw_pieces(s, j + 1);
        let rest = raw_pieces(s, j + 1);
        assert(pieces == seq![first] + rest);
        lemma_comma_joined_front(first, rest);
        assert(s.subrange(i, s.len() as int) =~= first + seq![','] + s.subrange(j + 1, s.len() as int));
        assert(pieces.drop_first() =~= rest);
        assert forall|k: int| 0 <= k < pieces.len() implies !(#[trigger] pieces[k]).contains(',') by {
            if k > 0 {
                assert(pieces[k] == rest[k - 1]);
            }
        }
    }
}

proof fn lemma_trim_keeps_out(x: Seq<char>, c: char)
    requires
        !x.contains(c),
    ensures
        !trim(x).contains(c),
{
    lemma_trim_start_keeps_out(x, c);
    lemma_trim_end_keeps_out(crate::text::trim_start(x), c);
}

proof fn lemma_trim_start_keeps_out(x: Seq<char>, c: char)
    requires
        !x.contains(c),
    ensures
        !crate::text::trim_start(x).contains(c),
    decreases x.len(),
{
    if x.len() > 0 && crate::text::is_white_space(x[0]) {
        assert(!x.drop_first().contains(c)) by {
            if x.drop_first().contains(c) {
                let k = choose|k: int| 0 <= k < x.drop_first().len() && x.drop_first()[k] == c;
                assert(x[k + 1] == c);
            }
        }
        lemma_trim_start_keeps_out(x.drop_first(), c);
    }
}

proof fn lemma_trim_end_keeps_out(x: Seq<char>, c: char)
    requires
        !x.contains(c),
    ensures
        !crate::text::trim_end(x).contains(c),
    decreases x.len(),
{
    if x.len() > 0 && crate::text::is_white_space(x.last()) {
        assert(!x.drop_last().contains(c)) by {
            if x.drop_last().contains(c) {
                let k = choose|k: int| 0 <= k < x.drop_last().len() && x.drop_last()[k] == c;
                assert(x[k] == c);
            }
        }
        lemma_trim_end_keeps_out(x.drop_last(), c);
    }
}

proof fn lemma_kept_pieces(pieces: Seq<Seq<char>>)
    requires
        forall|k: int| 0 <= k < pieces.len() ==> !(#[trigger] pieces[k]).contains(','),
    ensures
        forall|k: int|
            0 <= k < kept_pieces(pieces).len() ==> {
                let t = #[trigger] kept_pieces(pieces)[k];
                &&& t.len() > 0
                &&& trim(t) == t
                &&& !t.contains(',')
            },
    decreases pieces.len(),
{
    if pieces.len() > 0 {
        let rest = pieces.drop_first();
        assert forall|k: int| 0 <= k < rest.len() implies !(#[trigger] rest[k]).contains(',') by {
            assert(rest[k] == pieces[k + 1]);
        }
        lemma_kept_pieces(rest);
        let t = trim(pieces[0]);
        crate::text::lemma_trim_idempotent(pieces[0]);
        assert(!pieces[0].contains(','));
        lemma_trim_keeps_out(pieces[0], ',');
        let kept = kept_pieces(pieces);
        if t.len() > 0 {
            assert forall|k: int| 0 <= k < kept.len() implies {
                let u = #[trigger] kept[k];
                &&& u.len() > 0
                &&& trim(u) == u
                &&& !u.contains(',')
            } by {
                if k > 0 {
                    assert(kept[k] == kept_pieces(rest)[k - 1]);
                }
            }
        }
    }
}

/// A multi-selection reads its raw text as the pieces between its commas,
/// each trimmed, the empty ones dropped: whatever the text, there are
/// pieces without a comma that, joined by commas, give the text back, and
/// the items are those pieces trimmed, in order, none of them empty. So no
/// item has white space at either end, and none holds a comma.
pub proof fn multi_selections_read_trimmed_pieces(
    field: &ConfigField,
    raw: &str,
    decimal: Option<ConfigValue>,
    value: Option<ConfigValue>,
)
    requires
        call_ensures(parse_field_value, (field, raw, decimal), value),
        *field is MultiSelect,
    ensures
        value matches Some(v) && v.model() matches ValueModel::Array(items) && {
            &&& exists|pieces: Seq<Seq<char>>|
                #![trigger comma_joined(pieces)]
                {
                    &&& pieces.len() > 0
                    &&& comma_joined(pieces) == raw@
                    &&& forall|k: int| 0 <= k < pieces.len() ==> !(#[trigger] pieces[k]).contains(',')
                    &&& items == text_models(kept_pieces(pieces))
                }
            &&& forall|k: int|
                0 <= k < items.len() ==> (#[trigger] items[k] matches ValueModel::Text(t) && t.len() > 0 && trim(t)
                    == t && !t.contains(','))
        },
{
    let s = raw@;
    lemma_raw_pieces(s, 0);
    assert(s.subrange(0, s.len() as int) =~= s);
    let pieces = raw_pieces(s, 0);
    lemma_kept_pieces(pieces);
    assert(comma_joined(pieces) == s);
    let items = text_models(kept_pieces(pieces));
    assert forall|k: int| 0 <= k < items.len() implies (#[trigger] items[k] matches ValueModel::Text(t) && t.len() > 0
        && trim(t) == t && !t.contains(',')) by {
        assert(items[k] == ValueModel::Text(kept_pieces(pieces)[k]));
    }
}

} // verus!
