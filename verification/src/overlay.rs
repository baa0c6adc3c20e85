//! What a connected agent reports laid over what the catalog knows: the
//! settings the agent describes join those of the catalog, a setting the
//! two describe differently is locked, and the values the agent reports
//! replace those of unlocked settings.
use vstd::prelude::*;

use crate::agent::AgentModSnapshot;
use crate::catalog::ModIntegration;
use crate::fields::{ConfigField, ConfigValue, LocalizedText, SelectOption, string_texts};
use crate::ieee::{at_most, finite_double, is_finite_double, order_key};
use crate::mods::{GameMod, GameModStatus};
use crate::text::{str_equal, text_option};

verus! {

// ---------------------------------------------------------------------------
// Two descriptions of one setting.
// ---------------------------------------------------------------------------
/// Two localized texts are the same.
pub open spec fn same_localized(a: LocalizedText, b: LocalizedText) -> bool {
    a.en@ == b.en@ && text_option(a.de) == text_option(b.de)
}

/// Two optional descriptions are the same.
pub open spec fn same_description(a: Option<LocalizedText>, b: Option<LocalizedText>) -> bool {
    match (a, b) {
        (None, None) => true,
        (Some(x), Some(y)) => same_localized(x, y),
        _ => false,
    }
}

/// Two lists of choices are the same, choice by choice.
pub open spec fn same_options(a: Seq<SelectOption>, b: Seq<SelectOption>) -> bool {
    a.len() == b.len() && forall|i: int|
        0 <= i < a.len() ==> (#[trigger] a[i]).value@ == b[i].value@ && same_localized(a[i].label, b[i].label)
}

/// Two numbers are equal as JSON holds them: numbers that are not finite
/// become `null`, and finite ones compare as IEEE-754 does, so that both
/// zeros are equal.
pub open spec fn same_number(a: u64, b: u64) -> bool {
    if is_finite_double(a) && is_finite_double(b) {
        order_key(a) == order_key(b)
    } else {
        !is_finite_double(a) && !is_finite_double(b)
    }
}

/// Two descriptions of a setting agree on everything but the lock: the
/// same kind, identifier, place, texts, default, limits, choices, and
/// behaviour, as their JSON forms do once both are unlocked.
pub open spec fn same_contract(a: ConfigField, b: ConfigField) -> bool {
    match (a, b) {
        (
            ConfigField::Boolean { id: i1, section: s1, key: k1, label: l1, description: d1, default: f1, apply_mode: m1, display: p1, .. },
            ConfigField::Boolean { id: i2, section: s2, key: k2, label: l2, description: d2, default: f2, apply_mode: m2, display: p2, .. },
        ) => i1@ == i2@ && s1@ == s2@ && k1@ == k2@ && same_localized(l1, l2) && same_description(d1, d2) && f1
            == f2 && m1 == m2 && p1 == p2,
        (
            ConfigField::String { id: i1, section: s1, key: k1, label: l1, description: d1, default: f1, max_length: x1, apply_mode: m1, .. },
            ConfigField::String { id: i2, section: s2, key: k2, label: l2, description: d2, default: f2, max_length: x2, apply_mode: m2, .. },
        ) => i1@ == i2@ && s1@ == s2@ && k1@ == k2@ && same_localized(l1, l2) && same_description(d1, d2) && f1@
            == f2@ && x1 == x2 && m1 == m2,
        (
            ConfigField::Integer { id: i1, section: s1, key: k1, label: l1, description: d1, default: f1, min: a1, max: b1, step: c1, apply_mode: m1, .. },
            ConfigField::Integer { id: i2, section: s2, key: k2, label: l2, description: d2, default: f2, min: a2, max: b2, step: c2, apply_mode: m2, .. },
        ) => i1@ == i2@ && s1@ == s2@ && k1@ == k2@ && same_localized(l1, l2) && same_description(d1, d2) && f1
            == f2 && a1 == a2 && b1 == b2 && c1 == c2 && m1 == m2,
        (
            ConfigField::Decimal { id: i1, section: s1, key: k1, label: l1, description: d1, default: f1, min: a1, max: b1, step: c1, apply_mode: m1, .. },
            ConfigField::Decimal { id: i2, section: s2, key: k2, label: l2, description: d2, default: f2, min: a2, max: b2, step: c2, apply_mode: m2, .. },
        ) => i1@ == i2@ && s1@ == s2@ && k1@ == k2@ && same_localized(l1, l2) && same_description(d1, d2)
            && same_number(f1, f2) && same_number(a1, a2) && same_number(b1, b2) && same_number(c1, c2) && m1 == m2,
        (
            ConfigField::SingleSelect { id: i1, section: s1, key: k1, label: l1, description: d1, default: f1, options: o1, apply_mode: m1, display: p1, .. },
            ConfigField::SingleSelect { id: i2, section: s2, key: k2, label: l2, description: d2, default: f2, options: o2, apply_mode: m2, display: p2, .. },
        ) => i1@ == i2@ && s1@ == s2@ && k1@ == k2@ && same_localized(l1, l2) && same_description(d1, d2) && f1@
            == f2@ && same_options(o1@, o2@) && m1 == m2 && p1 == p2,
        (
            ConfigField::MultiSelect { id: i1, section: s1, key: k1, label: l1, description: d1, default: f1, options: o1, apply_mode: m1, .. },
            ConfigField::MultiSelect { id: i2, section: s2, key: k2, label: l2, description: d2, default: f2, options: o2, apply_mode: m2, .. },
        ) => i1@ == i2@ && s1@ == s2@ && k1@ == k2@ && same_localized(l1, l2) && same_description(d1, d2)
            && string_texts(f1@) == string_texts(f2@) && same_options(o1@, o2@) && m1 == m2,
        _ => false,
    }
}

fn same_optional_text(a: &Option<String>, b: &Option<String>) -> (same: bool)
    ensures
        same == (text_option(*a) == text_option(*b)),
{
    match (a, b) {
        (None, None) => true,
        (Some(x), Some(y)) => str_equal(x.as_str(), y.as_str()),
        _ => false,
    }
}

fn localized_equal(a: &LocalizedText, b: &LocalizedText) -> (same: bool)
    ensures
        same == same_localized(*a, *b),
{
    str_equal(a.en.as_str(), b.en.as_str()) && same_optional_text(&a.de, &b.de)
}

fn description_equal(a: &Option<LocalizedText>, b: &Option<LocalizedText>) -> (same: bool)
    ensures
        same == same_description(*a, *b),
{
    match (a, b) {
        (None, None) => true,
        (Some(x), Some(y)) => localized_equal(x, y),
        _ => false,
    }
}

fn options_equal(a: &Vec<SelectOption>, b: &Vec<SelectOption>) -> (same: bool)
    ensures
        same == same_options(a@, b@),
{
    if a.len() != b.len() {
        return false;
    }
    let mut i: usize = 0;
    while i < a.len()
        invariant
            a@.len() == b@.len(),
            i <= a@.len(),
            forall|k: int| 0 <= k < i ==> (#[trigger] a@[k]).value@ == b@[k].value@ && same_localized(a@[k].label, b@[k].label),
        decreases a@.len() - i,
    {
        if !str_equal(a[i].value.as_str(), b[i].value.as_str()) || !localized_equal(&a[i].label, &b[i].label) {
            return false;
        }
        i = i + 1;
    }
    true
}

fn texts_equal(a: &Vec<String>, b: &Vec<String>) -> (same: bool)
    ensures
        same == (string_texts(a@) == string_texts(b@)),
{
    if a.len() != b.len() {
        proof {
            assert(string_texts(a@).len() != string_texts(b@).len());
        }
        return false;
    }
    let mut i: usize = 0;
    while i < a.len()
        invariant
            a@.len() == b@.len(),
            i <= a@.len(),
            forall|k: int| 0 <= k < i ==> (#[trigger] a@[k])@ == b@[k]@,
        decreases a@.len() - i,
    {
        if !str_equal(a[i].as_str(), b[i].as_str()) {
            proof {
                assert(string_texts(a@)[i as int] != string_texts(b@)[i as int]);
            }
            return false;
        }
        i = i + 1;
    }
    proof {
        assert(string_texts(a@) =~= string_texts(b@));
    }
    true
}

fn number_equal(a: u64, b: u64) -> (same: bool)
    ensures
        same == same_number(a, b),
{
    let fa = finite_double(a);
    let fb = finite_double(b);
    if fa && fb {
        proof {
            assert(!crate::ieee::is_nan_double(a)) by {
                assert(crate::ieee::exponent_field(a) != 0x7ffu64);
            }
            assert(!crate::ieee::is_nan_double(b)) by {
                assert(crate::ieee::exponent_field(b) != 0x7ffu64);
            }
        }
        at_most(a, b) && at_most(b, a)
    } else {
        !fa && !fb
    }
}

/// Whether two descriptions of a setting agree on everything but the lock.
pub fn same_field_contract(left: &ConfigField, right: &ConfigField) -> (same: bool)
    ensures
        same == same_contract(*left, *right),
{
    match (left, right) {
        (
            ConfigField::Boolean { id: i1, section: s1, key: k1, label: l1, description: d1, default: f1, apply_mode: m1, display: p1, .. },
            ConfigField::Boolean { id: i2, section: s2, key: k2, label: l2, description: d2, default: f2, apply_mode: m2, display: p2, .. },
        ) => str_equal(i1.as_str(), i2.as_str()) && str_equal(s1.as_str(), s2.as_str()) && str_equal(
            k1.as_str(),
            k2.as_str(),
        ) && localized_equal(l1, l2) && description_equal(d1, d2) && *f1 == *f2 && *m1 == *m2 && *p1 == *p2,
        (
            ConfigField::String { id: i1, section: s1, key: k1, label: l1, description: d1, default: f1, max_length: x1, apply_mode: m1, .. },
            ConfigField::String { id: i2, section: s2, key: k2, label: l2, description: d2, default: f2, max_length: x2, apply_mode: m2, .. },
        ) => str_equal(i1.as_str(), i2.as_str()) && str_equal(s1.as_str(), s2.as_str()) && str_equal(
            k1.as_str(),
            k2.as_str(),
        ) && localized_equal(l1, l2) && description_equal(d1, d2) && str_equal(f1.as_str(), f2.as_str()) && *x1
            == *x2 && *m1 == *m2,
        (
            ConfigField::Integer { id: i1, section: s1, key: k1, label: l1, description: d1, default: f1, min: a1, max: b1, step: c1, apply_mode: m1, .. },
            ConfigField::Integer { id: i2, section: s2, key: k2, label: l2, description: d2, default: f2, min: a2, max: b2, step: c2, apply_mode: m2, .. },
        ) => str_equal(i1.as_str(), i2.as_str()) && str_equal(s1.as_str(), s2.as_str()) && str_equal(
            k1.as_str(),
            k2.as_str(),
        ) && localized_equal(l1, l2) && description_equal(d1, d2) && *f1 == *f2 && *a1 == *a2 && *b1 == *b2 && *c1
            == *c2 && *m1 == *m2,
        (
            ConfigField::Decimal { id: i1, section: s1, key: k1, label: l1, description: d1, default: f1, min: a1, max: b1, step: c1, apply_mode: m1, .. },
            ConfigField::Decimal { id: i2, section: s2, key: k2, label: l2, description: d2, default: f2, min: a2, max: b2, step: c2, apply_mode: m2, .. },
        ) => str_equal(i1.as_str(), i2.as_str()) && str_equal(s1.as_str(), s2.as_str()) && str_equal(
            k1.as_str(),
            k2.as_str(),
        ) && localized_equal(l1, l2) && description_equal(d1, d2) && number_equal(*f1, *f2) && number_equal(*a1, *a2)
            && number_equal(*b1, *b2) && number_equal(*c1, *c2) && *m1 == *m2,
        (
            ConfigField::SingleSelect { id: i1, section: s1, key: k1, label: l1, description: d1, default: f1, options: o1, apply_mode: m1, display: p1, .. },
            ConfigField::SingleSelect { id: i2, section: s2, key: k2, label: l2, description: d2, default: f2, options: o2, apply_mode: m2, display: p2, .. },
        ) => str_equal(i1.as_str(), i2.as_str()) && str_equal(s1.as_str(), s2.as_str()) && str_equal(
            k1.as_str(),
            k2.as_str(),
        ) && localized_equal(l1, l2) && description_equal(d1, d2) && str_equal(f1.as_str(), f2.as_str())
            && options_equal(o1, o2) && *m1 == *m2 && *p1 == *p2,
        (
            ConfigField::MultiSelect { id: i1, section: s1, key: k1, label: l1, description: d1, default: f1, options: o1, apply_mode: m1, .. },
            ConfigField::MultiSelect { id: i2, section: s2, key: k2, label: l2, description: d2, default: f2, options: o2, apply_mode: m2, .. },
        ) => str_equal(i1.as_str(), i2.as_str()) && str_equal(s1.as_str(), s2.as_str()) && str_equal(
            k1.as_str(),
            k2.as_str(),
        ) && localized_equal(l1, l2) && description_equal(d1, d2) && texts_equal(f1, f2) && options_equal(o1, o2)
            && *m1 == *m2,
        _ => false,
    }
}


// ---------------------------------------------------------------------------
// Settings from an agent joined to those of the catalog.
// ---------------------------------------------------------------------------
/// The first index from `i` on of a setting with this identifier, or `-1`.
pub open spec fn field_index_from(fields: Seq<ConfigField>, id: Seq<char>, i: int) -> int
    decreases fields.len() - i,
{
    if i < 0 || i >= fields.len() {
        -1
    } else if fields[i].spec_id() == id {
        i
    } else {
        field_index_from(fields, id, i + 1)
    }
}

/// The first index of a setting with this identifier, or `-1`.
pub open spec fn field_index(fields: Seq<ConfigField>, id: Seq<char>) -> int {
    field_index_from(fields, id, 0)
}

/// A setting described by an agent joined to the settings known: a new
/// identifier is added where `add` allows it; a known one that the agent
/// describes differently is locked.
pub open spec fn join_field(fields: Seq<ConfigField>, field: ConfigField, add: bool) -> Seq<ConfigField> {
    let k = field_index(fields, field.spec_id());
    if k < 0 {
        if add {
            fields.push(field)
        } else {
            fields
        }
    } else if same_contract(fields[k], field) {
        fields
    } else {
        fields.update(k, fields[k].with_lock(true))
    }
}

/// `merge_runtime_fields`: the settings an agent may describe, one after
/// the other, joined to the settings known.
pub open spec fn merged_fields(fields: Seq<ConfigField>, dynamic: Seq<ConfigField>) -> Seq<ConfigField>
    decreases dynamic.len(),
{
    if dynamic.len() == 0 {
        fields
    } else {
        let f = dynamic[0];
        let next = if f.spec_valid_for_agent() {
            join_field(fields, f, true)
        } else {
            fields
        };
        merged_fields(next, dynamic.drop_first())
    }
}

/// The settings of a snapshot laid over those of a catalog mod: every
/// setting the agent describes is compared with a known one, and only
/// those an agent may describe are added.
pub open spec fn overlaid_fields(fields: Seq<ConfigField>, dynamic: Seq<ConfigField>) -> Seq<ConfigField>
    decreases dynamic.len(),
{
    if dynamic.len() == 0 {
        fields
    } else {
        let f = dynamic[0];
        overlaid_fields(join_field(fields, f, f.spec_valid_for_agent()), dynamic.drop_first())
    }
}

proof fn lemma_field_index_from(fields: Seq<ConfigField>, id: Seq<char>, i: int)
    requires
        0 <= i <= fields.len(),
    ensures
        field_index_from(fields, id, i) == -1 || (i <= field_index_from(fields, id, i) < fields.len()
            && fields[field_index_from(fields, id, i)].spec_id() == id),
        forall|j: int| i <= j < fields.len() && (field_index_from(fields, id, i) == -1 || j < field_index_from(fields, id, i))
            ==> (#[trigger] fields[j]).spec_id() != id,
    decreases fields.len() - i,
{
    if i < fields.len() && fields[i].spec_id() != id {
        lemma_field_index_from(fields, id, i + 1);
    }
}

/// The index of the first setting with this identifier.
fn find_field(fields: &Vec<ConfigField>, id: &str) -> (found: Option<usize>)
    ensures
        match found {
            Some(k) => k as int == field_index(fields@, id@),
            None => field_index(fields@, id@) == -1,
        },
{
    let mut i: usize = 0;
    while i < fields.len()
        invariant
            i <= fields@.len(),
            field_index(fields@, id@) == field_index_from(fields@, id@, i as int),
        decreases fields@.len() - i,
    {
        if str_equal(fields[i].id(), id) {
            return Some(i);
        }
        i = i + 1;
    }
    None
}

/// Joins one setting to the settings known.
fn join_one(fields: &mut Vec<ConfigField>, field: ConfigField, add: bool)
    ensures
        final(fields)@ == join_field(old(fields)@, field, add),
{
    let found = find_field(fields, field.id());
    proof {
        lemma_field_index_from(fields@, field.spec_id(), 0);
    }
    match found {
        None => {
            if add {
                fields.push(field);
            }
        },
        Some(k) => {
            if !same_field_contract(&fields[k], &field) {
                let mut known = fields.remove(k);
                known.set_locked(true);
                fields.insert(k, known);
                proof {
                    assert(fields@ =~= old(fields)@.update(k as int, old(fields)@[k as int].with_lock(true)));
                }
            }
        },
    }
}

/// The elements of a vector in the other order.
fn reversed<T>(v: Vec<T>) -> (r: Vec<T>)
    ensures
        r@ == v@.reverse(),
{
    let mut v = v;
    let ghost given = v@;
    let mut r: Vec<T> = Vec::new();
    while v.len() > 0
        invariant
            given == v@ + r@.reverse(),
        decreases v@.len(),
    {
        let ghost before_v = v@;
        let ghost before_r = r@;
        let x = v.pop().unwrap();
        r.push(x);
        proof {
            assert(v@ + r@.reverse() =~= before_v + before_r.reverse());
        }
    }
    proof {
        assert(v@ + r@.reverse() =~= r@.reverse());
        assert(r@.reverse().reverse() =~= r@);
    }
    r
}

proof fn lemma_reverse_pop<T>(rest: Seq<T>)
    requires
        rest.len() > 0,
    ensures
        rest.reverse() == seq![rest.last()] + rest.drop_last().reverse(),
        rest.reverse()[0] == rest.last(),
        rest.reverse().drop_first() == rest.drop_last().reverse(),
{
    assert(rest.reverse() =~= seq![rest.last()] + rest.drop_last().reverse());
    assert(rest.reverse().drop_first() =~= rest.drop_last().reverse());
}

/// Joins the settings that an agent describes to those of the catalog:
/// each one an agent may describe is added where its identifier is new,
/// and a known setting it describes differently is locked.
pub fn merge_runtime_fields(fields: &mut Vec<ConfigField>, dynamic: Vec<ConfigField>)
    ensures
        final(fields)@ == merged_fields(old(fields)@, dynamic@),
{
    let ghost target = merged_fields(fields@, dynamic@);
    let mut rest = reversed(dynamic);
    proof {
        assert(rest@.reverse() =~= dynamic@);
    }
    while rest.len() > 0
        invariant
            target == merged_fields(fields@, rest@.reverse()),
        decreases rest@.len(),
    {
        let ghost before = rest@;
        let field = rest.pop().unwrap();
        proof {
            lemma_reverse_pop(before);
        }
        if field.valid_for_agent() {
            join_one(fields, field, true);
        }
    }
    proof {
        assert(rest@.reverse() =~= Seq::<ConfigField>::empty());
    }
}

/// Lays the settings of a snapshot over those of a catalog mod.
pub fn overlay_fields(fields: &mut Vec<ConfigField>, dynamic: Vec<ConfigField>)
    ensures
        final(fields)@ == overlaid_fields(old(fields)@, dynamic@),
{
    let ghost target = overlaid_fields(fields@, dynamic@);
    let mut rest = reversed(dynamic);
    proof {
        assert(rest@.reverse() =~= dynamic@);
    }
    while rest.len() > 0
        invariant
            target == overlaid_fields(fields@, rest@.reverse()),
        decreases rest@.len(),
    {
        let ghost before = rest@;
        let field = rest.pop().unwrap();
        proof {
            lemma_reverse_pop(before);
        }
        let add = field.valid_for_agent();
        join_one(fields, field, add);
    }
    proof {
        assert(rest@.reverse() =~= Seq::<ConfigField>::empty());
    }
}

// ---------------------------------------------------------------------------
// Values from an agent laid over those of the catalog.
// ---------------------------------------------------------------------------
/// Some setting with this identifier is locked.
pub open spec fn locked_id(fields: Seq<ConfigField>, id: Seq<char>) -> bool {
    exists|i: int| 0 <= i < fields.len() && (#[trigger] fields[i]).spec_id() == id && fields[i].spec_locked()
}

/// The first index from `i` on of a value for this setting, or `-1`.
pub open spec fn value_index_from(values: Seq<(String, ConfigValue)>, id: Seq<char>, i: int) -> int
    decreases values.len() - i,
{
    if i < 0 || i >= values.len() {
        -1
    } else if values[i].0@ == id {
        i
    } else {
        value_index_from(values, id, i + 1)
    }
}

/// A value set for a setting, as a map's `insert` sets it: it replaces the
/// value held under the same identifier, or is added after the others.
pub open spec fn with_value(values: Seq<(String, ConfigValue)>, entry: (String, ConfigValue)) -> Seq<(String, ConfigValue)> {
    let k = value_index_from(values, entry.0@, 0);
    if k < 0 {
        values.push(entry)
    } else {
        values.update(k, (values[k].0, entry.1))
    }
}

/// The values an agent reports, set one after the other, except those of
/// locked settings.
pub open spec fn overlaid_values(
    values: Seq<(String, ConfigValue)>,
    fields: Seq<ConfigField>,
    reported: Seq<(String, ConfigValue)>,
) -> Seq<(String, ConfigValue)>
    decreases reported.len(),
{
    if reported.len() == 0 {
        values
    } else {
        let e = reported[0];
        let next = if locked_id(fields, e.0@) {
            values
        } else {
            with_value(values, e)
        };
        overlaid_values(next, fields, reported.drop_first())
    }
}

proof fn lemma_value_index_from(values: Seq<(String, ConfigValue)>, id: Seq<char>, i: int)
    requires
        0 <= i <= values.len(),
    ensures
        value_index_from(values, id, i) == -1 || (i <= value_index_from(values, id, i) < values.len()
            && values[value_index_from(values, id, i)].0@ == id),
    decreases values.len() - i,
{
    if i < values.len() && values[i].0@ != id {
        lemma_value_index_from(values, id, i + 1);
    }
}

/// Whether some setting with this identifier is locked.
fn is_locked_id(fields: &Vec<ConfigField>, id: &str) -> (locked: bool)
    ensures
        locked == locked_id(fields@, id@),
{
    let mut i: usize = 0;
    while i < fields.len()
        invariant
            i <= fields@.len(),
            forall|k: int| 0 <= k < i ==> !((#[trigger] fields@[k]).spec_id() == id@ && fields@[k].spec_locked()),
        decreases fields@.len() - i,
    {
        if str_equal(fields[i].id(), id) && fields[i].is_locked() {
            return true;
        }
        i = i + 1;
    }
    false
}

/// Sets a value for a setting, replacing the one held under the same
/// identifier.
fn set_value(values: &mut Vec<(String, ConfigValue)>, entry: (String, ConfigValue))
    ensures
        final(values)@ == with_value(old(values)@, entry),
{
    let mut i: usize = 0;
    while i < values.len()
        invariant
            i <= values@.len(),
            values@ == old(values)@,
            value_index_from(values@, entry.0@, 0) == value_index_from(values@, entry.0@, i as int),
        decreases values@.len() - i,
    {
        if str_equal(values[i].0.as_str(), entry.0.as_str()) {
            let (key, _) = values.remove(i);
            values.insert(i, (key, entry.1));
            proof {
                assert(values@ =~= old(values)@.update(i as int, (old(values)@[i as int].0, entry.1)));
            }
            return;
        }
        i = i + 1;
    }
    values.push(entry);
}

/// Lays the values an agent reports over those of a mod, except those of
/// locked settings.
pub fn overlay_values(values: &mut Vec<(String, ConfigValue)>, fields: &Vec<ConfigField>, reported: Vec<(String, ConfigValue)>)
    ensures
        final(values)@ == overlaid_values(old(values)@, fields@, reported@),
{
    let ghost target = overlaid_values(values@, fields@, reported@);
    let mut rest = reversed(reported);
    proof {
        assert(rest@.reverse() =~= reported@);
    }
    while rest.len() > 0
        invariant
            target == overlaid_values(values@, fields@, rest@.reverse()),
        decreases rest@.len(),
    {
        let ghost before = rest@;
        let entry = rest.pop().unwrap();
        proof {
            lemma_reverse_pop(before);
        }
        if !is_locked_id(fields, entry.0.as_str()) {
            set_value(values, entry);
        }
    }
    proof {
        assert(rest@.reverse() =~= Seq::<(String, ConfigValue)>::empty());
    }
}

/// Lays what an agent reports of a mod over the mod as the catalog
/// describes it: first the settings, then the values of the settings that
/// are not locked. Nothing else of the mod changes.
pub fn overlay_snapshot(game_mod: &mut GameMod, snapshot: AgentModSnapshot)
    ensures
        final(game_mod).config@ == overlaid_fields(old(game_mod).config@, snapshot.fields@),
        final(game_mod).values@ == overlaid_values(old(game_mod).values@, final(game_mod).config@, snapshot.values@),
        final(game_mod).mod_id == old(game_mod).mod_id,
        final(game_mod).version == old(game_mod).version,
        final(game_mod).installed_version == old(game_mod).installed_version,
        final(game_mod).status == old(game_mod).status,
        final(game_mod).official == old(game_mod).official,
        final(game_mod).external == old(game_mod).external,
{
    let AgentModSnapshot { fields, values, .. } = snapshot;
    overlay_fields(&mut game_mod.config, fields);
    overlay_values(&mut game_mod.values, &game_mod.config, values);
}

/// The first snapshot of a mod with this identifier.
pub fn snapshot_for(snapshots: &Vec<AgentModSnapshot>, mod_id: &str) -> (found: Option<usize>)
    ensures
        match found {
            Some(k) => k < snapshots@.len() && snapshots@[k as int].mod_id@ == mod_id@ && forall|j: int|
                0 <= j < k ==> (#[trigger] snapshots@[j]).mod_id@ != mod_id@,
            None => forall|j: int| 0 <= j < snapshots@.len() ==> (#[trigger] snapshots@[j]).mod_id@ != mod_id@,
        },
{
    let mut i: usize = 0;
    while i < snapshots.len()
        invariant
            i <= snapshots@.len(),
            forall|j: int| 0 <= j < i ==> (#[trigger] snapshots@[j]).mod_id@ != mod_id@,
        decreases snapshots@.len() - i,
    {
        if str_equal(snapshots[i].mod_id.as_str(), mod_id) {
            return Some(i);
        }
        i = i + 1;
    }
    None
}

/// Which of the reports of the game's agent is laid over a mod of the
/// game: none unless exactly one agent of the game is connected, else the
/// first report of the mod's identifier, if any. `connections` holds what
/// each connected agent reported.
pub fn runtime_snapshot_index(connections: &Vec<Vec<AgentModSnapshot>>, mod_id: &str) -> (found: Option<usize>)
    ensures
        connections@.len() != 1 ==> found is None,
        connections@.len() == 1 ==> match found {
            Some(k) => k < connections@[0]@.len() && connections@[0]@[k as int].mod_id@ == mod_id@ && forall|j: int|
                0 <= j < k ==> (#[trigger] connections@[0]@[j]).mod_id@ != mod_id@,
            None => forall|j: int| 0 <= j < connections@[0]@.len() ==> (#[trigger] connections@[0]@[j]).mod_id@ != mod_id@,
        },
{
    if connections.len() != 1 {
        return None;
    }
    snapshot_for(&connections[0], mod_id)
}

// ---------------------------------------------------------------------------
// Mods that only the agent knows.
// ---------------------------------------------------------------------------
/// The settings an agent may describe, in order.
pub open spec fn agent_fields(fields: Seq<ConfigField>) -> Seq<ConfigField>
    decreases fields.len(),
{
    if fields.len() == 0 {
        Seq::empty()
    } else {
        let rest = agent_fields(fields.drop_last());
        if fields.last().spec_valid_for_agent() {
            rest.push(fields.last())
        } else {
            rest
        }
    }
}

/// A mod as it is shown when only an agent reports it: external, not
/// official, at the version the agent runs, with the settings an agent may
/// describe and the values it reports.
pub open spec fn external_mod_of(game_mod: GameMod, snapshot: AgentModSnapshot) -> bool {
    &&& game_mod.mod_id@ == snapshot.mod_id@
    &&& game_mod.guid@ == snapshot.mod_id@
    &&& game_mod.version@ == snapshot.version@
    &&& text_option(game_mod.installed_version) == Some(snapshot.version@)
    &&& !game_mod.official
    &&& game_mod.external
    &&& game_mod.name == snapshot.name
    &&& game_mod.description == snapshot.description
    &&& game_mod.integration == ModIntegration::Agent
    &&& game_mod.status == GameModStatus::External
    &&& game_mod.dependencies@.len() == 0
    &&& game_mod.conflicts@.len() == 0
    &&& game_mod.config@ == agent_fields(snapshot.fields@)
    &&& game_mod.values@ == snapshot.values@
    &&& !game_mod.restart_required
}

/// The mod that an agent reports, shown as an external mod.
pub fn snapshot_to_external_mod(snapshot: AgentModSnapshot) -> (game_mod: GameMod)
    ensures
        external_mod_of(game_mod, snapshot),
{
    let ghost given = snapshot;
    let AgentModSnapshot { mod_id, version, name, description, fields, values } = snapshot;
    let mut config: Vec<ConfigField> = Vec::new();
    let mut rest = reversed(fields);
    proof {
        assert(rest@.reverse() =~= given.fields@);
        assert(given.fields@.subrange(0, 0) =~= Seq::<ConfigField>::empty());
    }
    let ghost all = given.fields@;
    while rest.len() > 0
        invariant
            all == given.fields@,
            all == all.subrange(0, all.len() - rest@.len()) + rest@.reverse(),
            rest@.len() <= all.len(),
            config@ == agent_fields(all.subrange(0, all.len() - rest@.len())),
        decreases rest@.len(),
    {
        let ghost before = rest@;
        let field = rest.pop().unwrap();
        proof {
            lemma_reverse_pop(before);
            let n = all.len() - before.len();
            assert(all[n] == field) by {
                assert(all[n] == (all.subrange(0, n) + before.reverse())[n]);
            }
            assert(all.subrange(0, n + 1).drop_last() =~= all.subrange(0, n));
            assert(all.subrange(0, n + 1).last() == field);
            assert(all =~= all.subrange(0, n + 1) + rest@.reverse());
        }
        if field.valid_for_agent() {
            config.push(field);
        }
    }
    proof {
        assert(all.subrange(0, all.len() as int) =~= all);
    }
    GameMod {
        mod_id: mod_id.clone(),
        guid: mod_id,
        version: version.clone(),
        installed_version: Some(version),
        official: false,
        external: true,
        name,
        description,
        integration: ModIntegration::Agent,
        status: GameModStatus::External,
        dependencies: Vec::new(),
        conflicts: Vec::new(),
        config,
        values,
        restart_required: false,
    }
}

/// The mods that a game's agent reports, shown as external mods; none
/// unless exactly one agent of the game is connected. `connections` holds
/// what each connected agent reported.
pub fn external_mods(connections: Vec<Vec<AgentModSnapshot>>) -> (mods: Vec<GameMod>)
    ensures
        connections@.len() != 1 ==> mods@.len() == 0,
        connections@.len() == 1 ==> mods@.len() == connections@[0]@.len() && forall|i: int|
            0 <= i < mods@.len() ==> external_mod_of(#[trigger] mods@[i], connections@[0]@[i]),
{
    if connections.len() != 1 {
        return Vec::new();
    }
    let mut connections = connections;
    let snapshots = connections.pop().unwrap();
    let ghost all = snapshots@;
    let mut rest = reversed(snapshots);
    let mut mods: Vec<GameMod> = Vec::new();
    proof {
        assert(rest@.reverse() =~= all);
    }
    while rest.len() > 0
        invariant
            all == all.subrange(0, all.len() - rest@.len()) + rest@.reverse(),
            rest@.len() <= all.len(),
            mods@.len() == all.len() - rest@.len(),
            forall|i: int| 0 <= i < mods@.len() ==> external_mod_of(#[trigger] mods@[i], all[i]),
        decreases rest@.len(),
    {
        let ghost before = rest@;
        let snapshot = rest.pop().unwrap();
        proof {
            lemma_reverse_pop(before);
            let n = all.len() - before.len();
            assert(all[n] == snapshot) by {
                assert(all[n] == (all.subrange(0, n) + before.reverse())[n]);
            }
            assert(all =~= all.subrange(0, n + 1) + rest@.reverse());
        }
        mods.push(snapshot_to_external_mod(snapshot));
    }
    mods
}

/// The settings an agent describes for a mod, where exactly one agent of
/// the game is connected and it reports the mod.
pub fn runtime_fields(connections: Vec<Vec<AgentModSnapshot>>, mod_id: &str) -> (fields: Option<Vec<ConfigField>>)
    ensures
        connections@.len() != 1 ==> fields is None,
        connections@.len() == 1 ==> match fields {
            Some(f) => exists|k: int|
                0 <= k < connections@[0]@.len() && (#[trigger] connections@[0]@[k]).mod_id@ == mod_id@ && f@
                    == connections@[0]@[k].fields@ && forall|j: int|
                    0 <= j < k ==> (#[trigger] connections@[0]@[j]).mod_id@ != mod_id@,
            None => forall|j: int| 0 <= j < connections@[0]@.len() ==> (#[trigger] connections@[0]@[j]).mod_id@ != mod_id@,
        },
{
    if connections.len() != 1 {
        return None;
    }
    let ghost given = connections@;
    let mut connections = connections;
    let mut snapshots = connections.pop().unwrap();
    proof {
        assert(snapshots@ == given[0]@);
    }
    match snapshot_for(&snapshots, mod_id) {
        Some(k) => {
            let snapshot = snapshots.remove(k);
            proof {
                assert(given[0]@[k as int] == snapshot);
            }
            Some(snapshot.fields)
        },
        None => None,
    }
}


// ---------------------------------------------------------------------------
// What joining and laying over never do.
// ---------------------------------------------------------------------------
/// A setting stays as it was, or is locked.
pub open spec fn kept_or_locked(before: ConfigField, after: ConfigField) -> bool {
    after == before || after == before.with_lock(true)
}

/// Every setting of the first list is still at its place in the second,
/// as it was or locked.
pub open spec fn keeps_known_fields(before: Seq<ConfigField>, after: Seq<ConfigField>) -> bool {
    &&& before.len() <= after.len()
    &&& forall|i: int| 0 <= i < before.len() ==> kept_or_locked(before[i], #[trigger] after[i])
}

proof fn lemma_lock_twice(f: ConfigField)
    ensures
        f.with_lock(true).with_lock(true) == f.with_lock(true),
{
}

proof fn lemma_join_keeps(fields: Seq<ConfigField>, field: ConfigField, add: bool)
    ensures
        keeps_known_fields(fields, join_field(fields, field, add)),
{
    lemma_field_index_from(fields, field.spec_id(), 0);
    let r = join_field(fields, field, add);
    assert forall|i: int| 0 <= i < fields.len() implies kept_or_locked(fields[i], #[trigger] r[i]) by {
        let k = field_index(fields, field.spec_id());
        if k >= 0 && !same_contract(fields[k], field) && i == k {
        } else {
            assert(r[i] == fields[i]);
        }
    }
}

proof fn lemma_keeps_transitive(a: Seq<ConfigField>, b: Seq<ConfigField>, c: Seq<ConfigField>)
    requires
        keeps_known_fields(a, b),
        keeps_known_fields(b, c),
    ensures
        keeps_known_fields(a, c),
{
    assert forall|i: int| 0 <= i < a.len() implies kept_or_locked(a[i], #[trigger] c[i]) by {
        assert(kept_or_locked(a[i], b[i]));
        assert(kept_or_locked(b[i], c[i]));
        lemma_lock_twice(a[i]);
    }
}

proof fn lemma_keeps_reflexive(a: Seq<ConfigField>)
    ensures
        keeps_known_fields(a, a),
{
}

/// Joining what an agent describes never removes, moves or changes a known
/// setting: each stays at its place, as it was or locked.
pub proof fn merging_keeps_known_fields(fields: Seq<ConfigField>, dynamic: Seq<ConfigField>)
    ensures
        keeps_known_fields(fields, merged_fields(fields, dynamic)),
    decreases dynamic.len(),
{
    if dynamic.len() == 0 {
        lemma_keeps_reflexive(fields);
    } else {
        let f = dynamic[0];
        let next = if f.spec_valid_for_agent() {
            join_field(fields, f, true)
        } else {
            fields
        };
        if f.spec_valid_for_agent() {
            lemma_join_keeps(fields, f, true);
        } else {
            lemma_keeps_reflexive(fields);
        }
        merging_keeps_known_fields(next, dynamic.drop_first());
        lemma_keeps_transitive(fields, next, merged_fields(next, dynamic.drop_first()));
    }
}

/// Laying a snapshot's settings over a mod's never removes, moves or
/// changes a known setting: each stays at its place, as it was or locked.
pub proof fn overlay_keeps_known_fields(fields: Seq<ConfigField>, dynamic: Seq<ConfigField>)
    ensures
        keeps_known_fields(fields, overlaid_fields(fields, dynamic)),
    decreases dynamic.len(),
{
    if dynamic.len() == 0 {
        lemma_keeps_reflexive(fields);
    } else {
        let f = dynamic[0];
        let next = join_field(fields, f, f.spec_valid_for_agent());
        lemma_join_keeps(fields, f, f.spec_valid_for_agent());
        overlay_keeps_known_fields(next, dynamic.drop_first());
        lemma_keeps_transitive(fields, next, overlaid_fields(next, dynamic.drop_first()));
    }
}

/// The values of locked settings stay as they were, and no value is added
/// for a locked setting.
pub open spec fn locked_values_kept(
    before: Seq<(String, ConfigValue)>,
    after: Seq<(String, ConfigValue)>,
    fields: Seq<ConfigField>,
) -> bool {
    &&& before.len() <= after.len()
    &&& forall|k: int| 0 <= k < before.len() && locked_id(fields, before[k].0@) ==> #[trigger] after[k] == before[k]
    &&& forall|k: int| 0 <= k < after.len() ==> (#[trigger] after[k]).0@ == (if k < before.len() {
        before[k].0@
    } else {
        after[k].0@
    })
    &&& forall|k: int| before.len() <= k < after.len() ==> !locked_id(fields, (#[trigger] after[k]).0@)
}

/// An agent never changes the value of a locked setting: values reported
/// for locked settings are dropped, and the others replace or join the
/// values of unlocked ones.
pub proof fn locked_values_stay(
    values: Seq<(String, ConfigValue)>,
    fields: Seq<ConfigField>,
    reported: Seq<(String, ConfigValue)>,
)
    ensures
        locked_values_kept(values, overlaid_values(values, fields, reported), fields),
    decreases reported.len(),
{
    if reported.len() > 0 {
        let e = reported[0];
        let next = if locked_id(fields, e.0@) {
            values
        } else {
            with_value(values, e)
        };
        if !locked_id(fields, e.0@) {
            lemma_value_index_from(values, e.0@, 0);
        }
        locked_values_stay(next, fields, reported.drop_first());
        let r = overlaid_values(next, fields, reported.drop_first());
        assert forall|k: int| 0 <= k < values.len() && locked_id(fields, values[k].0@) implies #[trigger] r[k]
            == values[k] by {
            assert(next[k] == values[k]);
        }
        assert forall|k: int| 0 <= k < r.len() implies (#[trigger] r[k]).0@ == (if k < values.len() {
            values[k].0@
        } else {
            r[k].0@
        }) by {
            if k < values.len() {
                assert(next[k].0@ == values[k].0@);
            }
        }
        assert forall|k: int| values.len() <= k < r.len() implies !locked_id(fields, (#[trigger] r[k]).0@) by {
            if k < next.len() {
                assert(next[k].0@ == e.0@);
            }
        }
    }
}

} // verus!
