//! The contract that the game catalog and its mod definitions must keep
//! before GameTweaks acts on them.
use vstd::prelude::*;
use vstd::string::StringExecFns;

use crate::catalog::{definition_index, find_definition, texts, GameCatalog, ModDefinition, ModIntegration, ModReference};
use crate::error::{mod_error, ErrorResponse};
use crate::fields::ConfigField;
use crate::rules::{
    spec_valid_config_name, spec_valid_guid, spec_valid_identifier, spec_valid_localized_text,
    spec_valid_lower_sha256, spec_valid_release_part, spec_valid_repository, spec_valid_sha256,
    valid_config_name, valid_guid, valid_identifier, valid_localized_text, valid_lower_sha256,
    valid_release_part, valid_repository, valid_sha256,
};
use crate::text::{ascii_lowercase, lower_chars};
use crate::versions::{compare_versions, parses_as_version, semver_order, semver_valid};

verus! {

// ---------------------------------------------------------------------------
// The game catalog.
// ---------------------------------------------------------------------------
/// The definition file of a mod: `mods/<id>.json`.
pub open spec fn reference_file(mod_id: Seq<char>) -> Seq<char> {
    seq!['m', 'o', 'd', 's', '/'] + mod_id + seq!['.', 'j', 's', 'o', 'n']
}

/// The identifiers of references.
pub open spec fn reference_ids(references: Seq<ModReference>) -> Seq<Seq<char>> {
    references.map_values(|r: ModReference| r.mod_id@)
}

/// A reference with a valid identifier, the file that belongs to it, a
/// SHA-256 digest, and an identifier that no earlier reference has.
pub open spec fn reference_valid(references: Seq<ModReference>, i: int) -> bool {
    let r = references[i];
    &&& spec_valid_identifier(r.mod_id@)
    &&& r.file@ == reference_file(r.mod_id@)
    &&& spec_valid_sha256(r.sha256@)
    &&& !reference_ids(references.take(i)).contains(r.mod_id@)
}

/// The catalog of the game `app_id` keeps its contract: schema 1, the
/// game's own identifier, at most 256 mods, a valid name, valid references.
pub open spec fn catalog_valid(app_id: u32, catalog: GameCatalog) -> bool {
    &&& catalog.schema_version == 1
    &&& catalog.app_id == app_id
    &&& catalog.mods@.len() <= 256
    &&& spec_valid_localized_text(catalog.name)
    &&& forall|i: int| 0 <= i < catalog.mods@.len() ==> #[trigger] reference_valid(catalog.mods@, i)
}

fn catalog_invalid(detail: &str) -> (e: ErrorResponse)
    ensures
        e.code@ == "catalog_invalid"@,
{
    mod_error("catalog_invalid", detail)
}

/// The text `prefix + middle + suffix`.
fn framed(prefix: &str, middle: &str, suffix: &str) -> (text: String)
    ensures
        text@ == prefix@ + middle@ + suffix@,
{
    let mut text = String::from_str(prefix);
    text.append(middle);
    text.append(suffix);
    text
}

/// Checks the catalog of the game `app_id`; a breach is `catalog_invalid`.
pub fn validate_catalog(app_id: u32, catalog: &GameCatalog) -> (result: Result<(), ErrorResponse>)
    ensures
        result is Ok <==> catalog_valid(app_id, *catalog),
        result matches Err(e) ==> e.code@ == "catalog_invalid"@,
{
    if catalog.schema_version != 1 || catalog.app_id != app_id || catalog.mods.len() > 256
        || !valid_localized_text(&catalog.name) {
        return Err(catalog_invalid("the game catalog contract was invalid"));
    }
    let mut ids: Vec<String> = Vec::new();
    let mut i: usize = 0;
    while i < catalog.mods.len()
        invariant
            i <= catalog.mods@.len(),
            texts(ids@) == reference_ids(catalog.mods@.take(i as int)),
            forall|j: int| 0 <= j < i ==> #[trigger] reference_valid(catalog.mods@, j),
        decreases catalog.mods@.len() - i,
    {
        let reference = &catalog.mods[i];
        let prefix = "mods/";
        let suffix = ".json";
        proof {
            reveal_strlit("mods/");
            reveal_strlit(".json");
            assert(prefix@ =~= seq!['m', 'o', 'd', 's', '/']);
            assert(suffix@ =~= seq!['.', 'j', 's', 'o', 'n']);
        }
        let expected = framed(prefix, reference.mod_id.as_str(), suffix);
        if !valid_identifier(reference.mod_id.as_str()) || !crate::text::str_equal(
            reference.file.as_str(),
            expected.as_str(),
        ) || !valid_sha256(reference.sha256.as_str()) || crate::catalog::contains_text(
            &ids,
            reference.mod_id.as_str(),
        ) {
            proof {
                assert(!reference_valid(catalog.mods@, i as int));
            }
            return Err(catalog_invalid("a game mod reference was invalid"));
        }
        ids.push(reference.mod_id.clone());
        proof {
            assert(catalog.mods@.take(i + 1).drop_last() =~= catalog.mods@.take(i as int));
            assert(reference_ids(catalog.mods@.take(i + 1)) =~= reference_ids(
                catalog.mods@.take(i as int),
            ).push(reference.mod_id@));
            assert(texts(ids@) =~= reference_ids(catalog.mods@.take(i + 1)));
            assert(reference_valid(catalog.mods@, i as int));
        }
        i = i + 1;
    }
    Ok(())
}


// ---------------------------------------------------------------------------
// Mod definitions.
// ---------------------------------------------------------------------------
/// The immutable release tag of a catalog mod: `mod-<id>-v<version>`.
pub open spec fn spec_release_tag(definition: ModDefinition) -> Seq<char> {
    seq!['m', 'o', 'd', '-'] + definition.mod_id@ + seq!['-', 'v'] + definition.version@
}

/// The release tag that the catalog publishes a mod's archive under.
pub fn catalog_release_tag(definition: &ModDefinition) -> (tag: String)
    ensures
        tag@ == spec_release_tag(*definition),
{
    let prefix = "mod-";
    let middle = "-v";
    proof {
        reveal_strlit("mod-");
        reveal_strlit("-v");
        assert(prefix@ =~= seq!['m', 'o', 'd', '-']);
        assert(middle@ =~= seq!['-', 'v']);
    }
    let mut tag = framed(prefix, definition.mod_id.as_str(), middle);
    tag.append(definition.version.as_str());
    tag
}

/// A text ends with `.zip` in any ASCII case.
pub open spec fn zip_name(name: Seq<char>) -> bool {
    let lower = lower_chars(name);
    lower.len() >= 4 && lower.subrange(lower.len() - 4, lower.len() as int) == seq![
        '.',
        'z',
        'i',
        'p',
    ]
}

/// The fixed parts of a definition keep their rules: schema 1, valid
/// identifier, GUID, version, texts, one or two architectures, repository,
/// tag, asset, derived tag, a `.zip` asset, a lowercase digest, and at most
/// 32 dependencies, 32 conflicts and 512 settings.
pub open spec fn definition_head_valid(d: ModDefinition) -> bool {
    &&& d.schema_version == 1
    &&& spec_valid_identifier(d.mod_id@)
    &&& spec_valid_guid(d.guid@)
    &&& semver_valid(d.version@)
    &&& spec_valid_localized_text(d.name)
    &&& spec_valid_localized_text(d.description)
    &&& 0 < d.compatibility.architectures@.len() <= 2
    &&& spec_valid_repository(d.release.repository@)
    &&& spec_valid_release_part(d.release.tag@)
    &&& spec_valid_release_part(d.release.asset@)
    &&& spec_valid_release_part(spec_release_tag(d))
    &&& zip_name(d.release.asset@)
    &&& spec_valid_lower_sha256(d.release.sha256@)
    &&& d.dependencies@.len() <= 32
    &&& d.conflicts@.len() <= 32
    &&& d.config@.len() <= 512
}

/// The identifiers of fields.
pub open spec fn field_ids(fields: Seq<ConfigField>) -> Seq<Seq<char>> {
    fields.map_values(|f: ConfigField| f.spec_id())
}

/// The lowercased section and key of fields.
pub open spec fn field_keys(fields: Seq<ConfigField>) -> Seq<(Seq<char>, Seq<char>)> {
    fields.map_values(|f: ConfigField| (lower_chars(f.spec_section()), lower_chars(f.spec_key())))
}

/// Setting `i` of a catalog definition keeps the rules: valid identifier,
/// section and key, unlocked, valid metadata, and an identifier and a
/// section and key (without regard to ASCII case) that no earlier setting
/// has.
pub open spec fn catalog_field_valid(fields: Seq<ConfigField>, i: int) -> bool {
    let f = fields[i];
    &&& spec_valid_identifier(f.spec_id())
    &&& spec_valid_config_name(f.spec_section())
    &&& spec_valid_config_name(f.spec_key())
    &&& !f.spec_locked()
    &&& f.spec_metadata_valid()
    &&& !field_ids(fields.take(i)).contains(f.spec_id())
    &&& !field_keys(fields.take(i)).contains((lower_chars(f.spec_section()), lower_chars(f.spec_key())))
}

/// The error code of the first setting among the first `n` that breaks the
/// rules (`catalog_invalid`) or whose default does not serialize
/// (`mod_config_invalid`).
pub open spec fn settings_problem(fields: Seq<ConfigField>, n: int) -> Option<Seq<char>>
    decreases n,
{
    if n <= 0 || n > fields.len() {
        None
    } else {
        match settings_problem(fields, n - 1) {
            Some(code) => Some(code),
            None => if !catalog_field_valid(fields, n - 1) {
                Some("catalog_invalid"@)
            } else if fields[n - 1].spec_serialized(fields[n - 1].spec_default_value()) is None {
                Some("mod_config_invalid"@)
            } else {
                None
            },
        }
    }
}

/// A dependency with a valid identifier and a minimum version that parses.
pub open spec fn dependency_valid(dependency: crate::catalog::ModDependency) -> bool {
    spec_valid_identifier(dependency.mod_id@) && semver_valid(dependency.minimum_version@)
}

/// What is wrong with a mod definition, as the code of the first error:
/// the fixed parts, the minimum agent version (which a mod that talks
/// through the agent must name), the settings, the
/// dependencies (valid identifier and minimum version), the conflicts
/// (valid identifiers).
pub open spec fn definition_problem(d: ModDefinition) -> Option<Seq<char>> {
    if !definition_head_valid(d) {
        Some("catalog_invalid"@)
    } else if d.compatibility.minimum_agent_version matches Some(v) && !semver_valid(v@) {
        Some("catalog_invalid"@)
    } else if d.integration == ModIntegration::Agent && d.compatibility.minimum_agent_version is None {
        Some("catalog_invalid"@)
    } else {
        match settings_problem(d.config@, d.config@.len() as int) {
            Some(code) => Some(code),
            None => if exists|i: int|
                0 <= i < d.dependencies@.len() && !#[trigger] dependency_valid(d.dependencies@[i]) {
                Some("catalog_invalid"@)
            } else if exists|i: int|
                0 <= i < d.conflicts@.len() && !spec_valid_identifier(#[trigger] d.conflicts@[i]@) {
                Some("catalog_invalid"@)
            } else {
                None
            },
        }
    }
}

/// Whether a text ends with `.zip` in any ASCII case.
fn is_zip_name(name: &str) -> (zip: bool)
    ensures
        zip == zip_name(name@),
{
    let lower = ascii_lowercase(name);
    let chars = crate::text::chars_of(lower.as_str());
    let n = chars.len();
    n >= 4 && chars[n - 4] == '.' && chars[n - 3] == 'z' && chars[n - 2] == 'i' && chars[n - 1]
        == 'p' && {
        proof {
            assert(chars@.subrange(n - 4, n as int) =~= seq!['.', 'z', 'i', 'p']);
        }
        true
    }
}

/// Whether a list of section and key pairs holds a pair.
fn holds_pair(pairs: &Vec<(String, String)>, section: &str, key: &str) -> (found: bool)
    ensures
        found == pairs@.map_values(|p: (String, String)| (p.0@, p.1@)).contains((section@, key@)),
{
    let ghost view = pairs@.map_values(|p: (String, String)| (p.0@, p.1@));
    let mut i: usize = 0;
    while i < pairs.len()
        invariant
            i <= pairs@.len(),
            view == pairs@.map_values(|p: (String, String)| (p.0@, p.1@)),
            forall|j: int| 0 <= j < i ==> view[j] != (section@, key@),
        decreases pairs@.len() - i,
    {
        if crate::text::str_equal(pairs[i].0.as_str(), section) && crate::text::str_equal(
            pairs[i].1.as_str(),
            key,
        ) {
            proof {
                assert(view[i as int] == (section@, key@));
            }
            return true;
        }
        proof {
            assert(view[i as int] == (pairs@[i as int].0@, pairs@[i as int].1@));
        }
        i = i + 1;
    }
    false
}

/// Checks a mod definition of the catalog. A setting whose default does
/// not serialize is `mod_config_invalid`; every other breach is
/// `catalog_invalid`.
pub fn validate_mod_definition(definition: &ModDefinition) -> (result: Result<(), ErrorResponse>)
    ensures
        match definition_problem(*definition) {
            None => result is Ok,
            Some(code) => result matches Err(e) && e.code@ == code,
        },
{
    let tag = catalog_release_tag(definition);
    if definition.schema_version != 1 || !valid_identifier(definition.mod_id.as_str())
        || !valid_guid(definition.guid.as_str()) || !parses_as_version(
        definition.version.as_str(),
    ) || !valid_localized_text(&definition.name) || !valid_localized_text(
        &definition.description,
    ) || definition.compatibility.architectures.len() == 0
        || definition.compatibility.architectures.len() > 2 || !valid_repository(
        definition.release.repository.as_str(),
    ) || !valid_release_part(definition.release.tag.as_str()) || !valid_release_part(
        definition.release.asset.as_str(),
    ) || !valid_release_part(tag.as_str()) || !is_zip_name(definition.release.asset.as_str())
        || !valid_lower_sha256(definition.release.sha256.as_str())
        || definition.dependencies.len() > 32 || definition.conflicts.len() > 32
        || definition.config.len() > 512 {
        return Err(catalog_invalid("a mod definition contract was invalid"));
    }
    match &definition.compatibility.minimum_agent_version {
        Some(version) => {
            if !parses_as_version(version.as_str()) {
                return Err(catalog_invalid("a minimum agent version was invalid"));
            }
        },
        None => {
            if definition.integration == ModIntegration::Agent {
                return Err(catalog_invalid("an agent mod did not name its minimum agent version"));
            }
        },
    }
    let ghost fields = definition.config@;
    let mut ids: Vec<String> = Vec::new();
    let mut keys: Vec<(String, String)> = Vec::new();
    let mut i: usize = 0;
    while i < definition.config.len()
        invariant
            i <= fields.len(),
            fields == definition.config@,
            definition_head_valid(*definition),
            !(definition.compatibility.minimum_agent_version matches Some(v) && !semver_valid(v@)),
            !(definition.integration == ModIntegration::Agent && definition.compatibility.minimum_agent_version is None),
            settings_problem(fields, i as int) is None,
            texts(ids@) == field_ids(fields.take(i as int)),
            keys@.map_values(|p: (String, String)| (p.0@, p.1@)) == field_keys(
                fields.take(i as int),
            ),
        decreases fields.len() - i,
    {
        let field = &definition.config[i];
        let (section, key) = field.section_key();
        let lower_section = ascii_lowercase(section);
        let lower_key = ascii_lowercase(key);
        if !valid_identifier(field.id()) || !valid_config_name(section) || !valid_config_name(key)
            || field.is_locked() || !field.metadata_is_valid() || crate::catalog::contains_text(
            &ids,
            field.id(),
        ) || holds_pair(&keys, lower_section.as_str(), lower_key.as_str()) {
            proof {
                assert(!catalog_field_valid(fields, i as int));
                lemma_settings_problem_prefix(fields, i as int + 1);
            }
            return Err(catalog_invalid("a mod config field was invalid"));
        }
        let default = field.default_value();
        match field.serialize_value(&default) {
            Ok(_) => {},
            Err(error) => {
                proof {
                    assert(catalog_field_valid(fields, i as int));
                    lemma_settings_problem_prefix(fields, i as int + 1);
                }
                return Err(error);
            },
        }
        let ghost old_keys = keys@;
        ids.push(field.id().to_string());
        keys.push((lower_section, lower_key));
        proof {
            assert(fields.take(i + 1).drop_last() =~= fields.take(i as int));
            assert(field_ids(fields.take(i + 1)) =~= field_ids(fields.take(i as int)).push(
                field.spec_id(),
            ));
            assert(texts(ids@) =~= field_ids(fields.take(i + 1)));
            assert(field_keys(fields.take(i + 1)) =~= field_keys(fields.take(i as int)).push(
                (lower_chars(field.spec_section()), lower_chars(field.spec_key())),
            ));
            assert(keys@.map_values(|p: (String, String)| (p.0@, p.1@)) =~= old_keys.map_values(
                |p: (String, String)| (p.0@, p.1@),
            ).push((lower_chars(field.spec_section()), lower_chars(field.spec_key()))));
        }
        i = i + 1;
    }
    let mut d: usize = 0;
    while d < definition.dependencies.len()
        invariant
            d <= definition.dependencies@.len(),
            definition_head_valid(*definition),
            !(definition.compatibility.minimum_agent_version matches Some(v) && !semver_valid(v@)),
            !(definition.integration == ModIntegration::Agent && definition.compatibility.minimum_agent_version is None),
            settings_problem(definition.config@, definition.config@.len() as int) is None,
            forall|j: int| 0 <= j < d ==> #[trigger] dependency_valid(definition.dependencies@[j]),
        decreases definition.dependencies@.len() - d,
    {
        let dependency = &definition.dependencies[d];
        if !valid_identifier(dependency.mod_id.as_str()) || !parses_as_version(
            dependency.minimum_version.as_str(),
        ) {
            proof {
                assert(!dependency_valid(definition.dependencies@[d as int]));
            }
            return Err(catalog_invalid("a mod dependency was invalid"));
        }
        proof {
            assert(dependency_valid(definition.dependencies@[d as int]));
        }
        d = d + 1;
    }
    let mut c: usize = 0;
    while c < definition.conflicts.len()
        invariant
            c <= definition.conflicts@.len(),
            definition_head_valid(*definition),
            !(definition.compatibility.minimum_agent_version matches Some(v) && !semver_valid(v@)),
            !(definition.integration == ModIntegration::Agent && definition.compatibility.minimum_agent_version is None),
            settings_problem(definition.config@, definition.config@.len() as int) is None,
            forall|j: int|
                0 <= j < definition.dependencies@.len() ==> #[trigger] dependency_valid(
                    definition.dependencies@[j],
                ),
            forall|j: int| 0 <= j < c ==> spec_valid_identifier(#[trigger] definition.conflicts@[j]@),
        decreases definition.conflicts@.len() - c,
    {
        if !valid_identifier(definition.conflicts[c].as_str()) {
            proof {
                assert(!spec_valid_identifier(definition.conflicts@[c as int]@));
            }
            return Err(catalog_invalid("a mod conflict was invalid"));
        }
        c = c + 1;
    }
    Ok(())
}

/// Once a prefix of the settings has a problem, so do all longer prefixes,
/// with the same code.
proof fn lemma_settings_problem_prefix(fields: Seq<ConfigField>, n: int)
    requires
        0 < n <= fields.len(),
        settings_problem(fields, n) is Some,
    ensures
        settings_problem(fields, fields.len() as int) == settings_problem(fields, n),
    decreases fields.len() - n,
{
    if n < fields.len() {
        lemma_settings_problem_prefix(fields, n + 1);
    }
}

// ---------------------------------------------------------------------------
// Relations between mod definitions.
// ---------------------------------------------------------------------------
/// A dependency names a mod of the catalog whose version is not below the
/// dependency's minimum.
pub open spec fn dependency_available(definitions: Seq<ModDefinition>, d: ModDefinition, j: int) -> bool {
    let k = definition_index(definitions, d.dependencies@[j].mod_id@);
    k >= 0 && semver_order(definitions[k].version@, d.dependencies@[j].minimum_version@) != -1
}

/// Every dependency of mod `i` is available, and it does not conflict with
/// itself.
pub open spec fn mod_relations_valid(definitions: Seq<ModDefinition>, i: int) -> bool {
    &&& forall|j: int|
        0 <= j < definitions[i].dependencies@.len() ==> #[trigger] dependency_available(
            definitions,
            definitions[i],
            j,
        )
    &&& !texts(definitions[i].conflicts@).contains(definitions[i].mod_id@)
}

/// Every dependency of every mod is available, and no mod conflicts with
/// itself.
pub open spec fn relations_valid(definitions: Seq<ModDefinition>) -> bool {
    forall|i: int| 0 <= i < definitions.len() ==> #[trigger] mod_relations_valid(definitions, i)
}

/// Checks the relations between the mods of a catalog; a breach is
/// `catalog_invalid`.
pub fn validate_relations(definitions: &Vec<ModDefinition>) -> (result: Result<(), ErrorResponse>)
    ensures
        result is Ok <==> relations_valid(definitions@),
        result matches Err(e) ==> e.code@ == "catalog_invalid"@,
{
    let mut i: usize = 0;
    while i < definitions.len()
        invariant
            i <= definitions@.len(),
            forall|a: int| 0 <= a < i ==> #[trigger] mod_relations_valid(definitions@, a),
        decreases definitions@.len() - i,
    {
        let definition = &definitions[i];
        let mut j: usize = 0;
        while j < definition.dependencies.len()
            invariant
                j <= definition.dependencies@.len(),
                i < definitions@.len(),
                definition == definitions@[i as int],
                forall|b: int| 0 <= b < j ==> #[trigger] dependency_available(definitions@, *definition, b),
            decreases definition.dependencies@.len() - j,
        {
            let dependency = &definition.dependencies[j];
            match find_definition(definitions, dependency.mod_id.as_str()) {
                Some(required) => {
                    if compare_versions(
                        required.version.as_str(),
                        dependency.minimum_version.as_str(),
                    ) == -1 {
                        proof {
                            assert(!dependency_available(definitions@, *definition, j as int));
                            assert(!mod_relations_valid(definitions@, i as int));
                        }
                        return Err(catalog_invalid("a mod dependency version was unavailable"));
                    }
                },
                None => {
                    proof {
                        assert(!dependency_available(definitions@, *definition, j as int));
                        assert(!mod_relations_valid(definitions@, i as int));
                    }
                    return Err(catalog_invalid("a mod dependency was missing"));
                },
            }
            j = j + 1;
        }
        if crate::catalog::contains_text(&definition.conflicts, definition.mod_id.as_str()) {
            proof {
                assert(!mod_relations_valid(definitions@, i as int));
            }
            return Err(catalog_invalid("a mod conflicted with itself"));
        }
        proof {
            assert(mod_relations_valid(definitions@, i as int));
        }
        i = i + 1;
    }
    Ok(())
}

} // verus!
