//! How GameTweaks describes the mods of a game to the frontend.
use vstd::prelude::*;

use crate::agent::AgentConnectionStatus;
use crate::bepinex::{BepInExArchitecture, BepInExRuntime};
use crate::catalog::{texts, ModDefinition, ModDependency, ModIntegration};
use crate::fields::{parse_field_value, spec_parse_field_value, ConfigField, ConfigValue, LocalizedText};
use crate::plan::{no_repeats, repeats_free, ModInstallMarker};
use crate::rules::{
    spec_valid_guid, spec_valid_identifier, spec_valid_sha256, valid_guid, valid_identifier,
    valid_sha256,
};
use crate::archives::{mod_archive_files, scan_entries, ArchiveEntry};
use crate::rules::{is_lower_hex_digit, spec_valid_lower_sha256};
use crate::text::{ascii_lowercase, lower_char, lower_chars};
use crate::validate::{definition_head_valid, definition_problem};
use vstd::utf8::{encode_scalar, encode_utf8, has_width_1_encoding};
use crate::versions::{compare_versions, parses_as_version, semver_order, semver_valid};

verus! {

/// Whether a game can get mods from the catalog.
#[derive(Clone, Copy, Debug, PartialEq, Eq, Structural)]
pub enum GameSupportStatus {
    Supported,
    Unsupported,
    Unavailable,
}

/// The state of one mod in a game.
#[derive(Clone, Copy, Debug, PartialEq, Eq, Structural)]
pub enum GameModStatus {
    NotInstalled,
    Installed,
    UpdateAvailable,
    Blocked,
    External,
}

/// A mod as the frontend shows it.
#[derive(Debug)]
pub struct GameMod {
    pub mod_id: String,
    pub guid: String,
    pub version: String,
    pub installed_version: Option<String>,
    pub official: bool,
    pub external: bool,
    pub name: LocalizedText,
    pub description: LocalizedText,
    pub integration: ModIntegration,
    pub status: GameModStatus,
    pub dependencies: Vec<ModDependency>,
    pub conflicts: Vec<String>,
    pub config: Vec<ConfigField>,
    pub values: Vec<(String, ConfigValue)>,
    pub restart_required: bool,
}

/// What the frontend learns about a game's mods.
#[derive(Debug)]
pub struct GameSupport {
    pub app_id: u32,
    pub status: GameSupportStatus,
    pub name: Option<LocalizedText>,
    pub mods: Vec<GameMod>,
    pub agent_status: AgentConnectionStatus,
    pub cached: bool,
}

/// The status of a catalog mod: installed by GameTweaks for this game (an
/// update is available where the installed version precedes the catalog's),
/// blocked by a marker of something else, installable where the game's
/// runtime and architecture fit, and blocked otherwise.
pub open spec fn mod_status(
    target: Option<(BepInExRuntime, BepInExArchitecture)>,
    marker: Option<ModInstallMarker>,
    app_id: u32,
    definition: ModDefinition,
) -> (GameModStatus, Option<Seq<char>>) {
    let compatible = match target {
        Some((runtime, architecture)) => runtime == definition.compatibility.runtime
            && definition.compatibility.architectures@.contains(architecture),
        None => false,
    };
    match marker {
        Some(m) => if m.app_id == app_id && m.mod_id@ == definition.mod_id@ {
            (
                if semver_order(m.version@, definition.version@) == -1 {
                    GameModStatus::UpdateAvailable
                } else {
                    GameModStatus::Installed
                },
                Some(m.version@),
            )
        } else {
            (GameModStatus::Blocked, None)
        },
        None => if compatible {
            (GameModStatus::NotInstalled, None)
        } else {
            (GameModStatus::Blocked, None)
        },
    }
}

/// Describes a catalog mod in a game: `target` is the runtime and
/// architecture of the game where its installation could be analyzed,
/// `marker` the valid marker in the mod's directory, and `values` the
/// current values of its settings.
pub fn describe_mod(
    target: Option<(BepInExRuntime, BepInExArchitecture)>,
    marker: Option<&ModInstallMarker>,
    app_id: u32,
    definition: ModDefinition,
    values: Vec<(String, ConfigValue)>,
) -> (described: GameMod)
    ensures
        (described.status, crate::plan::opt_text(described.installed_version)) == mod_status(
            target,
            match marker {
                Some(m) => Some(*m),
                None => None,
            },
            app_id,
            definition,
        ),
        described.mod_id == definition.mod_id,
        described.guid == definition.guid,
        described.version == definition.version,
        described.official == definition.official,
        !described.external,
        described.name == definition.name,
        described.description == definition.description,
        described.integration == definition.integration,
        described.dependencies == definition.dependencies,
        described.conflicts == definition.conflicts,
        described.config == definition.config,
        described.values == values,
        !described.restart_required,
        marker matches Some(m) && m.app_id == app_id && m.mod_id@ == definition.mod_id@ && m.version@
            == definition.version@ ==> described.status == GameModStatus::Installed,
{
    let compatible = match target {
        Some((runtime, architecture)) => runtime == definition.compatibility.runtime
            && crate::plan::architecture_listed(&definition.compatibility.architectures, architecture),
        None => false,
    };
    let (status, installed_version) = match marker {
        Some(m) => {
            if m.app_id == app_id && crate::text::str_equal(m.mod_id.as_str(), definition.mod_id.as_str()) {
                let status = if compare_versions(m.version.as_str(), definition.version.as_str()) == -1 {
                    GameModStatus::UpdateAvailable
                } else {
                    GameModStatus::Installed
                };
                (status, Some(m.version.clone()))
            } else {
                (GameModStatus::Blocked, None)
            }
        },
        None => {
            if compatible {
                (GameModStatus::NotInstalled, None)
            } else {
                (GameModStatus::Blocked, None)
            }
        },
    };
    let ModDefinition {
        schema_version: _,
        mod_id,
        guid,
        version,
        official,
        name,
        description,
        integration,
        compatibility: _,
        release: _,
        dependencies,
        conflicts,
        config,
    } = definition;
    GameMod {
        mod_id,
        guid,
        version,
        installed_version,
        official,
        external: false,
        name,
        description,
        integration,
        status,
        dependencies,
        conflicts,
        config,
        values,
        restart_required: false,
    }
}

/// A catalog mod that this app installed for the game is shown as having an
/// update exactly when its installed version orders before the catalog's;
/// the catalog's own version or a later one is shown as installed, and the
/// installed version is shown.
pub proof fn installed_mods_show_updates_only_for_older_versions(
    target: Option<(BepInExRuntime, BepInExArchitecture)>,
    marker: Option<&ModInstallMarker>,
    app_id: u32,
    definition: ModDefinition,
    values: Vec<(String, ConfigValue)>,
    described: GameMod,
)
    requires
        call_ensures(describe_mod, (target, marker, app_id, definition, values), described),
        marker is Some,
        marker->0.app_id == app_id,
        marker->0.mod_id@ == definition.mod_id@,
    ensures
        described.status == GameModStatus::UpdateAvailable <==> semver_order(marker->0.version@, definition.version@)
            == -1,
        described.status == GameModStatus::UpdateAvailable || described.status == GameModStatus::Installed,
        semver_order(marker->0.version@, definition.version@) == 1 ==> described.status == GameModStatus::Installed,
        marker->0.version@ == definition.version@ ==> described.status == GameModStatus::Installed,
        crate::plan::opt_text(described.installed_version) == Some(marker->0.version@),
{
}

/// A marker that GameTweaks may trust, as far as its contents show: schema
/// 1, valid identifier, GUID, version and digest, 1 to 1000 files without
/// repeats, among them a DLL.
pub open spec fn marker_contents_valid(marker: ModInstallMarker) -> bool {
    &&& marker_fields_valid(marker)
    &&& exists|i: int| 0 <= i < marker.files@.len() && #[trigger] is_dll_name(marker.files@[i]@)
}

/// The fields of a marker are valid, its file list aside from its DLL.
pub open spec fn marker_fields_valid(marker: ModInstallMarker) -> bool {
    &&& marker.schema_version == 1
    &&& spec_valid_identifier(marker.mod_id@)
    &&& spec_valid_guid(marker.guid@)
    &&& semver_valid(marker.version@)
    &&& spec_valid_sha256(marker.sha256@)
    &&& 0 < marker.files@.len() <= 1000
    &&& no_repeats(texts(marker.files@))
}

/// A file name that ends with `.dll` in any ASCII case.
pub open spec fn is_dll_name(name: Seq<char>) -> bool {
    let lower = lower_chars(name);
    lower.len() >= 4 && lower.subrange(lower.len() - 4, lower.len() as int) == seq![
        '.',
        'd',
        'l',
        'l',
    ]
}

/// Whether a file name ends with `.dll` in any ASCII case.
pub fn dll_name(name: &str) -> (dll: bool)
    ensures
        dll == is_dll_name(name@),
{
    let lower = crate::text::ascii_lowercase(name);
    let chars = crate::text::chars_of(lower.as_str());
    let n = chars.len();
    if n >= 4 && chars[n - 4] == '.' && chars[n - 3] == 'd' && chars[n - 2] == 'l' && chars[n - 1]
        == 'l' {
        proof {
            assert(chars@.subrange(n - 4, n as int) =~= seq!['.', 'd', 'l', 'l']);
        }
        true
    } else {
        false
    }
}

/// Whether the contents of a mod marker can be trusted; the app checks in
/// addition that each file is a safe relative path to a regular file.
pub fn valid_marker_contents(marker: &ModInstallMarker) -> (valid: bool)
    ensures
        valid == marker_contents_valid(*marker),
{
    if marker.schema_version != 1 || !valid_identifier(marker.mod_id.as_str()) || !valid_guid(
        marker.guid.as_str(),
    ) || !parses_as_version(marker.version.as_str()) || !valid_sha256(marker.sha256.as_str())
        || marker.files.len() == 0 || marker.files.len() > 1000 || !repeats_free(&marker.files) {
        return false;
    }
    let mut i: usize = 0;
    while i < marker.files.len()
        invariant
            i <= marker.files@.len(),
            marker_fields_valid(*marker),
            forall|j: int| 0 <= j < i ==> !is_dll_name(#[trigger] marker.files@[j]@),
        decreases marker.files@.len() - i,
    {
        if dll_name(marker.files[i].as_str()) {
            proof {
                assert(is_dll_name(marker.files@[i as int]@));
            }
            return true;
        }
        i = i + 1;
    }
    false
}

/// The marker that records `files` of `definition` installed into the game
/// `app_id`.
pub open spec fn records_install(
    marker: ModInstallMarker,
    app_id: u32,
    definition: ModDefinition,
    files: Seq<Seq<char>>,
) -> bool {
    &&& marker.schema_version == 1
    &&& marker.app_id == app_id
    &&& marker.mod_id@ == definition.mod_id@
    &&& marker.guid@ == definition.guid@
    &&& marker.version@ == definition.version@
    &&& marker.sha256@ == lower_chars(definition.release.sha256@)
    &&& texts(marker.files@) == files
}

/// The marker written into a mod's directory once its release is
/// unpacked: the definition's identity and digest (in lowercase) and the
/// files the release holds.
pub fn install_marker(app_id: u32, definition: &ModDefinition, files: Vec<String>) -> (marker: ModInstallMarker)
    ensures
        records_install(marker, app_id, *definition, texts(files@)),
{
    ModInstallMarker {
        schema_version: 1,
        app_id,
        mod_id: definition.mod_id.clone(),
        guid: definition.guid.clone(),
        version: definition.version.clone(),
        sha256: ascii_lowercase(definition.release.sha256.as_str()),
        files,
    }
}

/// The files that scanning archive entries keeps are distinct, no more than
/// the entries scanned, and among the paths seen.
proof fn lemma_scanned_files(entries: Seq<ArchiveEntry>, n: int, package: bool, limit: int)
    requires
        scan_entries(entries, n, package, limit) is Some,
    ensures
        scan_entries(entries, n, package, limit) matches Some((seen, _, files)) && no_repeats(files) && files.len()
            <= if n < 0 { 0 } else { n } && forall|k: int| 0 <= k < files.len() ==> seen.contains(#[trigger] files[k]),
    decreases n,
{
    if n <= 0 || n > entries.len() {
    } else {
        lemma_scanned_files(entries, n - 1, package, limit);
        let (seen, total, files) = scan_entries(entries, n - 1, package, limit).unwrap();
        let e = entries[n - 1];
        let p = crate::archives::forward_slashes(e.path.unwrap()@);
        if !e.is_dir {
            assert forall|a: int, b: int| 0 <= a < b < files.push(p).len() implies files.push(p)[a] != files.push(
                p,
            )[b] by {
                if b == files.len() {
                    assert(seen.contains(files[a]));
                }
            }
        }
        let (seen2, _, files2) = scan_entries(entries, n, package, limit).unwrap();
        assert forall|k: int| 0 <= k < files2.len() implies seen2.contains(#[trigger] files2[k]) by {
            if k < files.len() {
                assert(seen.contains(files[k]));
                assert(files2[k] == files[k]);
                assert(seen2 == seen.push(p));
                let j = choose|j: int| 0 <= j < seen.len() && seen[j] == files[k];
                assert(seen2[j] == files[k]);
            } else {
                assert(seen2[seen.len() as int] == p);
            }
        }
    }
}

/// A text whose UTF-8 bytes are digits or lowercase hexadecimal letters is
/// unchanged by ASCII lowercasing.
proof fn lemma_lower_hex_unchanged(s: Seq<char>)
    requires
        forall|i: int| 0 <= i < encode_utf8(s).len() ==> is_lower_hex_digit(#[trigger] encode_utf8(s)[i]),
    ensures
        lower_chars(s) == s,
    decreases s.len(),
{
    if s.len() > 0 {
        let c = s[0];
        let v = c as u32;
        let head = encode_scalar(v);
        assert(encode_utf8(s) == head + encode_utf8(s.drop_first()));
        assert(encode_utf8(s)[0] == head[0]);
        assert(is_lower_hex_digit(head[0]));
        vstd::utf8::char_is_scalar(c);
        if has_width_1_encoding(v) {
            assert(((v & 0x7F) as u8) as u32 == v) by (bit_vector)
                requires
                    v <= 0x7F,
            ;
            assert(head[0] as u32 == v);
        } else if vstd::utf8::has_width_2_encoding(v) {
            assert((0xC0u8 | ((v >> 6) & 0x1F) as u8) >= 0xC0u8) by (bit_vector);
        } else if vstd::utf8::has_width_3_encoding(v) {
            assert((0xE0u8 | ((v >> 12) & 0x0F) as u8) >= 0xE0u8) by (bit_vector);
        } else {
            assert((0xF0u8 | ((v >> 18) & 0x7) as u8) >= 0xF0u8) by (bit_vector);
        }
        assert(lower_char(c) == c);
        assert forall|i: int| 0 <= i < encode_utf8(s.drop_first()).len() implies is_lower_hex_digit(
            #[trigger] encode_utf8(s.drop_first())[i],
        ) by {
            assert(encode_utf8(s)[head.len() + i] == encode_utf8(s.drop_first())[i]);
        }
        lemma_lower_hex_unchanged(s.drop_first());
        assert(lower_chars(s) =~= s) by {
            assert forall|i: int| 0 <= i < s.len() implies lower_chars(s)[i] == s[i] by {
                if i > 0 {
                    assert(lower_chars(s.drop_first())[i - 1] == s.drop_first()[i - 1]);
                }
            }
        }
    }
}

/// A mod installed from a valid release is one the app trusts later: the
/// marker written for a definition without problems and for the files of
/// an archive that passed its checks has contents that reading it back
/// accepts.
pub proof fn installed_marker_is_trusted(
    marker: ModInstallMarker,
    app_id: u32,
    definition: ModDefinition,
    entries: Seq<ArchiveEntry>,
)
    requires
        definition_problem(definition) is None,
        mod_archive_files(entries) is Some,
        records_install(marker, app_id, definition, mod_archive_files(entries).unwrap()),
    ensures
        marker_contents_valid(marker),
{
    assert(definition_head_valid(definition));
    let files = mod_archive_files(entries).unwrap();
    lemma_scanned_files(entries, entries.len() as int, false, crate::archives::mod_archive_limit());
    let sha = definition.release.sha256@;
    assert(spec_valid_lower_sha256(sha));
    lemma_lower_hex_unchanged(sha);
    assert(marker.sha256@ == sha);
    let i = choose|i: int| 0 <= i < files.len() && #[trigger] is_dll_name(files[i]);
    assert(marker.files@[i]@ == files[i]);
    assert(is_dll_name(marker.files@[i]@));
}

/// The value of a setting: what its raw text in the configuration file
/// reads as (`decimal` being that text as a double), or its default where
/// there is no text or it does not read.
pub fn field_value_from(field: &ConfigField, raw: Option<&str>, decimal: Option<ConfigValue>) -> (value:
    ConfigValue)
    ensures
        value.model() == match raw {
            Some(r) => match spec_parse_field_value(*field, r@, match decimal {
                Some(d) => Some(d.model()),
                None => None,
            }) {
                Some(v) => v,
                None => field.spec_default_value(),
            },
            None => field.spec_default_value(),
        },
{
    match raw {
        Some(r) => match parse_field_value(field, r, decimal) {
            Some(v) => v,
            None => field.default_value(),
        },
        None => field.default_value(),
    }
}

} // verus!
