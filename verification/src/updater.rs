//! Which published release of the app an update comes from, and how the
//! download of an update progresses.
use vstd::prelude::*;
use vstd::string::StringExecFns;

use crate::bepinex::{progress_percentage, spec_percentage};
use crate::config::UpdateChannel;
use crate::error::{error_response, AppError, ErrorResponse};
use crate::packages::{parse_url, parsed_url, UrlView, WebUrl};
use crate::text::str_equal;

verus! {

/// The tag of the release that development builds are published under.
pub const DEVELOPMENT_RELEASE_TAG: &'static str = "DEV_RELEASE";

/// The asset of a release that describes its update.
pub const UPDATER_MANIFEST_ASSET_NAME: &'static str = "latest.json";

/// A release of the app as GitHub lists it.
#[derive(Clone, Debug)]
pub struct AppRelease {
    pub draft: bool,
    pub prerelease: bool,
    pub tag_name: String,
    pub assets: Vec<AppReleaseAsset>,
}

/// A file published with a release.
#[derive(Clone, Debug)]
pub struct AppReleaseAsset {
    pub name: String,
    pub browser_download_url: String,
}

/// What the app tells the user of an available update.
#[derive(Clone, Debug)]
pub struct UpdateInfo {
    pub current_version: String,
    pub version: String,
    pub date: Option<String>,
    pub body: Option<String>,
    pub channel: UpdateChannel,
}

/// The name of a release channel.
pub open spec fn channel_label(channel: UpdateChannel) -> Seq<char> {
    match channel {
        UpdateChannel::Stable => "stable"@,
        UpdateChannel::Beta => "beta"@,
    }
}

/// The name of a release channel.
pub fn update_channel_label(channel: UpdateChannel) -> (label: &'static str)
    ensures
        label@ == channel_label(channel),
{
    match channel {
        UpdateChannel::Stable => "stable",
        UpdateChannel::Beta => "beta",
    }
}

/// A release that a channel offers: published, not the development
/// release, and a pre-release exactly on the beta channel.
pub open spec fn offered(release: AppRelease, channel: UpdateChannel) -> bool {
    &&& !release.draft
    &&& release.tag_name@ != DEVELOPMENT_RELEASE_TAG@
    &&& match channel {
        UpdateChannel::Stable => !release.prerelease,
        UpdateChannel::Beta => release.prerelease,
    }
}

/// The first release in the list that a channel offers.
pub open spec fn first_offered(releases: Seq<AppRelease>, channel: UpdateChannel, i: int) -> int
    decreases releases.len() - i,
{
    if i < 0 || i >= releases.len() {
        -1
    } else if offered(releases[i], channel) {
        i
    } else {
        first_offered(releases, channel, i + 1)
    }
}

/// The first asset of a release that describes its update.
pub open spec fn manifest_index(assets: Seq<AppReleaseAsset>, i: int) -> int
    decreases assets.len() - i,
{
    if i < 0 || i >= assets.len() {
        -1
    } else if assets[i].name@ == UPDATER_MANIFEST_ASSET_NAME@ {
        i
    } else {
        manifest_index(assets, i + 1)
    }
}

/// Where the update description of a channel is found: the address of the
/// manifest asset of the first release the channel offers, when there is
/// such a release and asset and the address parses.
pub open spec fn endpoint_of(releases: Seq<AppRelease>, channel: UpdateChannel) -> Option<UrlView> {
    let r = first_offered(releases, channel, 0);
    if r < 0 {
        None
    } else {
        let a = manifest_index(releases[r].assets@, 0);
        if a < 0 {
            None
        } else {
            parsed_url(releases[r].assets@[a].browser_download_url@)
        }
    }
}

proof fn lemma_first_offered(releases: Seq<AppRelease>, channel: UpdateChannel, i: int)
    requires
        0 <= i <= releases.len(),
    ensures
        first_offered(releases, channel, i) == -1 || i <= first_offered(releases, channel, i) < releases.len(),
    decreases releases.len() - i,
{
    if i < releases.len() && !offered(releases[i], channel) {
        lemma_first_offered(releases, channel, i + 1);
    }
}

proof fn lemma_manifest_index(assets: Seq<AppReleaseAsset>, i: int)
    requires
        0 <= i <= assets.len(),
    ensures
        manifest_index(assets, i) == -1 || i <= manifest_index(assets, i) < assets.len(),
    decreases assets.len() - i,
{
    if i < assets.len() && assets[i].name@ != UPDATER_MANIFEST_ASSET_NAME@ {
        lemma_manifest_index(assets, i + 1);
    }
}

proof fn lemma_first_offered_is_first(releases: Seq<AppRelease>, channel: UpdateChannel, i: int)
    requires
        0 <= i <= releases.len(),
    ensures
        first_offered(releases, channel, i) == -1 ==> forall|q: int|
            i <= q < releases.len() ==> !offered(#[trigger] releases[q], channel),
        first_offered(releases, channel, i) >= 0 ==> {
            let r = first_offered(releases, channel, i);
            &&& i <= r < releases.len()
            &&& offered(releases[r], channel)
            &&& forall|q: int| i <= q < r ==> !offered(#[trigger] releases[q], channel)
        },
    decreases releases.len() - i,
{
    if i < releases.len() && !offered(releases[i], channel) {
        lemma_first_offered_is_first(releases, channel, i + 1);
    }
}

/// A channel follows the first release in the list that it offers, and
/// only that one: where no release is offered there is no endpoint, and the
/// endpoint is the parsed address of an asset named for the update
/// description of that release. The stable and the beta channel never
/// follow the same release.
pub proof fn channel_follows_its_first_offered_release(releases: Seq<AppRelease>, channel: UpdateChannel)
    ensures
        (forall|q: int| 0 <= q < releases.len() ==> !offered(#[trigger] releases[q], channel)) ==> endpoint_of(
            releases,
            channel,
        ) is None,
        endpoint_of(releases, channel) matches Some(url) ==> exists|r: int, a: int|
            {
                &&& 0 <= r < releases.len()
                &&& offered(#[trigger] releases[r], channel)
                &&& forall|q: int| 0 <= q < r ==> !offered(#[trigger] releases[q], channel)
                &&& 0 <= a < releases[r].assets@.len()
                &&& (#[trigger] releases[r].assets@[a]).name@ == UPDATER_MANIFEST_ASSET_NAME@
                &&& parsed_url(releases[r].assets@[a].browser_download_url@) == Some(url)
            },
        first_offered(releases, UpdateChannel::Stable, 0) >= 0 ==> first_offered(releases, UpdateChannel::Stable, 0)
            != first_offered(releases, UpdateChannel::Beta, 0),
{
    lemma_first_offered_is_first(releases, channel, 0);
    lemma_first_offered_is_first(releases, UpdateChannel::Stable, 0);
    lemma_first_offered_is_first(releases, UpdateChannel::Beta, 0);
    let r = first_offered(releases, channel, 0);
    if (forall|q: int| 0 <= q < releases.len() ==> !offered(#[trigger] releases[q], channel)) {
        if r >= 0 {
            assert(!offered(releases[r], channel));
        }
    }
    if r >= 0 {
        lemma_manifest_index(releases[r].assets@, 0);
        let a = manifest_index(releases[r].assets@, 0);
        if a >= 0 {
            match endpoint_of(releases, channel) {
                Some(url) => {
                    assert(releases[r].assets@[a].name@ == UPDATER_MANIFEST_ASSET_NAME@) by {
                        lemma_manifest_named(releases[r].assets@, 0);
                    }
                },
                None => {},
            }
        }
    }
}

proof fn lemma_manifest_named(assets: Seq<AppReleaseAsset>, i: int)
    requires
        0 <= i <= assets.len(),
    ensures
        manifest_index(assets, i) >= 0 ==> assets[manifest_index(assets, i)].name@ == UPDATER_MANIFEST_ASSET_NAME@,
    decreases assets.len() - i,
{
    if i < assets.len() && assets[i].name@ != UPDATER_MANIFEST_ASSET_NAME@ {
        lemma_manifest_named(assets, i + 1);
    }
}

fn updater_failure(message: String) -> (response: ErrorResponse)
    ensures
        response.code@ == "updater_error"@,
{
    let error = AppError::Updater(message);
    proof {
        assert(error.spec_code() == "updater_error"@);
    }
    error_response(error)
}

/// The address of the update description that a channel follows, from the
/// releases GitHub lists, newest first.
pub fn update_endpoint(releases: &Vec<AppRelease>, channel: UpdateChannel) -> (endpoint: Result<WebUrl, ErrorResponse>)
    ensures
        match endpoint {
            Ok(url) => endpoint_of(releases@, channel) == Some(url.view_of()),
            Err(e) => endpoint_of(releases@, channel) is None && e.code@ == "updater_error"@,
        },
{
    let mut r: usize = 0;
    while r < releases.len()
        invariant
            r <= releases@.len(),
            first_offered(releases@, channel, 0) == first_offered(releases@, channel, r as int),
        ensures
            r <= releases@.len(),
            first_offered(releases@, channel, 0) == first_offered(releases@, channel, r as int),
            r < releases@.len() ==> offered(releases@[r as int], channel),
        decreases releases@.len() - r,
    {
        let release = &releases[r];
        let wanted = match channel {
            UpdateChannel::Stable => !release.prerelease,
            UpdateChannel::Beta => release.prerelease,
        };
        if !release.draft && !str_equal(release.tag_name.as_str(), DEVELOPMENT_RELEASE_TAG) && wanted {
            break;
        }
        r = r + 1;
    }
    if r == releases.len() {
        let message = "no published ".to_string().concat(update_channel_label(channel)).concat(" release was found");
        return Err(updater_failure(message));
    }
    proof {
        lemma_first_offered(releases@, channel, 0);
    }
    let release = &releases[r];
    let mut a: usize = 0;
    while a < release.assets.len()
        invariant
            a <= release.assets@.len(),
            manifest_index(release.assets@, 0) == manifest_index(release.assets@, a as int),
        ensures
            a <= release.assets@.len(),
            manifest_index(release.assets@, 0) == manifest_index(release.assets@, a as int),
            a < release.assets@.len() ==> release.assets@[a as int].name@ == UPDATER_MANIFEST_ASSET_NAME@,
        decreases release.assets@.len() - a,
    {
        if str_equal(release.assets[a].name.as_str(), UPDATER_MANIFEST_ASSET_NAME) {
            break;
        }
        a = a + 1;
    }
    if a == release.assets.len() {
        let message = "release ".to_string().concat(release.tag_name.as_str()).concat(" does not provide ").concat(
            UPDATER_MANIFEST_ASSET_NAME,
        );
        return Err(updater_failure(message));
    }
    proof {
        lemma_manifest_index(release.assets@, 0);
    }
    match parse_url(release.assets[a].browser_download_url.as_str()) {
        Some(url) => Ok(url),
        None => {
            let message = "failed to parse updater manifest URL for release ".to_string().concat(
                release.tag_name.as_str(),
            );
            Err(updater_failure(message))
        },
    }
}

/// The bytes of an update counted after one more chunk, saturating, and the
/// percentage to report.
pub fn update_progress(downloaded: u64, chunk: u64, total: Option<u64>) -> (progress: (u64, Option<u64>))
    ensures
        progress.0 == (if downloaded + chunk > u64::MAX {
            u64::MAX as int
        } else {
            downloaded + chunk
        }),
        progress.1 == spec_percentage(progress.0, total),
{
    let counted = if downloaded > u64::MAX - chunk {
        u64::MAX
    } else {
        downloaded + chunk
    };
    (counted, progress_percentage(counted, total))
}

} // verus!
