use vstd::prelude::*;

verus! {

/// The label shown by local builds, which the release pipeline did not
/// produce.
pub const DEVELOPMENT_VERSION_LABEL: &'static str = "DEV_WORKING";

/// The version label of a build, given the release version that the build
/// environment provided (if any).
pub open spec fn version_label(release: Option<Seq<char>>) -> Seq<char> {
    match release {
        Some(version) => version,
        None => DEVELOPMENT_VERSION_LABEL@,
    }
}

/// The version label of the running build: the release version when the
/// build pipeline provided one, otherwise the development label.
pub fn current(release: Option<&'static str>) -> (label: &'static str)
    ensures
        label@ == version_label(
            match release {
                Some(v) => Some(v@),
                None => None,
            },
        ),
        release is None ==> label@ == "DEV_WORKING"@,
{
    proof {
        reveal_strlit("DEV_WORKING");
    }
    match release {
        Some(version) => version,
        None => DEVELOPMENT_VERSION_LABEL,
    }
}

/// Whether the build was produced by the release pipeline.
pub fn is_release_build(release: Option<&'static str>) -> (released: bool)
    ensures
        released == release.is_some(),
{
    release.is_some()
}

/// The application's name, as the overview shows it.
pub const APP_NAME: &'static str = "GameTweaks";

/// What the overview page shows of the application.
#[derive(Clone, Debug)]
pub struct AppOverview {
    pub name: &'static str,
    pub version: &'static str,
    pub config_version: u32,
}

/// The overview of the running build, given the release version that the
/// build environment provided (if any) and the version of the stored
/// configuration.
pub fn app_overview(release: Option<&'static str>, config_version: u32) -> (overview: AppOverview)
    ensures
        overview.name@ == APP_NAME@,
        overview.version@ == version_label(
            match release {
                Some(v) => Some(v@),
                None => None,
            },
        ),
        overview.config_version == config_version,
{
    AppOverview { name: APP_NAME, version: current(release), config_version }
}

} // verus!
