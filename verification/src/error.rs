use vstd::prelude::*;
use vstd::string::StringExecFns;

verus! {

/// The errors of the backend, each with the message that describes it.
#[derive(Clone, Debug)]
pub enum AppError {
    Config(String),
    Process(String),
    Monitoring(String),
    Network(String),
    SteamDiscovery(String),
    BepInEx { code: &'static str, message: String },
    GameMods { code: &'static str, message: String },
    Updater(String),
}

/// The error as the frontend receives it: a stable code and a message.
#[derive(Clone, Debug)]
pub struct ErrorResponse {
    pub code: &'static str,
    pub message: String,
}

impl AppError {
    /// The stable code of an error.
    pub open spec fn spec_code(&self) -> Seq<char> {
        match self {
            AppError::Config(_) => "config_error"@,
            AppError::Process(_) => "process_error"@,
            AppError::Monitoring(_) => "monitoring_error"@,
            AppError::Network(_) => "network_error"@,
            AppError::SteamDiscovery(_) => "steam_discovery_error"@,
            AppError::BepInEx { code, .. } => code@,
            AppError::GameMods { code, .. } => code@,
            AppError::Updater(_) => "updater_error"@,
        }
    }

    /// The displayed message of an error: a prefix naming its kind, then
    /// the detail.
    pub open spec fn spec_message(&self) -> Seq<char> {
        match self {
            AppError::Config(m) => "configuration error: "@ + m@,
            AppError::Process(m) => "process error: "@ + m@,
            AppError::Monitoring(m) => "monitoring error: "@ + m@,
            AppError::Network(m) => "network error: "@ + m@,
            AppError::SteamDiscovery(m) => "steam discovery error: "@ + m@,
            AppError::BepInEx { message, .. } => "BepInEx error: "@ + message@,
            AppError::GameMods { message, .. } => "game mod error: "@ + message@,
            AppError::Updater(m) => "updater error: "@ + m@,
        }
    }

    /// The displayed message of the error.
    pub fn to_message(&self) -> (message: String)
        ensures
            message@ == self.spec_message(),
    {
        let (prefix, detail) = match self {
            AppError::Config(m) => ("configuration error: ", m),
            AppError::Process(m) => ("process error: ", m),
            AppError::Monitoring(m) => ("monitoring error: ", m),
            AppError::Network(m) => ("network error: ", m),
            AppError::SteamDiscovery(m) => ("steam discovery error: ", m),
            AppError::BepInEx { message, .. } => ("BepInEx error: ", message),
            AppError::GameMods { message, .. } => ("game mod error: ", message),
            AppError::Updater(m) => ("updater error: ", m),
        };
        prefix.to_string().concat(detail.as_str())
    }
}

/// Converts an error into the response sent to the frontend.
pub fn error_response(error: AppError) -> (response: ErrorResponse)
    ensures
        response.code@ == error.spec_code(),
        response.message@ == error.spec_message(),
{
    let message = error.to_message();
    let code: &'static str = match &error {
        AppError::Config(_) => "config_error",
        AppError::Process(_) => "process_error",
        AppError::Monitoring(_) => "monitoring_error",
        AppError::Network(_) => "network_error",
        AppError::SteamDiscovery(_) => "steam_discovery_error",
        AppError::BepInEx { code, .. } => code,
        AppError::GameMods { code, .. } => code,
        AppError::Updater(_) => "updater_error",
    };
    ErrorResponse { code, message }
}

impl From<AppError> for ErrorResponse {
    fn from(error: AppError) -> (response: ErrorResponse) {
        error_response(error)
    }
}

impl vstd::std_specs::convert::FromSpecImpl<AppError> for ErrorResponse {
    /// Responses are not determined by a spec value (their message is a
    /// `String`); `error_response` states what a conversion yields.
    open spec fn obeys_from_spec() -> bool {
        false
    }

    open spec fn from_spec(error: AppError) -> ErrorResponse {
        choose|response: ErrorResponse|
            response.code@ == error.spec_code() && response.message@ == error.spec_message()
    }
}

/// A game-mod error with the given code and detail.
pub fn mod_error(code: &'static str, detail: &str) -> (response: ErrorResponse)
    ensures
        response.code@ == code@,
        response.message@ == "game mod error: "@ + detail@,
{
    error_response(AppError::GameMods { code, message: detail.to_string() })
}

/// An error of the agent's installation or connection, reported as a
/// game-mod error, with the given code and detail.
pub fn agent_error(code: &'static str, detail: &str) -> (response: ErrorResponse)
    ensures
        response.code@ == code@,
        response.message@ == "game mod error: "@ + detail@,
{
    mod_error(code, detail)
}

/// A BepInEx error with the given code and detail.
pub fn bepinex_error(code: &'static str, detail: &str) -> (response: ErrorResponse)
    ensures
        response.code@ == code@,
        response.message@ == "BepInEx error: "@ + detail@,
{
    error_response(AppError::BepInEx { code, message: detail.to_string() })
}

} // verus!
