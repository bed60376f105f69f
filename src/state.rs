//! The session context: the working directory and the credential, passed
//! explicitly to whatever needs them.
use vstd::prelude::*;
use crate::events::opt_text;

verus! {

pub struct AppState {
    pub working_directory: Option<String>,
    pub api_key: String,
}

impl AppState {
    /// A context with no working directory and the given credential.
    pub fn new(api_key: String) -> (r: AppState)
        ensures
            r.working_directory.is_none(),
            r.api_key@ == api_key@,
    {
        AppState { working_directory: None, api_key }
    }
}

pub fn set_working_directory(state: &mut AppState, path: String)
    ensures
        opt_text(final(state).working_directory) == Some(path@),
        final(state).api_key@ == old(state).api_key@,
{
    state.working_directory = Some(path);
}

pub fn set_api_key(state: &mut AppState, key: String)
    ensures
        final(state).api_key@ == key@,
        opt_text(final(state).working_directory) == opt_text(old(state).working_directory),
{
    state.api_key = key;
}

pub fn has_api_key(state: &AppState) -> (r: bool)
    ensures
        r == (state.api_key@.len() > 0),
{
    !state.api_key.as_str().is_empty()
}

pub open spec fn missing_key_message() -> Seq<char> {
    "ANTHROPIC_API_KEY not set. Please set it as an environment variable."@
}

pub open spec fn no_directory_message() -> Seq<char> {
    "No working directory set"@
}

/// The credential and working directory a request needs. An empty stored
/// credential is first replaced by `fallback_key` where there is one (and kept).
/// Fails, in this order, without a credential or without a working directory.
pub fn request_settings(state: &mut AppState, fallback_key: Option<String>) -> (r: Result<(String, String), String>)
    ensures
        final(state).api_key@ == (if old(state).api_key@.len() == 0 && fallback_key.is_some() {
            fallback_key.unwrap()@
        } else {
            old(state).api_key@
        }),
        opt_text(final(state).working_directory) == opt_text(old(state).working_directory),
        match r {
            Ok((key, dir)) => final(state).api_key@.len() > 0 && key@ == final(state).api_key@
                && opt_text(old(state).working_directory) == Some(dir@),
            Err(m) => if final(state).api_key@.len() == 0 {
                m@ == missing_key_message()
            } else {
                old(state).working_directory.is_none() && m@ == no_directory_message()
            },
        },
{
    if state.api_key.as_str().is_empty() {
        if let Some(k) = fallback_key {
            state.api_key = k;
        }
    }
    if state.api_key.as_str().is_empty() {
        return Err("ANTHROPIC_API_KEY not set. Please set it as an environment variable.".to_owned());
    }
    match &state.working_directory {
        Some(d) => Ok((state.api_key.clone(), d.clone())),
        None => Err("No working directory set".to_owned()),
    }
}

} // verus!
