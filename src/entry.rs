//! The rules of the two entry points: when initialization may go ahead and
//! how it ends, and which `play_track` calls produce a command for the worker.
//! The caller of these functions performs what they decide: it connects the
//! session, publishes the process state once, and hands commands to the
//! worker's channel.
use crate::track_uri::{parse_track_uri, track_id_from_spotify_uri};
use vstd::prelude::*;
use vstd::string::StringSliceAdditionalSpecFns;

verus! {

/// Why `initialize_worker` reports failure.
#[derive(Clone, Copy, Debug, PartialEq, Eq, Structural)]
pub enum InitError {
    /// A worker was already started in this process; it is left untouched.
    AlreadyInitialized,
    /// The user name or the password is missing or empty.
    MissingCredentials,
    /// The session could not be established.
    AuthenticationFailed,
}

/// Why `play_track` reports failure.
#[derive(Clone, Copy, Debug, PartialEq, Eq, Structural)]
pub enum PlayError {
    /// The URI was missing or was not valid UTF-8 text.
    InvalidText,
    /// The URI is not a track URI.
    NotATrack,
    /// The URI is shaped as a track URI, but its identifier is corrupt.
    MalformedId,
    /// No worker has been started yet.
    NotInitialized,
}

/// A credential is given when it is present and not empty.
pub open spec fn credential_given(c: Option<&str>) -> bool {
    match c {
        Some(s) => s@.len() > 0,
        None => false,
    }
}

/// Decides whether initialization may connect a session. Nothing is done on
/// an `Err`.
pub fn validate_initialize(
    initialized: bool,
    username: Option<&str>,
    password: Option<&str>,
) -> (r: Result<(), InitError>)
    ensures
        r == (if initialized {
            Err(InitError::AlreadyInitialized)
        } else if !credential_given(username) || !credential_given(password) {
            Err(InitError::MissingCredentials)
        } else {
            Ok::<(), InitError>(())
        }),
{
    if initialized {
        return Err(InitError::AlreadyInitialized);
    }
    let given = match (username, password) {
        (Some(u), Some(p)) => !u.is_empty() && !p.is_empty(),
        _ => false,
    };
    if given {
        Ok(())
    } else {
        Err(InitError::MissingCredentials)
    }
}

/// How initialization ends once the session connect has returned
/// (`connected`) and, if it succeeded, the new worker's state was offered to
/// the process-wide cell (`published`: the cell was still empty and took it).
/// A worker that lost the race to another initialization is not published and
/// the first one stays as it is.
pub fn finish_initialize(connected: bool, published: bool) -> (r: Result<(), InitError>)
    ensures
        r == (if !connected {
            Err(InitError::AuthenticationFailed)
        } else if !published {
            Err(InitError::AlreadyInitialized)
        } else {
            Ok::<(), InitError>(())
        }),
{
    if !connected {
        Err(InitError::AuthenticationFailed)
    } else if !published {
        Err(InitError::AlreadyInitialized)
    } else {
        Ok(())
    }
}

/// The outcome of `play_track` before anything is sent: the error for a
/// missing or non-text URI, for one that names no track, and for a call made
/// before any worker was started.
pub open spec fn play_track_outcome(initialized: bool, uri: Option<&str>) -> Result<(), PlayError> {
    match uri {
        None => Err(PlayError::InvalidText),
        Some(u) => match parse_track_uri(u.spec_bytes()) {
            Ok(None) => Err(PlayError::NotATrack),
            Err(_) => Err(PlayError::MalformedId),
            Ok(Some(_)) => if initialized {
                Ok(())
            } else {
                Err(PlayError::NotInitialized)
            },
        },
    }
}

/// Before a worker was started, `play_track` sends nothing, whatever the URI.
pub proof fn lemma_no_command_before_initialization(uri: Option<&str>)
    ensures
        play_track_outcome(false, uri) is Err,
{
}

/// Decides what `play_track` hands to the worker: on `Ok`, the command to
/// send, which is the URI itself; on `Err`, nothing is sent.
pub fn plan_play_track(initialized: bool, uri: Option<&str>) -> (r: Result<String, PlayError>)
    ensures
        r is Ok <==> play_track_outcome(initialized, uri) is Ok,
        r is Err ==> play_track_outcome(initialized, uri) == Err::<(), PlayError>(r->Err_0),
        r is Ok ==> r->Ok_0@ == uri->Some_0@,
{
    let u = match uri {
        Some(u) => u,
        None => return Err(PlayError::InvalidText),
    };
    match track_id_from_spotify_uri(u) {
        Ok(None) => Err(PlayError::NotATrack),
        Err(_) => Err(PlayError::MalformedId),
        Ok(Some(_)) => if initialized {
            Ok(u.to_owned())
        } else {
            Err(PlayError::NotInitialized)
        },
    }
}

} // verus!
