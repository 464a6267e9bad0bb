//! The decisions that the window's callbacks make once a command's outcome
//! is known: what is shown, and what runs next.
use vstd::prelude::*;
use crate::window::{show_error, Window};

verus! {

/// Surfaces a failure: an error opens the error popup with its text; a
/// success leaves the window as it is.
pub fn report(ui: &mut Window, r: Result<(), String>)
    ensures
        match r {
            Ok(_) => *final(ui) == *old(ui),
            Err(e) => *final(ui) == (Window { error_text: e, error_popup_open: true, ..*old(ui) }),
        },
{
    match r {
        Ok(()) => {},
        Err(e) => show_error(ui, e),
    }
}

/// What the window shows when asked to join `ssid` that is not saved: the
/// password popup for it, without an error.
pub open spec fn asks_password(before: Window, after: Window, ssid: String) -> bool {
    after == (Window {
        pending_ssid: ssid,
        password_error: false,
        password_error_text: after.password_error_text,
        password_popup_open: true,
        ..before
    }) && after.password_error_text@ == Seq::<char>::empty()
}

/// Handles a request to join `ssid`, given how
/// [`crate::wifi::try_connect_known`] ended (its `Done` outcome): a saved
/// network that was brought up asks for the network lists to be refreshed
/// (`true`); one that is not saved opens the password popup; a failure
/// opens the error popup.
pub fn on_connect(ui: &mut Window, ssid: String, known: Result<bool, String>) -> (refresh: bool)
    ensures
        match known {
            Ok(true) => refresh && *final(ui) == *old(ui),
            Ok(false) => !refresh && asks_password(*old(ui), *final(ui), ssid),
            Err(e) => !refresh && *final(ui) == (Window {
                error_text: e,
                error_popup_open: true,
                ..*old(ui)
            }),
        },
{
    match known {
        Ok(true) => true,
        Ok(false) => {
            ui.pending_ssid = ssid;
            ui.password_error = false;
            ui.password_error_text = String::new();
            ui.password_popup_open = true;
            false
        },
        Err(e) => {
            show_error(ui, e);
            false
        },
    }
}

/// Handles the outcome of joining a new network with a password (from
/// [`crate::wifi::connect_new_network`]).  On success the password error is
/// cleared and the lists are to be refreshed (`false`: nothing more to
/// run); on failure nothing is shown yet and the connection profile that
/// the attempt left must be forgotten (`true`), after which
/// [`on_connect_new_failed`] finishes.
pub fn on_connect_new(ui: &mut Window, connected: &Result<(), String>) -> (forget_next: bool)
    ensures
        connected is Ok ==> !forget_next && *final(ui) == (Window { password_error: false, ..*old(ui) }),
        connected is Err ==> forget_next && *final(ui) == *old(ui),
{
    match connected {
        Ok(()) => {
            ui.password_error = false;
            false
        },
        Err(_) => true,
    }
}

/// The message the password popup shows after a failed attempt.
pub open spec fn wrong_password_text() -> Seq<char> {
    "Incorrect password, or connection failed."@
}

/// Finishes a failed attempt to join a new network, given the outcome of
/// forgetting its profile (from [`crate::wifi::forget_network`]): an error
/// there opens the error popup, and the password popup shows that the
/// password was wrong or the connection failed.
pub fn on_connect_new_failed(ui: &mut Window, forgot: Result<(), String>)
    ensures
        final(ui).password_error,
        final(ui).password_error_text@ == wrong_password_text(),
        match forgot {
            Ok(_) => *final(ui) == (Window {
                password_error: true,
                password_error_text: final(ui).password_error_text,
                ..*old(ui)
            }),
            Err(e) => *final(ui) == (Window {
                password_error: true,
                password_error_text: final(ui).password_error_text,
                error_text: e,
                error_popup_open: true,
                ..*old(ui)
            }),
        },
{
    report(ui, forgot);
    ui.password_error = true;
    ui.password_error_text = "Incorrect password, or connection failed.".to_owned();
}

} // verus!
