//! Wi-Fi: what the library makes of `nmcli`'s answers.
use vstd::prelude::*;
use crate::command::{decode_lossy, prefixed, ran, reports, succeeded, utf8_lossy, CommandOutput};
use crate::text::{
    char_vec, line_ranges, lines, range_is, ranges_of, str_eq, terse_field_strings, terse_fields,
    trim, trim_range, views,
};
use crate::window::{display_cur_network, display_saved_networks, Window};

verus! {

/// The power state a toggle asks a radio for.
#[derive(PartialEq, Eq, Structural, Clone, Copy, Debug)]
pub enum Power {
    On,
    Off,
}

/// A toggle asks for the opposite of the current state.
pub fn toggle_target(currently_on: bool) -> (p: Power)
    ensures
        p == (if currently_on {
            Power::Off
        } else {
            Power::On
        }),
{
    if currently_on {
        Power::Off
    } else {
        Power::On
    }
}

/// Whether `nmcli radio wifi` printed `text` for an enabled radio.
pub open spec fn says_enabled(text: Seq<char>) -> bool {
    trim(text) == "enabled"@
}

/// Whether the output of `nmcli radio wifi` says the radio is enabled.
pub fn wifi_radio_enabled(text: &str) -> (b: bool)
    ensures
        b == says_enabled(text@),
{
    let cs = char_vec(text);
    let (a, b) = trim_range(&cs, 0, cs.len());
    proof {
        assert(cs@.subrange(0, cs@.len() as int) == cs@);
    }
    range_is(&cs, a, b, "enabled")
}

/// Reads the radio state from a run of `nmcli radio wifi`.  The radio is
/// shown as on when the command ran and printed `enabled`; when it could
/// not be run it is shown as off and the reason is returned.  The exit
/// status is not looked at.
pub fn set_wifi_on(ui: &mut Window, run: Result<CommandOutput, String>) -> (r: Result<(), String>)
    ensures
        match run {
            Ok(o) => r is Ok && *final(ui) == (Window {
                wifi_on: says_enabled(utf8_lossy(o.stdout@)),
                ..*old(ui)
            }),
            Err(e) => r == Err::<(), String>(e) && *final(ui) == (Window {
                wifi_on: false,
                ..*old(ui)
            }),
        },
{
    match run {
        Ok(o) => {
            let status = decode_lossy(o.stdout.as_slice());
            ui.wifi_on = wifi_radio_enabled(status.as_str());
            Ok(())
        },
        Err(e) => {
            ui.wifi_on = false;
            Err(e)
        },
    }
}

/// The outcome of `nmcli radio wifi on`.
pub fn enable_wifi(run: Result<CommandOutput, String>) -> (r: Result<(), String>)
    ensures
        reports(r, run, "failed to enable wifi: "@),
{
    ran(run, "failed to enable wifi: ")
}

/// The outcome of `nmcli radio wifi off`.
pub fn disable_wifi(run: Result<CommandOutput, String>) -> (r: Result<(), String>)
    ensures
        reports(r, run, "failed to disable wifi: "@),
{
    ran(run, "failed to disable wifi: ")
}

/// The radio state after a toggle from `on` whose command did (`ran`) or did
/// not run successfully.
pub open spec fn after_toggle(on: bool, ran: bool) -> bool {
    if ran {
        !on
    } else {
        on
    }
}

/// Finishes a toggle of the Wi-Fi radio, given the run of the command that
/// [`toggle_target`] asked for (`nmcli radio wifi off` when the radio is
/// shown as on, `on` otherwise).  When the command ran and exited
/// successfully, the window shows the new state; otherwise it is unchanged
/// and the failure is returned.
pub fn toggle_wifi(ui: &mut Window, run: Result<CommandOutput, String>) -> (r: Result<(), String>)
    ensures
        *final(ui) == (Window { wifi_on: after_toggle(old(ui).wifi_on, succeeded(run)), ..*old(ui) }),
        old(ui).wifi_on ==> reports(r, run, "failed to disable wifi: "@),
        !old(ui).wifi_on ==> reports(r, run, "failed to enable wifi: "@),
{
    if ui.wifi_on {
        let result = disable_wifi(run);
        match result {
            Ok(_) => {
                ui.wifi_on = false;
                Ok(())
            },
            Err(e) => Err(e),
        }
    } else {
        let result = enable_wifi(run);
        match result {
            Ok(_) => {
                ui.wifi_on = true;
                Ok(())
            },
            Err(e) => Err(e),
        }
    }
}

/// Two toggles whose commands both succeeded leave the radio as it was; a
/// toggle whose command failed leaves it unchanged.
pub proof fn toggle_twice_restores(on: bool)
    ensures
        after_toggle(after_toggle(on, true), true) == on,
        after_toggle(on, false) == on,
{
}

/// The names of the Wi-Fi connections among the lines `ls` of
/// `nmcli -t -f ACTIVE,NAME,TYPE connection show` whose ACTIVE field is
/// `active`, in order.  Fields are read as terse output writes them (a `:`
/// inside a name is escaped); a line with fewer than three fields is skipped.
pub open spec fn wifi_names(ls: Seq<Seq<char>>, active: Seq<char>) -> Seq<Seq<char>>
    decreases ls.len(),
{
    if ls.len() == 0 {
        seq![]
    } else {
        let f = terse_fields(ls.last());
        let rest = wifi_names(ls.drop_last(), active);
        if f.len() >= 3 && f[2] == "802-11-wireless"@ && f[0] == active {
            rest.push(f[1])
        } else {
            rest
        }
    }
}

/// The names of the Wi-Fi connections in `text` whose ACTIVE field is `active`.
fn connection_names(text: &str, active: &str) -> (v: Vec<String>)
    ensures
        views(v@) == wifi_names(lines(text@), active@),
{
    let cs = char_vec(text);
    let ls = line_ranges(&cs);
    let ghost all = lines(cs@);
    let mut out: Vec<String> = Vec::new();
    let mut k: usize = 0;
    assert(all.take(0) == Seq::<Seq<char>>::empty());
    assert(views(out@) == Seq::<Seq<char>>::empty());
    while k < ls.len()
        invariant
            cs@ == text@,
            all == lines(cs@),
            ranges_of(cs@, ls@, all),
            k <= ls@.len(),
            views(out@) == wifi_names(all.take(k as int), active@),
        decreases ls@.len() - k,
    {
        let (a, b) = ls[k];
        assert(ls@[k as int] == (a, b));
        let mut f = terse_field_strings(text, &cs, a, b);
        proof {
            assert(all.take(k + 1).drop_last() == all.take(k as int));
            assert(all.take(k + 1).last() == all[k as int]);
        }
        if f.len() >= 3 {
            assert(views(f@)[0] == f@[0]@ && views(f@)[1] == f@[1]@ && views(f@)[2] == f@[2]@);
            if str_eq(f[2].as_str(), "802-11-wireless") && str_eq(f[0].as_str(), active) {
                let name = f.swap_remove(1);
                let ghost before = out@;
                let ghost nv = name@;
                out.push(name);
                assert(views(out@) == views(before).push(nv));
            }
        }
        k = k + 1;
    }
    assert(all.take(ls@.len() as int) == all);
    out
}

/// The active network named in `text`: the first active Wi-Fi connection,
/// or `"None"` when there is none.
pub open spec fn active_network_of(text: Seq<char>) -> Seq<char> {
    let names = wifi_names(lines(text), "yes"@);
    if names.len() > 0 {
        names[0]
    } else {
        "None"@
    }
}

/// The active Wi-Fi network in the output of
/// `nmcli -t -f ACTIVE,NAME,TYPE connection show`, or `"None"`.
pub fn active_network(text: &str) -> (s: String)
    ensures
        s@ == active_network_of(text@),
{
    let mut names = connection_names(text, "yes");
    if names.len() > 0 {
        assert(views(names@)[0] == names@[0]@);
        names.swap_remove(0)
    } else {
        "None".to_owned()
    }
}

/// A text result viewed as characters.
pub open spec fn text_result(r: Result<String, String>) -> Result<Seq<char>, Seq<char>> {
    match r {
        Ok(s) => Ok(s@),
        Err(e) => Err(e@),
    }
}

/// What a run of `nmcli -t -f ACTIVE,NAME,TYPE connection show` says about
/// the active network.
pub open spec fn cur_network_result(run: Result<CommandOutput, String>) -> Result<Seq<char>, Seq<char>> {
    match run {
        Err(e) => Err("failed to run nmcli: "@ + e@),
        Ok(o) => if o.success {
            Ok(active_network_of(utf8_lossy(o.stdout@)))
        } else {
            Err("nmcli exited with error: "@ + utf8_lossy(o.stderr@))
        },
    }
}

/// The active network from a run of
/// `nmcli -t -f ACTIVE,NAME,TYPE connection show`: an error when the
/// command could not be run or exited unsuccessfully.
pub fn get_cur_network(run: Result<CommandOutput, String>) -> (r: Result<String, String>)
    ensures
        text_result(r) == cur_network_result(run),
{
    match run {
        Err(e) => Err(prefixed("failed to run nmcli: ", e.as_str())),
        Ok(o) => {
            if o.success {
                let stdout = decode_lossy(o.stdout.as_slice());
                Ok(active_network(stdout.as_str()))
            } else {
                let err_msg = decode_lossy(o.stderr.as_slice());
                Err(prefixed("nmcli exited with error: ", err_msg.as_str()))
            }
        },
    }
}

/// Shows the active network from a run of
/// `nmcli -t -f ACTIVE,NAME,TYPE connection show`; on error the window is
/// unchanged and the error is returned.
pub fn cur_network(ui: &mut Window, run: Result<CommandOutput, String>) -> (r: Result<(), String>)
    ensures
        match cur_network_result(run) {
            Ok(name) => r is Ok && final(ui).curnet@ == name && *final(ui) == (Window {
                curnet: final(ui).curnet,
                ..*old(ui)
            }),
            Err(m) => r matches Err(e) && e@ == m && *final(ui) == *old(ui),
        },
{
    let network = get_cur_network(run);
    match network {
        Ok(n) => {
            display_cur_network(ui, n);
            Ok(())
        },
        Err(e) => Err(e),
    }
}

/// The saved Wi-Fi networks that are not active in the output of
/// `nmcli -t -f ACTIVE,NAME,TYPE connection show`, in order.
pub fn inactive_networks(text: &str) -> (v: Vec<String>)
    ensures
        views(v@) == wifi_names(lines(text@), "no"@),
{
    connection_names(text, "no")
}

/// A list result viewed as characters.
pub open spec fn list_result(r: Result<Vec<String>, String>) -> Result<Seq<Seq<char>>, Seq<char>> {
    match r {
        Ok(v) => Ok(views(v@)),
        Err(e) => Err(e@),
    }
}

/// What a run of `nmcli -t -f ACTIVE,NAME,TYPE connection show` says about
/// the saved networks.
pub open spec fn saved_networks_result(run: Result<CommandOutput, String>) -> Result<Seq<Seq<char>>, Seq<char>> {
    match run {
        Err(e) => Err("failed to disconnect from current network: "@ + e@),
        Ok(o) => if o.success {
            Ok(wifi_names(lines(utf8_lossy(o.stdout@)), "no"@))
        } else {
            Err(utf8_lossy(o.stderr@))
        },
    }
}

/// The saved, inactive Wi-Fi networks from a run of
/// `nmcli -t -f ACTIVE,NAME,TYPE connection show`.
pub fn get_saved_networks(run: Result<CommandOutput, String>) -> (r: Result<Vec<String>, String>)
    ensures
        list_result(r) == saved_networks_result(run),
{
    match run {
        Err(e) => Err(prefixed("failed to disconnect from current network: ", e.as_str())),
        Ok(o) => {
            if o.success {
                let stdout = decode_lossy(o.stdout.as_slice());
                Ok(inactive_networks(stdout.as_str()))
            } else {
                Err(decode_lossy(o.stderr.as_slice()))
            }
        },
    }
}

/// Shows the saved networks from a run of
/// `nmcli -t -f ACTIVE,NAME,TYPE connection show`; on error the window is
/// unchanged and the error is returned.
pub fn saved_networks(ui: &mut Window, run: Result<CommandOutput, String>) -> (r: Result<(), String>)
    ensures
        match saved_networks_result(run) {
            Ok(names) => r is Ok && views(final(ui).networks@) == names && *final(ui) == (Window {
                networks: final(ui).networks,
                ..*old(ui)
            }),
            Err(m) => r matches Err(e) && e@ == m && *final(ui) == *old(ui),
        },
{
    match get_saved_networks(run) {
        Ok(networks) => {
            display_saved_networks(ui, networks);
            Ok(())
        },
        Err(e) => Err(e),
    }
}

/// The outcome of `nmcli device wifi connect <ssid> password <password>`:
/// success only when the command ran and exited successfully; otherwise the
/// reason, from its standard error or from why it could not be run.
pub fn connect_new_network(run: Result<CommandOutput, String>) -> (r: Result<(), String>)
    ensures
        match run {
            Ok(o) => if o.success {
                r is Ok
            } else {
                r matches Err(m) && m@ == "nmcli exited with error: "@ + utf8_lossy(o.stderr@)
            },
            Err(e) => r matches Err(m) && m@ == "nmcli exited with error: "@ + e@,
        },
{
    match run {
        Ok(o) => {
            if o.success {
                Ok(())
            } else {
                let err_msg = decode_lossy(o.stderr.as_slice());
                Err(prefixed("nmcli exited with error: ", err_msg.as_str()))
            }
        },
        Err(e) => Err(prefixed("nmcli exited with error: ", e.as_str())),
    }
}

/// Where joining a saved network stands: its name is first looked up among
/// the saved networks, then, when it is one of them, it is brought up.
pub enum KnownNetworkStep {
    /// Run `nmcli -t -f ACTIVE,NAME,TYPE connection show` next.
    ListSaved,
    /// Run `nmcli con up <ssid>` next.
    BringUp,
    /// Finished: `Ok(true)` when the network is saved and was brought up,
    /// `Ok(false)` when it is not saved, or the failure.
    Done(Result<bool, String>),
}

/// The step after `step`, for the network `ssid`, once its command's `run`
/// is known.
pub open spec fn next_known_step(
    step: KnownNetworkStep,
    ssid: Seq<char>,
    run: Result<CommandOutput, String>,
    next: KnownNetworkStep,
) -> bool {
    match step {
        KnownNetworkStep::ListSaved => match saved_networks_result(run) {
            Err(m) => next matches KnownNetworkStep::Done(Err(e)) && e@ == m,
            Ok(names) => if names.contains(ssid) {
                next is BringUp
            } else {
                next == KnownNetworkStep::Done(Ok(false))
            },
        },
        KnownNetworkStep::BringUp => match run {
            Ok(o) => if o.success {
                next == KnownNetworkStep::Done(Ok(true))
            } else {
                next matches KnownNetworkStep::Done(Err(e)) && e@
                    == "failed to connect to saved network: "@ + utf8_lossy(o.stderr@)
            },
            Err(x) => next matches KnownNetworkStep::Done(Err(e)) && e@
                == "failed to connect to saved network: "@ + x@,
        },
        KnownNetworkStep::Done(_) => next == step,
    }
}

/// Joins `ssid` if it is a saved network, one command at a time: from
/// `KnownNetworkStep::ListSaved`, the program runs the command that the
/// step names and hands its run here, until the step is `Done`.  The
/// network is only brought up when the listing names it among the saved,
/// inactive networks.
pub fn try_connect_known(step: KnownNetworkStep, ssid: &str, run: Result<CommandOutput, String>) -> (next: KnownNetworkStep)
    ensures
        next_known_step(step, ssid@, run, next),
{
    match step {
        KnownNetworkStep::ListSaved => match get_saved_networks(run) {
            Err(e) => KnownNetworkStep::Done(Err(e)),
            Ok(saved_ssids) => {
                if contains_str(&saved_ssids, ssid) {
                    KnownNetworkStep::BringUp
                } else {
                    KnownNetworkStep::Done(Ok(false))
                }
            },
        },
        KnownNetworkStep::BringUp => match connect_saved_network(run) {
            Ok(()) => KnownNetworkStep::Done(Ok(true)),
            Err(e) => KnownNetworkStep::Done(Err(e)),
        },
        KnownNetworkStep::Done(outcome) => KnownNetworkStep::Done(outcome),
    }
}

/// Joining a saved network ends in `Ok(true)` exactly when the listing
/// succeeded and names it and bringing it up succeeded; it always ends
/// after these two commands.
pub proof fn known_network_joined_only_when_up(
    ssid: Seq<char>,
    listing: Result<CommandOutput, String>,
    after_listing: KnownNetworkStep,
    bring_up: Result<CommandOutput, String>,
    after_bring_up: KnownNetworkStep,
)
    requires
        next_known_step(KnownNetworkStep::ListSaved, ssid, listing, after_listing),
        next_known_step(after_listing, ssid, bring_up, after_bring_up),
    ensures
        after_bring_up is Done,
        after_listing is BringUp <==> (saved_networks_result(listing) matches Ok(names)
            && names.contains(ssid)),
        after_bring_up == KnownNetworkStep::Done(Ok(true)) <==> (saved_networks_result(listing) matches Ok(names)
            && names.contains(ssid) && succeeded(bring_up)),
{
}

/// Whether `ssid` is one of `v`.
fn contains_str(v: &Vec<String>, ssid: &str) -> (b: bool)
    ensures
        b == views(v@).contains(ssid@),
{
    let mut i: usize = 0;
    while i < v.len()
        invariant
            i <= v@.len(),
            forall|k: int| 0 <= k < i ==> (#[trigger] v@[k])@ != ssid@,
        decreases v@.len() - i,
    {
        if str_eq(v[i].as_str(), ssid) {
            assert(views(v@)[i as int] == ssid@);
            return true;
        }
        i = i + 1;
    }
    assert(!views(v@).contains(ssid@)) by {
        if views(v@).contains(ssid@) {
            let k = choose|k: int| 0 <= k < views(v@).len() && views(v@)[k] == ssid@;
            assert(v@[k]@ == ssid@);
        }
    }
    false
}

/// The outcome of `nmcli con up <ssid>` for a saved network.
pub fn connect_saved_network(run: Result<CommandOutput, String>) -> (r: Result<(), String>)
    ensures
        reports(r, run, "failed to connect to saved network: "@),
{
    ran(run, "failed to connect to saved network: ")
}

/// The outcome of `nmcli con down <ssid>`.
pub fn disconnect_cur_network(run: Result<CommandOutput, String>) -> (r: Result<(), String>)
    ensures
        reports(r, run, "failed to disconnect from current network: "@),
{
    ran(run, "failed to disconnect from current network: ")
}

/// The outcome of `nmcli con delete <ssid>`.
pub fn forget_network(run: Result<CommandOutput, String>) -> (r: Result<(), String>)
    ensures
        reports(r, run, "failed to forget network: "@),
{
    ran(run, "failed to forget network: ")
}

/// The line is a Wi-Fi connection whose ACTIVE field is `active`.
pub open spec fn is_wifi_connection(line: Seq<char>, active: Seq<char>) -> bool {
    let f = terse_fields(line);
    f.len() >= 3 && f[0] == active && f[2] == "802-11-wireless"@
}

/// The NAME field of a line.
pub open spec fn connection_name(line: Seq<char>) -> Seq<char> {
    terse_fields(line)[1]
}

/// The names listed for `active` are exactly those of the Wi-Fi connection
/// lines with that ACTIVE field: every such line's name is listed, every
/// listed name comes from such a line, the list is empty exactly when there
/// is no such line, and it begins with the name of the first such line.
#[verifier::rlimit(40)]
pub proof fn wifi_names_are_the_matching_lines(ls: Seq<Seq<char>>, active: Seq<char>)
    ensures
        forall|i: int|
            0 <= i < ls.len() && is_wifi_connection(#[trigger] ls[i], active) ==> wifi_names(
                ls,
                active,
            ).contains(connection_name(ls[i])),
        forall|k: int|
            0 <= k < wifi_names(ls, active).len() ==> exists|i: int|
                0 <= i < ls.len() && is_wifi_connection(#[trigger] ls[i], active) && connection_name(
                    ls[i],
                ) == #[trigger] wifi_names(ls, active)[k],
        wifi_names(ls, active).len() == 0 <==> forall|i: int|
            0 <= i < ls.len() ==> !is_wifi_connection(#[trigger] ls[i], active),
        forall|i: int|
            0 <= i < ls.len() && is_wifi_connection(#[trigger] ls[i], active) && (forall|j: int|
                0 <= j < i ==> !is_wifi_connection(#[trigger] ls[j], active)) ==> wifi_names(
                ls,
                active,
            )[0] == connection_name(ls[i]),
    decreases ls.len(),
{
    if ls.len() > 0 {
        let d = ls.drop_last();
        let n = ls.len() - 1;
        wifi_names_are_the_matching_lines(d, active);
        let rest = wifi_names(d, active);
        let w = wifi_names(ls, active);
        assert(ls.last() == ls[n]);
        assert forall|i: int|
            0 <= i < ls.len() && is_wifi_connection(#[trigger] ls[i], active) implies w.contains(
            connection_name(ls[i]),
        ) by {
            if i < n {
                assert(d[i] == ls[i]);
                let k = choose|k: int| 0 <= k < rest.len() && rest[k] == connection_name(d[i]);
                assert(w[k] == rest[k]);
            } else {
                assert(w[w.len() - 1] == connection_name(ls[n]));
            }
        }
        assert forall|k: int| 0 <= k < w.len() implies exists|i: int|
            0 <= i < ls.len() && is_wifi_connection(#[trigger] ls[i], active) && connection_name(ls[i])
                == #[trigger] w[k] by {
            if k < rest.len() {
                assert(w[k] == rest[k]);
                let i = choose|i: int|
                    0 <= i < d.len() && is_wifi_connection(#[trigger] d[i], active) && connection_name(
                        d[i],
                    ) == rest[k];
                assert(d[i] == ls[i]);
            } else {
                assert(is_wifi_connection(ls[n], active));
            }
        }
        if w.len() == 0 {
            assert forall|i: int| 0 <= i < ls.len() implies !is_wifi_connection(#[trigger] ls[i], active) by {
                if is_wifi_connection(ls[i], active) {
                    assert(w.contains(connection_name(ls[i])));
                }
            }
        } else {
            assert(exists|i: int| 0 <= i < ls.len() && is_wifi_connection(#[trigger] ls[i], active));
        }
        assert forall|i: int|
            0 <= i < ls.len() && is_wifi_connection(#[trigger] ls[i], active) && (forall|j: int|
                0 <= j < i ==> !is_wifi_connection(#[trigger] ls[j], active)) implies w[0]
            == connection_name(ls[i]) by {
            if i < n {
                assert(d[i] == ls[i]);
                assert forall|j: int| 0 <= j < i implies !is_wifi_connection(#[trigger] d[j], active) by {
                    assert(d[j] == ls[j]);
                    assert(!is_wifi_connection(ls[j], active));
                }
                assert(rest.len() > 0);
                assert(w[0] == rest[0]);
            } else {
                assert forall|j: int| 0 <= j < d.len() implies !is_wifi_connection(#[trigger] d[j], active) by {
                    assert(d[j] == ls[j]);
                    assert(!is_wifi_connection(ls[j], active));
                }
                assert(rest.len() == 0);
            }
        }
    }
}

/// A run of the connection listing that succeeded always gives the current
/// network: the name of the first active Wi-Fi connection line, or `"None"`
/// when no line is one.  Only a failed run gives an error.
pub proof fn cur_network_of_a_successful_run(run: Result<CommandOutput, String>)
    ensures
        cur_network_result(run) is Ok <==> succeeded(run),
        match run {
            Ok(o) => o.success ==> {
                let ls = lines(utf8_lossy(o.stdout@));
                &&& (forall|i: int| 0 <= i < ls.len() ==> !is_wifi_connection(#[trigger] ls[i], "yes"@))
                    ==> cur_network_result(run) == Ok::<Seq<char>, Seq<char>>("None"@)
                &&& forall|i: int|
                    0 <= i < ls.len() && is_wifi_connection(#[trigger] ls[i], "yes"@) && (forall|j: int|
                        0 <= j < i ==> !is_wifi_connection(#[trigger] ls[j], "yes"@))
                        ==> cur_network_result(run) == Ok::<Seq<char>, Seq<char>>(connection_name(ls[i]))
            },
            Err(_) => true,
        },
{
    if let Ok(o) = run {
        wifi_names_are_the_matching_lines(lines(utf8_lossy(o.stdout@)), "yes"@);
    }
}

/// A run of the connection listing that succeeded always gives the saved,
/// inactive networks: every inactive Wi-Fi connection line's name and only
/// those, so the list is empty exactly when there is no such line.  Only a
/// failed run gives an error.
pub proof fn saved_networks_of_a_successful_run(run: Result<CommandOutput, String>)
    ensures
        saved_networks_result(run) is Ok <==> succeeded(run),
        match run {
            Ok(o) => o.success ==> {
            let ls = lines(utf8_lossy(o.stdout@));
            &&& saved_networks_result(run) matches Ok(names) && {
                &&& names.len() == 0 <==> forall|i: int|
                    0 <= i < ls.len() ==> !is_wifi_connection(#[trigger] ls[i], "no"@)
                &&& forall|i: int|
                    0 <= i < ls.len() && is_wifi_connection(#[trigger] ls[i], "no"@) ==> names.contains(
                        connection_name(ls[i]),
                    )
                &&& forall|k: int|
                    0 <= k < names.len() ==> exists|i: int|
                        0 <= i < ls.len() && is_wifi_connection(#[trigger] ls[i], "no"@)
                            && connection_name(ls[i]) == #[trigger] names[k]
            }
            },
            Err(_) => true,
        },
{
    if let Ok(o) = run {
        wifi_names_are_the_matching_lines(lines(utf8_lossy(o.stdout@)), "no"@);
    }
}

/// The names listed for `active` are those of the Wi-Fi connection lines
/// with that ACTIVE field, in the order the lines come: no line counts
/// twice and none moves.
pub proof fn wifi_names_keep_line_order(ls: Seq<Seq<char>>, active: Seq<char>)
    ensures
        wifi_names(ls, active) == ls.filter(|l: Seq<char>| is_wifi_connection(l, active)).map_values(
            |l: Seq<char>| connection_name(l),
        ),
    decreases ls.len(),
{
    reveal(Seq::filter);
    if ls.len() > 0 {
        wifi_names_keep_line_order(ls.drop_last(), active);
        let kept = ls.drop_last().filter(|l: Seq<char>| is_wifi_connection(l, active));
        let last = ls.last();
        assert(kept.push(last).map_values(|l: Seq<char>| connection_name(l)) =~= kept.map_values(
            |l: Seq<char>| connection_name(l),
        ).push(connection_name(last)));
    }
}

} // verus!
