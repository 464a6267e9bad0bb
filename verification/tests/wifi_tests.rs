use connection_manager::command::CommandOutput;
use connection_manager::wifi::{
    active_network, connect_new_network, connect_saved_network, cur_network, disable_wifi,
    disconnect_cur_network, enable_wifi, forget_network, get_cur_network, get_saved_networks,
    inactive_networks, saved_networks, set_wifi_on, toggle_target, toggle_wifi, try_connect_known,
    wifi_radio_enabled, KnownNetworkStep, Power,
};
use connection_manager::window::Window;

fn ok(stdout: &[u8]) -> Result<CommandOutput, String> {
    Ok(CommandOutput { success: true, stdout: stdout.to_vec(), stderr: vec![] })
}

fn failed(stderr: &[u8]) -> Result<CommandOutput, String> {
    Ok(CommandOutput { success: false, stdout: vec![], stderr: stderr.to_vec() })
}

fn not_run(reason: &str) -> Result<CommandOutput, String> {
    Err(reason.to_string())
}

const CONNECTIONS: &str = "yes:Wired:802-3-ethernet\nno:Work:802-11-wireless\nyes:Home:802-11-wireless\nno:Cafe:802-11-wireless\nno:Old VPN:vpn\n";

#[test]
fn active_network_is_first_active_wifi() {
    assert_eq!(active_network(CONNECTIONS), "Home");
    assert_eq!(active_network("no:Work:802-11-wireless\n"), "None");
    assert_eq!(active_network(""), "None");
    assert_eq!(active_network("yes:Home\n"), "None");
    assert_eq!(active_network("yes:A:802-11-wireless\nyes:B:802-11-wireless\n"), "A");
    assert_eq!(active_network("yes:A:802-11-wireless:extra\r\n"), "A");
}

#[test]
fn escaped_colons_belong_to_the_name() {
    assert_eq!(active_network(r"yes:My\:Net:802-11-wireless"), "My:Net");
    assert_eq!(get_cur_network(ok(br"yes:My\:Net:802-11-wireless")), Ok("My:Net".to_string()));
    assert_eq!(inactive_networks("no:A\\\\B:802-11-wireless\n"), vec!["A\\B".to_string()]);
}

#[test]
fn inactive_networks_are_saved_wifi_not_active() {
    assert_eq!(inactive_networks(CONNECTIONS), vec!["Work".to_string(), "Cafe".to_string()]);
    assert!(inactive_networks("yes:Home:802-11-wireless").is_empty());
}

#[test]
fn get_cur_network_reports_each_failure() {
    assert_eq!(get_cur_network(ok(CONNECTIONS.as_bytes())), Ok("Home".to_string()));
    assert_eq!(get_cur_network(not_run("no such file")), Err("failed to run nmcli: no such file".to_string()));
    assert_eq!(get_cur_network(failed(b"boom")), Err("nmcli exited with error: boom".to_string()));
}

#[test]
fn invalid_utf8_is_replaced() {
    assert_eq!(get_cur_network(ok(b"yes:Caf\xe9:802-11-wireless\n")), Ok("Caf\u{FFFD}".to_string()));
}

#[test]
fn cur_network_shows_the_network_or_leaves_the_window() {
    let mut ui = Window::new();
    assert_eq!(cur_network(&mut ui, ok(CONNECTIONS.as_bytes())), Ok(()));
    assert_eq!(ui.curnet, "Home");
    assert_eq!(cur_network(&mut ui, failed(b"down")), Err("nmcli exited with error: down".to_string()));
    assert_eq!(ui.curnet, "Home");
}

#[test]
fn saved_networks_lists_and_reports() {
    let mut ui = Window::new();
    assert_eq!(saved_networks(&mut ui, ok(CONNECTIONS.as_bytes())), Ok(()));
    assert_eq!(ui.networks, vec!["Work".to_string(), "Cafe".to_string()]);
    assert_eq!(
        get_saved_networks(not_run("gone")),
        Err("failed to disconnect from current network: gone".to_string())
    );
    assert_eq!(get_saved_networks(failed(b"not running")), Err("not running".to_string()));
    assert_eq!(saved_networks(&mut ui, failed(b"x")), Err("x".to_string()));
    assert_eq!(ui.networks, vec!["Work".to_string(), "Cafe".to_string()]);
}

#[test]
fn radio_state_is_read_from_nmcli() {
    assert!(wifi_radio_enabled("enabled\n"));
    assert!(wifi_radio_enabled("  enabled "));
    assert!(!wifi_radio_enabled("disabled\n"));
    assert!(!wifi_radio_enabled("enabled!"));
    let mut ui = Window::new();
    assert_eq!(set_wifi_on(&mut ui, ok(b"enabled\n")), Ok(()));
    assert!(ui.wifi_on);
    assert_eq!(set_wifi_on(&mut ui, failed(b"")), Ok(()));
    assert!(!ui.wifi_on);
    ui.wifi_on = true;
    assert_eq!(set_wifi_on(&mut ui, not_run("missing")), Err("missing".to_string()));
    assert!(!ui.wifi_on);
}

#[test]
fn toggle_asks_for_the_opposite() {
    assert_eq!(toggle_target(true), Power::Off);
    assert_eq!(toggle_target(false), Power::On);
}

#[test]
fn toggle_wifi_twice_restores_the_state() {
    let mut ui = Window::new();
    assert_eq!(toggle_wifi(&mut ui, ok(b"")), Ok(()));
    assert!(ui.wifi_on);
    assert_eq!(toggle_wifi(&mut ui, ok(b"")), Ok(()));
    assert!(!ui.wifi_on);
}

#[test]
fn failed_toggle_leaves_the_state() {
    let mut ui = Window::new();
    ui.wifi_on = true;
    assert_eq!(toggle_wifi(&mut ui, not_run("busy")), Err("failed to disable wifi: busy".to_string()));
    assert!(ui.wifi_on);
    ui.wifi_on = false;
    assert_eq!(toggle_wifi(&mut ui, not_run("busy")), Err("failed to enable wifi: busy".to_string()));
    assert!(!ui.wifi_on);
    assert_eq!(toggle_wifi(&mut ui, failed(b"rfkill")), Err("failed to enable wifi: rfkill".to_string()));
    assert!(!ui.wifi_on);
}

#[test]
fn simple_commands_report_why_they_could_not_run() {
    assert_eq!(enable_wifi(ok(b"")), Ok(()));
    assert_eq!(disable_wifi(not_run("e")), Err("failed to disable wifi: e".to_string()));
    assert_eq!(connect_saved_network(not_run("e")), Err("failed to connect to saved network: e".to_string()));
    assert_eq!(connect_saved_network(failed(b"no")), Err("failed to connect to saved network: no".to_string()));
    assert_eq!(connect_saved_network(ok(b"")), Ok(()));
    assert_eq!(disconnect_cur_network(failed(b"not active")), Err("failed to disconnect from current network: not active".to_string()));
    assert_eq!(forget_network(failed(b"unknown")), Err("failed to forget network: unknown".to_string()));
    assert_eq!(
        disconnect_cur_network(not_run("e")),
        Err("failed to disconnect from current network: e".to_string())
    );
    assert_eq!(forget_network(not_run("e")), Err("failed to forget network: e".to_string()));
    assert_eq!(forget_network(ok(b"")), Ok(()));
}

#[test]
fn connect_new_network_needs_a_successful_exit() {
    assert_eq!(connect_new_network(ok(b"")), Ok(()));
    assert_eq!(
        connect_new_network(failed(b"Secrets were required")),
        Err("nmcli exited with error: Secrets were required".to_string())
    );
    assert_eq!(connect_new_network(not_run("gone")), Err("nmcli exited with error: gone".to_string()));
}

fn done(step: KnownNetworkStep) -> Option<Result<bool, String>> {
    match step {
        KnownNetworkStep::Done(r) => Some(r),
        _ => None,
    }
}

#[test]
fn try_connect_known_brings_up_saved_networks() {
    let step = try_connect_known(KnownNetworkStep::ListSaved, "Cafe", ok(CONNECTIONS.as_bytes()));
    assert!(matches!(step, KnownNetworkStep::BringUp));
    assert_eq!(done(try_connect_known(step, "Cafe", ok(b""))), Some(Ok(true)));
}

#[test]
fn try_connect_known_stops_for_unknown_networks() {
    let step = try_connect_known(KnownNetworkStep::ListSaved, "Home", ok(CONNECTIONS.as_bytes()));
    assert_eq!(done(step), Some(Ok(false)));
    let step = try_connect_known(KnownNetworkStep::ListSaved, "Cafe", not_run("x"));
    assert_eq!(done(step), Some(Err("failed to disconnect from current network: x".to_string())));
}

#[test]
fn a_failed_bring_up_is_an_error() {
    let step = try_connect_known(KnownNetworkStep::BringUp, "Cafe", failed(b"Connection activation failed"));
    assert_eq!(
        done(step),
        Some(Err("failed to connect to saved network: Connection activation failed".to_string()))
    );
    let step = try_connect_known(KnownNetworkStep::Done(Ok(false)), "Cafe", ok(b""));
    assert_eq!(done(step), Some(Ok(false)));
}
