use connection_manager::command::CommandOutput;
use connection_manager::scan::{avail_networks, available_networks, get_avail_networks};
use connection_manager::window::Window;

const SCAN: &str = "*:Home:80\n :Cafe:70\n :Cafe:40\n :Library:60\n :Weak:20\n ::90\n :Home:50\n :Library:75\n";

#[test]
fn list_is_deduplicated_strongest_first_without_the_network_in_use() {
    assert_eq!(available_networks(SCAN), vec!["Library".to_string(), "Cafe".to_string()]);
}

#[test]
fn weak_and_unnamed_networks_are_dropped() {
    assert_eq!(available_networks(" :Weak:34\n :Edge:35\n ::99\n"), vec!["Edge".to_string()]);
    assert!(available_networks("").is_empty());
}

#[test]
fn a_network_in_use_is_left_out_whatever_its_lines() {
    assert!(available_networks(" :Home:99\n*:Home:40\n :Home:90\n").is_empty());
    assert!(available_networks("*:Home:34\n :Home:90\n").is_empty());
    assert!(available_networks("*:Home:20\n:Home:80\n").is_empty());
    assert!(available_networks("*:Home\n :Home:80\n").is_empty());
}

#[test]
fn ties_keep_both_networks() {
    let mut got = available_networks(" :B:50\n :A:50\n :C:90\n");
    assert_eq!(got[0], "C");
    got.sort();
    assert_eq!(got, vec!["A".to_string(), "B".to_string(), "C".to_string()]);
}

#[test]
fn escaped_colons_belong_to_the_ssid() {
    assert_eq!(available_networks(r":My\:Net:70"), vec!["My:Net".to_string()]);
    assert_eq!(available_networks(" :A\\:B:50\n :A:60\n"), vec!["A".to_string(), "A:B".to_string()]);
}

#[test]
fn unreadable_lines_are_skipped() {
    assert!(available_networks("x\n").is_empty());
    assert_eq!(available_networks(" :Home\n :Cafe:strong\n :Big:300\n :Ok:+42\n"), vec!["Ok".to_string()]);
}

#[test]
fn the_order_of_lines_does_not_matter() {
    let a = available_networks(" :A:90\n :B:60\n :A:40\n :C:70\n");
    let b = available_networks(" :C:70\n :A:40\n :B:60\n :A:90\n :C:70\n");
    assert_eq!(a, b);
    assert_eq!(a, vec!["A".to_string(), "C".to_string(), "B".to_string()]);
}

fn ok(stdout: &str) -> Result<CommandOutput, String> {
    Ok(CommandOutput { success: true, stdout: stdout.as_bytes().to_vec(), stderr: vec![] })
}

#[test]
fn get_avail_networks_reports_each_outcome() {
    assert_eq!(get_avail_networks(ok(SCAN)), Ok(vec!["Library".to_string(), "Cafe".to_string()]));
    assert_eq!(get_avail_networks(ok(" :Home\n")), Ok(vec![]));
    assert_eq!(
        get_avail_networks(Err("gone".to_string())),
        Err("failed to disconnect from current network: gone".to_string())
    );
    assert_eq!(
        get_avail_networks(Ok(CommandOutput { success: false, stdout: vec![], stderr: b"radio off".to_vec() })),
        Err("radio off".to_string())
    );
}

#[test]
fn avail_networks_updates_only_on_success() {
    let mut ui = Window::new();
    assert_eq!(avail_networks(&mut ui, ok(SCAN)), Ok(()));
    assert_eq!(ui.avail_networks, vec!["Library".to_string(), "Cafe".to_string()]);
    assert_eq!(avail_networks(&mut ui, Err("e".to_string())), Err("failed to disconnect from current network: e".to_string()));
    assert_eq!(ui.avail_networks, vec!["Library".to_string(), "Cafe".to_string()]);
}
