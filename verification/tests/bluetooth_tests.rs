use connection_manager::bluetooth::{
    disable_bluetooth, enable_bluetooth, get_new_devices, get_saved_devices, is_device_connected,
    is_device_paired, is_nameless, listed_devices, is_valid_mac, key_says_yes, new_device_candidates, new_devices,
    on_connect_device, on_connect_new_device, on_disconnect_known_device, on_forget_device,
    on_trust_device, saved_devices, scan_new_devices, set_bluetooth_on, toggle_bluetooth,
    with_connection_states, ListedDevice, NewDeviceStep,
};
use connection_manager::command::CommandOutput;
use connection_manager::window::{BluetoothDevice, Window};

fn ok(stdout: &str) -> Result<CommandOutput, String> {
    Ok(CommandOutput { success: true, stdout: stdout.as_bytes().to_vec(), stderr: vec![] })
}

fn failed(stderr: &str) -> Result<CommandOutput, String> {
    Ok(CommandOutput { success: false, stdout: vec![], stderr: stderr.as_bytes().to_vec() })
}

fn listed(mac: &str, name: &str) -> ListedDevice {
    ListedDevice { mac_address: mac.to_string(), name: name.to_string() }
}

fn names(v: &[ListedDevice]) -> Vec<(String, String)> {
    v.iter().map(|d| (d.mac_address.clone(), d.name.clone())).collect()
}

#[test]
fn valid_macs_are_six_hex_pairs() {
    assert!(is_valid_mac("AA:BB:CC:DD:EE:FF"));
    assert!(is_valid_mac("00:1a:7D:da:71:13"));
    assert!(!is_valid_mac("AA-BB-CC-DD-EE-FF"));
    assert!(!is_valid_mac("AA:BB:CC:DD:EE:F"));
    assert!(!is_valid_mac("AA:BB:CC:DD:EE:FG"));
    assert!(!is_valid_mac("AA:BB:CC:DD:EE:FF "));
    assert!(!is_valid_mac("AAB:BC:CD:DE:EF:F"));
    assert!(!is_valid_mac(""));
    assert!(!is_valid_mac("ÄA:BB:CC:DD:EE:F"));
}

#[test]
fn names_that_are_mac_addresses_are_nameless() {
    assert!(is_nameless("AA:BB:CC:DD:EE:FF", "AA:BB:CC:DD:EE:FF"));
    assert!(is_nameless("AA-BB-CC-DD-EE-FF", "AA:BB:CC:DD:EE:FF"));
    assert!(!is_nameless("Headphones", "AA:BB:CC:DD:EE:FF"));
    assert!(!is_nameless("aa-bb-cc-dd-ee-ff", "AA:BB:CC:DD:EE:FF"));
    // 16 characters, 17 bytes: the length counted is the byte length.
    assert!(is_nameless("ÄA-BB-CC-DD-EE-F", "ÄA:BB:CC:DD:EE:F"));
    assert!(!is_nameless("AA-BB", "AA:BB"));
}

#[test]
fn key_lines_are_found_after_trimming() {
    assert!(key_says_yes("Controller X\n\tPowered: yes\n\tPairable: no\n", "Powered:"));
    assert!(!key_says_yes("\tPowered: no\n", "Powered:"));
    assert!(!key_says_yes("nothing here\n", "Powered:"));
    assert!(!key_says_yes("\tPowered: no\n\tPowered: yes\n", "Powered:"));
    assert!(key_says_yes("Connected:yes", "Connected:"));
    assert!(!key_says_yes("Connected: yess", "Connected:"));
}

const DEVICES: &str = "Device AA:BB:CC:DD:EE:FF My Phone\nDevice 11:22:33:44:55:66 11-22-33-44-55-66\nDevice 12:34\nDevice 12:34 Toy\nDevice AA:BB:CC:DD:EE:01  Big   Speaker \nJunk\n";

#[test]
fn saved_devices_need_a_name_and_a_valid_mac() {
    let got = get_saved_devices(ok(DEVICES)).unwrap();
    assert_eq!(
        names(&got),
        vec![
            ("AA:BB:CC:DD:EE:FF".to_string(), "My Phone".to_string()),
            ("AA:BB:CC:DD:EE:01".to_string(), "Big Speaker".to_string()),
        ]
    );
    assert_eq!(
        get_saved_devices(Err("no".to_string())).map(|v| v.len()),
        Err("failed to run bluetoothctl: no".to_string())
    );
    // The exit status of the listing is not looked at.
    assert!(get_saved_devices(failed("x")).unwrap().is_empty());
}

#[test]
fn new_device_candidates_are_checked_for_mac_later() {
    let got = new_device_candidates(ok(DEVICES)).unwrap();
    assert_eq!(
        names(&got),
        vec![
            ("AA:BB:CC:DD:EE:FF".to_string(), "My Phone".to_string()),
            ("12:34".to_string(), "Toy".to_string()),
            ("AA:BB:CC:DD:EE:01".to_string(), "Big Speaker".to_string()),
        ]
    );
}

#[test]
fn connection_states_are_attached_or_the_device_dropped() {
    let devices = vec![listed("AA:BB:CC:DD:EE:FF", "Phone"), listed("AA:BB:CC:DD:EE:01", "Mouse"), listed("AA:BB:CC:DD:EE:02", "Pad")];
    let got = with_connection_states(&devices, &vec![Ok(true), Err("x".to_string()), Ok(false)]);
    assert_eq!(got.len(), 2);
    assert_eq!((got[0].name.as_str(), got[0].connected, got[0].mac_address.as_str()), ("Phone", true, "AA:BB:CC:DD:EE:FF"));
    assert_eq!((got[1].name.as_str(), got[1].connected, got[1].mac_address.as_str()), ("Pad", false, "AA:BB:CC:DD:EE:02"));
}

#[test]
fn new_devices_are_unpaired_with_valid_macs() {
    let candidates = vec![
        listed("AA:BB:CC:DD:EE:FF", "Phone"),
        listed("AA:BB:CC:DD:EE:01", "Mouse"),
        listed("AA:BB:CC:DD:EE:02", "Pad"),
        listed("12:34", "Toy"),
    ];
    let got = get_new_devices(&candidates, &vec![Ok(false), Ok(true), Err("x".to_string()), Ok(false)]);
    assert_eq!(got.len(), 1);
    assert_eq!((got[0].name.as_str(), got[0].connected, got[0].mac_address.as_str()), ("Phone", false, "AA:BB:CC:DD:EE:FF"));
}

#[test]
fn device_lists_are_shown_or_the_error_returned() {
    let mut ui = Window::new();
    let d = BluetoothDevice { name: "Phone".to_string(), connected: true, mac_address: "AA:BB:CC:DD:EE:FF".to_string() };
    assert_eq!(saved_devices(&mut ui, Ok(vec![d.clone()])), Ok(()));
    assert_eq!(ui.saved_devices.len(), 1);
    assert_eq!(saved_devices(&mut ui, Err("e".to_string())), Err("e".to_string()));
    assert_eq!(ui.saved_devices.len(), 1);
    assert_eq!(new_devices(&mut ui, Ok(vec![d.clone(), d])), Ok(()));
    assert_eq!(ui.new_devices.len(), 2);
    assert_eq!(new_devices(&mut ui, Err("e".to_string())), Err("e".to_string()));
    assert_eq!(ui.new_devices.len(), 2);
}

#[test]
fn info_answers_are_read() {
    assert_eq!(is_device_connected(ok("Device X\n\tConnected: yes\n")), Ok(true));
    assert_eq!(is_device_connected(ok("Device X\n\tConnected: no\n")), Ok(false));
    assert_eq!(is_device_paired(ok("\tPaired: yes\n")), Ok(true));
    assert_eq!(is_device_paired(ok("")), Ok(false));
    assert_eq!(
        is_device_paired(failed("Device not available")),
        Err("bluetoothctl exited with error: Device not available".to_string())
    );
    assert_eq!(is_device_connected(Err("gone".to_string())), Err("bluetoothctl exited with error: gone".to_string()));
}

#[test]
fn adapter_state_is_read_and_off_on_failure() {
    let mut ui = Window::new();
    assert_eq!(set_bluetooth_on(&mut ui, ok("Controller\n\tPowered: yes\n")), Ok(()));
    assert!(ui.bluetooth_on);
    assert_eq!(set_bluetooth_on(&mut ui, Ok(CommandOutput { success: false, stdout: b"Powered: yes".to_vec(), stderr: vec![] })), Ok(()));
    assert!(!ui.bluetooth_on);
    ui.bluetooth_on = true;
    assert_eq!(set_bluetooth_on(&mut ui, Err("gone".to_string())), Err("gone".to_string()));
    assert!(!ui.bluetooth_on);
}

#[test]
fn toggle_bluetooth_follows_the_run() {
    let mut ui = Window::new();
    assert_eq!(toggle_bluetooth(&mut ui, ok("")), Ok(()));
    assert!(ui.bluetooth_on);
    assert_eq!(toggle_bluetooth(&mut ui, Err("x".to_string())), Err("failed to disable bluetooth: x".to_string()));
    assert!(ui.bluetooth_on);
    assert_eq!(toggle_bluetooth(&mut ui, failed("busy")), Err("failed to disable bluetooth: busy".to_string()));
    assert!(ui.bluetooth_on);
    assert_eq!(toggle_bluetooth(&mut ui, ok("")), Ok(()));
    assert!(!ui.bluetooth_on);
}

#[test]
fn device_commands_report_why_they_could_not_run() {
    assert_eq!(enable_bluetooth(Err("x".to_string())), Err("failed to enable bluetooth: x".to_string()));
    assert_eq!(disable_bluetooth(ok("")), Ok(()));
    assert_eq!(on_connect_device(Err("x".to_string())), Err("unable to connect to device: x".to_string()));
    assert_eq!(on_trust_device(Err("x".to_string())), Err("failed to trust device: x".to_string()));
    assert_eq!(on_disconnect_known_device(Err("x".to_string())), Err("failed to run bluetoothctl: x".to_string()));
    assert_eq!(on_forget_device(Err("x".to_string())), Err("unable to forget device: x".to_string()));
    assert_eq!(scan_new_devices(Err("x".to_string())), Err("failed to run bluetoothctl: x".to_string()));
    assert_eq!(scan_new_devices(failed("no adapter")), Err("failed to run bluetoothctl: no adapter".to_string()));
    assert_eq!(on_connect_device(failed("timeout")), Err("unable to connect to device: timeout".to_string()));
    assert_eq!(on_trust_device(failed("no")), Err("failed to trust device: no".to_string()));
    assert_eq!(on_forget_device(failed("not found")), Err("unable to forget device: not found".to_string()));
    assert_eq!(on_disconnect_known_device(failed("x")), Err("failed to run bluetoothctl: x".to_string()));
    assert_eq!(enable_bluetooth(failed("blocked")), Err("failed to enable bluetooth: blocked".to_string()));
}

fn outcome(step: NewDeviceStep) -> Option<Result<(), String>> {
    match step {
        NewDeviceStep::Done(r) => Some(r),
        _ => None,
    }
}

#[test]
fn new_device_is_connected_then_trusted() {
    let step = on_connect_new_device(NewDeviceStep::Connect, ok(""));
    assert!(matches!(step, NewDeviceStep::Trust));
    let step = on_connect_new_device(step, ok(""));
    assert_eq!(outcome(step), Some(Ok(())));
}

#[test]
fn failed_connect_skips_trust() {
    let step = on_connect_new_device(NewDeviceStep::Connect, Err("busy".to_string()));
    assert_eq!(outcome(step), Some(Err("unable to connect to device: busy".to_string())));
    let step = on_connect_new_device(NewDeviceStep::Connect, failed("Failed to connect"));
    assert_eq!(outcome(step), Some(Err("unable to connect to device: Failed to connect".to_string())));
    let step = on_connect_new_device(NewDeviceStep::Trust, Err("no".to_string()));
    assert_eq!(outcome(step), Some(Err("failed to trust device: no".to_string())));
    let done = on_connect_new_device(NewDeviceStep::Done(Ok(())), Err("late".to_string()));
    assert_eq!(outcome(done), Some(Ok(())));
}

#[test]
fn listed_devices_reads_bluetoothctl_lines() {
    let got = listed_devices("Device AA:BB:CC:DD:EE:FF  Living\troom  TV\nDevice AA:BB:CC:DD:EE:02\n", true);
    assert_eq!(names(&got), vec![("AA:BB:CC:DD:EE:FF".to_string(), "Living room TV".to_string())]);
    assert!(listed_devices("", false).is_empty());
}
