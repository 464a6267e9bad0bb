use connection_manager::handlers::{on_connect, on_connect_new, on_connect_new_failed, report};
use connection_manager::window::{
    display_avail_networks, display_cur_network, display_new_devices, display_saved_networks,
    show_error, Window,
};

#[test]
fn show_error_opens_the_popup() {
    let mut ui = Window::new();
    show_error(&mut ui, "boom".to_string());
    assert_eq!(ui.error_text, "boom");
    assert!(ui.error_popup_open);
}

#[test]
fn report_surfaces_only_failures() {
    let mut ui = Window::new();
    report(&mut ui, Ok(()));
    assert!(!ui.error_popup_open);
    report(&mut ui, Err("nmcli missing".to_string()));
    assert!(ui.error_popup_open);
    assert_eq!(ui.error_text, "nmcli missing");
}

#[test]
fn display_functions_set_their_field() {
    let mut ui = Window::new();
    display_cur_network(&mut ui, "Home".to_string());
    display_avail_networks(&mut ui, vec!["Cafe".to_string()]);
    display_saved_networks(&mut ui, vec!["Work".to_string()]);
    display_new_devices(&mut ui, vec![]);
    assert_eq!(ui.curnet, "Home");
    assert_eq!(ui.avail_networks, vec!["Cafe".to_string()]);
    assert_eq!(ui.networks, vec!["Work".to_string()]);
    assert!(ui.new_devices.is_empty());
}

#[test]
fn connecting_to_a_known_network_refreshes() {
    let mut ui = Window::new();
    assert!(on_connect(&mut ui, "Work".to_string(), Ok(true)));
    assert!(!ui.password_popup_open);
}

#[test]
fn connecting_to_an_unknown_network_asks_for_a_password() {
    let mut ui = Window::new();
    ui.password_error = true;
    ui.password_error_text = "old".to_string();
    assert!(!on_connect(&mut ui, "Cafe".to_string(), Ok(false)));
    assert!(ui.password_popup_open);
    assert_eq!(ui.pending_ssid, "Cafe");
    assert!(!ui.password_error);
    assert_eq!(ui.password_error_text, "");
}

#[test]
fn a_failed_lookup_opens_the_error_popup() {
    let mut ui = Window::new();
    assert!(!on_connect(&mut ui, "Cafe".to_string(), Err("nmcli gone".to_string())));
    assert!(ui.error_popup_open);
    assert_eq!(ui.error_text, "nmcli gone");
    assert!(!ui.password_popup_open);
}

#[test]
fn a_new_network_that_joined_clears_the_password_error() {
    let mut ui = Window::new();
    ui.password_error = true;
    assert!(!on_connect_new(&mut ui, &Ok(())));
    assert!(!ui.password_error);
}

#[test]
fn a_new_network_that_failed_is_forgotten_and_flagged() {
    let mut ui = Window::new();
    assert!(on_connect_new(&mut ui, &Err("wrong".to_string())));
    assert!(!ui.password_error);
    on_connect_new_failed(&mut ui, Ok(()));
    assert!(ui.password_error);
    assert_eq!(ui.password_error_text, "Incorrect password, or connection failed.");
    assert!(!ui.error_popup_open);
    let mut ui = Window::new();
    on_connect_new_failed(&mut ui, Err("failed to forget network: x".to_string()));
    assert!(ui.error_popup_open);
    assert_eq!(ui.error_text, "failed to forget network: x");
    assert!(ui.password_error);
}
