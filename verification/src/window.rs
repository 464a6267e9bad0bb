//! The state of the connection manager's window, as the library keeps it:
//! the values that the window shows and that the logic reads or sets.
use vstd::prelude::*;
use crate::text::views;

verus! {

/// A Bluetooth device as the window lists it.
#[derive(Clone, Debug)]
pub struct BluetoothDevice {
    pub name: String,
    pub connected: bool,
    pub mac_address: String,
}

/// What the window shows.
#[derive(Clone, Debug)]
pub struct Window {
    /// Whether the Wi-Fi radio is shown as on.
    pub wifi_on: bool,
    /// The name of the active Wi-Fi network, or `"None"`.
    pub curnet: String,
    /// Nearby networks that can be joined, strongest first.
    pub avail_networks: Vec<String>,
    /// Saved networks that are not active.
    pub networks: Vec<String>,
    /// Whether the Bluetooth adapter is shown as powered.
    pub bluetooth_on: bool,
    /// Paired devices.
    pub saved_devices: Vec<BluetoothDevice>,
    /// Nearby devices that are not paired.
    pub new_devices: Vec<BluetoothDevice>,
    /// The text of the error popup.
    pub error_text: String,
    /// Whether the error popup has been opened.
    pub error_popup_open: bool,
    /// The network that the password popup asks about.
    pub pending_ssid: String,
    /// Whether the password popup shows an error.
    pub password_error: bool,
    /// The error text of the password popup.
    pub password_error_text: String,
    /// Whether the password popup has been opened.
    pub password_popup_open: bool,
}

impl Window {
    /// A window in its initial state: everything off and empty.
    pub fn new() -> (w: Window)
        ensures
            !w.wifi_on,
            !w.bluetooth_on,
            w.curnet@ == Seq::<char>::empty(),
            w.avail_networks@.len() == 0,
            w.networks@.len() == 0,
            w.saved_devices@.len() == 0,
            w.new_devices@.len() == 0,
            w.error_text@ == Seq::<char>::empty(),
            !w.error_popup_open,
            w.pending_ssid@ == Seq::<char>::empty(),
            !w.password_error,
            w.password_error_text@ == Seq::<char>::empty(),
            !w.password_popup_open,
    {
        Window {
            wifi_on: false,
            curnet: String::new(),
            avail_networks: Vec::new(),
            networks: Vec::new(),
            bluetooth_on: false,
            saved_devices: Vec::new(),
            new_devices: Vec::new(),
            error_text: String::new(),
            error_popup_open: false,
            pending_ssid: String::new(),
            password_error: false,
            password_error_text: String::new(),
            password_popup_open: false,
        }
    }
}

/// Shows `err` in the error popup.
pub fn show_error(ui: &mut Window, err: String)
    ensures
        *final(ui) == (Window { error_text: err, error_popup_open: true, ..*old(ui) }),
{
    ui.error_text = err;
    ui.error_popup_open = true;
}

/// Sets the name of the active network.
pub fn display_cur_network(ui: &mut Window, ssid: String)
    ensures
        *final(ui) == (Window { curnet: ssid, ..*old(ui) }),
{
    ui.curnet = ssid;
}

/// Sets the list of networks that can be joined.
pub fn display_avail_networks(ui: &mut Window, ssids: Vec<String>)
    ensures
        *final(ui) == (Window { avail_networks: ssids, ..*old(ui) }),
{
    ui.avail_networks = ssids;
}

/// Sets the list of saved networks.
pub fn display_saved_networks(ui: &mut Window, ssids: Vec<String>)
    ensures
        *final(ui) == (Window { networks: ssids, ..*old(ui) }),
{
    ui.networks = ssids;
}

/// Sets the list of paired devices.
pub fn display_saved_devices(ui: &mut Window, devices: Vec<BluetoothDevice>)
    ensures
        *final(ui) == (Window { saved_devices: devices, ..*old(ui) }),
{
    ui.saved_devices = devices;
}

/// Sets the list of nearby unpaired devices.
pub fn display_new_devices(ui: &mut Window, devices: Vec<BluetoothDevice>)
    ensures
        *final(ui) == (Window { new_devices: devices, ..*old(ui) }),
{
    ui.new_devices = devices;
}

} // verus!
