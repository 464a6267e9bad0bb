//! Bluetooth: what the library makes of `bluetoothctl`'s answers.
use vstd::prelude::*;
use vstd::utf8::encode_utf8;
use crate::command::{decode_lossy, prefixed, ran, reports, succeeded, utf8_lossy, CommandOutput};
use crate::text::{
    char_vec, line_ranges, lines, range_starts_with, range_is, range_string, ranges_of, str_eq,
    trim, trim_range, word_ranges, words,
};
use crate::window::{display_new_devices, display_saved_devices, BluetoothDevice, Window};

verus! {

/// `s` with each `'-'` read as `':'`.
pub open spec fn dashes_as_colons(s: Seq<char>) -> Seq<char> {
    s.map_values(|c: char|
        if c == '-' {
            ':'
        } else {
            c
        })
}

/// The name is only the MAC address: the same text, or, when the name is
/// 17 bytes long in UTF-8, the same once its dashes are read as colons.
pub open spec fn nameless(name: Seq<char>, mac: Seq<char>) -> bool {
    name == mac || (encode_utf8(name).len() == 17 && dashes_as_colons(name) == mac)
}

/// Whether a device's reported name is only its MAC address in disguise.
pub fn is_nameless(name: &str, mac_address: &str) -> (b: bool)
    ensures
        b == nameless(name@, mac_address@),
{
    if str_eq(name, mac_address) {
        return true;
    }
    if name.as_bytes().len() == 17 && dashes_match(name, mac_address) {
        return true;
    }
    false
}

/// Whether `name` with its dashes read as colons is `mac`.
fn dashes_match(name: &str, mac: &str) -> (b: bool)
    ensures
        b == (dashes_as_colons(name@) == mac@),
{
    let n = char_vec(name);
    let m = char_vec(mac);
    if n.len() != m.len() {
        assert(dashes_as_colons(name@).len() != mac@.len());
        return false;
    }
    let mut i: usize = 0;
    while i < n.len()
        invariant
            n@ == name@,
            m@ == mac@,
            n@.len() == m@.len(),
            i <= n@.len(),
            forall|k: int| 0 <= k < i ==> dashes_as_colons(name@)[k] == mac@[k],
        decreases n@.len() - i,
    {
        let c = if n[i] == '-' {
            ':'
        } else {
            n[i]
        };
        if c != m[i] {
            assert(dashes_as_colons(name@)[i as int] != mac@[i as int]);
            return false;
        }
        i = i + 1;
    }
    assert(dashes_as_colons(name@) == mac@);
    true
}

/// An ASCII hexadecimal digit.
pub open spec fn is_hex_byte(b: u8) -> bool {
    (48 <= b <= 57) || (65 <= b <= 70) || (97 <= b <= 102)
}

/// A well-formed MAC address: 17 bytes, six pairs of hexadecimal digits
/// separated by colons (`"AA:BB:CC:DD:EE:FF"`).
pub open spec fn valid_mac(mac: Seq<char>) -> bool {
    let b = encode_utf8(mac);
    &&& b.len() == 17
    &&& forall|i: int|
        0 <= i < 17 ==> if i % 3 == 2 {
            b[i] == 58
        } else {
            is_hex_byte(#[trigger] b[i])
        }
}

/// Whether `mac_address` is a well-formed MAC address.
pub fn is_valid_mac(mac_address: &str) -> (b: bool)
    ensures
        b == valid_mac(mac_address@),
{
    let bytes = mac_address.as_bytes();
    if bytes.len() != 17 {
        return false;
    }
    let mut i: usize = 0;
    while i < 17
        invariant
            bytes@ == encode_utf8(mac_address@),
            bytes@.len() == 17,
            i <= 17,
            forall|k: int|
                0 <= k < i ==> if k % 3 == 2 {
                    bytes@[k] == 58
                } else {
                    is_hex_byte(#[trigger] bytes@[k])
                },
        decreases 17 - i,
    {
        let c = bytes[i];
        let ok = if i % 3 == 2 {
            c == 58u8
        } else {
            (48u8 <= c && c <= 57u8) || (65u8 <= c && c <= 70u8) || (97u8 <= c && c <= 102u8)
        };
        if !ok {
            assert(!(if i % 3 == 2 {
                encode_utf8(mac_address@)[i as int] == 58
            } else {
                is_hex_byte(encode_utf8(mac_address@)[i as int])
            }));
            return false;
        }
        i = i + 1;
    }
    true
}

/// The text after `key` on the first line of `ls` that, trimmed, begins
/// with `key`, as `lines().find_map(|l| l.trim().strip_prefix(key))` finds it.
pub open spec fn key_value(ls: Seq<Seq<char>>, key: Seq<char>) -> Option<Seq<char>>
    decreases ls.len(),
{
    if ls.len() == 0 {
        None
    } else {
        let t = trim(ls[0]);
        if key.len() <= t.len() && t.take(key.len() as int) == key {
            Some(t.skip(key.len() as int))
        } else {
            key_value(ls.drop_first(), key)
        }
    }
}

/// Whether the first `key` line of `text` says `yes`; `false` when there is
/// no such line.
pub open spec fn says_yes(text: Seq<char>, key: Seq<char>) -> bool {
    match key_value(lines(text), key) {
        Some(v) => trim(v) == "yes"@,
        None => false,
    }
}

/// Whether the first line of `text` that begins with `key` (after
/// trimming) has `yes` after it.
pub fn key_says_yes(text: &str, key: &str) -> (b: bool)
    ensures
        b == says_yes(text@, key@),
{
    let cs = char_vec(text);
    let kl = char_vec(key).len();
    let ls = line_ranges(&cs);
    let ghost all = lines(cs@);
    let mut k: usize = 0;
    assert(all.skip(0) == all);
    while k < ls.len()
        invariant
            cs@ == text@,
            kl == key@.len(),
            all == lines(cs@),
            ranges_of(cs@, ls@, all),
            k <= ls@.len(),
            key_value(all, key@) == key_value(all.skip(k as int), key@),
        decreases ls@.len() - k,
    {
        let (a, b) = ls[k];
        assert(ls@[k as int] == (a, b));
        let (ta, tb) = trim_range(&cs, a, b);
        let ghost t = trim(all[k as int]);
        assert(all.skip(k as int)[0] == all[k as int]);
        assert(all.skip(k as int).drop_first() == all.skip(k + 1));
        if range_starts_with(&cs, ta, tb, key) {
            assert(t.take(key@.len() as int) == key@);
            let (va, vb) = trim_range(&cs, ta + kl, tb);
            assert(cs@.subrange((ta + kl) as int, tb as int) == t.skip(key@.len() as int));
            return range_is(&cs, va, vb, "yes");
        }
        proof {
            assert(cs@.subrange(a as int, b as int) == all[k as int]);
            assert(cs@.subrange(ta as int, tb as int) == t);
            if key@.len() <= t.len() {
                assert(t.take(key@.len() as int) == cs@.subrange(ta as int, ta + key@.len()));
            }
        }
        k = k + 1;
    }
    false
}

/// `bluetoothctl info` answered for a device: `Connected:` (or `Paired:`)
/// says `yes`.  An error when the command could not be run or exited
/// unsuccessfully.
pub open spec fn info_says(run: Result<CommandOutput, String>, key: Seq<char>, r: Result<bool, String>) -> bool {
    match run {
        Err(e) => r matches Err(m) && m@ == "bluetoothctl exited with error: "@ + e@,
        Ok(o) => if o.success {
            r == Ok::<bool, String>(says_yes(utf8_lossy(o.stdout@), key))
        } else {
            r matches Err(m) && m@ == "bluetoothctl exited with error: "@ + utf8_lossy(o.stderr@)
        },
    }
}

fn info_flag(run: Result<CommandOutput, String>, key: &str) -> (r: Result<bool, String>)
    ensures
        info_says(run, key@, r),
{
    match run {
        Ok(o) => {
            if o.success {
                let stdout = decode_lossy(o.stdout.as_slice());
                Ok(key_says_yes(stdout.as_str(), key))
            } else {
                let err_msg = decode_lossy(o.stderr.as_slice());
                Err(prefixed("bluetoothctl exited with error: ", err_msg.as_str()))
            }
        },
        Err(e) => Err(prefixed("bluetoothctl exited with error: ", e.as_str())),
    }
}

/// Whether a run of `bluetoothctl info <mac>` says the device is connected.
pub fn is_device_connected(run: Result<CommandOutput, String>) -> (r: Result<bool, String>)
    ensures
        info_says(run, "Connected:"@, r),
{
    info_flag(run, "Connected:")
}

/// Whether a run of `bluetoothctl info <mac>` says the device is paired.
pub fn is_device_paired(run: Result<CommandOutput, String>) -> (r: Result<bool, String>)
    ensures
        info_says(run, "Paired:"@, r),
{
    info_flag(run, "Paired:")
}

/// The words `ws` joined by single spaces, as `Vec::join(" ")` does.
pub open spec fn join_words(ws: Seq<Seq<char>>) -> Seq<char>
    decreases ws.len(),
{
    if ws.len() == 0 {
        seq![]
    } else if ws.len() == 1 {
        ws[0]
    } else {
        join_words(ws.drop_last()) + seq![' '] + ws.last()
    }
}

/// The MAC address and name on a line of `bluetoothctl devices`
/// (`Device <mac> <name words...>`): the second word, and the words after
/// it joined by single spaces.  `None` for a line of fewer than two words.
pub open spec fn listed_device(line: Seq<char>) -> Option<(Seq<char>, Seq<char>)> {
    let w = words(line);
    if w.len() >= 2 {
        Some((w[1], join_words(w.skip(2))))
    } else {
        None
    }
}

/// The device is worth showing: it has a real name and, when `check_mac`,
/// a well-formed MAC address.
pub open spec fn worth_listing(mac: Seq<char>, name: Seq<char>, check_mac: bool) -> bool {
    name.len() > 0 && !nameless(name, mac) && (check_mac ==> valid_mac(mac))
}

/// The `(mac, name)` pairs of the lines `ls` of `bluetoothctl devices` that
/// are worth listing, in order.
pub open spec fn device_listing(ls: Seq<Seq<char>>, check_mac: bool) -> Seq<(Seq<char>, Seq<char>)>
    decreases ls.len(),
{
    if ls.len() == 0 {
        seq![]
    } else {
        let rest = device_listing(ls.drop_last(), check_mac);
        match listed_device(ls.last()) {
            Some((mac, name)) => if worth_listing(mac, name, check_mac) {
                rest.push((mac, name))
            } else {
                rest
            },
            None => rest,
        }
    }
}

/// A device named in the output of `bluetoothctl devices`.
#[derive(Clone, Debug)]
pub struct ListedDevice {
    pub mac_address: String,
    pub name: String,
}

/// The `(mac, name)` pairs of a list of devices.
pub open spec fn listed_views(v: Seq<ListedDevice>) -> Seq<(Seq<char>, Seq<char>)> {
    v.map_values(|d: ListedDevice| (d.mac_address@, d.name@))
}

/// The parts of `cs` in the ranges `ws`, from the `from`-th on, joined by
/// single spaces.
fn join_ranges(text: &str, cs: &Vec<char>, ws: &Vec<(usize, usize)>, Ghost(parts): Ghost<Seq<Seq<char>>>, from: usize) -> (s: String)
    requires
        cs@ == text@,
        ranges_of(cs@, ws@, parts),
        from <= ws@.len(),
    ensures
        s@ == join_words(parts.skip(from as int)),
{
    let mut s = String::new();
    let mut i = from;
    proof {
        reveal_strlit(" ");
        assert(parts.subrange(from as int, from as int) == Seq::<Seq<char>>::empty());
    }
    while i < ws.len()
        invariant
            cs@ == text@,
            ranges_of(cs@, ws@, parts),
            from <= i <= ws@.len(),
            s@ == join_words(parts.subrange(from as int, i as int)),
        decreases ws@.len() - i,
    {
        let (a, b) = ws[i];
        assert(ws@[i as int] == (a, b));
        let w = range_string(text, cs, a, b);
        let ghost sub = parts.subrange(from as int, i + 1);
        assert(sub.drop_last() == parts.subrange(from as int, i as int));
        assert(sub.last() == parts[i as int]);
        if i > from {
            s.append(" ");
            proof {
                reveal_strlit(" ");
            }
        } else {
            assert(s@ == Seq::<char>::empty());
            assert(Seq::<char>::empty() + w@ == w@);
        }
        s.append(w.as_str());
        i = i + 1;
    }
    assert(parts.subrange(from as int, ws@.len() as int) == parts.skip(from as int));
    s
}

/// The devices worth listing in the output `text` of `bluetoothctl devices`:
/// named, not named by their MAC address, and, when `check_mac`, with a
/// well-formed MAC address.
pub fn listed_devices(text: &str, check_mac: bool) -> (v: Vec<ListedDevice>)
    ensures
        listed_views(v@) == device_listing(lines(text@), check_mac),
{
    let cs = char_vec(text);
    let ls = line_ranges(&cs);
    let ghost all = lines(cs@);
    let mut out: Vec<ListedDevice> = Vec::new();
    let mut k: usize = 0;
    assert(all.take(0) == Seq::<Seq<char>>::empty());
    assert(listed_views(out@) == Seq::<(Seq<char>, Seq<char>)>::empty());
    while k < ls.len()
        invariant
            cs@ == text@,
            all == lines(cs@),
            ranges_of(cs@, ls@, all),
            k <= ls@.len(),
            listed_views(out@) == device_listing(all.take(k as int), check_mac),
        decreases ls@.len() - k,
    {
        let (a, b) = ls[k];
        assert(ls@[k as int] == (a, b));
        let ws = word_ranges(&cs, a, b);
        let ghost parts = words(all[k as int]);
        proof {
            assert(all.take(k + 1).drop_last() == all.take(k as int));
            assert(all.take(k + 1).last() == all[k as int]);
        }
        if ws.len() >= 2 {
            let (ma, mb) = ws[1];
            assert(ws@[1] == (ma, mb));
            let mac_address = range_string(text, &cs, ma, mb);
            let name = join_ranges(text, &cs, &ws, Ghost(parts), 2);
            let keep = !name.as_str().is_empty() && !is_nameless(name.as_str(), mac_address.as_str())
                && (!check_mac || is_valid_mac(mac_address.as_str()));
            if keep {
                let ghost before = out@;
                let d = ListedDevice { mac_address, name };
                let ghost dv = (d.mac_address@, d.name@);
                out.push(d);
                assert(listed_views(out@) == listed_views(before).push(dv));
            }
        }
        k = k + 1;
    }
    assert(all.take(ls@.len() as int) == all);
    out
}

/// The window's view of a device: name, connected, MAC address.
pub open spec fn device_view(d: BluetoothDevice) -> (Seq<char>, bool, Seq<char>) {
    (d.name@, d.connected, d.mac_address@)
}

/// The window's view of a list of devices.
pub open spec fn devices_view(v: Seq<BluetoothDevice>) -> Seq<(Seq<char>, bool, Seq<char>)> {
    v.map_values(|d: BluetoothDevice| device_view(d))
}

/// A device list result viewed as plain values.
pub open spec fn listing_result(r: Result<Vec<ListedDevice>, String>) -> Result<Seq<(Seq<char>, Seq<char>)>, Seq<char>> {
    match r {
        Ok(v) => Ok(listed_views(v@)),
        Err(e) => Err(e@),
    }
}

/// What a run of `bluetoothctl devices` lists: an error when it could not
/// be run (its exit status is not looked at), else the devices of its
/// output worth listing.
pub open spec fn listing_of(run: Result<CommandOutput, String>, check_mac: bool) -> Result<Seq<(Seq<char>, Seq<char>)>, Seq<char>> {
    match run {
        Err(e) => Err("failed to run bluetoothctl: "@ + e@),
        Ok(o) => Ok(device_listing(lines(utf8_lossy(o.stdout@)), check_mac)),
    }
}

fn listing(run: Result<CommandOutput, String>, check_mac: bool) -> (r: Result<Vec<ListedDevice>, String>)
    ensures
        listing_result(r) == listing_of(run, check_mac),
{
    match run {
        Err(e) => Err(prefixed("failed to run bluetoothctl: ", e.as_str())),
        Ok(o) => {
            let stdout = decode_lossy(o.stdout.as_slice());
            Ok(listed_devices(stdout.as_str(), check_mac))
        },
    }
}

/// The paired devices worth showing, from a run of
/// `bluetoothctl devices Paired`: named, not named by their MAC address,
/// with a well-formed MAC address.  The program then asks
/// `bluetoothctl info` about each, and [`with_connection_states`] makes the
/// list.
pub fn get_saved_devices(listing_run: Result<CommandOutput, String>) -> (r: Result<Vec<ListedDevice>, String>)
    ensures
        listing_result(r) == listing_of(listing_run, true),
{
    listing(listing_run, true)
}

/// The nearby devices to ask about, from a run of `bluetoothctl devices`:
/// named and not named by their MAC address.  The program then asks
/// `bluetoothctl info` whether each is paired, and [`get_new_devices`]
/// makes the list.
pub fn new_device_candidates(listing_run: Result<CommandOutput, String>) -> (r: Result<Vec<ListedDevice>, String>)
    ensures
        listing_result(r) == listing_of(listing_run, false),
{
    listing(listing_run, false)
}

/// The devices `ds` whose connection state `st` could be read, with it.
pub open spec fn with_connection(ds: Seq<(Seq<char>, Seq<char>)>, st: Seq<Result<bool, String>>) -> Seq<(Seq<char>, bool, Seq<char>)>
    decreases ds.len(),
{
    if ds.len() == 0 || st.len() == 0 {
        seq![]
    } else {
        let rest = with_connection(ds.drop_last(), st.drop_last());
        match st.last() {
            Ok(c) => rest.push((ds.last().1, c, ds.last().0)),
            Err(_) => rest,
        }
    }
}

/// The devices `ds` that `st` says are not paired and whose MAC address is
/// well-formed, as not connected.
pub open spec fn unpaired(ds: Seq<(Seq<char>, Seq<char>)>, st: Seq<Result<bool, String>>) -> Seq<(Seq<char>, bool, Seq<char>)>
    decreases ds.len(),
{
    if ds.len() == 0 || st.len() == 0 {
        seq![]
    } else {
        let rest = unpaired(ds.drop_last(), st.drop_last());
        if st.last() == Ok::<bool, String>(false) && valid_mac(ds.last().0) {
            rest.push((ds.last().1, false, ds.last().0))
        } else {
            rest
        }
    }
}

/// The paired devices to show: each of `devices` whose `bluetoothctl info`
/// answer (`connected[i]`, from [`is_device_connected`]) could be read,
/// with its connection state; a device whose answer is an error is left out.
pub fn with_connection_states(devices: &Vec<ListedDevice>, connected: &Vec<Result<bool, String>>) -> (v: Vec<BluetoothDevice>)
    requires
        devices@.len() == connected@.len(),
    ensures
        devices_view(v@) == with_connection(listed_views(devices@), connected@),
{
    let ghost ds = listed_views(devices@);
    let mut out: Vec<BluetoothDevice> = Vec::new();
    let mut i: usize = 0;
    assert(ds.take(0) == Seq::<(Seq<char>, Seq<char>)>::empty());
    assert(devices_view(out@) == Seq::<(Seq<char>, bool, Seq<char>)>::empty());
    while i < devices.len()
        invariant
            devices@.len() == connected@.len(),
            ds == listed_views(devices@),
            i <= devices@.len(),
            devices_view(out@) == with_connection(ds.take(i as int), connected@.take(i as int)),
        decreases devices@.len() - i,
    {
        proof {
            assert(ds.take(i + 1).drop_last() == ds.take(i as int));
            assert(connected@.take(i + 1).drop_last() == connected@.take(i as int));
            assert(ds.take(i + 1).last() == ds[i as int]);
            assert(connected@.take(i + 1).last() == connected@[i as int]);
        }
        match &connected[i] {
            Ok(c) => {
                let d = BluetoothDevice {
                    name: devices[i].name.clone(),
                    connected: *c,
                    mac_address: devices[i].mac_address.clone(),
                };
                let ghost before = out@;
                out.push(d);
                assert(devices_view(out@) == devices_view(before).push(device_view(d)));
            },
            Err(_) => {},
        }
        i = i + 1;
    }
    assert(ds.take(devices@.len() as int) == ds);
    assert(connected@.take(devices@.len() as int) == connected@);
    out
}

/// The nearby devices to show: each of `candidates` that its
/// `bluetoothctl info` answer (`paired[i]`, from [`is_device_paired`]) says
/// is not paired and whose MAC address is well-formed, as not connected.  A
/// device whose answer is an error is left out.
pub fn get_new_devices(candidates: &Vec<ListedDevice>, paired: &Vec<Result<bool, String>>) -> (v: Vec<BluetoothDevice>)
    requires
        candidates@.len() == paired@.len(),
    ensures
        devices_view(v@) == unpaired(listed_views(candidates@), paired@),
{
    let ghost ds = listed_views(candidates@);
    let mut out: Vec<BluetoothDevice> = Vec::new();
    let mut i: usize = 0;
    assert(ds.take(0) == Seq::<(Seq<char>, Seq<char>)>::empty());
    assert(devices_view(out@) == Seq::<(Seq<char>, bool, Seq<char>)>::empty());
    while i < candidates.len()
        invariant
            candidates@.len() == paired@.len(),
            ds == listed_views(candidates@),
            i <= candidates@.len(),
            devices_view(out@) == unpaired(ds.take(i as int), paired@.take(i as int)),
        decreases candidates@.len() - i,
    {
        proof {
            assert(ds.take(i + 1).drop_last() == ds.take(i as int));
            assert(paired@.take(i + 1).drop_last() == paired@.take(i as int));
            assert(ds.take(i + 1).last() == ds[i as int]);
            assert(paired@.take(i + 1).last() == paired@[i as int]);
        }
        let not_paired = match &paired[i] {
            Ok(p) => !*p,
            Err(_) => false,
        };
        if not_paired && is_valid_mac(candidates[i].mac_address.as_str()) {
            let d = BluetoothDevice {
                name: candidates[i].name.clone(),
                connected: false,
                mac_address: candidates[i].mac_address.clone(),
            };
            let ghost before = out@;
            out.push(d);
            assert(devices_view(out@) == devices_view(before).push(device_view(d)));
        }
        i = i + 1;
    }
    assert(ds.take(candidates@.len() as int) == ds);
    assert(paired@.take(candidates@.len() as int) == paired@);
    out
}

/// Shows the paired devices; on error the window is unchanged and the error
/// is returned.
pub fn saved_devices(ui: &mut Window, devices: Result<Vec<BluetoothDevice>, String>) -> (r: Result<(), String>)
    ensures
        match devices {
            Ok(v) => r is Ok && *final(ui) == (Window { saved_devices: v, ..*old(ui) }),
            Err(e) => r == Err::<(), String>(e) && *final(ui) == *old(ui),
        },
{
    match devices {
        Ok(v) => {
            display_saved_devices(ui, v);
            Ok(())
        },
        Err(e) => Err(e),
    }
}

/// Shows the nearby unpaired devices; on error the window is unchanged and
/// the error is returned.
pub fn new_devices(ui: &mut Window, devices: Result<Vec<BluetoothDevice>, String>) -> (r: Result<(), String>)
    ensures
        match devices {
            Ok(v) => r is Ok && *final(ui) == (Window { new_devices: v, ..*old(ui) }),
            Err(e) => r == Err::<(), String>(e) && *final(ui) == *old(ui),
        },
{
    match devices {
        Ok(v) => {
            display_new_devices(ui, v);
            Ok(())
        },
        Err(e) => Err(e),
    }
}

/// Reads the adapter state from a run of `bluetoothctl show`: powered when
/// the command exited successfully and its first `Powered:` line says
/// `yes`; not powered on any failure, and when the command could not be
/// run the reason is returned.
pub fn set_bluetooth_on(ui: &mut Window, run: Result<CommandOutput, String>) -> (r: Result<(), String>)
    ensures
        match run {
            Ok(o) => r is Ok && *final(ui) == (Window {
                bluetooth_on: o.success && says_yes(utf8_lossy(o.stdout@), "Powered:"@),
                ..*old(ui)
            }),
            Err(e) => r == Err::<(), String>(e) && *final(ui) == (Window {
                bluetooth_on: false,
                ..*old(ui)
            }),
        },
{
    match run {
        Ok(o) => {
            let powered = if o.success {
                let stdout = decode_lossy(o.stdout.as_slice());
                key_says_yes(stdout.as_str(), "Powered:")
            } else {
                false
            };
            ui.bluetooth_on = powered;
            Ok(())
        },
        Err(e) => {
            ui.bluetooth_on = false;
            Err(e)
        },
    }
}

/// The outcome of `bluetoothctl power on`.
pub fn enable_bluetooth(run: Result<CommandOutput, String>) -> (r: Result<(), String>)
    ensures
        reports(r, run, "failed to enable bluetooth: "@),
{
    ran(run, "failed to enable bluetooth: ")
}

/// The outcome of `bluetoothctl power off`.
pub fn disable_bluetooth(run: Result<CommandOutput, String>) -> (r: Result<(), String>)
    ensures
        reports(r, run, "failed to disable bluetooth: "@),
{
    ran(run, "failed to disable bluetooth: ")
}

/// Finishes a toggle of the Bluetooth adapter, given the run of the command
/// that [`crate::wifi::toggle_target`] asked for (`bluetoothctl power off`
/// when it is shown as on, `power on` otherwise).  When the command ran and
/// exited successfully, the window shows the new state; otherwise it is
/// unchanged and the failure is returned.
pub fn toggle_bluetooth(ui: &mut Window, run: Result<CommandOutput, String>) -> (r: Result<(), String>)
    ensures
        *final(ui) == (Window {
            bluetooth_on: crate::wifi::after_toggle(old(ui).bluetooth_on, succeeded(run)),
            ..*old(ui)
        }),
        old(ui).bluetooth_on ==> reports(r, run, "failed to disable bluetooth: "@),
        !old(ui).bluetooth_on ==> reports(r, run, "failed to enable bluetooth: "@),
{
    if ui.bluetooth_on {
        let result = disable_bluetooth(run);
        match result {
            Ok(_) => {
                ui.bluetooth_on = false;
                Ok(())
            },
            Err(e) => Err(e),
        }
    } else {
        let result = enable_bluetooth(run);
        match result {
            Ok(_) => {
                ui.bluetooth_on = true;
                Ok(())
            },
            Err(e) => Err(e),
        }
    }
}

/// The outcome of `bluetoothctl connect <mac>`.
pub fn on_connect_device(run: Result<CommandOutput, String>) -> (r: Result<(), String>)
    ensures
        reports(r, run, "unable to connect to device: "@),
{
    ran(run, "unable to connect to device: ")
}

/// The outcome of `bluetoothctl trust <mac>`.
pub fn on_trust_device(run: Result<CommandOutput, String>) -> (r: Result<(), String>)
    ensures
        reports(r, run, "failed to trust device: "@),
{
    ran(run, "failed to trust device: ")
}

/// The outcome of `bluetoothctl disconnect <mac>`.
pub fn on_disconnect_known_device(run: Result<CommandOutput, String>) -> (r: Result<(), String>)
    ensures
        reports(r, run, "failed to run bluetoothctl: "@),
{
    ran(run, "failed to run bluetoothctl: ")
}

/// The outcome of `bluetoothctl remove <mac>`.
pub fn on_forget_device(run: Result<CommandOutput, String>) -> (r: Result<(), String>)
    ensures
        reports(r, run, "unable to forget device: "@),
{
    ran(run, "unable to forget device: ")
}

/// The outcome of `bluetoothctl --timeout <seconds> scan on`.
pub fn scan_new_devices(run: Result<CommandOutput, String>) -> (r: Result<(), String>)
    ensures
        reports(r, run, "failed to run bluetoothctl: "@),
{
    ran(run, "failed to run bluetoothctl: ")
}

/// Where connecting a new device stands: it is first connected
/// (`bluetoothctl connect`), then trusted (`bluetoothctl trust`).
pub enum NewDeviceStep {
    /// Run `bluetoothctl connect <mac>` next.
    Connect,
    /// Run `bluetoothctl trust <mac>` next.
    Trust,
    /// Finished, with this outcome.
    Done(Result<(), String>),
}

/// The step after `step` once its command's `run` is known.
pub open spec fn next_new_device_step(step: NewDeviceStep, run: Result<CommandOutput, String>, next: NewDeviceStep) -> bool {
    match step {
        NewDeviceStep::Connect => if succeeded(run) {
            next is Trust
        } else {
            next matches NewDeviceStep::Done(r) && reports(r, run, "unable to connect to device: "@)
        },
        NewDeviceStep::Trust => next matches NewDeviceStep::Done(r) && reports(
            r,
            run,
            "failed to trust device: "@,
        ),
        NewDeviceStep::Done(_) => next == step,
    }
}

/// Connects and trusts a new device, one command at a time: from
/// `NewDeviceStep::Connect`, the program runs the command that the step
/// names and hands its run here, until the step is `Done`.  The trust
/// command is only asked for once the connect command succeeded.
pub fn on_connect_new_device(step: NewDeviceStep, run: Result<CommandOutput, String>) -> (next: NewDeviceStep)
    ensures
        next_new_device_step(step, run, next),
{
    match step {
        NewDeviceStep::Connect => match on_connect_device(run) {
            Ok(()) => NewDeviceStep::Trust,
            Err(e) => NewDeviceStep::Done(Err(e)),
        },
        NewDeviceStep::Trust => match on_trust_device(run) {
            Ok(()) => NewDeviceStep::Done(Ok(())),
            Err(e) => NewDeviceStep::Done(Err(e)),
        },
        NewDeviceStep::Done(outcome) => NewDeviceStep::Done(outcome),
    }
}

/// Connecting a new device succeeds exactly when both its commands
/// succeeded; a failed connect ends the process before the trust command.
pub proof fn new_device_needs_both_commands(
    connect_run: Result<CommandOutput, String>,
    after_connect: NewDeviceStep,
    trust_run: Result<CommandOutput, String>,
    after_trust: NewDeviceStep,
)
    requires
        next_new_device_step(NewDeviceStep::Connect, connect_run, after_connect),
        next_new_device_step(after_connect, trust_run, after_trust),
    ensures
        after_connect is Trust <==> succeeded(connect_run),
        (after_trust matches NewDeviceStep::Done(Ok(_))) <==> (succeeded(connect_run) && succeeded(
            trust_run,
        )),
        after_trust is Done,
{
}

/// A device whose name is its MAC address is nameless, and so is one whose
/// (ASCII) name is its MAC address written with dashes.
pub proof fn mac_names_are_nameless(name: Seq<char>, mac: Seq<char>)
    requires
        name == mac || (vstd::utf8::is_ascii_chars(name) && name.len() == 17 && dashes_as_colons(name)
            == mac),
    ensures
        nameless(name, mac),
{
    if name != mac {
        vstd::utf8::is_ascii_chars_encode_utf8(name);
    }
}

/// Every device that the paired list (`check_mac`) or the candidate list
/// holds has a name that is not its MAC address, and on the paired list a
/// well-formed MAC address.
pub proof fn listed_devices_are_named(ls: Seq<Seq<char>>, check_mac: bool)
    ensures
        forall|i: int|
            0 <= i < device_listing(ls, check_mac).len() ==> worth_listing(
                (#[trigger] device_listing(ls, check_mac)[i]).0,
                device_listing(ls, check_mac)[i].1,
                check_mac,
            ),
    decreases ls.len(),
{
    if ls.len() > 0 {
        listed_devices_are_named(ls.drop_last(), check_mac);
        let rest = device_listing(ls.drop_last(), check_mac);
        assert forall|i: int| 0 <= i < device_listing(ls, check_mac).len() implies worth_listing(
            (#[trigger] device_listing(ls, check_mac)[i]).0,
            device_listing(ls, check_mac)[i].1,
            check_mac,
        ) by {
            if i < rest.len() {
                assert(device_listing(ls, check_mac)[i] == rest[i]);
            }
        }
    }
}

/// Every device on the list of new devices was answered "not paired", has
/// a well-formed MAC address and is shown as not connected.
pub proof fn new_devices_are_unpaired(ds: Seq<(Seq<char>, Seq<char>)>, st: Seq<Result<bool, String>>)
    requires
        ds.len() == st.len(),
    ensures
        forall|i: int|
            0 <= i < unpaired(ds, st).len() ==> {
                let d = #[trigger] unpaired(ds, st)[i];
                &&& !d.1
                &&& valid_mac(d.2)
                &&& exists|j: int|
                    0 <= j < ds.len() && st[j] == Ok::<bool, String>(false) && ds[j] == (d.2, d.0)
            },
    decreases ds.len(),
{
    if ds.len() > 0 {
        let dl = ds.drop_last();
        let sl = st.drop_last();
        new_devices_are_unpaired(dl, sl);
        let rest = unpaired(dl, sl);
        assert forall|i: int| 0 <= i < unpaired(ds, st).len() implies {
            let d = #[trigger] unpaired(ds, st)[i];
            &&& !d.1
            &&& valid_mac(d.2)
            &&& exists|j: int|
                0 <= j < ds.len() && st[j] == Ok::<bool, String>(false) && ds[j] == (d.2, d.0)
        } by {
            let d = unpaired(ds, st)[i];
            if i < rest.len() {
                assert(d == rest[i]);
                let j = choose|j: int|
                    0 <= j < dl.len() && sl[j] == Ok::<bool, String>(false) && dl[j] == (d.2, d.0);
                assert(ds[j] == dl[j] && st[j] == sl[j]);
            } else {
                let j = ds.len() - 1;
                assert(ds[j] == ds.last() && st[j] == st.last());
            }
        }
    }
}

/// The line names a device that is worth listing.
pub open spec fn names_device_worth_listing(line: Seq<char>, check_mac: bool) -> bool {
    match listed_device(line) {
        Some((mac, name)) => worth_listing(mac, name, check_mac),
        None => false,
    }
}

/// The device listing reads every line: each line that names a device worth
/// listing puts that device on the list, the last line as much as any
/// other, and every device on the list comes from such a line.
pub proof fn every_named_line_is_listed(ls: Seq<Seq<char>>, check_mac: bool)
    ensures
        forall|i: int|
            0 <= i < ls.len() && names_device_worth_listing(#[trigger] ls[i], check_mac) ==> device_listing(ls, check_mac).contains(listed_device(ls[i])->0),
        forall|k: int|
            0 <= k < device_listing(ls, check_mac).len() ==> exists|i: int|
                0 <= i < ls.len() && #[trigger] listed_device(ls[i]) == Some(
                    #[trigger] device_listing(ls, check_mac)[k],
                ),
    decreases ls.len(),
{
    if ls.len() > 0 {
        let d = ls.drop_last();
        let n = ls.len() - 1;
        every_named_line_is_listed(d, check_mac);
        let rest = device_listing(d, check_mac);
        let w = device_listing(ls, check_mac);
        assert(ls.last() == ls[n]);
        assert forall|i: int|
            0 <= i < ls.len() && names_device_worth_listing(#[trigger] ls[i], check_mac) implies w.contains(listed_device(ls[i])->0) by {
            if i < n {
                assert(d[i] == ls[i]);
                assert(listed_device(d[i]) == listed_device(ls[i]));
                let k = choose|k: int| 0 <= k < rest.len() && rest[k] == listed_device(d[i])->0;
                assert(w[k] == rest[k]);
            } else {
                assert(w[w.len() - 1] == listed_device(ls[n])->0);
            }
        }
        assert forall|k: int| 0 <= k < w.len() implies exists|i: int|
            0 <= i < ls.len() && #[trigger] listed_device(ls[i]) == Some(#[trigger] w[k]) by {
            if k < rest.len() {
                assert(w[k] == rest[k]);
                let i = choose|i: int| 0 <= i < d.len() && #[trigger] listed_device(d[i]) == Some(rest[k]);
                assert(d[i] == ls[i]);
                assert(listed_device(ls[i]) == Some(w[k]));
            } else {
                assert(listed_device(ls[n]) == Some(w[k]));
            }
        }
    }
}

/// Every candidate that was answered "not paired" and has a well-formed
/// MAC address is on the list of new devices, as not connected, whatever
/// the answers about the other candidates were.
pub proof fn every_unpaired_device_is_listed(ds: Seq<(Seq<char>, Seq<char>)>, st: Seq<Result<bool, String>>)
    requires
        ds.len() == st.len(),
    ensures
        forall|i: int|
            0 <= i < ds.len() && st[i] == Ok::<bool, String>(false) && valid_mac(#[trigger] ds[i].0)
                ==> unpaired(ds, st).contains((ds[i].1, false, ds[i].0)),
    decreases ds.len(),
{
    if ds.len() > 0 {
        let dl = ds.drop_last();
        let sl = st.drop_last();
        let n = ds.len() - 1;
        every_unpaired_device_is_listed(dl, sl);
        let rest = unpaired(dl, sl);
        let w = unpaired(ds, st);
        assert(ds.last() == ds[n] && st.last() == st[n]);
        assert forall|i: int|
            0 <= i < ds.len() && st[i] == Ok::<bool, String>(false) && valid_mac(#[trigger] ds[i].0)
                implies w.contains((ds[i].1, false, ds[i].0)) by {
            if i < n {
                assert(dl[i] == ds[i] && sl[i] == st[i]);
                let k = choose|k: int| 0 <= k < rest.len() && rest[k] == (dl[i].1, false, dl[i].0);
                assert(w[k] == rest[k]);
            } else {
                assert(w[w.len() - 1] == (ds[n].1, false, ds[n].0));
            }
        }
    }
}

/// The paired list holds every device whose connection state could be
/// read, with that state, whatever was answered about the others; and
/// every entry is such a device with its state.
pub proof fn every_answered_device_is_listed(ds: Seq<(Seq<char>, Seq<char>)>, st: Seq<Result<bool, String>>)
    requires
        ds.len() == st.len(),
    ensures
        forall|i: int|
            0 <= i < ds.len() && (#[trigger] st[i]) is Ok ==> with_connection(ds, st).contains(
                (ds[i].1, st[i]->Ok_0, ds[i].0),
            ),
        forall|k: int|
            0 <= k < with_connection(ds, st).len() ==> exists|j: int|
                0 <= j < ds.len() && st[j] == Ok::<bool, String>(
                    (#[trigger] with_connection(ds, st)[k]).1,
                ) && #[trigger] ds[j] == (with_connection(ds, st)[k].2, with_connection(ds, st)[k].0),
    decreases ds.len(),
{
    if ds.len() > 0 {
        let dl = ds.drop_last();
        let sl = st.drop_last();
        let n = ds.len() - 1;
        every_answered_device_is_listed(dl, sl);
        let rest = with_connection(dl, sl);
        let w = with_connection(ds, st);
        assert(ds.last() == ds[n] && st.last() == st[n]);
        assert forall|i: int| 0 <= i < ds.len() && (#[trigger] st[i]) is Ok implies w.contains(
            (ds[i].1, st[i]->Ok_0, ds[i].0),
        ) by {
            if i < n {
                assert(dl[i] == ds[i] && sl[i] == st[i]);
                let k = choose|k: int| 0 <= k < rest.len() && rest[k] == (dl[i].1, sl[i]->Ok_0, dl[i].0);
                assert(w[k] == rest[k]);
            } else {
                assert(w[w.len() - 1] == (ds[n].1, st[n]->Ok_0, ds[n].0));
            }
        }
        assert forall|k: int| 0 <= k < w.len() implies exists|j: int|
            0 <= j < ds.len() && st[j] == Ok::<bool, String>((#[trigger] w[k]).1) && #[trigger] ds[j] == (
                w[k].2,
                w[k].0,
            ) by {
            if k < rest.len() {
                assert(w[k] == rest[k]);
                let j = choose|j: int|
                    0 <= j < dl.len() && sl[j] == Ok::<bool, String>(rest[k].1) && #[trigger] dl[j] == (
                        rest[k].2,
                        rest[k].0,
                    );
                assert(dl[j] == ds[j] && sl[j] == st[j]);
            } else {
                assert(st[n] == Ok::<bool, String>(w[k].1));
                assert(ds[n] == (w[k].2, w[k].0));
            }
        }
    }
}

/// The first line that, trimmed, begins with `key` gives the value, whatever
/// the lines before it hold; with no such line there is no value.
pub proof fn first_key_line_decides(ls: Seq<Seq<char>>, key: Seq<char>)
    ensures
        forall|j: int|
            0 <= j < ls.len() && key.is_prefix_of(trim(#[trigger] ls[j])) && (forall|i: int|
                0 <= i < j ==> !key.is_prefix_of(trim(#[trigger] ls[i]))) ==> key_value(ls, key) == Some(
                trim(ls[j]).skip(key.len() as int),
            ),
        (forall|i: int| 0 <= i < ls.len() ==> !key.is_prefix_of(trim(#[trigger] ls[i]))) ==> key_value(
            ls,
            key,
        ) is None,
    decreases ls.len(),
{
    if ls.len() > 0 {
        let r = ls.drop_first();
        first_key_line_decides(r, key);
        let t = trim(ls[0]);
        assert(key.is_prefix_of(t) <==> (key.len() <= t.len() && t.take(key.len() as int) == key)) by {
            if key.len() <= t.len() {
                assert(t.take(key.len() as int) == t.subrange(0, key.len() as int));
            }
        }
        assert forall|j: int|
            0 <= j < ls.len() && key.is_prefix_of(trim(#[trigger] ls[j])) && (forall|i: int|
                0 <= i < j ==> !key.is_prefix_of(trim(#[trigger] ls[i]))) implies key_value(ls, key)
            == Some(trim(ls[j]).skip(key.len() as int)) by {
            if j > 0 {
                assert(!key.is_prefix_of(trim(ls[0])));
                assert(r[j - 1] == ls[j]);
                assert forall|i: int| 0 <= i < j - 1 implies !key.is_prefix_of(trim(#[trigger] r[i])) by {
                    assert(r[i] == ls[i + 1]);
                    assert(!key.is_prefix_of(trim(ls[i + 1])));
                }
            }
        }
        if forall|i: int| 0 <= i < ls.len() ==> !key.is_prefix_of(trim(#[trigger] ls[i])) {
            assert(!key.is_prefix_of(trim(ls[0])));
            assert forall|i: int| 0 <= i < r.len() implies !key.is_prefix_of(trim(#[trigger] r[i])) by {
                assert(r[i] == ls[i + 1]);
                assert(!key.is_prefix_of(trim(ls[i + 1])));
            }
        }
    }
}

/// A `key` flag reads `yes` exactly when the first line that, trimmed,
/// begins with `key` has `yes` after the key (spaces aside), whatever the
/// lines before it hold; with no such line it does not.
pub proof fn first_key_line_says_yes(text: Seq<char>, key: Seq<char>)
    ensures
        says_yes(text, key) <==> exists|j: int|
            0 <= j < lines(text).len() && key.is_prefix_of(trim(#[trigger] lines(text)[j])) && (forall|
                i: int,
            | 0 <= i < j ==> !key.is_prefix_of(trim(#[trigger] lines(text)[i]))) && trim(
                trim(lines(text)[j]).skip(key.len() as int),
            ) == "yes"@,
{
    let ls = lines(text);
    first_key_line_decides(ls, key);
    if says_yes(text, key) {
        if forall|i: int| 0 <= i < ls.len() ==> !key.is_prefix_of(trim(#[trigger] ls[i])) {
            assert(false);
        }
        let j0 = choose|j: int| 0 <= j < ls.len() && key.is_prefix_of(trim(#[trigger] ls[j]));
        let j = first_key_line(ls, key, j0);
        assert(trim(trim(ls[j]).skip(key.len() as int)) == "yes"@);
    }
}

/// The first line at or before `j` that, trimmed, begins with `key`.
proof fn first_key_line(ls: Seq<Seq<char>>, key: Seq<char>, j: int) -> (f: int)
    requires
        0 <= j < ls.len(),
        key.is_prefix_of(trim(ls[j])),
    ensures
        0 <= f <= j,
        key.is_prefix_of(trim(ls[f])),
        forall|i: int| 0 <= i < f ==> !key.is_prefix_of(trim(#[trigger] ls[i])),
    decreases j,
{
    if exists|i: int| 0 <= i < j && key.is_prefix_of(trim(#[trigger] ls[i])) {
        let i = choose|i: int| 0 <= i < j && key.is_prefix_of(trim(#[trigger] ls[i]));
        first_key_line(ls, key, i)
    } else {
        j
    }
}

/// The device listing is the lines that name a device worth listing, in
/// the order they come, each read as its `(mac, name)`: no line counts
/// twice and none moves.
pub proof fn device_listing_keeps_line_order(ls: Seq<Seq<char>>, check_mac: bool)
    ensures
        device_listing(ls, check_mac) == ls.filter(
            |l: Seq<char>| names_device_worth_listing(l, check_mac),
        ).map_values(|l: Seq<char>| listed_device(l)->0),
    decreases ls.len(),
{
    reveal(Seq::filter);
    if ls.len() > 0 {
        device_listing_keeps_line_order(ls.drop_last(), check_mac);
        let kept = ls.drop_last().filter(|l: Seq<char>| names_device_worth_listing(l, check_mac));
        let last = ls.last();
        assert(kept.push(last).map_values(|l: Seq<char>| listed_device(l)->0) =~= kept.map_values(
            |l: Seq<char>| listed_device(l)->0,
        ).push(listed_device(last)->0));
    }
}

/// The new devices are the candidates, in their order, that were answered
/// "not paired" and have a well-formed MAC address, each shown as not
/// connected: no candidate counts twice and none moves.
pub proof fn new_devices_keep_candidate_order(ds: Seq<(Seq<char>, Seq<char>)>, st: Seq<Result<bool, String>>)
    requires
        ds.len() == st.len(),
    ensures
        unpaired(ds, st) == Seq::new(ds.len(), |i: int| i).filter(
            |i: int| st[i] == Ok::<bool, String>(false) && valid_mac(ds[i].0),
        ).map_values(|i: int| (ds[i].1, false, ds[i].0)),
{
    unpaired_prefix(ds, st, ds.len() as int);
    assert(ds.take(ds.len() as int) == ds);
    assert(st.take(st.len() as int) == st);
}

proof fn unpaired_prefix(ds: Seq<(Seq<char>, Seq<char>)>, st: Seq<Result<bool, String>>, k: int)
    requires
        ds.len() == st.len(),
        0 <= k <= ds.len(),
    ensures
        unpaired(ds.take(k), st.take(k)) == Seq::new(k as nat, |i: int| i).filter(
            |i: int| st[i] == Ok::<bool, String>(false) && valid_mac(ds[i].0),
        ).map_values(|i: int| (ds[i].1, false, ds[i].0)),
    decreases k,
{
    reveal(Seq::filter);
    if k > 0 {
        unpaired_prefix(ds, st, k - 1);
        assert(ds.take(k).drop_last() == ds.take(k - 1));
        assert(st.take(k).drop_last() == st.take(k - 1));
        assert(ds.take(k).last() == ds[k - 1]);
        assert(st.take(k).last() == st[k - 1]);
        let idx = Seq::new(k as nat, |i: int| i);
        assert(idx.drop_last() == Seq::new((k - 1) as nat, |i: int| i));
        assert(idx.last() == k - 1);
        let kept = idx.drop_last().filter(
            |i: int| st[i] == Ok::<bool, String>(false) && valid_mac(ds[i].0),
        );
        assert(kept.push(k - 1).map_values(|i: int| (ds[i].1, false, ds[i].0)) =~= kept.map_values(
            |i: int| (ds[i].1, false, ds[i].0),
        ).push((ds[k - 1].1, false, ds[k - 1].0)));
    } else {
        assert(Seq::new(0, |i: int| i) == Seq::<int>::empty());
    }
}

/// The paired list is the devices, in their order, whose connection state
/// could be read, each with that state: no device counts twice and none
/// moves.
pub proof fn answered_devices_keep_their_order(ds: Seq<(Seq<char>, Seq<char>)>, st: Seq<Result<bool, String>>)
    requires
        ds.len() == st.len(),
    ensures
        with_connection(ds, st) == Seq::new(ds.len(), |i: int| i).filter(|i: int| st[i] is Ok).map_values(
            |i: int| (ds[i].1, st[i]->Ok_0, ds[i].0),
        ),
{
    with_connection_prefix(ds, st, ds.len() as int);
    assert(ds.take(ds.len() as int) == ds);
    assert(st.take(st.len() as int) == st);
}

proof fn with_connection_prefix(ds: Seq<(Seq<char>, Seq<char>)>, st: Seq<Result<bool, String>>, k: int)
    requires
        ds.len() == st.len(),
        0 <= k <= ds.len(),
    ensures
        with_connection(ds.take(k), st.take(k)) == Seq::new(k as nat, |i: int| i).filter(
            |i: int| st[i] is Ok,
        ).map_values(|i: int| (ds[i].1, st[i]->Ok_0, ds[i].0)),
    decreases k,
{
    reveal(Seq::filter);
    if k > 0 {
        with_connection_prefix(ds, st, k - 1);
        assert(ds.take(k).drop_last() == ds.take(k - 1));
        assert(st.take(k).drop_last() == st.take(k - 1));
        assert(ds.take(k).last() == ds[k - 1]);
        assert(st.take(k).last() == st[k - 1]);
        let idx = Seq::new(k as nat, |i: int| i);
        assert(idx.drop_last() == Seq::new((k - 1) as nat, |i: int| i));
        assert(idx.last() == k - 1);
        let kept = idx.drop_last().filter(|i: int| st[i] is Ok);
        assert(kept.push(k - 1).map_values(|i: int| (ds[i].1, st[i]->Ok_0, ds[i].0)) =~= kept.map_values(
            |i: int| (ds[i].1, st[i]->Ok_0, ds[i].0),
        ).push((ds[k - 1].1, st[k - 1]->Ok_0, ds[k - 1].0)));
    } else {
        assert(Seq::new(0, |i: int| i) == Seq::<int>::empty());
    }
}

} // verus!
