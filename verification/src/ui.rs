//! What the drive window shows: status-bar texts, the device column, the
//! messages after a removal attempt, and the colours of the light and dark
//! themes.

use vstd::prelude::*;
use crate::drives::{BusType, RemovableDrive, option_string_view};
use crate::eject::EjectError;
use crate::text::{push_decimal, decimal};

verus! {

/// Background colour of the dark theme (0x00BBGGRR).
pub const DARK_BACKGROUND: u32 = 0x00191919;

/// Text colour of the dark theme.
pub const DARK_TEXT: u32 = 0x00FFFFFF;

/// The "default colour" value that returns the status bar to the system colour.
pub const CLR_DEFAULT: u32 = 0xFF000000;

/// Longest status-bar text, in UTF-16 units, that is painted.
pub const STATUS_TEXT_CAPACITY: usize = 512;

/// Whether the user has dark mode enabled for apps: the personalisation key
/// could be opened and its `AppsUseLightTheme` value (read as 1 when missing)
/// is 0.
pub fn is_dark_mode(key_opened: bool, apps_use_light_theme: u32) -> (dark: bool)
    ensures
        dark == (key_opened && apps_use_light_theme == 0),
{
    if !key_opened {
        return false;
    }
    apps_use_light_theme == 0
}

/// Window background: the dark colour in dark mode, else the system window
/// colour.
pub fn background_color(dark: bool, system_window: u32) -> (color: u32)
    ensures
        color == (if dark {
            DARK_BACKGROUND
        } else {
            system_window
        }),
{
    if dark {
        DARK_BACKGROUND
    } else {
        system_window
    }
}

/// Background and text colours of the drive list.
pub fn list_colors(dark: bool, system_window: u32, system_text: u32) -> (colors: (u32, u32))
    ensures
        colors == (if dark {
            (DARK_BACKGROUND, DARK_TEXT)
        } else {
            (system_window, system_text)
        }),
{
    if dark {
        (DARK_BACKGROUND, DARK_TEXT)
    } else {
        (system_window, system_text)
    }
}

/// Background of the status bar: the dark colour, or the default colour.
pub fn status_bar_background(dark: bool) -> (color: u32)
    ensures
        color == (if dark {
            DARK_BACKGROUND
        } else {
            CLR_DEFAULT
        }),
{
    if dark {
        DARK_BACKGROUND
    } else {
        CLR_DEFAULT
    }
}

/// The length of the status-bar text, taken from the low word of the answer
/// to the get-text message; None when there is nothing to paint or the text
/// exceeds the buffer.
pub fn status_text_length(answer: isize) -> (len: Option<usize>)
    ensures
        len matches Some(l) ==> l == ((answer as u32) & 0xFFFFu32) && 0 < l <= STATUS_TEXT_CAPACITY,
        len is None <==> ((answer as u32) & 0xFFFFu32 == 0 || ((answer as u32) & 0xFFFFu32)
            > STATUS_TEXT_CAPACITY),
{
    let low: u32 = (answer as u32) & 0xFFFF;
    assert(low <= 0xFFFFu32) by (bit_vector)
        requires
            low == (answer as u32) & 0xFFFFu32,
    ;
    let text_len: usize = low as usize;
    if text_len > 0 && text_len <= STATUS_TEXT_CAPACITY {
        Some(text_len)
    } else {
        None
    }
}

/// The status-bar text for a list of `count` drives.
pub open spec fn count_status(count: nat) -> Seq<char> {
    if count == 0 {
        "No removable drives found."@
    } else {
        decimal(count) + " removable drive(s) detected."@
    }
}

/// Returns the status-bar text that reports how many drives are listed.
pub fn drive_count_status(count: usize) -> (s: String)
    ensures
        s@ == count_status(count as nat),
{
    if count == 0 {
        return String::from_str("No removable drives found.");
    }
    let mut s = String::new();
    push_decimal(&mut s, count);
    s.append(" removable drive(s) detected.");
    assert(s@ =~= decimal(count as nat) + " removable drive(s) detected."@);
    s
}

/// The status-bar text when no drive is selected: the number of listed
/// drives, also when there are none.
pub open spec fn no_selection_text(count: nat) -> Seq<char> {
    decimal(count) + " removable drive(s) detected."@
}

/// Returns the status-bar text shown while no drive is selected.
pub fn no_selection_status(count: usize) -> (s: String)
    ensures
        s@ == no_selection_text(count as nat),
{
    let mut s = String::new();
    push_decimal(&mut s, count);
    s.append(" removable drive(s) detected.");
    assert(s@ =~= decimal(count as nat) + " removable drive(s) detected."@);
    s
}

/// The controls of the drive window whose visual theme follows dark mode.
#[derive(Debug, Clone, Copy, PartialEq, Eq, Structural)]
pub enum ThemedControl {
    Window,
    DriveList,
    ListHeader,
    RemoveButton,
    StatusBar,
}

/// The visual theme name given to a control: in dark mode the dark themes,
/// and for the drive list and status bar a single space, which switches
/// themed drawing off so that their own colours apply; in light mode the
/// empty name, which restores the default theme, or no name at all for the
/// drive list and status bar.
pub open spec fn theme_name(control: ThemedControl, dark: bool) -> Option<Seq<char>> {
    match control {
        ThemedControl::Window => Some(if dark {
            "DarkMode_Explorer"@
        } else {
            ""@
        }),
        ThemedControl::DriveList => if dark {
            Some(" "@)
        } else {
            None
        },
        ThemedControl::ListHeader => Some(if dark {
            "DarkMode_ItemsView"@
        } else {
            ""@
        }),
        ThemedControl::RemoveButton => Some(if dark {
            "DarkMode_Explorer"@
        } else {
            ""@
        }),
        ThemedControl::StatusBar => if dark {
            Some(" "@)
        } else {
            None
        },
    }
}

/// Light mode gives no control a dark theme: every control gets the empty
/// name, which restores its default theme, except the drive list and the
/// status bar, which get no name. Dark mode gives every control a nonempty
/// name: the dark themes, or a single space for the drive list and the
/// status bar.
pub proof fn lemma_light_mode_resets_themes(control: ThemedControl)
    ensures
        theme_name(control, false) == Some(""@) || theme_name(control, false) is None,
        theme_name(control, false) is None <==> (control == ThemedControl::DriveList || control
            == ThemedControl::StatusBar),
        theme_name(control, true) is Some,
        theme_name(control, true) != Some(""@),
        (control == ThemedControl::DriveList || control == ThemedControl::StatusBar) ==> theme_name(
            control,
            true,
        ) == Some(" "@),
        (control == ThemedControl::Window || control == ThemedControl::RemoveButton) ==> theme_name(
            control,
            true,
        ) == Some("DarkMode_Explorer"@),
        control == ThemedControl::ListHeader ==> theme_name(control, true) == Some(
            "DarkMode_ItemsView"@,
        ),
{
    reveal_strlit("");
    reveal_strlit(" ");
    reveal_strlit("DarkMode_Explorer");
    reveal_strlit("DarkMode_ItemsView");
    assert(""@.len() == 0);
    assert(" "@.len() == 1);
    assert("DarkMode_Explorer"@.len() == 17);
    assert("DarkMode_ItemsView"@.len() == 18);
}

/// Returns the visual theme name to give `control` in dark or light mode,
/// or None to pass no name.
pub fn control_theme(control: ThemedControl, dark: bool) -> (name: Option<String>)
    ensures
        option_string_view(name) == theme_name(control, dark),
{
    match control {
        ThemedControl::Window | ThemedControl::RemoveButton => if dark {
            Some(String::from_str("DarkMode_Explorer"))
        } else {
            Some(String::from_str(""))
        },
        ThemedControl::ListHeader => if dark {
            Some(String::from_str("DarkMode_ItemsView"))
        } else {
            Some(String::from_str(""))
        },
        ThemedControl::DriveList | ThemedControl::StatusBar => if dark {
            Some(String::from_str(" "))
        } else {
            None
        },
    }
}

/// The name under which a bus type is shown.
pub open spec fn bus_name(bus: BusType) -> Seq<char> {
    match bus {
        BusType::Usb => "Usb"@,
        BusType::Firewire => "Firewire"@,
        BusType::Unknown => "Unknown"@,
    }
}

/// Returns the name under which a bus type is shown.
pub fn bus_type_name(bus: BusType) -> (s: String)
    ensures
        s@ == bus_name(bus),
{
    match bus {
        BusType::Usb => String::from_str("Usb"),
        BusType::Firewire => String::from_str("Firewire"),
        BusType::Unknown => String::from_str("Unknown"),
    }
}

/// The name under which an ejection error is shown.
pub open spec fn error_name(e: EjectError) -> Seq<char> {
    match e {
        EjectError::LockFailed => "LockFailed"@,
        EjectError::DismountFailed => "DismountFailed"@,
        EjectError::EjectFailed => "EjectFailed"@,
        EjectError::DeviceNotFound => "DeviceNotFound"@,
    }
}

/// Returns the name under which an ejection error is shown.
pub fn eject_error_name(e: EjectError) -> (s: String)
    ensures
        s@ == error_name(e),
{
    match e {
        EjectError::LockFailed => String::from_str("LockFailed"),
        EjectError::DismountFailed => String::from_str("DismountFailed"),
        EjectError::EjectFailed => String::from_str("EjectFailed"),
        EjectError::DeviceNotFound => String::from_str("DeviceNotFound"),
    }
}

/// The device column of a drive: vendor and product, separated by a space.
pub fn device_description(drive: &RemovableDrive) -> (s: String)
    ensures
        s@ == drive.vendor@ + " "@ + drive.product@,
{
    let mut s = drive.vendor.clone();
    s.append(" ");
    s.append(drive.product.as_str());
    s
}

/// Separator between the parts of the selection text.
pub open spec fn separator() -> Seq<char> {
    "  \u{2014}  "@
}

/// The status-bar text for a selected drive: its mount point, its device and
/// its bus, separated by dashes.
pub fn selection_status(drive: &RemovableDrive) -> (s: String)
    ensures
        s@ == drive.mount_point@ + separator() + drive.vendor@ + " "@ + drive.product@ + separator()
            + bus_name(drive.bus_type),
{
    let mut s = drive.mount_point.clone();
    s.append("  \u{2014}  ");
    s.append(drive.vendor.as_str());
    s.append(" ");
    s.append(drive.product.as_str());
    s.append("  \u{2014}  ");
    let bus = bus_type_name(drive.bus_type);
    s.append(bus.as_str());
    s
}

/// The message after a successful removal.
pub fn removed_message(mount_point: &str) -> (s: String)
    ensures
        s@ == mount_point@ + " was safely removed."@,
{
    let mut s = String::from_str(mount_point);
    s.append(" was safely removed.");
    s
}

/// The message after a failed removal, naming the error.
pub fn eject_failure_message(mount_point: &str, e: EjectError) -> (s: String)
    ensures
        s@ == "Could not eject "@ + mount_point@ + ": "@ + error_name(e),
{
    let mut s = String::from_str("Could not eject ");
    s.append(mount_point);
    s.append(": ");
    let name = eject_error_name(e);
    s.append(name.as_str());
    s
}

} // verus!
