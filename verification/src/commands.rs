//! Decisions behind the tray application's commands: which drive a removal
//! request names, what a tray click does to the main window, and what a menu
//! entry does.

use vstd::prelude::*;
use crate::drives::{RemovableDrive, DriveView, drive_views, string_views};
use crate::eject::{Ejection, EjectStep, eject_drive, other_volumes};

verus! {

/// `s` without its trailing backslashes.
pub open spec fn strip_trailing_backslashes(s: Seq<char>) -> Seq<char>
    decreases s.len(),
{
    if s.len() > 0 && s.last() == '\\' {
        strip_trailing_backslashes(s.drop_last())
    } else {
        s
    }
}

/// Whether two mount points name the same volume: they agree once trailing
/// backslashes are removed, so "E:" and "E:\\" are the same.
pub open spec fn same_mount_point(a: Seq<char>, b: Seq<char>) -> bool {
    strip_trailing_backslashes(a) == strip_trailing_backslashes(b)
}

/// Stripping removes exactly the trailing backslashes: the result is a
/// prefix of the mount point that does not end in a backslash, and only
/// backslashes follow it.
pub proof fn lemma_strip_exact(s: Seq<char>)
    ensures
        strip_trailing_backslashes(s) == s.take(strip_trailing_backslashes(s).len() as int),
        strip_trailing_backslashes(s).len() <= s.len(),
        strip_trailing_backslashes(s).len() > 0 ==> strip_trailing_backslashes(s).last() != '\\',
        forall|k: int|
            strip_trailing_backslashes(s).len() <= k < s.len() ==> #[trigger] s[k] == '\\',
    decreases s.len(),
{
    if s.len() > 0 && s.last() == '\\' {
        lemma_strip_exact(s.drop_last());
        let m = strip_trailing_backslashes(s).len() as int;
        assert(s.drop_last().take(m) =~= s.take(m));
        assert forall|k: int| m <= k < s.len() implies #[trigger] s[k] == '\\' by {
            if k < s.len() - 1 {
                assert(s[k] == s.drop_last()[k]);
            }
        }
    } else {
        assert(s.take(s.len() as int) =~= s);
    }
}

/// The length of `s` once its trailing backslashes are removed.
fn stripped_len(s: &str) -> (n: usize)
    ensures
        n <= s@.len(),
        strip_trailing_backslashes(s@) == s@.take(n as int),
{
    let mut n: usize = s.unicode_len();
    assert(s@.take(n as int) =~= s@);
    while n > 0 && s.get_char(n - 1) == '\\'
        invariant
            n <= s@.len(),
            strip_trailing_backslashes(s@) == strip_trailing_backslashes(s@.take(n as int)),
        decreases n,
    {
        assert(s@.take(n as int).drop_last() =~= s@.take(n - 1));
        n = n - 1;
    }
    n
}

/// Whether the mount points `a` and `b` name the same volume.
pub fn mount_points_match(a: &str, b: &str) -> (same: bool)
    ensures
        same == same_mount_point(a@, b@),
{
    let na = stripped_len(a);
    let nb = stripped_len(b);
    if na != nb {
        assert(a@.take(na as int).len() != b@.take(nb as int).len());
        return false;
    }
    let mut i: usize = 0;
    while i < na
        invariant
            na == nb,
            strip_trailing_backslashes(a@) == a@.take(na as int),
            strip_trailing_backslashes(b@) == b@.take(nb as int),
            na <= a@.len(),
            nb <= b@.len(),
            i <= na,
            forall|k: int| 0 <= k < i ==> a@[k] == b@[k],
        decreases na - i,
    {
        if a.get_char(i) != b.get_char(i) {
            assert(a@.take(na as int)[i as int] == a@[i as int]);
            assert(b@.take(nb as int)[i as int] == b@[i as int]);
            assert(a@.take(na as int) != b@.take(nb as int));
            return false;
        }
        i = i + 1;
    }
    assert(a@.take(na as int) =~= b@.take(nb as int));
    true
}

/// Whether the drive is mounted at the volume whose stripped mount point is
/// `key`.
pub open spec fn mounted_at(d: DriveView, key: Seq<char>) -> bool {
    strip_trailing_backslashes(d.mount_point) == key
}

/// The position of the first drive whose stripped mount point is `key`.
pub open spec fn first_drive_with_key(drives: Seq<DriveView>, key: Seq<char>) -> Option<int> {
    if exists|k: int| 0 <= k < drives.len() && mounted_at(#[trigger] drives[k], key) {
        Some(
            choose|k: int|
                0 <= k < drives.len() && mounted_at(drives[k], key) && (forall|j: int|
                    0 <= j < k ==> !mounted_at(#[trigger] drives[j], key)),
        )
    } else {
        None
    }
}

/// The position of the first drive mounted at `mount_point`, if any.
pub open spec fn first_drive_at(drives: Seq<DriveView>, mount_point: Seq<char>) -> Option<int> {
    first_drive_with_key(drives, strip_trailing_backslashes(mount_point))
}

/// Finds the drive to remove among `drives` and starts its ejection, tearing
/// down the volumes `device_volumes` of its device as well; fails
/// with "Drive not found" when no drive is mounted at `mount_point`.
pub fn remove_drive(drives: &Vec<RemovableDrive>, mount_point: &str, device_volumes: &Vec<String>) -> (r:
    Result<Ejection, String>)
    ensures
        r is Ok <==> first_drive_at(drive_views(drives@), mount_point@) is Some,
        r matches Ok(e) ==> {
            &&& e.step == EjectStep::LockVolume(0)
            &&& e.wf()
            &&& string_views(e.volumes@) == seq![e.mount_point@] + other_volumes(
                string_views(device_volumes@),
                e.mount_point@,
            )
            &&& e.mount_point@ == drives@[first_drive_at(
                drive_views(drives@),
                mount_point@,
            )->0].mount_point@
        },
        r matches Err(msg) ==> msg@ == "Drive not found"@,
{
    let ghost views = drive_views(drives@);
    let ghost key = strip_trailing_backslashes(mount_point@);
    let n: usize = drives.len();
    let mut i: usize = 0;
    while i < n
        invariant
            n == drives@.len(),
            views == drive_views(drives@),
            i <= n,
            key == strip_trailing_backslashes(mount_point@),
            forall|j: int| 0 <= j < i ==> !mounted_at(#[trigger] views[j], key),
        decreases n - i,
    {
        assert(views[i as int] == drives@[i as int]@);
        if mount_points_match(drives[i].mount_point.as_str(), mount_point) {
            proof {
                let k = i as int;
                assert(0 <= k < views.len() && mounted_at(views[k], key));
                let c = choose|c: int|
                    0 <= c < views.len() && mounted_at(views[c], key) && (forall|j: int|
                        0 <= j < c ==> !mounted_at(#[trigger] views[j], key));
                assert(c == k) by {
                    if c < k {
                    } else if c > k {
                        assert(!mounted_at(views[k], key));
                    }
                }
            }
            return Ok(eject_drive(&drives[i], device_volumes));
        }
        i = i + 1;
    }
    proof {
        if exists|k: int| 0 <= k < views.len() && mounted_at(#[trigger] views[k], key) {
            let k = choose|k: int| 0 <= k < views.len() && mounted_at(#[trigger] views[k], key);
            assert(!mounted_at(views[k], key));
        }
    }
    Err(String::from_str("Drive not found"))
}

/// A removal request finds the same drive whether or not its mount point
/// carries trailing backslashes.
pub proof fn lemma_trailing_backslash_ignored(drives: Seq<DriveView>, mount_point: Seq<char>)
    ensures
        first_drive_at(drives, mount_point.push('\\')) == first_drive_at(drives, mount_point),
{
    let m = mount_point.push('\\');
    assert(m.drop_last() =~= mount_point);
    assert(strip_trailing_backslashes(m) == strip_trailing_backslashes(mount_point));
}

/// What a left click on the tray icon does to the main window.
#[derive(Debug, Clone, Copy, PartialEq, Eq, Structural)]
pub enum WindowAction {
    /// Create the main window (it does not exist yet).
    Create,
    /// Hide the visible main window.
    Hide,
    /// Show the hidden main window and give it focus.
    ShowAndFocus,
}

/// What a tray click does, given whether the main window exists and, if it
/// does, whether it is visible.
pub open spec fn toggle_action(window_visible: Option<bool>) -> WindowAction {
    match window_visible {
        None => WindowAction::Create,
        Some(true) => WindowAction::Hide,
        Some(false) => WindowAction::ShowAndFocus,
    }
}

/// Whether the main window exists and is visible after `action`: a created
/// window is shown, a hidden one is not, a shown one is.
pub open spec fn visibility_after(action: WindowAction) -> Option<bool> {
    match action {
        WindowAction::Create => Some(true),
        WindowAction::Hide => Some(false),
        WindowAction::ShowAndFocus => Some(true),
    }
}

/// Two tray clicks on an existing main window leave it as visible as it was;
/// the first click on a missing window creates it visible.
pub proof fn lemma_two_clicks_restore(window_visible: Option<bool>)
    ensures
        window_visible is Some ==> visibility_after(
            toggle_action(visibility_after(toggle_action(window_visible))),
        ) == window_visible,
        window_visible is None ==> visibility_after(toggle_action(window_visible)) == Some(true),
{
}

/// Decides what a tray click does, given whether the main window exists and,
/// if it does, whether it is visible.
pub fn toggle_window(window_visible: Option<bool>) -> (action: WindowAction)
    ensures
        action == toggle_action(window_visible),
{
    match window_visible {
        Some(visible) => if visible {
            WindowAction::Hide
        } else {
            WindowAction::ShowAndFocus
        },
        None => WindowAction::Create,
    }
}

/// What a tray menu entry does.
#[derive(Debug, Clone, Copy, PartialEq, Eq, Structural)]
pub enum MenuAction {
    Quit,
    About,
    Ignore,
}

/// Whether two strings are equal.
pub fn str_equal(a: &str, b: &str) -> (eq: bool)
    ensures
        eq == (a@ == b@),
{
    let n: usize = a.unicode_len();
    if n != b.unicode_len() {
        return false;
    }
    let mut i: usize = 0;
    while i < n
        invariant
            n == a@.len(),
            n == b@.len(),
            i <= n,
            forall|k: int| 0 <= k < i ==> a@[k] == b@[k],
        decreases n - i,
    {
        if a.get_char(i) != b.get_char(i) {
            return false;
        }
        i = i + 1;
    }
    assert(a@ =~= b@);
    true
}

/// The action of the menu entry with identifier `id`.
pub open spec fn menu_action_of(id: Seq<char>) -> MenuAction {
    if id == "quit"@ {
        MenuAction::Quit
    } else if id == "about"@ {
        MenuAction::About
    } else {
        MenuAction::Ignore
    }
}

/// Decides what the tray menu entry with identifier `id` does.
pub fn menu_action(id: &str) -> (action: MenuAction)
    ensures
        action == menu_action_of(id@),
{
    if str_equal(id, "quit") {
        MenuAction::Quit
    } else if str_equal(id, "about") {
        MenuAction::About
    } else {
        MenuAction::Ignore
    }
}

} // verus!
