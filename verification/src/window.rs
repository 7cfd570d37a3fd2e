//! The app's windows: which window a label names and how it is built, what closing,
//! resizing and fullscreen do, keeping the display awake, and the desktop background.

use vstd::prelude::*;

use crate::config::GalleryPreferences;
use crate::text::{decimal, extend_str, str_eq, string_from_chars};

verus! {

pub const SETTINGS_LABEL: &'static str = "settings";
pub const GALLERY_LABEL: &'static str = "gallery";
pub const CAROUSEL_LABEL: &'static str = "carousel";
pub const DESKTOP_BACKGROUND_LABEL: &'static str = "desktop_background";

/// The windows that show the gallery: the gallery, the carousel and the desktop background.
pub open spec fn is_gallery_label(label: Seq<char>) -> bool {
    label == "gallery"@ || label == "carousel"@ || label == "desktop_background"@
}

/// Whether a window shows the gallery.
pub fn is_gallery_window(label: &str) -> (r: bool)
    ensures
        r == is_gallery_label(label@),
{
    str_eq(label, "gallery") || str_eq(label, "carousel") || str_eq(label, "desktop_background")
}

/// The background colour (RGBA) of a gallery window in its theme.
pub fn gallery_background_color(preferences: &GalleryPreferences) -> (r: (u8, u8, u8, u8))
    ensures
        r == (if preferences.theme@ == "black"@ { (26u8, 27u8, 30u8, 255u8) } else { (255u8, 255u8, 255u8, 255u8) }),
{
    if str_eq(preferences.theme.as_str(), "black") {
        (26, 27, 30, 255)
    } else {
        (255, 255, 255, 255)
    }
}

/// Whether a gallery window uses the dark system theme.
pub fn gallery_theme_is_dark(preferences: &GalleryPreferences) -> (r: bool)
    ensures
        r == (preferences.theme@ == "black"@),
{
    str_eq(preferences.theme.as_str(), "black")
}

/// How a standard window is built: its title, the view its page shows, and its size.
#[derive(Clone, Debug)]
pub struct WindowSpec {
    pub title: String,
    pub view: String,
    pub width: u32,
    pub height: u32,
}

pub open spec fn unknown_label_message(label: Seq<char>) -> Seq<char> {
    "Unknown window label: "@ + label
}

/// The labels of the standard windows: settings, gallery and carousel.
pub open spec fn is_standard_label(label: Seq<char>) -> bool {
    label == "settings"@ || label == "gallery"@ || label == "carousel"@
}

/// Whether `s` is how the standard window `label` is built: the settings window
/// ("Gallery Settings", 760 by 620), the gallery ("Gallery", 1240 by 860) or the
/// carousel ("Carousel", 1240 by 860), each showing the view of its label.
pub open spec fn is_standard_spec(label: Seq<char>, s: WindowSpec) -> bool {
    &&& s.view@ == label
    &&& label == "settings"@ ==> s.title@ == "Gallery Settings"@ && s.width == 760 && s.height == 620
    &&& label == "gallery"@ ==> s.title@ == "Gallery"@ && s.width == 1240 && s.height == 860
    &&& label == "carousel"@ ==> s.title@ == "Carousel"@ && s.width == 1240 && s.height == 860
}

/// The standard window a label names.
pub fn standard_window_spec(label: &str) -> (r: Result<WindowSpec, String>)
    ensures
        is_standard_label(label@) ==> (r matches Ok(s) && is_standard_spec(label@, s)),
        !is_standard_label(label@) ==> (r matches Err(e) && e@ == unknown_label_message(label@)),
{
    proof {
        reveal_strlit("settings");
        reveal_strlit("gallery");
        reveal_strlit("carousel");
        assert("gallery"@.len() != "settings"@.len());
        assert("carousel"@ != "settings"@) by {
            assert("carousel"@[0] != "settings"@[0]);
        }
        assert("carousel"@ != "gallery"@) by {
            assert("carousel"@[0] != "gallery"@[0]);
        }
    }
    if str_eq(label, "settings") {
        Ok(WindowSpec { title: "Gallery Settings".to_owned(), view: "settings".to_owned(), width: 760, height: 620 })
    } else if str_eq(label, "gallery") {
        Ok(WindowSpec { title: "Gallery".to_owned(), view: "gallery".to_owned(), width: 1240, height: 860 })
    } else if str_eq(label, "carousel") {
        Ok(WindowSpec { title: "Carousel".to_owned(), view: "carousel".to_owned(), width: 1240, height: 860 })
    } else {
        let mut out: Vec<char> = Vec::new();
        extend_str(&mut out, "Unknown window label: ");
        extend_str(&mut out, label);
        Err(string_from_chars(&out))
    }
}

/// The page a window loads: `index.html?view={view}`, with `&theme={theme}` for gallery
/// windows.
pub fn window_url(view: &str, theme: Option<&str>) -> (r: String)
    ensures
        r@ == (match theme {
            Some(t) => "index.html?view="@ + view@ + "&theme="@ + t@,
            None => "index.html?view="@ + view@,
        }),
{
    let mut out: Vec<char> = Vec::new();
    extend_str(&mut out, "index.html?view=");
    extend_str(&mut out, view);
    match theme {
        Some(t) => {
            extend_str(&mut out, "&theme=");
            extend_str(&mut out, t);
        },
        None => {},
    }
    string_from_chars(&out)
}

/// The background colour (RGBA) of a window that does not show the gallery.
pub const PLAIN_WINDOW_BACKGROUND: (u8, u8, u8, u8) = (246, 246, 244, 255);

/// What showing a window by label comes to.
#[derive(Debug)]
pub enum ShowWindowPlan {
    /// The window exists: bring it forward, after reapplying the gallery preferences (for a
    /// gallery window) or reloading it (for the settings window).
    Raise { apply_gallery_preferences: bool, reload: bool },
    /// Build the window, then bring it forward.
    Create { spec: WindowSpec, gallery: bool },
}

pub open spec fn desktop_background_refusal() -> Seq<char> {
    "Desktop background can only be controlled from the tray"@
}

/// What to do to show the window `label`, given whether it already exists.
pub fn show_window_plan(label: &str, exists: bool) -> (r: Result<ShowWindowPlan, String>)
    ensures
        label@ == "desktop_background"@ ==> (r matches Err(e) && e@ == desktop_background_refusal()),
        label@ != "desktop_background"@ && exists ==> (r matches Ok(ShowWindowPlan::Raise {
            apply_gallery_preferences,
            reload,
        }) && apply_gallery_preferences == is_gallery_label(label@) && reload == (!is_gallery_label(label@)
            && label@ == "settings"@)),
        label@ != "desktop_background"@ && !exists ==> match r {
            Ok(ShowWindowPlan::Create { spec, gallery }) => gallery == is_gallery_label(label@)
                && is_standard_label(label@) && is_standard_spec(label@, spec),
            Ok(_) => false,
            Err(e) => e@ == unknown_label_message(label@) && !is_standard_label(label@),
        },
{
    proof {
        reveal_strlit("settings");
        reveal_strlit("gallery");
        reveal_strlit("carousel");
        reveal_strlit("desktop_background");
    }
    if str_eq(label, "desktop_background") {
        return Err("Desktop background can only be controlled from the tray".to_owned());
    }
    let gallery = is_gallery_window(label);
    if exists {
        return Ok(ShowWindowPlan::Raise { apply_gallery_preferences: gallery, reload: !gallery && str_eq(label, "settings") });
    }
    match standard_window_spec(label) {
        Ok(spec) => Ok(ShowWindowPlan::Create { spec, gallery }),
        Err(e) => Err(e),
    }
}

// ---------------------------------------------------------------------------
// Closing, fullscreen and keeping awake
// ---------------------------------------------------------------------------

/// What a request to close a standard window does.
#[derive(Clone, Copy, Debug, PartialEq, Eq, Structural)]
pub enum CloseAction {
    /// Quit the app.
    Exit,
    /// Hide the window; the app stays in the tray.
    Hide,
    /// Ask the user, who then chooses between quitting and the tray.
    Ask,
    /// A question is already open: do nothing.
    Nothing,
}

/// The action for a close request. Off Windows the window is hidden; on Windows the
/// stored close behaviour decides (`exit`, `tray`, otherwise ask, unless already asking).
pub fn close_request_action(on_windows: bool, behavior: &str, prompt_open: bool) -> (r: CloseAction)
    ensures
        r == (if !on_windows {
            CloseAction::Hide
        } else if behavior@ == "exit"@ {
            CloseAction::Exit
        } else if behavior@ == "tray"@ {
            CloseAction::Hide
        } else if prompt_open {
            CloseAction::Nothing
        } else {
            CloseAction::Ask
        }),
{
    if !on_windows {
        CloseAction::Hide
    } else if str_eq(behavior, "exit") {
        CloseAction::Exit
    } else if str_eq(behavior, "tray") {
        CloseAction::Hide
    } else if prompt_open {
        CloseAction::Nothing
    } else {
        CloseAction::Ask
    }
}

/// The close behaviour stored after the user answers: `exit` or `tray`.
pub fn close_choice_behavior(should_exit: bool) -> (r: &'static str)
    ensures
        r@ == (if should_exit { "exit"@ } else { "tray"@ }),
{
    if should_exit {
        "exit"
    } else {
        "tray"
    }
}

/// A close behaviour the user chose is one that is stored as it is.
pub proof fn lemma_close_choice_is_kept(should_exit: bool)
    ensures
        crate::config::is_close_behavior(if should_exit { "exit"@ } else { "tray"@ }),
{
}

/// The carousel keeps the display awake exactly while it is fullscreen.
pub fn carousel_keep_awake(label: &str, fullscreen: bool) -> (r: bool)
    ensures
        r == (label@ == "carousel"@ && fullscreen),
{
    str_eq(label, "carousel") && fullscreen
}

/// On Windows a maximised window becomes fullscreen, unless it is being restored; the
/// result says whether to make it fullscreen and whether that wakes the carousel.
pub fn fullscreen_on_resize(label: &str, restoring: bool, maximized: bool, fullscreen: bool) -> (r: (bool, bool))
    ensures
        r.0 == (!restoring && maximized && !fullscreen),
        r.1 == (r.0 && label@ == "carousel"@),
{
    let go = !restoring && maximized && !fullscreen;
    (go, go && str_eq(label, "carousel"))
}

/// What switching the current window in or out of fullscreen comes to.
#[derive(Clone, Copy, Debug)]
pub struct FullscreenPlan {
    /// Mark the window as being restored while leaving fullscreen.
    pub mark_restoring: bool,
    /// Whether the display is then kept awake.
    pub keep_awake: bool,
    /// The size the window gets back after leaving fullscreen.
    pub restore_size: Option<(u32, u32)>,
}

/// The plan for setting `fullscreen` on the window `label`.
pub fn fullscreen_plan(label: &str, fullscreen: bool) -> (r: FullscreenPlan)
    ensures
        r.mark_restoring == !fullscreen,
        r.keep_awake == (label@ == "carousel"@ && fullscreen),
        r.restore_size == (if fullscreen { None } else { Some((1240u32, 860u32)) }),
{
    FullscreenPlan {
        mark_restoring: !fullscreen,
        keep_awake: carousel_keep_awake(label, fullscreen),
        restore_size: if fullscreen { None } else { Some((1240, 860)) },
    }
}

pub const ES_CONTINUOUS: u32 = 0x8000_0000;
pub const ES_SYSTEM_REQUIRED: u32 = 0x0000_0001;
pub const ES_DISPLAY_REQUIRED: u32 = 0x0000_0002;

/// Whether the display is being kept awake (on Windows, through the thread's execution state).
#[derive(Clone, Copy, Debug)]
pub struct KeepAwake {
    pub active: bool,
}

impl KeepAwake {
    /// Not keeping anything awake.
    pub fn new() -> (r: KeepAwake)
        ensures
            !r.active,
    {
        KeepAwake { active: false }
    }

    /// The execution-state flags to set to reach `active`, or `None` when already there.
    pub fn flags_for(&self, active: bool) -> (r: Option<u32>)
        ensures
            self.active == active ==> r is None,
            self.active != active ==> r == Some(if active {
                ES_CONTINUOUS | ES_SYSTEM_REQUIRED | ES_DISPLAY_REQUIRED
            } else {
                ES_CONTINUOUS
            }),
    {
        if self.active == active {
            None
        } else if active {
            Some(ES_CONTINUOUS | ES_SYSTEM_REQUIRED | ES_DISPLAY_REQUIRED)
        } else {
            Some(ES_CONTINUOUS)
        }
    }

    /// Records the state reached once the system accepted the flags.
    pub fn settle(&mut self, active: bool)
        ensures
            final(self).active == active,
    {
        self.active = active;
    }
}

/// The arguments for `caffeinate` that keep a Mac's display and system awake for a day,
/// or until the process `pid` ends.
pub fn caffeinate_args(pid: u32) -> (r: Vec<String>)
    ensures
        r@.len() == 7,
        r@[0]@ == "-d"@ && r@[1]@ == "-i"@ && r@[2]@ == "-u"@ && r@[3]@ == "-t"@ && r@[4]@ == "86400"@
            && r@[5]@ == "-w"@ && r@[6]@ == decimal(pid as nat),
{
    let mut r: Vec<String> = Vec::new();
    r.push("-d".to_owned());
    r.push("-i".to_owned());
    r.push("-u".to_owned());
    r.push("-t".to_owned());
    r.push("86400".to_owned());
    r.push("-w".to_owned());
    r.push(string_from_chars(&crate::text::decimal_chars(pid as u64)));
    r
}

// ---------------------------------------------------------------------------
// The desktop background
// ---------------------------------------------------------------------------

/// A monitor: its position and size in physical pixels.
#[derive(Clone, Copy, Debug)]
pub struct Monitor {
    pub x: i32,
    pub y: i32,
    pub width: u32,
    pub height: u32,
}

/// A size taken as `i32`, `i32::MAX` when it does not fit.
pub open spec fn clamp_i32(v: u32) -> int {
    if v <= i32::MAX { v as int } else { i32::MAX as int }
}

pub open spec fn monitor_right(m: Monitor) -> int {
    m.x + clamp_i32(m.width)
}

pub open spec fn monitor_bottom(m: Monitor) -> int {
    m.y + clamp_i32(m.height)
}

pub open spec fn min_left(ms: Seq<Monitor>) -> int
    decreases ms.len(),
{
    if ms.len() <= 1 {
        ms[0].x as int
    } else {
        let rest = min_left(ms.drop_last());
        if ms.last().x < rest { ms.last().x as int } else { rest }
    }
}

pub open spec fn min_top(ms: Seq<Monitor>) -> int
    decreases ms.len(),
{
    if ms.len() <= 1 {
        ms[0].y as int
    } else {
        let rest = min_top(ms.drop_last());
        if ms.last().y < rest { ms.last().y as int } else { rest }
    }
}

pub open spec fn max_right(ms: Seq<Monitor>) -> int
    decreases ms.len(),
{
    if ms.len() <= 1 {
        monitor_right(ms[0])
    } else {
        let rest = max_right(ms.drop_last());
        if monitor_right(ms.last()) > rest { monitor_right(ms.last()) } else { rest }
    }
}

pub open spec fn max_bottom(ms: Seq<Monitor>) -> int
    decreases ms.len(),
{
    if ms.len() <= 1 {
        monitor_bottom(ms[0])
    } else {
        let rest = max_bottom(ms.drop_last());
        if monitor_bottom(ms.last()) > rest { monitor_bottom(ms.last()) } else { rest }
    }
}

/// The monitors' edges and the spans between them fit in `i32`.
pub open spec fn monitors_fit(ms: Seq<Monitor>) -> bool {
    &&& forall|k: int| 0 <= k < ms.len() ==> monitor_right(#[trigger] ms[k]) <= i32::MAX && monitor_bottom(ms[k]) <= i32::MAX
    &&& ms.len() > 0 ==> max_right(ms) - min_left(ms) <= i32::MAX && max_bottom(ms) - min_top(ms) <= i32::MAX
}

/// The span of a side, at least one pixel.
pub open spec fn span_at_least_one(v: int) -> int {
    if v < 1 { 1 } else { v }
}

/// The extremes of the monitors' edges are edges of some monitor, and bound every
/// monitor's edges.
proof fn lemma_monitor_extremes(ms: Seq<Monitor>)
    requires
        ms.len() > 0,
    ensures
        forall|k: int|
            0 <= k < ms.len() ==> min_left(ms) <= (#[trigger] ms[k]).x && min_top(ms) <= ms[k].y && monitor_right(ms[k])
                <= max_right(ms) && monitor_bottom(ms[k]) <= max_bottom(ms),
        exists|k: int| 0 <= k < ms.len() && (#[trigger] ms[k]).x == min_left(ms),
        exists|k: int| 0 <= k < ms.len() && (#[trigger] ms[k]).y == min_top(ms),
        exists|k: int| 0 <= k < ms.len() && monitor_right(#[trigger] ms[k]) == max_right(ms),
        exists|k: int| 0 <= k < ms.len() && monitor_bottom(#[trigger] ms[k]) == max_bottom(ms),
    decreases ms.len(),
{
    if ms.len() == 1 {
        assert(ms[0].x == min_left(ms));
    } else {
        let init = ms.drop_last();
        let n = ms.len() - 1;
        lemma_monitor_extremes(init);
        assert forall|k: int| 0 <= k < ms.len() implies min_left(ms) <= (#[trigger] ms[k]).x && min_top(ms) <= ms[k].y
            && monitor_right(ms[k]) <= max_right(ms) && monitor_bottom(ms[k]) <= max_bottom(ms) by {
            if k < n {
                assert(init[k] == ms[k]);
            }
        }
        let a = choose|k: int| 0 <= k < init.len() && (#[trigger] init[k]).x == min_left(init);
        let b = choose|k: int| 0 <= k < init.len() && (#[trigger] init[k]).y == min_top(init);
        let c = choose|k: int| 0 <= k < init.len() && monitor_right(#[trigger] init[k]) == max_right(init);
        let d = choose|k: int| 0 <= k < init.len() && monitor_bottom(#[trigger] init[k]) == max_bottom(init);
        assert(init[a] == ms[a] && init[b] == ms[b] && init[c] == ms[c] && init[d] == ms[d]);
        assert(ms.last() == ms[n]);
        if ms[n].x < min_left(init) {
            assert(ms[n].x == min_left(ms));
        } else {
            assert(ms[a].x == min_left(ms));
        }
        if ms[n].y < min_top(init) {
            assert(ms[n].y == min_top(ms));
        } else {
            assert(ms[b].y == min_top(ms));
        }
        if monitor_right(ms[n]) > max_right(init) {
            assert(monitor_right(ms[n]) == max_right(ms));
        } else {
            assert(monitor_right(ms[c]) == max_right(ms));
        }
        if monitor_bottom(ms[n]) > max_bottom(init) {
            assert(monitor_bottom(ms[n]) == max_bottom(ms));
        } else {
            assert(monitor_bottom(ms[d]) == max_bottom(ms));
        }
    }
}

/// The desktop rectangle covers every monitor and is no larger than it must be: its
/// left and top edges are those of some monitor, every monitor (its size taken as
/// `i32`, `i32::MAX` when larger) lies inside it, and its right and bottom edges are
/// those of some monitor unless that side is the one-pixel minimum.
pub open spec fn covers_monitors(ms: Seq<Monitor>, b: (i32, i32, u32, u32)) -> bool {
    &&& forall|k: int|
        0 <= k < ms.len() ==> b.0 <= (#[trigger] ms[k]).x && b.1 <= ms[k].y && ms[k].x + clamp_i32(ms[k].width)
            <= b.0 + b.2 && ms[k].y + clamp_i32(ms[k].height) <= b.1 + b.3
    &&& exists|k: int| 0 <= k < ms.len() && (#[trigger] ms[k]).x == b.0
    &&& exists|k: int| 0 <= k < ms.len() && (#[trigger] ms[k]).y == b.1
    &&& b.2 == 1 || exists|k: int| 0 <= k < ms.len() && (#[trigger] ms[k]).x + clamp_i32(ms[k].width) == b.0 + b.2
    &&& b.3 == 1 || exists|k: int| 0 <= k < ms.len() && (#[trigger] ms[k]).y + clamp_i32(ms[k].height) == b.1 + b.3
}

/// The rectangle that `desktop_bounds` gives for at least one monitor covers them all,
/// and each of its edges is a monitor's edge (or its side is the one-pixel minimum).
pub proof fn lemma_desktop_bounds_cover(ms: Seq<Monitor>)
    requires
        ms.len() > 0,
        monitors_fit(ms),
    ensures
        covers_monitors(
            ms,
            (
                min_left(ms) as i32,
                min_top(ms) as i32,
                span_at_least_one(max_right(ms) - min_left(ms)) as u32,
                span_at_least_one(max_bottom(ms) - min_top(ms)) as u32,
            ),
        ),
{
    lemma_monitor_extremes(ms);
    let c = choose|k: int| 0 <= k < ms.len() && monitor_right(#[trigger] ms[k]) == max_right(ms);
    let d = choose|k: int| 0 <= k < ms.len() && monitor_bottom(#[trigger] ms[k]) == max_bottom(ms);
    assert(ms[c].x + clamp_i32(ms[c].width) == monitor_right(ms[c]));
    assert(ms[d].y + clamp_i32(ms[d].height) == monitor_bottom(ms[d]));
    let a = choose|k: int| 0 <= k < ms.len() && (#[trigger] ms[k]).x == min_left(ms);
    let b = choose|k: int| 0 <= k < ms.len() && (#[trigger] ms[k]).y == min_top(ms);
    assert(min_left(ms) as i32 == min_left(ms)) by {
        assert(ms[a].x == min_left(ms));
    }
    assert(min_top(ms) as i32 == min_top(ms)) by {
        assert(ms[b].y == min_top(ms));
    }
}

/// The rectangle covering every monitor: left, top, width and height (each side at
/// least one pixel).
pub fn desktop_bounds(monitors: &Vec<Monitor>) -> (r: Result<(i32, i32, u32, u32), String>)
    requires
        monitors_fit(monitors@),
    ensures
        monitors@.len() == 0 ==> (r matches Err(e) && e@ == "No monitor available for desktop background"@),
        monitors@.len() > 0 ==> (r matches Ok(b) && b.0 == min_left(monitors@) && b.1 == min_top(monitors@)
            && b.2 == span_at_least_one(max_right(monitors@) - min_left(monitors@))
            && b.3 == span_at_least_one(max_bottom(monitors@) - min_top(monitors@))),
        monitors@.len() > 0 ==> (r matches Ok(b) && covers_monitors(monitors@, b)),
{
    if monitors.len() > 0 {
        proof {
            lemma_desktop_bounds_cover(monitors@);
        }
    }
    if monitors.len() == 0 {
        return Err("No monitor available for desktop background".to_owned());
    }
    let first = monitors[0];
    let mut left = first.x;
    let mut top = first.y;
    assert(monitor_right(monitors@[0]) <= i32::MAX);
    let mut right = first.x + (if first.width <= 0x7fff_ffff { first.width as i32 } else { 0x7fff_ffff });
    let mut bottom = first.y + (if first.height <= 0x7fff_ffff { first.height as i32 } else { 0x7fff_ffff });
    let mut k: usize = 1;
    assert(monitors@.take(1).len() == 1 && monitors@.take(1)[0] == monitors@[0]);
    while k < monitors.len()
        invariant
            1 <= k <= monitors@.len(),
            monitors_fit(monitors@),
            left == min_left(monitors@.take(k as int)),
            top == min_top(monitors@.take(k as int)),
            right == max_right(monitors@.take(k as int)),
            bottom == max_bottom(monitors@.take(k as int)),
        decreases monitors.len() - k,
    {
        let m = monitors[k];
        let ghost t = monitors@.take(k as int + 1);
        assert(t.drop_last() =~= monitors@.take(k as int));
        assert(t.last() == m);
        assert(monitor_right(monitors@[k as int]) <= i32::MAX);
        if m.x < left {
            left = m.x;
        }
        if m.y < top {
            top = m.y;
        }
        let r = m.x + (if m.width <= 0x7fff_ffff { m.width as i32 } else { 0x7fff_ffff });
        let b = m.y + (if m.height <= 0x7fff_ffff { m.height as i32 } else { 0x7fff_ffff });
        if r > right {
            right = r;
        }
        if b > bottom {
            bottom = b;
        }
        k += 1;
    }
    assert(monitors@.take(monitors@.len() as int) =~= monitors@);
    let w = right - left;
    let h = bottom - top;
    let width: u32 = if w < 1 { 1 } else { w as u32 };
    let height: u32 = if h < 1 { 1 } else { h as u32 };
    Ok((left, top, width, height))
}

/// What the tray's desktop-background entry does: hide a visible background window
/// (the entry then reads "open"), else show it (the entry then reads "close").
pub fn desktop_background_toggle(exists: bool, visible: bool) -> (r: bool)
    ensures
        r == !(exists && visible),
{
    !(exists && visible)
}

/// The page the desktop background loads.
pub fn desktop_background_url(theme: &str) -> (r: String)
    ensures
        r@ == "index.html?view=desktop&theme="@ + theme@,
{
    let mut out: Vec<char> = Vec::new();
    extend_str(&mut out, "index.html?view=desktop&theme=");
    extend_str(&mut out, theme);
    string_from_chars(&out)
}

} // verus!
