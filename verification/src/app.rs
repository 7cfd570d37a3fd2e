//! Starting the app: the launch decision, the tray menu and what its entries do, the
//! startup registration, and the updater's state and errors.

use vstd::prelude::*;

use crate::text::{chars_of, extend_str, str_eq, string_from_chars};

verus! {

pub const SETTINGS_MENU_ID: &'static str = "open_settings";
pub const GALLERY_MENU_ID: &'static str = "open_gallery";
pub const CAROUSEL_MENU_ID: &'static str = "open_carousel";
pub const DESKTOP_BACKGROUND_MENU_ID: &'static str = "toggle_desktop_background";
pub const QUIT_MENU_ID: &'static str = "quit";

/// The command-line flag with which the system starts the app as the desktop background.
pub const DESKTOP_BACKGROUND_STARTUP_ARG: &'static str = "--desktop-background-on-startup";

/// An entry of the tray menu.
#[derive(Clone, Debug)]
pub enum TrayItem {
    Entry { id: String, text: String },
    Separator,
}

pub open spec fn is_entry(item: TrayItem, id: Seq<char>, text: Seq<char>) -> bool {
    item matches TrayItem::Entry { id: i, text: t } && i@ == id && t@ == text
}

/// The text of the tray's desktop-background entry while the background is open or closed.
pub open spec fn desktop_background_entry_text(open: bool) -> Seq<char> {
    if open { "关闭桌面背景"@ } else { "打开桌面背景"@ }
}

/// The text of the tray's desktop-background entry.
pub fn desktop_background_menu_text(open: bool) -> (r: &'static str)
    ensures
        r@ == desktop_background_entry_text(open),
{
    if open {
        "关闭桌面背景"
    } else {
        "打开桌面背景"
    }
}

/// Whether `items` is the tray menu: settings, gallery, carousel, a separator, the
/// desktop background (its text by whether the background is open), a separator, quit.
pub open spec fn is_tray_menu(items: Seq<TrayItem>, desktop_background_open: bool) -> bool {
    &&& items.len() == 7
    &&& is_entry(items[0], "open_settings"@, "设置"@)
    &&& is_entry(items[1], "open_gallery"@, "瀑布流"@)
    &&& is_entry(items[2], "open_carousel"@, "走马灯"@)
    &&& items[3] is Separator
    &&& is_entry(items[4], "toggle_desktop_background"@, desktop_background_entry_text(desktop_background_open))
    &&& items[5] is Separator
    &&& is_entry(items[6], "quit"@, "退出"@)
}

/// The tray menu: settings, gallery, carousel, a separator, the desktop background, a
/// separator, quit.
pub fn tray_menu(desktop_background_open: bool) -> (r: Vec<TrayItem>)
    ensures
        is_tray_menu(r@, desktop_background_open),
{
    let mut r: Vec<TrayItem> = Vec::new();
    r.push(TrayItem::Entry { id: SETTINGS_MENU_ID.to_owned(), text: "设置".to_owned() });
    r.push(TrayItem::Entry { id: GALLERY_MENU_ID.to_owned(), text: "瀑布流".to_owned() });
    r.push(TrayItem::Entry { id: CAROUSEL_MENU_ID.to_owned(), text: "走马灯".to_owned() });
    r.push(TrayItem::Separator);
    r.push(
        TrayItem::Entry {
            id: DESKTOP_BACKGROUND_MENU_ID.to_owned(),
            text: desktop_background_menu_text(desktop_background_open).to_owned(),
        },
    );
    r.push(TrayItem::Separator);
    r.push(TrayItem::Entry { id: QUIT_MENU_ID.to_owned(), text: "退出".to_owned() });
    r
}

/// What choosing a tray entry does.
#[derive(Clone, Copy, Debug, PartialEq, Eq, Structural)]
pub enum TrayAction {
    Quit,
    ToggleDesktopBackground,
    ShowSettings,
    ShowGallery,
    ShowCarousel,
    Nothing,
}

/// The action of the tray entry `id`.
pub fn tray_menu_action(id: &str) -> (r: TrayAction)
    ensures
        r == (if id@ == "quit"@ {
            TrayAction::Quit
        } else if id@ == "toggle_desktop_background"@ {
            TrayAction::ToggleDesktopBackground
        } else if id@ == "open_settings"@ {
            TrayAction::ShowSettings
        } else if id@ == "open_gallery"@ {
            TrayAction::ShowGallery
        } else if id@ == "open_carousel"@ {
            TrayAction::ShowCarousel
        } else {
            TrayAction::Nothing
        }),
{
    if str_eq(id, QUIT_MENU_ID) {
        TrayAction::Quit
    } else if str_eq(id, DESKTOP_BACKGROUND_MENU_ID) {
        TrayAction::ToggleDesktopBackground
    } else if str_eq(id, SETTINGS_MENU_ID) {
        TrayAction::ShowSettings
    } else if str_eq(id, GALLERY_MENU_ID) {
        TrayAction::ShowGallery
    } else if str_eq(id, CAROUSEL_MENU_ID) {
        TrayAction::ShowCarousel
    } else {
        TrayAction::Nothing
    }
}

/// The window label a tray action shows, if it shows one.
pub fn tray_window_label(action: TrayAction) -> (r: Option<&'static str>)
    ensures
        action == TrayAction::ShowSettings ==> (r matches Some(l) && l@ == "settings"@),
        action == TrayAction::ShowGallery ==> (r matches Some(l) && l@ == "gallery"@),
        action == TrayAction::ShowCarousel ==> (r matches Some(l) && l@ == "carousel"@),
        !(action == TrayAction::ShowSettings || action == TrayAction::ShowGallery || action
            == TrayAction::ShowCarousel) ==> r is None,
{
    match action {
        TrayAction::ShowSettings => Some(crate::window::SETTINGS_LABEL),
        TrayAction::ShowGallery => Some(crate::window::GALLERY_LABEL),
        TrayAction::ShowCarousel => Some(crate::window::CAROUSEL_LABEL),
        _ => None,
    }
}

/// What the app does when a tray entry is chosen.
#[derive(Clone, Copy, Debug)]
pub enum TrayCommand {
    /// Quit the app.
    Exit,
    /// Toggle the desktop background, then label the entry with `open_text` when the
    /// background is now open and `closed_text` when it is now closed.
    ToggleDesktopBackground { open_text: &'static str, closed_text: &'static str },
    /// Show the window with this label.
    ShowWindow(&'static str),
    /// Nothing.
    Nothing,
}

/// `c` is what choosing the tray entry `id` does: the action of
/// [`tray_menu_action`], with the window of [`tray_window_label`] and the entry texts of
/// [`desktop_background_menu_text`].
pub open spec fn tray_command_is(id: Seq<char>, c: TrayCommand) -> bool {
    if id == "quit"@ {
        c is Exit
    } else if id == "toggle_desktop_background"@ {
        c matches TrayCommand::ToggleDesktopBackground { open_text, closed_text }
            && open_text@ == desktop_background_entry_text(true) && closed_text@ == desktop_background_entry_text(false)
    } else if id == "open_settings"@ {
        c matches TrayCommand::ShowWindow(l) && l@ == "settings"@
    } else if id == "open_gallery"@ {
        c matches TrayCommand::ShowWindow(l) && l@ == "gallery"@
    } else if id == "open_carousel"@ {
        c matches TrayCommand::ShowWindow(l) && l@ == "carousel"@
    } else {
        c is Nothing
    }
}

/// What choosing the tray entry `id` does.
pub fn tray_command(id: &str) -> (r: TrayCommand)
    ensures
        tray_command_is(id@, r),
{
    proof {
        reveal_strlit("settings");
        reveal_strlit("gallery");
        reveal_strlit("carousel");
    }
    match tray_menu_action(id) {
        TrayAction::Quit => TrayCommand::Exit,
        TrayAction::ToggleDesktopBackground => TrayCommand::ToggleDesktopBackground {
            open_text: desktop_background_menu_text(true),
            closed_text: desktop_background_menu_text(false),
        },
        TrayAction::Nothing => TrayCommand::Nothing,
        action => match tray_window_label(action) {
            Some(label) => TrayCommand::ShowWindow(label),
            None => TrayCommand::Nothing,
        },
    }
}

/// How the app starts.
#[derive(Debug)]
pub enum Launch {
    /// Another instance holds the app: this one ends at once.
    AlreadyRunning,
    /// Start with this state: the tray menu and, entry by entry, what choosing it does;
    /// whether to open the desktop background at once; the thumbnail progress; the
    /// windows being restored from fullscreen; and whether the display is kept awake.
    Start {
        tray: Vec<TrayItem>,
        commands: Vec<TrayCommand>,
        show_desktop_background: bool,
        progress: crate::library::ThumbnailProgress,
        fullscreen_restoring: Vec<String>,
        keep_awake: crate::window::KeepAwake,
    },
}

/// The launch decision, from whether this process is the only instance and whether the
/// system started it as the desktop background: another instance ends at once; the only
/// one starts with the tray menu, each entry dispatched by [`tray_command`], idle
/// thumbnail progress, no window being restored from fullscreen, and nothing kept awake.
pub fn run(single_instance: bool, desktop_background_startup: bool) -> (r: Launch)
    ensures
        !single_instance ==> r is AlreadyRunning,
        single_instance ==> (r matches Launch::Start {
            tray,
            commands,
            show_desktop_background,
            progress,
            fullscreen_restoring,
            keep_awake,
        } && show_desktop_background == desktop_background_startup
            && is_tray_menu(tray@, desktop_background_startup)
            && commands@.len() == tray@.len()
            && (forall|k: int| 0 <= k < tray@.len() ==> match #[trigger] tray@[k] {
                TrayItem::Entry { id, .. } => tray_command_is(id@, commands@[k]),
                TrayItem::Separator => commands@[k] is Nothing,
            })
            && !progress.running && progress.stage@ == "idle"@ && progress.processed == 0
            && progress.total == 0 && progress.generated == 0 && progress.skipped == 0
            && progress.message@.len() == 0 && progress.error@.len() == 0
            && fullscreen_restoring@.len() == 0
            && !keep_awake.active),
{
    if !single_instance {
        return Launch::AlreadyRunning;
    }
    let tray = tray_menu(desktop_background_startup);
    let mut commands: Vec<TrayCommand> = Vec::new();
    let mut k: usize = 0;
    while k < tray.len()
        invariant
            k <= tray@.len(),
            commands@.len() == k,
            forall|j: int| 0 <= j < k ==> match #[trigger] tray@[j] {
                TrayItem::Entry { id, .. } => tray_command_is(id@, commands@[j]),
                TrayItem::Separator => commands@[j] is Nothing,
            },
        decreases tray.len() - k,
    {
        let c = match &tray[k] {
            TrayItem::Entry { id, .. } => tray_command(id.as_str()),
            TrayItem::Separator => TrayCommand::Nothing,
        };
        commands.push(c);
        k += 1;
    }
    Launch::Start {
        tray,
        commands,
        show_desktop_background: desktop_background_startup,
        progress: crate::library::ThumbnailProgress::initial(),
        fullscreen_restoring: Vec::new(),
        keep_awake: crate::window::KeepAwake::new(),
    }
}

/// Whether the process was started with the desktop-background flag.
pub fn launched_from_desktop_background_startup(args: &Vec<String>) -> (r: bool)
    ensures
        r == exists|k: int| 0 <= k < args@.len() && (#[trigger] args@[k])@ == "--desktop-background-on-startup"@,
{
    let mut k: usize = 0;
    while k < args.len()
        invariant
            k <= args@.len(),
            forall|j: int| 0 <= j < k ==> (#[trigger] args@[j])@ != "--desktop-background-on-startup"@,
        decreases args.len() - k,
    {
        if str_eq(args[k].as_str(), DESKTOP_BACKGROUND_STARTUP_ARG) {
            return true;
        }
        k += 1;
    }
    false
}

/// The command the system runs at login: the quoted executable, followed by the
/// desktop-background flag when that is asked for.
pub fn startup_command(executable: &str, desktop_background: bool) -> (r: String)
    ensures
        r@ == "\""@ + executable@ + "\""@ + if desktop_background {
            " --desktop-background-on-startup"@
        } else {
            Seq::empty()
        },
{
    let mut out: Vec<char> = Vec::new();
    extend_str(&mut out, "\"");
    extend_str(&mut out, executable);
    extend_str(&mut out, "\"");
    if desktop_background {
        out.push(' ');
        extend_str(&mut out, DESKTOP_BACKGROUND_STARTUP_ARG);
        proof {
            reveal_strlit(" --desktop-background-on-startup");
            reveal_strlit("--desktop-background-on-startup");
        }
    }
    assert(out@ =~= "\""@ + executable@ + "\""@ + if desktop_background {
        " --desktop-background-on-startup"@
    } else {
        Seq::empty()
    });
    string_from_chars(&out)
}

// ---------------------------------------------------------------------------
// UTF-16 text for system calls
// ---------------------------------------------------------------------------

/// The UTF-16 code units of a character.
pub open spec fn utf16_units(c: char) -> Seq<u16> {
    let v = c as u32;
    if v < 0x10000 {
        seq![v as u16]
    } else {
        seq![(0xD800 + (v - 0x10000) / 0x400) as u16, (0xDC00 + (v - 0x10000) % 0x400) as u16]
    }
}

/// The UTF-16 code units of a text.
pub open spec fn utf16_spec(s: Seq<char>) -> Seq<u16>
    decreases s.len(),
{
    if s.len() == 0 {
        Seq::empty()
    } else {
        utf16_spec(s.drop_last()) + utf16_units(s.last())
    }
}

/// A text as UTF-16 code units followed by a terminating zero.
pub fn wide_null(value: &str) -> (r: Vec<u16>)
    ensures
        r@ == utf16_spec(value@).push(0u16),
{
    let v = chars_of(value);
    let mut out: Vec<u16> = Vec::new();
    let mut i: usize = 0;
    while i < v.len()
        invariant
            i <= v@.len(),
            v@ == value@,
            out@ == utf16_spec(v@.take(i as int)),
        decreases v.len() - i,
    {
        let c = v[i];
        let code = c as u32;
        assert(v@.take(i as int + 1).drop_last() =~= v@.take(i as int));
        assert(v@.take(i as int + 1).last() == c);
        if code < 0x10000 {
            out.push(code as u16);
        } else {
            proof {
                vstd::utf8::char_is_scalar(c);
            }
            out.push((0xD800 + (code - 0x10000) / 0x400) as u16);
            out.push((0xDC00 + (code - 0x10000) % 0x400) as u16);
        }
        assert(out@ =~= utf16_spec(v@.take(i as int + 1)));
        i += 1;
    }
    assert(v@.take(v@.len() as int) =~= v@);
    out.push(0);
    out
}

// ---------------------------------------------------------------------------
// Time stamps
// ---------------------------------------------------------------------------

/// Nanoseconds since the epoch as an `i64`, `i64::MAX` when they do not fit.
pub fn saturating_nanos(nanos: u128) -> (r: i64)
    ensures
        r == (if nanos <= i64::MAX { nanos as int } else { i64::MAX as int }),
{
    if nanos <= 0x7fff_ffff_ffff_ffff {
        nanos as i64
    } else {
        0x7fff_ffff_ffff_ffff
    }
}

// ---------------------------------------------------------------------------
// Updates
// ---------------------------------------------------------------------------

/// Whether the updater started, and why not.
#[derive(Clone, Debug)]
pub struct AppUpdateRuntimeState {
    pub init_error: Option<String>,
}

pub open spec fn update_unavailable_message(error: Seq<char>) -> Seq<char> {
    "更新服务初始化失败: "@ + error
}

impl AppUpdateRuntimeState {
    /// Updates can be checked only when the updater started.
    pub fn ensure_ready(&self) -> (r: Result<(), String>)
        ensures
            match self.init_error {
                Some(e) => r matches Err(m) && m@ == update_unavailable_message(e@),
                None => r is Ok,
            },
    {
        match &self.init_error {
            Some(error) => {
                let mut out: Vec<char> = Vec::new();
                extend_str(&mut out, "更新服务初始化失败: ");
                extend_str(&mut out, error.as_str());
                Err(string_from_chars(&out))
            },
            None => Ok(()),
        }
    }
}

/// The kinds of updater failure the app words itself; any other is shown as the
/// updater describes it.
#[derive(Clone, Debug)]
pub enum UpdaterFailure {
    EmptyEndpoints,
    InsecureTransportProtocol,
    ReleaseNotFound,
    UnsupportedArch,
    UnsupportedOs,
    Other(String),
}

/// The message for an updater failure.
pub fn format_updater_error(error: UpdaterFailure) -> (r: String)
    ensures
        r@ == match error {
            UpdaterFailure::EmptyEndpoints => "未配置更新服务"@,
            UpdaterFailure::InsecureTransportProtocol => "更新服务必须使用 HTTPS endpoint"@,
            UpdaterFailure::ReleaseNotFound => "未找到有效的更新信息"@,
            UpdaterFailure::UnsupportedArch => "当前平台不支持应用更新"@,
            UpdaterFailure::UnsupportedOs => "当前平台不支持应用更新"@,
            UpdaterFailure::Other(m) => m@,
        },
{
    match error {
        UpdaterFailure::EmptyEndpoints => "未配置更新服务".to_owned(),
        UpdaterFailure::InsecureTransportProtocol => "更新服务必须使用 HTTPS endpoint".to_owned(),
        UpdaterFailure::ReleaseNotFound => "未找到有效的更新信息".to_owned(),
        UpdaterFailure::UnsupportedArch => "当前平台不支持应用更新".to_owned(),
        UpdaterFailure::UnsupportedOs => "当前平台不支持应用更新".to_owned(),
        UpdaterFailure::Other(m) => m,
    }
}

} // verus!
