use gallery::app::{
    desktop_background_menu_text, format_updater_error, launched_from_desktop_background_startup,
    run, saturating_nanos, startup_command, tray_menu, tray_menu_action, tray_window_label,
    tray_command, wide_null, AppUpdateRuntimeState, Launch, TrayAction, TrayCommand, TrayItem, UpdaterFailure,
};
use gallery::config::GalleryPreferences;
use gallery::window::{
    caffeinate_args, carousel_keep_awake, close_choice_behavior, close_request_action,
    desktop_background_toggle, desktop_background_url, desktop_bounds, fullscreen_on_resize,
    fullscreen_plan, gallery_background_color, gallery_theme_is_dark, is_gallery_window,
    show_window_plan, standard_window_spec, window_url, CloseAction, KeepAwake, Monitor,
    ShowWindowPlan, ES_CONTINUOUS, ES_DISPLAY_REQUIRED, ES_SYSTEM_REQUIRED,
};

fn prefs(theme: &str) -> GalleryPreferences {
    GalleryPreferences { has_gap: true, theme: theme.to_string(), min_column_width: 280 }
}

fn entry(item: &TrayItem) -> (String, String) {
    match item {
        TrayItem::Entry { id, text } => (id.clone(), text.clone()),
        TrayItem::Separator => ("-".to_string(), "-".to_string()),
    }
}

#[test]
fn gallery_windows_by_label() {
    assert!(is_gallery_window("gallery"));
    assert!(is_gallery_window("carousel"));
    assert!(is_gallery_window("desktop_background"));
    assert!(!is_gallery_window("settings"));
}

#[test]
fn gallery_theme_colours() {
    assert_eq!(gallery_background_color(&prefs("black")), (26, 27, 30, 255));
    assert_eq!(gallery_background_color(&prefs("white")), (255, 255, 255, 255));
    assert!(gallery_theme_is_dark(&prefs("black")));
    assert!(!gallery_theme_is_dark(&prefs("white")));
}

#[test]
fn standard_windows() {
    let settings = standard_window_spec("settings").unwrap();
    assert_eq!((settings.title.as_str(), settings.width, settings.height), ("Gallery Settings", 760, 620));
    let gallery = standard_window_spec("gallery").unwrap();
    assert_eq!((gallery.title.as_str(), gallery.view.as_str()), ("Gallery", "gallery"));
    let carousel = standard_window_spec("carousel").unwrap();
    assert_eq!((carousel.title.as_str(), carousel.width, carousel.height), ("Carousel", 1240, 860));
    assert_eq!(standard_window_spec("nope").unwrap_err(), "Unknown window label: nope");
    assert_eq!(window_url("gallery", Some("black")), "index.html?view=gallery&theme=black");
    assert_eq!(window_url("settings", None), "index.html?view=settings");
}

#[test]
fn showing_windows() {
    assert_eq!(
        show_window_plan("desktop_background", false).unwrap_err(),
        "Desktop background can only be controlled from the tray"
    );
    assert!(matches!(
        show_window_plan("gallery", true),
        Ok(ShowWindowPlan::Raise { apply_gallery_preferences: true, reload: false })
    ));
    assert!(matches!(
        show_window_plan("settings", true),
        Ok(ShowWindowPlan::Raise { apply_gallery_preferences: false, reload: true })
    ));
    match show_window_plan("carousel", false) {
        Ok(ShowWindowPlan::Create { spec, gallery }) => {
            assert!(gallery);
            assert_eq!(spec.title, "Carousel");
            assert_eq!(spec.view, "carousel");
            assert_eq!((spec.width, spec.height), (1240, 860));
        }
        other => panic!("unexpected {other:?}"),
    }
    match show_window_plan("settings", false) {
        Ok(ShowWindowPlan::Create { spec, gallery }) => {
            assert!(!gallery);
            assert_eq!((spec.title.as_str(), spec.view.as_str()), ("Gallery Settings", "settings"));
            assert_eq!((spec.width, spec.height), (760, 620));
        }
        other => panic!("unexpected {other:?}"),
    }
    match show_window_plan("gallery", false) {
        Ok(ShowWindowPlan::Create { spec, gallery }) => {
            assert!(gallery);
            assert_eq!((spec.title.as_str(), spec.view.as_str()), ("Gallery", "gallery"));
            assert_eq!((spec.width, spec.height), (1240, 860));
        }
        other => panic!("unexpected {other:?}"),
    }
    assert_eq!(show_window_plan("other", false).unwrap_err(), "Unknown window label: other");
}

#[test]
fn close_requests() {
    assert_eq!(close_request_action(false, "exit", false), CloseAction::Hide);
    assert_eq!(close_request_action(true, "exit", false), CloseAction::Exit);
    assert_eq!(close_request_action(true, "tray", false), CloseAction::Hide);
    assert_eq!(close_request_action(true, "ask", false), CloseAction::Ask);
    assert_eq!(close_request_action(true, "ask", true), CloseAction::Nothing);
    assert_eq!(close_choice_behavior(true), "exit");
    assert_eq!(close_choice_behavior(false), "tray");
}

#[test]
fn fullscreen_and_keep_awake() {
    assert!(carousel_keep_awake("carousel", true));
    assert!(!carousel_keep_awake("carousel", false));
    assert!(!carousel_keep_awake("gallery", true));
    assert_eq!(fullscreen_on_resize("carousel", false, true, false), (true, true));
    assert_eq!(fullscreen_on_resize("gallery", false, true, false), (true, false));
    assert_eq!(fullscreen_on_resize("carousel", true, true, false), (false, false));
    assert_eq!(fullscreen_on_resize("carousel", false, true, true), (false, false));
    let leave = fullscreen_plan("carousel", false);
    assert!(leave.mark_restoring);
    assert!(!leave.keep_awake);
    assert_eq!(leave.restore_size, Some((1240, 860)));
    let enter = fullscreen_plan("carousel", true);
    assert!(!enter.mark_restoring && enter.keep_awake && enter.restore_size.is_none());
}

#[test]
fn keep_awake_flags() {
    let mut state = KeepAwake::new();
    assert_eq!(state.flags_for(false), None);
    assert_eq!(state.flags_for(true), Some(ES_CONTINUOUS | ES_SYSTEM_REQUIRED | ES_DISPLAY_REQUIRED));
    state.settle(true);
    assert_eq!(state.flags_for(true), None);
    assert_eq!(state.flags_for(false), Some(0x8000_0000));
    assert_eq!(caffeinate_args(4242), vec!["-d", "-i", "-u", "-t", "86400", "-w", "4242"]);
}

#[test]
fn desktop_covers_every_monitor() {
    let monitors = vec![
        Monitor { x: 0, y: 0, width: 1920, height: 1080 },
        Monitor { x: -1280, y: 100, width: 1280, height: 1024 },
    ];
    assert_eq!(desktop_bounds(&monitors), Ok((-1280, 0, 3200, 1124)));
    let one = vec![Monitor { x: 10, y: 20, width: 0, height: 0 }];
    assert_eq!(desktop_bounds(&one), Ok((10, 20, 1, 1)));
    assert_eq!(desktop_bounds(&vec![]), Err("No monitor available for desktop background".to_string()));
}

#[test]
fn desktop_background_controls() {
    assert!(!desktop_background_toggle(true, true));
    assert!(desktop_background_toggle(true, false));
    assert!(desktop_background_toggle(false, false));
    assert_eq!(desktop_background_url("white"), "index.html?view=desktop&theme=white");
    assert_eq!(desktop_background_menu_text(true), "关闭桌面背景");
    assert_eq!(desktop_background_menu_text(false), "打开桌面背景");
}

#[test]
fn tray_menu_entries() {
    let menu = tray_menu(false);
    let entries: Vec<(String, String)> = menu.iter().map(entry).collect();
    let expected = [
        ("open_settings", "设置"),
        ("open_gallery", "瀑布流"),
        ("open_carousel", "走马灯"),
        ("-", "-"),
        ("toggle_desktop_background", "打开桌面背景"),
        ("-", "-"),
        ("quit", "退出"),
    ];
    assert_eq!(entries.len(), expected.len());
    for (got, want) in entries.iter().zip(expected.iter()) {
        assert_eq!((got.0.as_str(), got.1.as_str()), *want);
    }
    assert_eq!(entry(&tray_menu(true)[4]).1, "关闭桌面背景");
}

#[test]
fn tray_actions() {
    assert_eq!(tray_menu_action("quit"), TrayAction::Quit);
    assert_eq!(tray_menu_action("toggle_desktop_background"), TrayAction::ToggleDesktopBackground);
    assert_eq!(tray_menu_action("open_settings"), TrayAction::ShowSettings);
    assert_eq!(tray_menu_action("open_gallery"), TrayAction::ShowGallery);
    assert_eq!(tray_menu_action("open_carousel"), TrayAction::ShowCarousel);
    assert_eq!(tray_menu_action("something"), TrayAction::Nothing);
    assert_eq!(tray_window_label(TrayAction::ShowGallery), Some("gallery"));
    assert_eq!(tray_window_label(TrayAction::ShowSettings), Some("settings"));
    assert_eq!(tray_window_label(TrayAction::ShowCarousel), Some("carousel"));
    assert_eq!(tray_window_label(TrayAction::Quit), None);
}

#[test]
fn launching() {
    assert!(matches!(run(false, true), Launch::AlreadyRunning));
    match run(true, true) {
        Launch::Start { tray, commands, show_desktop_background, progress, fullscreen_restoring, keep_awake } => {
            assert!(show_desktop_background);
            assert!(!progress.running);
            assert_eq!(progress.stage, "idle");
            assert_eq!((progress.processed, progress.total, progress.generated, progress.skipped), (0, 0, 0, 0));
            assert!(progress.message.is_empty() && progress.error.is_empty());
            assert!(fullscreen_restoring.is_empty());
            assert!(!keep_awake.active);
            assert_eq!(commands.len(), 7);
            assert!(matches!(commands[0], TrayCommand::ShowWindow("settings")));
            assert!(matches!(commands[1], TrayCommand::ShowWindow("gallery")));
            assert!(matches!(commands[2], TrayCommand::ShowWindow("carousel")));
            assert!(matches!(commands[3], TrayCommand::Nothing));
            assert!(matches!(
                commands[4],
                TrayCommand::ToggleDesktopBackground { open_text: "关闭桌面背景", closed_text: "打开桌面背景" }
            ));
            assert!(matches!(commands[5], TrayCommand::Nothing));
            assert!(matches!(commands[6], TrayCommand::Exit));
            let entries: Vec<(String, String)> = tray.iter().map(entry).collect();
            let expected = [
                ("open_settings", "设置"),
                ("open_gallery", "瀑布流"),
                ("open_carousel", "走马灯"),
                ("-", "-"),
                ("toggle_desktop_background", "关闭桌面背景"),
                ("-", "-"),
                ("quit", "退出"),
            ];
            assert_eq!(entries.len(), expected.len());
            for (got, want) in entries.iter().zip(expected.iter()) {
                assert_eq!((got.0.as_str(), got.1.as_str()), *want);
            }
        }
        other => panic!("unexpected {other:?}"),
    }
    let args = vec!["gallery".to_string(), "--desktop-background-on-startup".to_string()];
    assert!(launched_from_desktop_background_startup(&args));
    assert!(!launched_from_desktop_background_startup(&vec!["gallery".to_string()]));
}

#[test]
fn startup_commands() {
    assert_eq!(startup_command("C:\\Apps\\Gallery.exe", false), "\"C:\\Apps\\Gallery.exe\"");
    assert_eq!(
        startup_command("C:\\Apps\\Gallery.exe", true),
        "\"C:\\Apps\\Gallery.exe\" --desktop-background-on-startup"
    );
}

#[test]
fn utf16_with_terminator() {
    assert_eq!(wide_null("Ab"), vec![0x41, 0x62, 0]);
    assert_eq!(wide_null(""), vec![0]);
    assert_eq!(wide_null("画"), vec![0x753b, 0]);
    assert_eq!(wide_null("😀"), vec![0xd83d, 0xde00, 0]);
    let expected: Vec<u16> = "x😀y".encode_utf16().chain(std::iter::once(0)).collect();
    assert_eq!(wide_null("x😀y"), expected);
}

#[test]
fn nanosecond_timestamps_saturate() {
    assert_eq!(saturating_nanos(5), 5);
    assert_eq!(saturating_nanos(i64::MAX as u128), i64::MAX);
    assert_eq!(saturating_nanos(u128::MAX), i64::MAX);
}

#[test]
fn updater_state_and_errors() {
    assert_eq!(AppUpdateRuntimeState { init_error: None }.ensure_ready(), Ok(()));
    assert_eq!(
        AppUpdateRuntimeState { init_error: Some("boom".to_string()) }.ensure_ready(),
        Err("更新服务初始化失败: boom".to_string())
    );
    assert_eq!(format_updater_error(UpdaterFailure::EmptyEndpoints), "未配置更新服务");
    assert_eq!(format_updater_error(UpdaterFailure::InsecureTransportProtocol), "更新服务必须使用 HTTPS endpoint");
    assert_eq!(format_updater_error(UpdaterFailure::ReleaseNotFound), "未找到有效的更新信息");
    assert_eq!(format_updater_error(UpdaterFailure::UnsupportedOs), "当前平台不支持应用更新");
    assert_eq!(format_updater_error(UpdaterFailure::Other("network".to_string())), "network");
}

#[test]
fn tray_commands() {
    assert!(matches!(tray_command("quit"), TrayCommand::Exit));
    assert!(matches!(tray_command("open_gallery"), TrayCommand::ShowWindow("gallery")));
    assert!(matches!(tray_command("unknown"), TrayCommand::Nothing));
}
