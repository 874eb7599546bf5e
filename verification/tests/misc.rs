use rawgrep::color::{code, detect_color_support, Color, ColorSupport, BOLD, COLOR_RESET};
use rawgrep::error::Error;
use rawgrep::logger::log_enabled;
use rawgrep::tracy::{create_plot, message, message_color, set_thread_name, Client};
use rawgrep::unwrap_::Unwrap_;

#[test]
fn color_support_detection() {
    assert_eq!(detect_color_support(false, Some("truecolor"), Some("xterm-256color")), ColorSupport::NoColor);
    assert_eq!(detect_color_support(true, Some("TrueColor"), None), ColorSupport::TrueColor);
    assert_eq!(detect_color_support(true, Some("24BIT"), Some("dumb")), ColorSupport::TrueColor);
    assert_eq!(detect_color_support(true, Some("yes"), Some("xterm-256color")), ColorSupport::Ansi256);
    assert_eq!(detect_color_support(true, None, Some("dumb")), ColorSupport::NoColor);
    assert_eq!(detect_color_support(true, None, Some("xterm")), ColorSupport::Basic);
    assert_eq!(detect_color_support(true, None, None), ColorSupport::Basic);
}

#[test]
fn color_codes() {
    assert_eq!(code(Color::Red, ColorSupport::TrueColor), "\x1b[38;2;255;0;0m");
    assert_eq!(code(Color::Green, ColorSupport::Ansi256), "\x1b[38;5;108m");
    assert_eq!(code(Color::Cyan, ColorSupport::Basic), "\x1b[1;36m");
    assert_eq!(code(Color::Blue, ColorSupport::NoColor), "");
    assert_eq!(COLOR_RESET, "\x1b[0m");
    assert_eq!(BOLD, "\x1b[1m");
}

#[test]
fn error_messages() {
    assert_eq!(Error::InvalidPattern("bad (".into()).message(), "bad (");
    assert_eq!(
        Error::DeviceNotFound("/dev/sdz".into()).message(),
        "Device or partition not found: '/dev/sdz'"
    );
    assert_eq!(
        Error::UnsupportedFilesystem { device: "/dev/sda1".into(), fs: "btrfs".into() }.message(),
        "'/dev/sda1' has a btrfs filesystem, which rawgrep doesn't support yet\nsupported filesystems: ext4, NTFS, APFS"
    );
    assert!(Error::PermissionDenied("/dev/sda".into())
        .message()
        .starts_with("Permission denied opening '/dev/sda'\nhelp: try running with sudo/root"));
    let e = Error::PathNotFound { path: "x".into(), source: std::io::Error::other("gone") };
    assert_eq!(e.message(), "Couldn't canonicalize 'x': gone");
    assert_eq!(e.source().unwrap().to_string(), "gone");
    let e = Error::InvalidFilesystem {
        fs: "ext4".into(),
        source: std::io::Error::other("bad magic"),
        hint: Some("try the partition".into()),
    };
    assert_eq!(e.message(), "Invalid ext4 filesystem: bad magic\ntry the partition");
    let e: Error = std::io::Error::other("plain").into();
    assert_eq!(e.message(), "plain");
    assert!(Error::DeviceNotFound("d".into()).source().is_none());
}

#[test]
fn log_setting() {
    for on in ["1", "true", "yes", "on"] {
        assert!(log_enabled(Some(on)));
    }
    for off in ["0", "TRUE", "", "no"] {
        assert!(!log_enabled(Some(off)));
    }
    assert!(!log_enabled(None));
}

#[test]
fn profiler_hooks_do_nothing() {
    assert!(Client::running().is_none());
    let c = Client::start();
    c.set_thread_name("worker");
    c.message("hello", 0);
    c.color_message("hello", 0xFF0000FF, 0);
    set_thread_name("main");
    message("m");
    message_color("m", 1);
    let _plot = create_plot("p");
}

#[test]
fn unwrap_known_values() {
    assert_eq!(Some(3).unwrap_(), 3);
    let r: Result<u8, String> = Ok(4);
    assert_eq!(r.unwrap_(), 4);
}
