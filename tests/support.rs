use ndownloader::config::Config;
use ndownloader::downloader::Downloader;
use ndownloader::notifications::{Notification, NotificationType};
use ndownloader::scanner::{StorageError, VideoScanner};

#[test]
fn test_notification_methods_dont_panic() {
    Notification::success("Test", "Success");
    Notification::error("Test", "Error");
    Notification::info("Test", "Info");
}

#[test]
fn notification_kinds_set_urgency_and_icon() {
    let s = Notification::success("T", "M");
    assert_eq!((s.urgency.as_str(), s.icon.as_str()), ("normal", "dialog-information"));
    let e = Notification::error("T", "M");
    assert_eq!((e.urgency.as_str(), e.icon.as_str()), ("critical", "dialog-error"));
    let i = Notification::info("T", "M");
    assert_eq!((i.urgency.as_str(), i.icon.as_str()), ("low", "dialog-information"));
    let r = Notification::request(NotificationType::Error, "Title", "Body");
    assert_eq!(
        r.args(),
        vec![
            "--urgency",
            "critical",
            "--icon",
            "dialog-error",
            "--app-name",
            "NDownloader",
            "Title",
            "Body"
        ]
    );
}

#[test]
fn scanner_has_three_storage_paths() {
    let s = VideoScanner::new();
    assert_eq!(
        s.storage_paths(),
        vec!["/run/mount/ve_stock_1", "/run/mount/ve_stock_2", "/run/mount/ve_ext_1"]
    );
}

#[test]
fn pick_storage_path_takes_first_mounted() {
    let s = VideoScanner::new();
    assert_eq!(
        s.pick_storage_path(&vec![false, true, true]),
        Ok("/run/mount/ve_stock_2".to_string())
    );
    assert_eq!(
        s.pick_storage_path(&vec![true, true, true]),
        Ok("/run/mount/ve_stock_1".to_string())
    );
    assert_eq!(
        s.pick_storage_path(&vec![false, false, false]),
        Err(StorageError::NoStorageAvailable)
    );
    assert_eq!(StorageError::NoStorageAvailable.message(), "Aucun disque de stockage disponible");
}

#[test]
fn find_best_storage_path_gives_a_known_path_or_error() {
    let s = VideoScanner::new();
    match s.find_best_storage_path() {
        Ok(p) => assert!(s.storage_paths().contains(&p)),
        Err(e) => assert_eq!(e, StorageError::NoStorageAvailable),
    }
}

#[test]
fn downloader_joins_channel_directory() {
    let d = Downloader::new("/data/videos".to_string());
    assert_eq!(d.output_dir(), "/data/videos");
    assert_eq!(d.channel_dir("chan"), "/data/videos/chan");
    assert_eq!(Downloader::new("/data/".to_string()).channel_dir("chan"), "/data/chan");
    assert_eq!(d.channel_dir("/abs"), "/abs");
    assert_eq!(Downloader::new(String::new()).channel_dir("chan"), "chan");
}

#[test]
fn downloader_arguments() {
    let d = Downloader::new("out".to_string());
    assert_eq!(
        d.download_args("https://v/1", "chan"),
        vec![
            "--no-playlist",
            "--output",
            "out/chan/%(title)s.%(ext)s",
            "--print",
            "after_move:filepath",
            "https://v/1"
        ]
    );
    assert_eq!(
        Downloader::info_args("https://v/1"),
        vec!["--dump-json", "--no-playlist", "https://v/1"]
    );
}

#[test]
fn downloaded_path_is_trimmed() {
    assert_eq!(Downloader::downloaded_path("  /out/chan/a b.mp4\n"), "/out/chan/a b.mp4");
    assert_eq!(Downloader::downloaded_path("\n"), "");
}

#[test]
fn config_default() {
    let c = Config::default();
    assert_eq!(c.download_dir, "./downloads");
    assert!(c.youtube_channels.is_empty());
    assert!(c.twitch_channels.is_empty());
    assert_eq!(c.check_interval, 60);
}
