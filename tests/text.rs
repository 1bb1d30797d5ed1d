use path_tree::text::{decimal, format_eta, format_status, process_folder, utf8_split, utf8_truncate, TorrentStatus};

#[test]
fn eta_labels() {
    assert_eq!(format_eta(-1), "");
    assert_eq!(format_eta(-2), "\u{221e}");
    assert_eq!(format_eta(0), "0s");
    assert_eq!(format_eta(59), "59s");
    assert_eq!(format_eta(61), "1m 1s");
    assert_eq!(format_eta(3600), "1h 0m");
    assert_eq!(format_eta(3725), "1h 2m");
    assert_eq!(format_eta(90061), "1d 1h");
    assert_eq!(format_eta(-65), "-5s");
    assert_eq!(format_eta(-120), "0s");
}

#[test]
fn status_symbols() {
    assert_eq!(format_status(&TorrentStatus::Paused, 0), " \u{23f8} ");
    assert_eq!(format_status(&TorrentStatus::Verifying, 0), " \u{1f5d8}");
    assert_eq!(format_status(&TorrentStatus::VerifyQueued, 0), " \u{1f5d8}");
    assert_eq!(format_status(&TorrentStatus::DownQueued, 0), " \u{21e9}");
    assert_eq!(format_status(&TorrentStatus::Downloading, 0), " \u{21e3}");
    assert_eq!(format_status(&TorrentStatus::SeedQueued, 0), " \u{21e7}");
    assert_eq!(format_status(&TorrentStatus::Seeding, 0), " \u{21e1}");
    assert_eq!(format_status(&TorrentStatus::Seeding, 3), " \u{2048}");
}

#[test]
fn split_by_characters() {
    assert_eq!(utf8_split("h\u{e9}llo", 2), ("h\u{e9}".to_string(), "llo".to_string()));
    assert_eq!(utf8_split("abc", 0), (String::new(), "abc".to_string()));
    assert_eq!(utf8_split("abc", 10), ("abc".to_string(), String::new()));
}

#[test]
fn decimal_digits() {
    assert_eq!(decimal(0), "0");
    assert_eq!(decimal(1234567890), "1234567890");
    assert_eq!(decimal(u64::MAX), "18446744073709551615");
}

#[test]
fn truncate_at_char_boundary() {
    let mut a = "hello".to_string();
    utf8_truncate(&mut a, 3);
    assert_eq!(a, "he");
    let mut b = "h\u{e9}llo".to_string();
    utf8_truncate(&mut b, 3);
    assert_eq!(b, "h");
    let mut c = "abc".to_string();
    utf8_truncate(&mut c, 10);
    assert_eq!(c, "abc");
    let mut d = "abc".to_string();
    utf8_truncate(&mut d, 3);
    assert_eq!(d, "ab");
    let mut e = String::new();
    utf8_truncate(&mut e, 1);
    assert_eq!(e, "");
}

#[test]
fn folder_labels() {
    assert_eq!(process_folder("/downloads", "/downloads"), "downloads");
    assert_eq!(process_folder("/downloads/movies/2020", "/downloads"), "movies/2020");
    assert_eq!(process_folder("/downloads/a/b/c", "/downloads"), "b/c");
    assert_eq!(process_folder("/other", "/downloads"), "other");
    assert_eq!(process_folder("/", "/"), "");
    assert_eq!(process_folder("/x/downloads/y", "/downloads"), "x/y");
    assert_eq!(process_folder("abc", ""), "abc");
}
