use fqencoder::labels::tray_labels;

#[test]
fn chinese_locales_get_chinese_labels() {
    for loc in ["zh-TW", "ZH_tw", "zh", "Zh-Hant-HK"] {
        let l = tray_labels(Some(loc));
        assert_eq!((l.toggle, l.show, l.quit), ("自動監聽剪貼簿", "打開主視窗", "結束 FQEncoder"));
    }
}

#[test]
fn other_locales_get_english_labels() {
    for loc in [Some("en-US"), Some("z"), Some(""), Some("ja-JP"), None] {
        let l = tray_labels(loc);
        assert_eq!((l.toggle, l.show, l.quit), ("Auto-monitor clipboard", "Open window", "Quit FQEncoder"));
    }
}
