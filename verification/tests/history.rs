use pdf_printer::history::{add, clear, get_records, LogRecord, MAX_RECORDS};

fn record(i: u32) -> LogRecord {
    LogRecord {
        time: String::new(),
        file: format!("f{i}.pdf"),
        pages: i,
        status: "完成".to_string(),
        duration: "1秒".to_string(),
    }
}

#[test]
fn add_puts_newest_first() {
    let mut h = vec![record(1), record(2)];
    add(&mut h, "new.pdf", 12, "已取消", "3秒", 1700000000);
    assert_eq!(h.len(), 3);
    assert_eq!(h[0].file, "new.pdf");
    assert_eq!(h[0].pages, 12);
    assert_eq!(h[0].status, "已取消");
    assert_eq!(h[0].duration, "3秒");
    assert_eq!(h[0].time, "2023-11-14 22:13:20");
    assert_eq!(h[1].file, "f1.pdf");
    assert_eq!(h[2].file, "f2.pdf");
}

#[test]
fn history_keeps_the_newest_hundred() {
    let mut h: Vec<LogRecord> = (0..MAX_RECORDS as u32).map(record).collect();
    add(&mut h, "latest.pdf", 1, "完成", "0秒", 0);
    assert_eq!(h.len(), 100);
    assert_eq!(h[0].file, "latest.pdf");
    assert_eq!(h[1].file, "f0.pdf");
    assert_eq!(h[99].file, "f98.pdf");
}

#[test]
fn read_after_add_gives_the_added_record() {
    let mut h: Vec<LogRecord> = Vec::new();
    add(&mut h, "a.pdf", 5, "完成", "2秒", 0);
    let r = get_records(h, 20);
    assert_eq!(r.len(), 1);
    assert_eq!(r[0].file, "a.pdf");
}

#[test]
fn get_records_limits() {
    let h: Vec<LogRecord> = (0..30).map(record).collect();
    let r = get_records(h, 20);
    assert_eq!(r.len(), 20);
    assert_eq!(r[19].pages, 19);
    let h: Vec<LogRecord> = (0..3).map(record).collect();
    assert_eq!(get_records(h, 20).len(), 3);
}

#[test]
fn clear_empties_history() {
    let mut h: Vec<LogRecord> = (0..5).map(record).collect();
    clear(&mut h);
    assert!(h.is_empty());
    assert!(get_records(h, 20).is_empty());
}
