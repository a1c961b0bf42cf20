use bytes::BytesMut;
use log_collect::collect::{
    read_line, reconcile_files, Collect, FileInfo, FileStat, ReadPass, MAX_CAPACITY,
};
use log_collect::config::{default_interval, Config, EventTimeConfig};
use log_collect::event::{parse_event_time, Event};

fn rule() -> EventTimeConfig {
    EventTimeConfig { start_pos: 0, len: 19, fmt: String::from("%Y-%m-%d %H:%M:%S") }
}

fn stat(path: &str, inode: u64, modified: u64) -> FileStat {
    FileStat { path: String::from(path), inode, modified }
}

fn bytes_of(b: &BytesMut) -> Vec<u8> {
    b.to_vec()
}

/// Runs one whole pass over `data`, the bytes of the file from the cursor on.
fn run_pass(info: &mut FileInfo, data: &[u8], config: &EventTimeConfig) -> Vec<Event> {
    let mut pass: ReadPass = info.begin_read();
    let mut out = pass.push_chunk(info, data, config);
    if let Some(e) = pass.finish(info) {
        out.push(e);
    }
    out
}

#[test]
fn test_dt_parse() {
    let line = BytesMut::from(&b"2014-11-28 12:00:09 up\n"[..]);
    assert_eq!(parse_event_time(&line, &rule()), Some(1417176009000));
}

#[test]
fn timestamp_needs_line_longer_than_window() {
    let exact = BytesMut::from(&b"2014-11-28 12:00:09"[..]);
    assert_eq!(parse_event_time(&exact, &rule()), None);
    let longer = BytesMut::from(&b"2014-11-28 12:00:09\n"[..]);
    assert_eq!(parse_event_time(&longer, &rule()), Some(1417176009000));
}

#[test]
fn timestamp_rejects_bad_text() {
    let mismatch = BytesMut::from(&b"  at frame1 of the stack\n"[..]);
    assert_eq!(parse_event_time(&mismatch, &rule()), None);
    let mut invalid = BytesMut::from(&b"2014-11-28 12:00:09 x\n"[..]);
    invalid[3] = 0xff;
    assert_eq!(parse_event_time(&invalid, &rule()), None);
}

#[test]
fn timestamp_window_offset() {
    let config = EventTimeConfig { start_pos: 1, len: 19, fmt: String::from("%Y-%m-%d %H:%M:%S") };
    let line = BytesMut::from(&b"[2014-11-28 12:00:09] up\n"[..]);
    assert_eq!(parse_event_time(&line, &config), Some(1417176009000));
}

#[test]
fn framing_splits_on_terminator() {
    let mut buf = BytesMut::with_capacity(MAX_CAPACITY);
    buf.extend_from_slice(b"abc\ndef\n");
    let first = read_line(&mut buf).unwrap();
    assert_eq!(bytes_of(&first), b"abc\n".to_vec());
    let second = read_line(&mut buf).unwrap();
    assert_eq!(bytes_of(&second), b"def\n".to_vec());
    assert!(buf.is_empty());
    assert!(read_line(&mut buf).is_none());
}

#[test]
fn framing_waits_for_terminator() {
    let mut buf = BytesMut::from(&b"abc\npartial"[..]);
    assert_eq!(bytes_of(&read_line(&mut buf).unwrap()), b"abc\n".to_vec());
    assert!(read_line(&mut buf).is_none());
    assert_eq!(bytes_of(&buf), b"partial".to_vec());
}

#[test]
fn framing_overflow_takes_whole_buffer() {
    let mut buf = BytesMut::from(&vec![b'x'; MAX_CAPACITY][..]);
    let line = read_line(&mut buf).unwrap();
    assert_eq!(line.len(), MAX_CAPACITY);
    assert!(buf.is_empty());
    let mut short = BytesMut::from(&vec![b'x'; MAX_CAPACITY - 1][..]);
    assert!(read_line(&mut short).is_none());
    assert_eq!(short.len(), MAX_CAPACITY - 1);
}

#[test]
fn multi_line_merge() {
    let mut info = FileInfo::new(String::from("/var/log/app.log"), 7, 100);
    let mut pass = info.begin_read();
    let data = b"2024-01-01 00:00:00 start\n  at frame1\n2024-01-01 00:00:01 next\n";
    let out = pass.push_chunk(&mut info, data, &rule());
    assert_eq!(out.len(), 1);
    assert_eq!(bytes_of(&out[0].buf), b"2024-01-01 00:00:00 start\n  at frame1\n".to_vec());
    assert_eq!(out[0].event_time, 1704067200000);
    assert_eq!(out[0].offset, 0);
    assert_eq!(out[0].file_name, "app.log");
    let open = pass.event.as_ref().unwrap();
    assert_eq!(bytes_of(&open.buf), b"2024-01-01 00:00:01 next\n".to_vec());
    assert_eq!(open.event_time, 1704067201000);
    assert_eq!(open.offset, 38);
    assert_eq!(info.read_pos, 38);
}

#[test]
fn chunks_split_mid_line() {
    let mut info = FileInfo::new(String::from("app.log"), 7, 100);
    let mut pass = info.begin_read();
    let a = pass.push_chunk(&mut info, b"2024-01-01 00:00:00 st", &rule());
    assert!(a.is_empty());
    let b = pass.push_chunk(&mut info, b"art\n2024-01-01 00:00:01 next\n", &rule());
    assert_eq!(b.len(), 1);
    assert_eq!(bytes_of(&b[0].buf), b"2024-01-01 00:00:00 start\n".to_vec());
    assert_eq!(info.read_pos, 26);
    assert_eq!(pass.end, 51);
}

#[test]
fn debounce_holds_then_commits_once() {
    let mut info = FileInfo::new(String::from("app.log"), 7, 100);
    let data = b"2024-01-01 00:00:00 start\n  at frame1\n";
    let first = run_pass(&mut info, data, &rule());
    assert!(first.is_empty());
    assert_eq!(info.read_pos, 0);
    assert!(info.delay_submit);
    let second = run_pass(&mut info, data, &rule());
    assert_eq!(second.len(), 1);
    assert_eq!(bytes_of(&second[0].buf), data.to_vec());
    assert_eq!(info.read_pos, data.len() as u64);
    assert!(!info.delay_submit);
    let third = run_pass(&mut info, b"", &rule());
    assert!(third.is_empty());
    assert_eq!(info.read_pos, data.len() as u64);
    assert!(!info.delay_submit);
}

#[test]
fn offset_never_decreases_nor_passes_read_end() {
    let mut info = FileInfo::new(String::from("app.log"), 7, 100);
    let mut file: Vec<u8> = Vec::new();
    let chunks: [&[u8]; 3] = [
        b"2024-01-01 00:00:00 a\n",
        b"  more\n2024-01-01 00:00:01 b\n",
        b"2024-01-01 00:00:02 c\n",
    ];
    let mut last = 0;
    for c in chunks.iter() {
        file.extend_from_slice(c);
        let rest = file[info.read_pos as usize..].to_vec();
        run_pass(&mut info, &rest, &rule());
        assert!(info.read_pos >= last);
        assert!(info.read_pos <= file.len() as u64);
        last = info.read_pos;
    }
}

#[test]
fn first_line_without_timestamp_opens_record() {
    let mut info = FileInfo::new(String::from("app.log"), 7, 100);
    let mut pass = info.begin_read();
    let out = pass.push_chunk(&mut info, b"no stamp\n2024-01-01 00:00:00 a\n", &rule());
    assert_eq!(out.len(), 1);
    assert_eq!(bytes_of(&out[0].buf), b"no stamp\n".to_vec());
    assert_eq!(info.read_pos, 9);
}

#[test]
fn file_name_falls_back_to_none() {
    let info = FileInfo::new(String::from("/"), 1, 0);
    assert_eq!(info.begin_read().file_name, "none");
    let named = FileInfo::new(String::from("/var/log/app.log"), 1, 0);
    assert_eq!(named.begin_read().file_name, "app.log");
}

#[test]
fn rename_keeps_offset() {
    let mut info = FileInfo::new(String::from("/logs/a.log"), 42, 100);
    run_pass(&mut info, b"2024-01-01 00:00:00 a\n2024-01-01 00:00:01 b\n", &rule());
    assert_eq!(info.read_pos, 22);
    let prev = vec![info];
    let next = reconcile_files(&prev, &vec![stat("/logs/b.log", 42, 200)]);
    assert_eq!(next.len(), 1);
    assert_eq!(next[0].path, "/logs/b.log");
    assert_eq!(next[0].read_pos, 22);
    assert_eq!(next[0].inode, 42);
}

#[test]
fn rescan_is_idempotent() {
    let mut info = FileInfo::new(String::from("/logs/a.log"), 42, 100);
    run_pass(&mut info, b"2024-01-01 00:00:00 a\n2024-01-01 00:00:01 b\n", &rule());
    let prev = vec![info];
    let observed = vec![stat("/logs/a.log", 42, 100), stat("/logs/c.log", 43, 300)];
    let once = reconcile_files(&prev, &observed);
    let twice = reconcile_files(&once, &observed);
    assert_eq!(once.len(), 2);
    assert_eq!(twice.len(), 2);
    for k in 0..2 {
        assert_eq!(once[k].path, twice[k].path);
        assert_eq!(once[k].read_pos, twice[k].read_pos);
    }
    assert_eq!(once[0].read_pos, 22);
    assert_eq!(once[1].read_pos, 0);
}

#[test]
fn vanished_files_are_dropped_and_new_ones_start_at_zero() {
    let mut collect = Collect::new(Config { path: String::from("/logs/*.log"), interval: 10, event_time: rule() });
    collect.reconcile(vec![stat("/logs/a.log", 1, 5), stat("/logs/b.log", 2, 6)]);
    assert_eq!(collect.files.len(), 2);
    let mut files = collect.take_files();
    assert!(collect.files.is_empty());
    run_pass(&mut files[0], b"2024-01-01 00:00:00 a\n2024-01-01 00:00:01 b\n", &rule());
    collect.put_files(files);
    collect.reconcile(vec![stat("/logs/a.log", 1, 7), stat("/logs/d.log", 4, 8)]);
    assert_eq!(collect.files.len(), 2);
    assert_eq!(collect.files[0].read_pos, 22);
    assert_eq!(collect.files[0].last_write_time, 5);
    assert_eq!(collect.files[1].path, "/logs/d.log");
    assert_eq!(collect.files[1].read_pos, 0);
    assert_eq!(collect.files[1].last_write_time, 8);
}

#[test]
fn stale_guard_lets_every_file_through() {
    let info = FileInfo::new(String::from("a.log"), 1, 0);
    assert_eq!(info.read_time, 0);
    assert!(info.should_read());
    let later = FileInfo { read_time: 10, ..FileInfo::new(String::from("a.log"), 1, 5) };
    assert!(!later.should_read());
}

#[test]
fn event_constructors() {
    let line = BytesMut::from(&b"2024-01-01 00:00:00 a\n"[..]);
    let e = Event::force_parse(line.clone(), String::from("f"), 3, &rule());
    assert_eq!(e.event_time, 1704067200000);
    assert_eq!(e.len(), 22);
    assert_eq!(e.offset, 3);
    assert!(Event::parse(BytesMut::from(&b"cont\n"[..]), String::from("f"), 0, &rule()).is_none());
    let p = Event::parse(line, String::from("f"), 0, &rule()).unwrap();
    assert_eq!(p.event_time, 1704067200000);
}

#[test]
fn interval_defaults_to_ten() {
    assert_eq!(default_interval(), 10);
}
