use mirror_clone::error::Error;
use mirror_clone::rsync::{parse_rsync_output, LineStep, ListingScan, Rsync, DEBUG_LINE_LIMIT};

#[test]
fn parse_recovers_five_fields() {
    let line = "-rw-r--r--          1,234 2020/01/01 12:00:00 path/to/file name.txt";
    let r = parse_rsync_output(line).unwrap();
    assert_eq!(
        r,
        ("-rw-r--r--", "1,234", "2020/01/01", "12:00:00", "path/to/file name.txt")
    );
}

#[test]
fn parse_keeps_white_space_that_starts_the_file() {
    let r = parse_rsync_output("-rw-r--r-- 10 2021/02/03 04:05:06  lead").unwrap();
    assert_eq!(r.4, " lead");
}

#[test]
fn parse_skips_tabs_and_runs_between_fields() {
    let r = parse_rsync_output("drwxr-xr-x \t 4,096\u{3000}  2020/01/01 \t00:00:00 dir").unwrap();
    assert_eq!(r, ("drwxr-xr-x", "4,096\u{3000}", "2020/01/01", "00:00:00", "dir"));
}

#[test]
fn parse_short_line_fails() {
    assert_eq!(parse_rsync_output("drwxr-xr-x 4,096 2020/01/01"), Err(Error::NoneError));
    assert_eq!(parse_rsync_output("a b c d"), Err(Error::NoneError));
    assert_eq!(parse_rsync_output(""), Err(Error::NoneError));
}

#[test]
fn scan_keeps_regular_files_only() {
    let mut scan = ListingScan::new(false);
    assert_eq!(scan.on_line("drwxr-xr-x          4,096 2020/01/01 00:00:00 ."), LineStep::Continue);
    assert_eq!(scan.on_line("-rw-r--r--          1,024 2020/01/01 00:00:00 a/b.txt"), LineStep::Continue);
    assert_eq!(scan.on_line("garbage"), LineStep::Continue);
    assert_eq!(scan.on_line("lrwxrwxrwx             11 2020/01/01 00:00:00 link"), LineStep::Continue);
    assert_eq!(scan.on_line("-rw-rw-r--              7 2020/01/01 00:00:00 c d"), LineStep::Continue);
    assert_eq!(scan.on_line("-r--r--r--              7 2020/01/01 00:00:00 readonly"), LineStep::Continue);
    assert_eq!(scan.lines_seen, 6);
    assert_eq!(
        scan.finish(Some(0)),
        Ok(vec!["a/b.txt".to_string(), "c d".to_string(), "readonly".to_string()])
    );
}

#[test]
fn parse_refuses_empty_permission_or_file() {
    assert_eq!(parse_rsync_output("a b c d "), Err(Error::NoneError));
    assert_eq!(parse_rsync_output(" a b c d"), Err(Error::NoneError));
    assert_eq!(parse_rsync_output("a b c d \t "), Err(Error::NoneError));
    assert_eq!(parse_rsync_output("\ta b c d"), Err(Error::NoneError));
}

#[test]
fn scan_skips_four_field_line_with_trailing_space() {
    let mut scan = ListingScan::new(false);
    assert_eq!(scan.on_line("-rw-r--r-- 1 2 3 "), LineStep::Continue);
    assert_eq!(scan.on_line("-rw-r--r-- 1 2 3 kept"), LineStep::Continue);
    assert_eq!(scan.finish(Some(0)), Ok(vec!["kept".to_string()]));
}

#[test]
fn scan_keeps_read_only_regular_file() {
    let mut scan = ListingScan::new(false);
    scan.on_line("-r--r--r--              7 2020/01/01 00:00:00 ro.txt");
    scan.on_line("---------- 7 2020/01/01 00:00:00 none.txt");
    scan.on_line("crw-rw-rw- 0 2020/01/01 00:00:00 dev");
    assert_eq!(
        scan.finish(Some(0)),
        Ok(vec!["ro.txt".to_string(), "none.txt".to_string()])
    );
}

#[test]
fn scan_fails_on_nonzero_exit_after_valid_lines() {
    let mut scan = ListingScan::new(false);
    scan.on_line("-rw-r--r--          1,024 2020/01/01 00:00:00 a");
    scan.on_line("-rw-r--r--          1,024 2020/01/01 00:00:00 b");
    assert_eq!(scan.keys.len(), 2);
    assert_eq!(scan.finish(Some(23)), Err(Error::ProcessExit(Some(23))));
}

#[test]
fn scan_fails_when_process_killed() {
    let mut scan = ListingScan::new(false);
    scan.on_line("-rw-r--r--          1,024 2020/01/01 00:00:00 a");
    assert_eq!(scan.finish(None), Err(Error::ProcessExit(None)));
}

#[test]
fn scan_debug_stops_after_limit() {
    let mut scan = ListingScan::new(true);
    for _ in 0..DEBUG_LINE_LIMIT {
        assert_eq!(scan.on_line("-rw-r--r-- 1 2020/01/01 00:00:00 f"), LineStep::Continue);
    }
    assert_eq!(scan.on_line("-rw-r--r-- 1 2020/01/01 00:00:00 g"), LineStep::Stop);
    let keys = scan.finish(Some(0)).unwrap();
    assert_eq!(keys.len(), 1000);
    assert!(keys.iter().all(|k| k == "f"));
}

#[test]
fn scan_without_debug_has_no_limit() {
    let mut scan = ListingScan::new(false);
    for _ in 0..1500 {
        assert_eq!(scan.on_line("-rw-r--r-- 1 2020/01/01 00:00:00 f"), LineStep::Continue);
    }
    assert_eq!(scan.finish(Some(0)).unwrap().len(), 1500);
}

#[test]
fn rsync_object_is_its_key() {
    let r = Rsync { base: "rsync://example.org/mod/".to_string(), debug: false };
    assert_eq!(r.get_object("a/b".to_string()), "a/b");
}
