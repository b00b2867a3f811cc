use forcerun::report::{
    extract_name, find_sub, line_has_marker, marker_bytes, missing_libs, separator_bytes,
    split_report_lines, trim_bytes, ScanError,
};

fn names(report: &[u8]) -> Vec<Vec<u8>> {
    missing_libs(report).expect("scan should succeed")
}

#[test]
fn scanner_yields_each_marker_line_name_in_order() {
    let report = b"\tlinux-vdso.so.1 (0x00007ffd445f2000)\n\
                   \tlibtinfo.so.5 => not found\n\
                   \tlibc.so.6 => /lib/x86_64-linux-gnu/libc.so.6 (0x00007f2a)\n\
                   \tlibffi.so.6 => not found\n";
    assert_eq!(
        names(report),
        vec![b"libtinfo.so.5".to_vec(), b"libffi.so.6".to_vec()]
    );
}

#[test]
fn scanner_keeps_duplicate_names() {
    let report = b"\tlibz.so.9 => not found\n\tlibz.so.9 => not found\n";
    assert_eq!(names(report), vec![b"libz.so.9".to_vec(), b"libz.so.9".to_vec()]);
}

#[test]
fn scanner_on_empty_report_yields_nothing() {
    assert_eq!(names(b""), Vec::<Vec<u8>>::new());
}

#[test]
fn scanner_without_marker_lines_yields_nothing() {
    let report = b"\tlibc.so.6 => /lib/libc.so.6 (0x0000)\n\tlibm.so.6 => /lib/libm.so.6\n";
    assert_eq!(names(report), Vec::<Vec<u8>>::new());
}

#[test]
fn empty_name_before_separator_is_fatal() {
    let report = b"\tlibok.so.1 => /lib/libok.so.1\n\t => not found\n";
    assert_eq!(missing_libs(report), Err(ScanError::EmptyLibraryName));
}

#[test]
fn empty_name_is_fatal_even_after_good_lines() {
    let report = b"\tliba.so.1 => not found\n\t   => not found\n\tlibb.so.2 => not found\n";
    assert_eq!(missing_libs(report), Err(ScanError::EmptyLibraryName));
}

#[test]
fn marker_line_without_separator_uses_whole_line_trimmed() {
    let report = b"  libodd.so.3 not found  \n";
    assert_eq!(names(report), vec![b"libodd.so.3 not found".to_vec()]);
}

#[test]
fn trim_bytes_strips_ascii_whitespace_on_both_sides() {
    let s = b" \t libtinfo.so.5 \r\n";
    assert_eq!(trim_bytes(s, s.len()), b"libtinfo.so.5".to_vec());
    assert_eq!(trim_bytes(b"   ", 3), Vec::<u8>::new());
    assert_eq!(trim_bytes(b"abc", 2), b"ab".to_vec());
}

#[test]
fn find_sub_returns_first_occurrence() {
    assert_eq!(find_sub(b"abcabc", b"bc"), Some(1));
    assert_eq!(find_sub(b"abc", b""), Some(0));
    assert_eq!(find_sub(b"abc", b"cd"), None);
    assert_eq!(find_sub(b"ab", b"abc"), None);
}

#[test]
fn marker_and_separator_are_the_report_tokens() {
    assert_eq!(marker_bytes(), b"not found".to_vec());
    assert_eq!(separator_bytes(), b"=>".to_vec());
}

#[test]
fn line_has_marker_detects_the_marker_only() {
    assert!(line_has_marker(b"libx.so.1 => not found"));
    assert!(!line_has_marker(b"libx.so.1 => /lib/libx.so.1"));
    assert!(!line_has_marker(b"not foun"));
}

#[test]
fn extract_name_takes_text_before_first_separator() {
    assert_eq!(extract_name(b"  libx.so.1 => not found"), b"libx.so.1".to_vec());
    assert_eq!(extract_name(b"a => b => c"), b"a".to_vec());
    assert_eq!(extract_name(b"  whole line  "), b"whole line".to_vec());
}

#[test]
fn split_report_lines_keeps_inner_empty_lines_only() {
    let lines = split_report_lines(b"a\n\nb\n");
    assert_eq!(lines, vec![b"a".to_vec(), b"".to_vec(), b"b".to_vec()]);
    assert_eq!(split_report_lines(b""), Vec::<Vec<u8>>::new());
    assert_eq!(split_report_lines(b"solo"), vec![b"solo".to_vec()]);
}
