use lime_rtw::io::unique_dir_name;
use lime_rtw::trace::reader::{
    continues, is_end_line, is_start_line, record_of, trim, varint, RecordError,
};

#[test]
fn trimming_matches_str_trim() {
    for s in [
        "",
        "   ",
        " [ ",
        "\t{\"ts\":1}\r\n",
        "\u{3000}x\u{a0}",
        "a b",
        "\u{2003}\u{2003}",
    ] {
        assert_eq!(string_of(&trim(s)), s.trim(), "{s:?}");
    }
}

#[test]
fn json_trace_delimiters() {
    assert!(is_start_line("["));
    assert!(is_start_line("  [ \n"));
    assert!(!is_start_line("[{"));
    assert!(is_end_line("]"));
    assert!(is_end_line("\t]\r\n"));
    assert!(!is_end_line("},"));
}

#[test]
fn records_are_cut_from_lines() {
    let r = record_of("  {\"ts\":1,\"event\":\"lime_end_of_trace\"},").unwrap();
    assert_eq!(string_of(&r), "{\"ts\":1,\"event\":\"lime_end_of_trace\"}");
    assert_eq!(record_of("abc"), Err(RecordError::NoStart));
    assert_eq!(record_of("{abc"), Err(RecordError::NoEnd));
    let r = record_of("}{").unwrap();
    assert!(r.is_empty());
}

#[test]
fn variable_length_integers() {
    assert_eq!(varint(&[0x05]), 5);
    assert_eq!(varint(&[0x96, 0x01]), 150);
    assert_eq!(varint(&[0xff, 0xff, 0x03]), 0xffff);
    assert_eq!(varint(&[]), 0);
    assert!(continues(0x80));
    assert!(!continues(0x7f));
}

#[test]
fn unique_directory_names() {
    assert_eq!(
        unique_dir_name("2024-01-02-030405", 0).as_deref(),
        Some("lime-2024-01-02-030405")
    );
    assert_eq!(
        unique_dir_name("2024-01-02-030405", 1).as_deref(),
        Some("lime-2024-01-02-030405-a")
    );
    assert_eq!(
        unique_dir_name("d", 26).as_deref(),
        Some("lime-d-z")
    );
    assert_eq!(unique_dir_name("d", 27), None);
}

fn string_of(chars: &[char]) -> String {
    chars.iter().collect()
}
