use std::path::Path;

use lime_rtw::events::ClockId;
use lime_rtw::io::{LimeFile, LimeOutputDirectory};
use lime_rtw::job_separator::JobSeparator;
use lime_rtw::task::{FileNameError, TaskId};
use lime_rtw::text::{chars_of, parse_u32, push_dec, push_hex, push_signed};
use lime_rtw::trace::writer::EventsFileFormat;

fn file_name_of(path: &Path) -> &str {
    path.file_name().unwrap().to_str().unwrap()
}

#[test]
fn test_lime_file_parsing() {
    let id = TaskId::new(123, 2);

    let example = Path::new("123-2.events.json");
    let expected = LimeFile::Events(id, EventsFileFormat::Json);
    assert_eq!(
        LimeFile::try_from_filename(file_name_of(example)).unwrap(),
        expected
    );

    let example = Path::new("123-2.jobs.json");
    let expected = LimeFile::Jobs(id);
    assert_eq!(
        LimeFile::try_from_filename(file_name_of(example)).unwrap(),
        expected
    );

    let example = Path::new("123-2.models.json");
    let expected = LimeFile::Models(id);
    assert_eq!(
        LimeFile::try_from_filename(file_name_of(example)).unwrap(),
        expected
    );

    let example = Path::new("123-2.infos.json");
    let expected = LimeFile::Infos(id);
    assert_eq!(
        LimeFile::try_from_filename(file_name_of(example)).unwrap(),
        expected
    );
}

#[test]
fn protobuf_events_files_are_recognised() {
    assert_eq!(
        LimeFile::try_from_filename("7-0.events.pb"),
        Ok(LimeFile::Events(TaskId::new(7, 0), EventsFileFormat::Protobuf))
    );
}

#[test]
fn file_names_are_parsed_back() {
    let id = TaskId::new(4021, 17);
    for f in [
        LimeFile::Events(id, EventsFileFormat::Json),
        LimeFile::Events(id, EventsFileFormat::Protobuf),
        LimeFile::Infos(id),
        LimeFile::Models(id),
        LimeFile::Jobs(id),
    ] {
        let name = f.file_name();
        assert_eq!(LimeFile::try_from_filename(&name), Ok(f));
    }
    assert_eq!(LimeFile::Jobs(id).file_name(), "4021-17.jobs.json");
    assert_eq!(
        LimeFile::Events(id, EventsFileFormat::Protobuf).file_name(),
        "4021-17.events.pb"
    );
    assert_eq!(id.name(), "4021-17");
}

#[test]
fn bad_file_names_are_refused() {
    assert_eq!(
        TaskId::try_from_filename("123-2.txt"),
        Err(FileNameError::UnknownSuffix)
    );
    assert_eq!(
        TaskId::try_from_filename("1232.jobs.json"),
        Err(FileNameError::NoSeparator)
    );
    assert_eq!(
        TaskId::try_from_filename("12a-2.jobs.json"),
        Err(FileNameError::InvalidNumber)
    );
    assert_eq!(
        TaskId::try_from_filename("1-2-3.jobs.json"),
        Err(FileNameError::InvalidNumber)
    );
    assert_eq!(
        TaskId::try_from_filename("4294967296-0.jobs.json"),
        Err(FileNameError::InvalidNumber)
    );
    assert_eq!(
        TaskId::try_from_filename("+5-0.jobs.json"),
        Ok(TaskId::new(5, 0))
    );
    assert_eq!(
        LimeFile::try_from_filename("x.jobs.json"),
        Err(FileNameError::NoSeparator)
    );
}

#[test]
fn numbers_are_parsed_as_u32_from_str_does() {
    for s in ["0", "42", "+42", "4294967295", "4294967296", "", "+", "-1", "1 "] {
        let chars = chars_of(s);
        assert_eq!(parse_u32(&chars), s.parse::<u32>().ok(), "{s}");
    }
}

#[test]
fn numerals() {
    let mut out = Vec::new();
    push_dec(&mut out, 0);
    out.push(' ');
    push_dec(&mut out, 1234567890);
    out.push(' ');
    push_hex(&mut out, 0xdead_beef);
    out.push(' ');
    push_signed(&mut out, -17);
    out.push(' ');
    push_signed(&mut out, i64::MIN);
    assert_eq!(
        string_of(&out),
        format!("0 1234567890 deadbeef -17 {}", i64::MIN)
    );
}

#[test]
fn separator_texts() {
    assert_eq!(
        JobSeparator::ClockNanosleep {
            clock_id: ClockId::ClockMonotonic,
            abs_time: true
        }
        .to_string(),
        "clock_nanosleep @ClockMonotonic"
    );
    assert_eq!(JobSeparator::Select { inp: 255 }.to_string(), "select @:ff");
    assert_eq!(JobSeparator::ReadSock { fd: 3 }.to_string(), "read_sock fd:3");
    assert_eq!(
        JobSeparator::FutexWait {
            uaddr: 0x7f00,
            clock_id: ClockId::ClockRealtime
        }
        .to_string(),
        "futex_wait @:7f00 on ClockRealtime"
    );
    assert_eq!(JobSeparator::Suspension.to_string(), "suspension");
    assert_eq!(
        JobSeparator::Recv { sock_fd: -1 }.to_string(),
        "recv sock_fd:-1"
    );
    assert_eq!(
        JobSeparator::Semop {
            sem_id: 5,
            timeout: 100
        }
        .to_string(),
        "semop semid:5 timeout:100"
    );
    assert_eq!(JobSeparator::Msgrcv { msqid: 9 }.to_string(), "recv msqid:9");
}

#[test]
fn events_file_formats() {
    assert_eq!(EventsFileFormat::Json.extension(), "json");
    assert_eq!(EventsFileFormat::Protobuf.extension(), "proto");
    assert_eq!(
        EventsFileFormat::from_name("JSON"),
        Some(EventsFileFormat::Json)
    );
    assert_eq!(
        EventsFileFormat::from_name("ProtoBuf"),
        Some(EventsFileFormat::Protobuf)
    );
    assert_eq!(EventsFileFormat::from_name("pb"), None);
}

#[test]
fn output_directory_names_files() {
    let dir = LimeOutputDirectory::new("out".to_string());
    assert_eq!(dir.path(), "out");
    assert_eq!(
        dir.events_file_name(&TaskId::new(3, 1), EventsFileFormat::Json),
        "3-1.events.json"
    );
}

fn string_of(chars: &[char]) -> String {
    chars.iter().collect()
}

#[test]
fn task_names_with_every_suffix_round_trip() {
    let t = TaskId::new(123, 2);
    for suffix in [".events.json", ".events.pb", ".infos.json", ".models.json", ".jobs.json"] {
        let name = format!("{}{}", t.name(), suffix);
        assert_eq!(TaskId::try_from_filename(&name), Ok(t));
    }
    assert_eq!(TaskId::try_from_filename("123-2.txt"), Err(FileNameError::UnknownSuffix));
    assert_eq!(TaskId::try_from_filename("1232.jobs.json"), Err(FileNameError::NoSeparator));
    assert_eq!(TaskId::try_from_filename("a-2.jobs.json"), Err(FileNameError::InvalidNumber));
}
