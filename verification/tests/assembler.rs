use lime_rtw::tracer::assembler::{
    c_string_from_array, mask_to_cpuset, AffinityAssemblerAction, AffinityState, AffinityUpdateAssembler,
    ProcessInfo, ProcessInfoAssembler, ProcessInfoAssemblerAction, ProcessInfoState, RawEvent, RawRecord,
};
use lime_rtw::utils::ThreadId;

fn raw(ts: u64, record: RawRecord) -> RawEvent {
    RawEvent { ts, pid_tgid: (7u64 << 32) | 9, record }
}

#[test]
fn cpuset_lists_set_bits_in_order() {
    let mut mask = vec![0u64; 16];
    mask[0] = 0b1011;
    mask[2] = 1 << 63;
    assert_eq!(mask_to_cpuset(&mask), Some(vec![0, 1, 3, 191]));
    assert_eq!(mask_to_cpuset(&vec![0u64; 16]), None);
    assert_eq!(mask_to_cpuset(&vec![u64::MAX]).map(|v| v.len()), Some(64));
}

#[test]
fn affinity_chunks_fill_the_mask() {
    let mut s = AffinityState::new(5, (7u64 << 32) | 9, 2);
    assert_eq!(s.id, ThreadId { pid: 9, tgid: 7 });
    assert!(!s.is_complete());
    s.append_chunk(32, &vec![1, 2, 3, 4]);
    s.append_chunk(8, &vec![5, 6, 7, 8]);
    assert_eq!(&s.mask[..8], &[1, 2, 3, 4, 5, 0, 0, 0]);
    assert_eq!(s.next_index, 2);
    assert!(s.is_complete());
}

#[test]
fn affinity_assembler_completes_a_mask() {
    let mut a = AffinityUpdateAssembler::new();
    assert_eq!(a.handle(&raw(1, RawRecord::Other)), AffinityAssemblerAction::NotHandled);
    assert_eq!(a.handle(&raw(1, RawRecord::AffinityUpdateStart { chunk_count: 2 })), AffinityAssemblerAction::Consumed);
    let c = raw(2, RawRecord::AffinityUpdateChunk { chunk_len: 8, mask: vec![0b110, 0, 0, 0] });
    assert!(a.can_handle(&c));
    assert_eq!(a.handle(&c), AffinityAssemblerAction::Consumed);
    let end = raw(3, RawRecord::AffinityUpdateChunkEnd { chunk_len: 8, mask: vec![1, 0, 0, 0] });
    assert_eq!(
        a.handle(&end),
        AffinityAssemblerAction::Completed { ts: 1, id: ThreadId { pid: 9, tgid: 7 }, cpumask: Some(vec![1, 2, 256]) }
    );
    // nothing in progress any more
    assert_eq!(a.handle(&end), AffinityAssemblerAction::Consumed);
}

#[test]
fn affinity_assembler_waits_for_expected_chunks() {
    let mut a = AffinityUpdateAssembler::new();
    a.handle(&raw(1, RawRecord::AffinityUpdateStart { chunk_count: 3 }));
    let end = raw(3, RawRecord::AffinityUpdateChunkEnd { chunk_len: 8, mask: vec![1, 0, 0, 0] });
    assert_eq!(a.handle(&end), AffinityAssemblerAction::Consumed);
}

#[test]
fn affinity_chunk_past_the_mask_is_refused() {
    let mut a = AffinityUpdateAssembler::new();
    a.handle(&raw(1, RawRecord::AffinityUpdateStart { chunk_count: 9 }));
    let c = raw(2, RawRecord::AffinityUpdateChunk { chunk_len: 32, mask: vec![1, 1, 1, 1] });
    for _ in 0..4 {
        assert!(a.can_handle(&c));
        a.handle(&c);
    }
    assert!(!a.can_handle(&c));
    assert!(!a.can_handle(&raw(2, RawRecord::AffinityUpdateChunk { chunk_len: 40, mask: vec![1, 1, 1, 1] })));
}

#[test]
fn c_string_stops_at_zero() {
    assert_eq!(c_string_from_array(&b"bash\0xyz".to_vec()), Some("bash".to_string()));
    assert_eq!(c_string_from_array(&b"top".to_vec()), Some("top".to_string()));
    assert_eq!(c_string_from_array(&vec![0, 65]), None);
    assert_eq!(c_string_from_array(&vec![]), None);
}

#[test]
fn process_info_state_collects_the_command() {
    let mut s = ProcessInfoState::new(4, 9, 1, &b"sh\0".to_vec());
    s.append_chunk(3, &b"ls -l".to_vec());
    assert_eq!(s.cmd, b"ls ".to_vec());
    s.append_chunk(9, &b"-a\0junk".to_vec());
    assert!(s.cmd_complete);
    s.append_chunk(9, &b"more".to_vec());
    assert_eq!(s.cmd, b"ls -a".to_vec());
    let (id, ts, info) = s.finish().unwrap();
    assert_eq!((id, ts), (ThreadId { pid: 9, tgid: 0 }, 4));
    assert_eq!(info, ProcessInfo { ppid: Some(1), comm: Some("sh".to_string()), cmd: Some("ls -a".to_string()) });
}

#[test]
fn process_info_assembler_skips_empty_info() {
    let mut a = ProcessInfoAssembler::new();
    a.handle(&raw(1, RawRecord::ProcessInfoStart { ppid: 0, comm: vec![0; 16] }));
    assert_eq!(a.handle(&raw(2, RawRecord::ProcessInfoEnd)), ProcessInfoAssemblerAction::Consumed);
    a.handle(&raw(3, RawRecord::ProcessInfoStart { ppid: 42, comm: vec![0; 16] }));
    a.handle(&raw(4, RawRecord::ProcessInfoCmdChunk { chunk_len: 2, chunk: vec![0xff, b'x'] }));
    match a.handle(&raw(5, RawRecord::ProcessInfoEnd)) {
        ProcessInfoAssemblerAction::Completed { ts, id, info } => {
            assert_eq!((ts, id), (3, ThreadId { pid: 9, tgid: 7 }));
            assert_eq!(info.ppid, Some(42));
            assert_eq!(info.comm, None);
            assert_eq!(info.cmd, Some("\u{fffd}x".to_string()));
        }
        other => panic!("unexpected {:?}", other),
    }
    assert_eq!(a.handle(&raw(6, RawRecord::Other)), ProcessInfoAssemblerAction::NotHandled);
}
