use stackdump::dump::ReadError;
use stackdump::extract::{extract_all, plan_read, ExtractError, ReadRequest};
use stackdump::locator::{locate_stacks, ProcessMaps, StackEntry};
use stackdump::region::RangeError;

fn image() -> Vec<u8> {
    let mut v = vec![0u8; 0x1000];
    v.extend(vec![0xAAu8; 0x1000]);
    v.extend(vec![0xBBu8; 0x1000]);
    v.extend(vec![0xCCu8; 0x1000]);
    v
}

fn entry(pid: &str, token: &str) -> StackEntry {
    StackEntry { pid: pid.to_string(), token: token.to_string() }
}

#[test]
fn plans_aligned_reads() {
    assert_eq!(plan_read("7f0000001000-7f0000002000"), Ok(ReadRequest { offset: 0x1000, length: 0x1000 }));
    assert_eq!(plan_read("7f0000001800-7f0000002000"), Ok(ReadRequest { offset: 0x1000, length: 0x800 }));
    assert_eq!(plan_read("7f0000002000-7f0000001000"), Err(RangeError::InvalidRange));
    assert_eq!(plan_read("garbage"), Err(RangeError::MalformedRange));
}

#[test]
fn two_processes_end_to_end() {
    let img = image();
    let entries = vec![
        entry("100", "7f0000001000-7f0000002000"),
        entry("200", "7f0000003000-7f0000004000"),
    ];
    let out = extract_all(&entries, &img);
    assert_eq!(out.len(), 2);
    assert_eq!(out[0].pid, "100");
    assert_eq!(out[0].token, "7f0000001000-7f0000002000");
    let first = out[0].outcome.as_ref().unwrap();
    assert_eq!(first.offset, 0x1000);
    assert_eq!(first.bytes, vec![0xAAu8; 0x1000]);
    assert_eq!(out[1].pid, "200");
    let second = out[1].outcome.as_ref().unwrap();
    assert_eq!(second.offset, 0x3000);
    assert_eq!(&second.bytes[..], &img[0x3000..0x4000]);
}

#[test]
fn failures_stay_with_their_process() {
    let img = image();
    let entries = vec![
        entry("1", "7f00zz-7f001000"),
        entry("2", "7f0000002000-7f0000001000"),
        entry("3", "7f0000004000-7f0000005000"),
        entry("4", "7f0000003800-7f0000004801"),
        entry("5", "7f0000002000-7f0000002010"),
    ];
    let out = extract_all(&entries, &img);
    assert_eq!(out.len(), 5);
    assert_eq!(out[0].outcome.as_ref().unwrap_err(), &ExtractError::Range(RangeError::MalformedRange));
    assert_eq!(out[1].outcome.as_ref().unwrap_err(), &ExtractError::Range(RangeError::InvalidRange));
    assert_eq!(out[2].outcome.as_ref().unwrap_err(), &ExtractError::Read(ReadError::OutOfBounds));
    assert_eq!(out[3].outcome.as_ref().unwrap_err(), &ExtractError::Read(ReadError::OutOfBounds));
    assert_eq!(out[4].outcome.as_ref().unwrap().bytes, vec![0xBBu8; 0x10]);
    assert_eq!(out[4].pid, "5");
}

#[test]
fn missing_stack_does_not_shift_pairs() {
    let img = image();
    let procs = vec![
        ProcessMaps { pid: "100".to_string(), map_lines: vec!["7f0000001000-7f0000002000 rw-p 0 0:0 0 [stack]".to_string()] },
        ProcessMaps { pid: "150".to_string(), map_lines: vec![] },
        ProcessMaps { pid: "200".to_string(), map_lines: vec!["7f0000003000-7f0000004000 rw-p 0 0:0 0 [stack]".to_string()] },
    ];
    let out = extract_all(&locate_stacks(&procs), &img);
    assert_eq!(out.len(), 2);
    assert_eq!(out[0].pid, "100");
    assert_eq!(out[0].outcome.as_ref().unwrap().bytes, vec![0xAAu8; 0x1000]);
    assert_eq!(out[1].pid, "200");
    assert_eq!(out[1].outcome.as_ref().unwrap().bytes, vec![0xCCu8; 0x1000]);
}
