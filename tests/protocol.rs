use std::cell::RefCell;
use std::rc::Rc;

use promdump::default_port_name;
use promdump::link::Link;
use promdump::text::{is_u32, trim_text};
use promdump::dumper::{choose_chip, starts_with, ChipDesc, Dumper, DumperError};
use promdump::promdate::{
    is_prompt, lines_of, list_request, parse_desc, parse_line, parse_listing, probe_request,
    check_selection, select_request, Promdate, LINE_TIMEOUT_MS, TRANSFER_TIMEOUT_MS,
};

/// What a scripted link saw: the requests sent and the timeouts set.
#[derive(Default)]
struct Log {
    sent: Vec<Vec<u8>>,
    timeouts: Vec<u64>,
}

/// A device that answers each request with the next scripted reply.
struct Script {
    replies: Vec<Result<Vec<u8>, ()>>,
    next: usize,
    transfer: Result<Vec<u8>, ()>,
    log: Rc<RefCell<Log>>,
}

impl Link for Script {
    fn exchange(&mut self, request: &[u8]) -> Result<Vec<u8>, ()> {
        self.log.borrow_mut().sent.push(request.to_vec());
        let r = self.replies[self.next].clone();
        self.next += 1;
        r
    }

    fn set_timeout_ms(&mut self, ms: u64) {
        self.log.borrow_mut().timeouts.push(ms);
    }

    fn receive_transfer(&mut self, sink: &mut Vec<u8>) -> Result<usize, ()> {
        match &self.transfer {
            Ok(bytes) => {
                sink.extend_from_slice(bytes);
                Ok(bytes.len())
            }
            Err(()) => Err(()),
        }
    }
}

fn device(replies: &[&[u8]]) -> (Promdate<Script>, Rc<RefCell<Log>>) {
    let log = Rc::new(RefCell::new(Log::default()));
    let script = Script {
        replies: replies.iter().map(|r| Ok(r.to_vec())).collect(),
        next: 0,
        transfer: Ok(Vec::new()),
        log: log.clone(),
    };
    (Promdate::new(script), log)
}

const LISTING: &[u8] = b"1 NONE\n*** 2 AT28C256\n3 AT28C64\n";

fn chip(name: &str) -> ChipDesc {
    ChipDesc { name: name.to_string(), key: name.to_string() }
}

fn names(v: &[ChipDesc]) -> Vec<String> {
    v.iter().map(|c| c.name.clone()).collect()
}

#[test]
fn parse_marked_line() {
    let (c, selected) = parse_desc("*** 3 X25").unwrap();
    assert_eq!(c.name, "X25");
    assert_eq!(c.key, "X25");
    assert!(selected);
    let (c, selected) = parse_line(b"*** 3 X25\n").unwrap();
    assert_eq!(c.name, "X25");
    assert_eq!(c.key, "X25");
    assert!(selected);
}

#[test]
fn parse_unmarked_line() {
    let (c, selected) = parse_desc("3 X25").unwrap();
    assert_eq!(c.name, "X25");
    assert!(!selected);
}

#[test]
fn parse_empty_slot() {
    assert!(parse_desc("3 NONE").is_none());
    assert!(parse_desc("*** 3 NONE").is_none());
}

#[test]
fn parse_non_numeric_index() {
    assert!(parse_desc("abc X25").is_none());
    assert!(parse_desc("-1 X25").is_none());
    assert!(parse_desc("").is_none());
    assert!(parse_desc("3").is_none());
}

#[test]
fn parse_index_range() {
    assert!(parse_desc("4294967295 X25").is_some());
    assert!(parse_desc("4294967296 X25").is_none());
    assert!(parse_desc("+7 X25").is_some());
    assert!(parse_desc("+ X25").is_none());
}

#[test]
fn parse_needs_exactly_two_fields() {
    assert!(parse_desc("4 AT 28").is_none());
    assert!(parse_desc("3 A B").is_none());
    assert!(parse_desc("3 ").is_none());
    assert!(parse_desc("*** 3").is_none());
}

#[test]
fn parse_fields_split_at_any_white_space() {
    let (c, _) = parse_desc("3  X25").unwrap();
    assert_eq!(c.name, "X25");
    let (c, selected) = parse_desc("*** 3\tX25 ").unwrap();
    assert_eq!(c.name, "X25");
    assert!(selected);
    let (c, _) = parse_desc(" 3\u{3000}X25").unwrap();
    assert_eq!(c.name, "X25");
}

#[test]
fn parse_line_trims_white_space() {
    let (c, selected) = parse_line(b"  *** 2 AT28C64\r").unwrap();
    assert_eq!(c.name, "AT28C64");
    assert!(selected);
}

#[test]
fn parse_line_decodes_utf8() {
    let (c, _) = parse_line("2 \u{c4}B".as_bytes()).unwrap();
    assert_eq!(c.name, "\u{c4}B");
    assert!(parse_line(&[b'2', b' ', 0xff, b'A']).is_none());
}

#[test]
fn lines_are_split_at_line_breaks() {
    assert_eq!(lines_of(b"a\nbc"), vec![b"a".to_vec(), b"bc".to_vec()]);
    assert_eq!(lines_of(b"a\n"), vec![b"a".to_vec(), Vec::new()]);
    assert_eq!(lines_of(b""), vec![Vec::<u8>::new()]);
}

#[test]
fn listing_reads_chips_in_order() {
    let (list, selected) = parse_listing(LISTING);
    assert_eq!(names(&list), vec!["AT28C256", "AT28C64"]);
    assert_eq!(selected.unwrap().name, "AT28C256");
}

#[test]
fn listing_skips_undecodable_lines() {
    let raw = [b"1 A\n".as_slice(), &[b'2', b' ', 0xc3, b'\n'], b"3 C\n"].concat();
    let (list, selected) = parse_listing(&raw);
    assert_eq!(names(&list), vec!["A", "C"]);
    assert!(selected.is_none());
}

#[test]
fn listing_keeps_last_marked_chip() {
    let (list, selected) = parse_listing(b"*** 1 A\n*** 2 B\n3 C");
    assert_eq!(names(&list), vec!["A", "B", "C"]);
    assert_eq!(selected.unwrap().name, "B");
}

#[test]
fn presence_boundary() {
    assert!(is_prompt(b"\n> "));
    assert!(is_prompt(b"PROMdate\n> "));
    assert!(!is_prompt(b"> "));
    assert!(!is_prompt(b""));
    assert!(!is_prompt(b"\n>"));
}

#[test]
fn requests_on_the_wire() {
    assert_eq!(probe_request(), b"\n".to_vec());
    assert_eq!(list_request(), b"l\n".to_vec());
    assert_eq!(select_request(&chip("AT28C64")), b"mAT28C64\n".to_vec());
}

#[test]
fn selection_reply_is_checked() {
    assert!(check_selection(b"ok\n  *** 3 AT28C64\n", &chip("AT28C64")).is_ok());
    match check_selection(b"error\n", &chip("AT28C64")) {
        Err(DumperError::ProtocolMismatch { response, chip }) => {
            assert_eq!(response, b"error\n".to_vec());
            assert_eq!(chip, "AT28C64");
        }
        other => panic!("unexpected {:?}", other),
    }
}

#[test]
fn choose_chip_outcomes() {
    let list = vec![chip("AT28C256"), chip("AT28C64"), chip("27C512")];
    assert_eq!(choose_chip(&list, "AT28C6").unwrap().name, "AT28C64");
    assert_eq!(choose_chip(&list, "27C512").unwrap().name, "27C512");
    assert!(matches!(choose_chip(&list, "AT28"), Err(DumperError::AmbiguousSelection(2))));
    assert!(matches!(choose_chip(&list, ""), Err(DumperError::AmbiguousSelection(3))));
    assert!(matches!(choose_chip(&list, "X"), Err(DumperError::NoMatchingChip)));
    assert!(matches!(choose_chip(&Vec::new(), "A"), Err(DumperError::NoMatchingChip)));
}

#[test]
fn prefix_comparison() {
    assert!(starts_with(&"AT28C64".to_string(), "AT2"));
    assert!(starts_with(&"AT28C64".to_string(), ""));
    assert!(!starts_with(&"AT".to_string(), "AT2"));
    assert!(!starts_with(&"AT28".to_string(), "AX"));
}

#[test]
fn device_presence() {
    let (mut d, log) = device(&[b"\r\n> ", b"> "]);
    assert!(d.is_present().unwrap());
    assert!(!d.is_present().unwrap());
    assert_eq!(log.borrow().sent, vec![b"\n".to_vec(), b"\n".to_vec()]);
    assert_eq!(log.borrow().timeouts, vec![LINE_TIMEOUT_MS]);
}

#[test]
fn device_listing_scenario() {
    let (mut d, log) = device(&[LISTING, LISTING]);
    assert_eq!(names(&d.list_supported().unwrap()), vec!["AT28C256", "AT28C64"]);
    assert_eq!(d.selected_chip().unwrap().unwrap().name, "AT28C256");
    assert_eq!(log.borrow().sent, vec![b"l\n".to_vec(), b"l\n".to_vec()]);
}

#[test]
fn device_listing_twice_is_the_same() {
    let (mut d, _) = device(&[LISTING, LISTING]);
    let first = names(&d.list_supported().unwrap());
    let second = names(&d.list_supported().unwrap());
    assert_eq!(first, second);
}

#[test]
fn device_rejects_selection() {
    let (mut d, log) = device(&[b"error\n"]);
    match d.set_selected_chip(&chip("AT28C64")) {
        Err(DumperError::ProtocolMismatch { response, chip }) => {
            assert_eq!(String::from_utf8(response).unwrap().trim(), "error");
            assert_eq!(chip, "AT28C64");
        }
        other => panic!("unexpected {:?}", other),
    }
    assert_eq!(log.borrow().sent, vec![b"mAT28C64\n".to_vec()]);
}

#[test]
fn select_by_name_unique() {
    let (mut d, log) = device(&[LISTING, b"*** 3 AT28C64\n"]);
    assert!(d.select_chip_by_name("AT28C6").is_ok());
    assert_eq!(log.borrow().sent, vec![b"l\n".to_vec(), b"mAT28C64\n".to_vec()]);
}

#[test]
fn select_by_name_ambiguous() {
    let (mut d, log) = device(&[LISTING]);
    assert!(matches!(d.select_chip_by_name("AT28"), Err(DumperError::AmbiguousSelection(2))));
    assert_eq!(log.borrow().sent, vec![b"l\n".to_vec()]);
}

#[test]
fn select_by_name_no_match() {
    let (mut d, log) = device(&[LISTING]);
    assert!(matches!(d.select_chip_by_name("27C"), Err(DumperError::NoMatchingChip)));
    assert_eq!(log.borrow().sent, vec![b"l\n".to_vec()]);
}

#[test]
fn channel_failure_is_reported() {
    let log = Rc::new(RefCell::new(Log::default()));
    let script = Script {
        replies: vec![Err(()), Err(()), Err(())],
        next: 0,
        transfer: Ok(Vec::new()),
        log: log.clone(),
    };
    let mut d = Promdate::new(script);
    assert!(matches!(d.is_present(), Err(DumperError::ChannelIoError)));
    assert!(matches!(d.list_supported(), Err(DumperError::ChannelIoError)));
    assert!(matches!(d.select_chip_by_name("A"), Err(DumperError::ChannelIoError)));
}

#[test]
fn dump_restores_timeout() {
    let log = Rc::new(RefCell::new(Log::default()));
    let script = Script {
        replies: Vec::new(),
        next: 0,
        transfer: Ok(vec![1, 2, 3]),
        log: log.clone(),
    };
    let mut d = Promdate::new(script);
    let mut out = Vec::new();
    assert_eq!(d.dump_chip(&mut out).unwrap(), 3);
    assert_eq!(out, vec![1, 2, 3]);
    assert_eq!(
        log.borrow().timeouts,
        vec![LINE_TIMEOUT_MS, TRANSFER_TIMEOUT_MS, LINE_TIMEOUT_MS]
    );
}

#[test]
fn dump_failure_restores_timeout() {
    let log = Rc::new(RefCell::new(Log::default()));
    let script = Script { replies: Vec::new(), next: 0, transfer: Err(()), log: log.clone() };
    let mut d = Promdate::new(script);
    let mut out = Vec::new();
    assert!(matches!(d.dump_chip(&mut out), Err(DumperError::TransferFailed)));
    assert_eq!(log.borrow().timeouts.last(), Some(&LINE_TIMEOUT_MS));
    assert_eq!(log.borrow().timeouts.len(), 3);
}

#[test]
fn default_port() {
    assert_eq!(default_port_name(), "/dev/ttyACM0");
}

#[test]
fn trimming_matches_std() {
    for s in ["", "  ", " a b ", "\t\r\nX25\u{3000}", "x", "\u{85}y\u{a0}"] {
        assert_eq!(trim_text(s), s.trim());
    }
}

#[test]
fn u32_text_matches_std() {
    for s in ["0", "+0", "+", "-", "-1", "", "4294967295", "4294967296", "00012", "1a", " 1", "99999999999"] {
        assert_eq!(is_u32(s), s.parse::<u32>().is_ok(), "{}", s);
    }
}
