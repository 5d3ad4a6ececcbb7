use railchain::broadcaster::program::{count_replies_fm2, create_messages, Kind};

#[test]
fn count_replies_of_example_program() {
    let program = vec![
        Kind::Normal,
        Kind::Skip { to: 1 },
        Kind::Corrupt { value: "bad".to_string(), to: 2 },
        Kind::Additional { to: 3, n: 1 },
    ];
    assert_eq!(count_replies_fm2(&program), 1 + 1 + 2 + 2);
}

#[test]
fn additional_sends_extras_first() {
    let msgs = create_messages(false, 7, "payload0".to_string(), 4, Kind::Additional { to: 3, n: 2 });
    assert_eq!(msgs.len(), 6);
    assert_eq!(msgs[0].destination, 3);
    assert_eq!(msgs[0].payload, "payload0extra0");
    assert_eq!(msgs[1].payload, "payload0extra1");
    assert_eq!(msgs[2].destination, 0);
    assert_eq!(msgs[2].payload, "payload0");
    assert_eq!(msgs[5].destination, 3);
    assert!(msgs.iter().all(|m| m.source == 0 && m.sequence == 7));
}

use railchain::application::request_generator::{make_apayload, make_cpayload, make_payload, requests_for_step, runs_step, step_at, Options};
use railchain::broadcaster::bench::{request_payload, vc_payload, vc_targets, view_change_step, BenchStep};
use railchain::broadcaster::program::{append_decimal, create_program, default_n};

#[test]
fn skip_and_corrupt_steps() {
    let msgs = create_messages(false, 1, "p".to_string(), 4, Kind::Skip { to: 1 });
    let dests: Vec<u64> = msgs.iter().map(|m| m.destination).collect();
    assert_eq!(dests, vec![0, 2, 3]);
    let msgs = create_messages(true, 1, "p".to_string(), 4, Kind::Corrupt { value: "bad".to_string(), to: 2 });
    assert_eq!(msgs.len(), 4);
    assert_eq!(msgs[2].payload, "bad");
    assert_eq!(msgs[3].payload, "p");
    assert!(msgs.iter().all(|m| m.source == m.destination));
    let msgs = create_messages(false, 1, "p".to_string(), 4, Kind::Skip { to: 9 });
    assert_eq!(msgs.len(), 4);
}

#[test]
fn fm2_extras_come_from_their_target() {
    let msgs = create_messages(true, 3, "x".to_string(), 2, Kind::Additional { to: 1, n: 1 });
    assert_eq!(msgs.len(), 3);
    assert_eq!((msgs[0].source, msgs[0].destination), (1, 1));
    assert_eq!(msgs[0].payload, "xextra0");
    assert_eq!((msgs[1].source, msgs[2].source), (0, 1));
}

#[test]
fn program_steps_are_numbered() {
    let program = vec![Kind::Normal, Kind::Skip { to: 0 }];
    let payloads = vec!["a".to_string(), "b".to_string()];
    let steps = create_program(true, program, payloads, 4);
    assert_eq!(steps.len(), 2);
    assert!(steps[0].iter().all(|m| m.sequence == 0 && m.payload == "a"));
    assert_eq!(steps[1].len(), 3);
    assert!(steps[1].iter().all(|m| m.sequence == 1 && m.payload == "b"));
    assert_eq!(default_n(), 1);
    assert_eq!(Kind::Additional { to: 0, n: 4 }.expected_fm2(), 5);
}

#[test]
fn decimal_text() {
    let mut s = "n=".to_string();
    append_decimal(&mut s, 0);
    append_decimal(&mut s, 1234567890);
    assert_eq!(s, "n=01234567890");
    let mut t = String::new();
    append_decimal(&mut t, u64::MAX);
    assert_eq!(t, u64::MAX.to_string());
}

#[test]
fn generated_payloads() {
    let p = make_payload(0x0102030405060708, 4);
    assert_eq!(p.len(), 16);
    assert_eq!(&p[..8], &[1, 2, 3, 4, 5, 6, 7, 8]);
    assert_eq!(&p[8..], &[1, 2, 3, 4, 5, 6, 7, 8]);
    let a = make_apayload(1, 20, 0x0a0b);
    assert_eq!(a.len(), 20);
    assert_eq!(&a[..8], &1u64.to_be_bytes());
    assert_eq!(&a[8..16], &0x0a0bu64.to_be_bytes());
    assert_eq!(&a[16..], &1u64.to_be_bytes()[..4]);
    let c = make_cpayload(1, 16);
    assert_eq!(&c[..8], &1u64.to_le_bytes());
}

#[test]
fn generator_requests_per_replica() {
    let normal = requests_for_step(&Kind::Normal, 5, 2, 2, 16);
    assert_eq!(normal.len(), 1);
    assert_eq!((normal[0].source, normal[0].destination, normal[0].sequence), (2, 2, 5));
    assert!(!normal[0].fresh_sequence);
    assert!(requests_for_step(&Kind::Skip { to: 2 }, 5, 2, 2, 16).is_empty());
    assert_eq!(requests_for_step(&Kind::Skip { to: 1 }, 5, 2, 2, 16).len(), 1);
    assert!(requests_for_step(&Kind::Corrupt { value: String::new(), to: 1 }, 5, 2, 100, 16).is_empty());
    let c = requests_for_step(&Kind::Corrupt { value: String::new(), to: 2 }, 5, 2, 100, 16);
    assert_eq!(c[0].payload, make_cpayload(5, 16));
    let extra = requests_for_step(&Kind::Additional { to: 2, n: 2 }, 5, 2, 2, 16);
    assert_eq!(extra.len(), 3);
    assert!(extra[0].fresh_sequence && extra[1].fresh_sequence && !extra[2].fresh_sequence);
    assert_eq!(extra[1].payload, make_apayload(5, 16, 1));
    assert_eq!(requests_for_step(&Kind::Additional { to: 3, n: 2 }, 5, 2, 2, 16).len(), 1);

    let program = vec![Kind::Normal, Kind::Skip { to: 0 }];
    assert!(matches!(step_at(&program, 3), Kind::Skip { to: 0 }));
    let options = Options::default();
    assert_eq!(options.interval, 64);
    assert_eq!(options.program, "rc-broadcaster/programs/single.ron");
    assert!(runs_step(&options, 1_000_000));
    let limited = Options { request_limit: 2, ..Options::default() };
    assert!(runs_step(&limited, 1));
    assert!(!runs_step(&limited, 2));
    assert_eq!(limited.source(7), 7);
    let other = Options { source_is_me: false, ..Options::default() };
    assert_eq!(other.source(7), 100);
}

#[test]
fn benchmark_requests() {
    let p = request_payload(0x0102, 10);
    assert_eq!(p, vec![2, 1, 0, 0, 0, 0, 0, 0, 1, 1]);
    let v = vc_payload(3);
    assert_eq!(v.len(), 100);
    assert_eq!(v[0], 3);
    assert!(v[8..].iter().all(|&b| b == 0));
    assert_eq!(vc_targets(1), vec![0, 2, 3]);
    assert_eq!(vc_targets(7), vec![0, 1, 2, 3]);

    let mut primary = 3;
    assert!(matches!(view_change_step(0, 5, 2, &mut primary), BenchStep::ViewChange { sequence: 5, primary: 3 }));
    assert_eq!(primary, 0);
    assert!(matches!(view_change_step(1, 5, 2, &mut primary), BenchStep::Normal { sequence: 6 }));
    assert_eq!(primary, 0);
}

use railchain::broadcaster::replies::{ReplyStep, ReplyTracker, Settled};

#[test]
fn replies_settle_in_order() {
    let mut t: ReplyTracker<u8> = ReplyTracker::new(2);
    for _ in 0..3 {
        assert!(matches!(t.record(1, 7), ReplyStep::Wait));
    }
    for _ in 0..3 {
        assert!(matches!(t.record(0, 5), ReplyStep::Wait));
    }
    assert!(matches!(t.record(0, 5), ReplyStep::Check(0)));
    assert_eq!(t.replies(0), &[5, 5, 5, 5]);
    assert!(matches!(t.settle(true), Settled::Continue));
    assert!(matches!(t.record(1, 9), ReplyStep::Check(1)));
    assert!(matches!(t.settle(false), Settled::Bad(1)));
    assert!(matches!(t.settle(true), Settled::Done));
}
