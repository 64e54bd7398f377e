use snmp_walk::walk::{starts_with, BulkWalk, Varbind};

fn vb(name: &[u32], text: &str) -> Varbind {
    Varbind { name: name.to_vec(), text: text.to_string() }
}

const ROOT: [u32; 10] = [1, 3, 6, 1, 2, 1, 2, 2, 1, 2];

fn under(last: u32) -> Vec<u32> {
    let mut v = ROOT.to_vec();
    v.push(last);
    v
}

#[test]
fn starts_with_prefix() {
    assert!(starts_with(&[1, 3, 6, 1], &[1, 3]));
    assert!(starts_with(&[1, 3], &[1, 3]));
    assert!(starts_with(&[1, 3], &[]));
    assert!(!starts_with(&[1], &[1, 3]));
    assert!(!starts_with(&[1, 4, 6], &[1, 3]));
}

#[test]
fn new_walk_starts_at_root() {
    let w = BulkWalk::new(&ROOT);
    assert_eq!(w.request_oid(), &ROOT[..]);
    assert!(!w.is_finished());
    assert!(w.into_lines().is_empty());
}

#[test]
fn stops_at_first_name_outside() {
    let mut w = BulkWalk::new(&ROOT);
    let batch = vec![
        vb(&under(1), "a"),
        vb(&under(2), "b"),
        vb(&[1, 3, 6, 1, 2, 1, 2, 2, 1, 3, 1], "c"),
        vb(&under(3), "d"),
    ];
    assert_eq!(w.on_response(&batch), 2);
    assert!(w.is_finished());
    assert_eq!(w.request_oid(), &under(2)[..]);
    assert_eq!(w.into_lines(), vec!["a".to_string(), "b".to_string()]);
}

#[test]
fn goes_on_from_last_name_of_full_reply() {
    let mut w = BulkWalk::new(&ROOT);
    assert_eq!(w.on_response(&vec![vb(&under(1), "a"), vb(&under(2), "b")]), 2);
    assert!(!w.is_finished());
    assert_eq!(w.request_oid(), &under(2)[..]);
    assert_eq!(w.on_response(&vec![vb(&under(3), "c"), vb(&[1, 3, 6, 1, 2, 1, 2, 2, 1, 3], "x")]), 1);
    assert!(w.is_finished());
    assert_eq!(w.request_oid(), &under(3)[..]);
    assert_eq!(w.into_lines(), vec!["a".to_string(), "b".to_string(), "c".to_string()]);
}

#[test]
fn empty_reply_changes_nothing() {
    let mut w = BulkWalk::new(&ROOT);
    assert_eq!(w.on_response(&Vec::new()), 0);
    assert!(!w.is_finished());
    assert_eq!(w.request_oid(), &ROOT[..]);
    assert!(w.into_lines().is_empty());
}

#[test]
fn first_name_outside_ends_at_once() {
    let mut w = BulkWalk::new(&ROOT);
    assert_eq!(w.on_response(&vec![vb(&[1, 3], "short"), vb(&under(1), "a")]), 0);
    assert!(w.is_finished());
    assert_eq!(w.request_oid(), &ROOT[..]);
    assert!(w.into_lines().is_empty());
}

#[test]
fn filtered_keeps_every_name_inside() {
    let mut w = BulkWalk::new(&ROOT);
    let batch = vec![
        vb(&under(1), "a"),
        vb(&[1, 3, 6, 1, 2, 1, 2, 2, 1, 3, 1], "c"),
        vb(&under(7), "d"),
    ];
    assert_eq!(w.on_filtered_response(&batch), vec![0, 2]);
    assert!(!w.is_finished());
    assert_eq!(w.request_oid(), &under(7)[..]);
    assert!(w.into_lines().is_empty());
}

#[test]
fn filtered_ends_when_nothing_is_kept() {
    let mut w = BulkWalk::new(&ROOT);
    let batch = vec![vb(&[1, 3, 6, 1, 2, 1, 2, 2, 1, 3, 1], "c")];
    assert_eq!(w.on_filtered_response(&batch), Vec::<usize>::new());
    assert!(w.is_finished());
    assert_eq!(w.request_oid(), &ROOT[..]);
    let mut w = BulkWalk::new(&ROOT);
    assert_eq!(w.on_filtered_response(&Vec::new()), Vec::<usize>::new());
    assert!(w.is_finished());
}

#[test]
fn both_walks_agree_on_ordered_reply() {
    let batch = vec![
        vb(&under(1), "a"),
        vb(&under(2), "b"),
        vb(&[1, 3, 6, 1, 2, 1, 2, 2, 1, 3, 1], "c"),
        vb(&[1, 3, 6, 1, 2, 1, 2, 2, 1, 3, 2], "d"),
    ];
    let mut stopping = BulkWalk::new(&ROOT);
    let mut filtering = BulkWalk::new(&ROOT);
    let accepted = stopping.on_response(&batch);
    let kept = filtering.on_filtered_response(&batch);
    assert_eq!(kept, (0..accepted).collect::<Vec<usize>>());
    assert_eq!(stopping.request_oid(), filtering.request_oid());
}
