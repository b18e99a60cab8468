use echo_server::burst::{rearm_after_write, Burst, DrainStep, ReadOutcome, GROW};

#[test]
fn ping_is_echoed_then_close_is_quiet() {
    let mut b = Burst::new();
    assert_eq!(b.on_read(ReadOutcome::Bytes(b"ping".to_vec())), DrainStep::ReadAgain);
    assert_eq!(b.on_read(ReadOutcome::WouldBlock), DrainStep::Done);
    assert_eq!(b.echo(), Some(b"ping".to_vec()));
    assert!(!b.closed());
    assert!(rearm_after_write(4, Some(4)));

    let mut next = Burst::new();
    assert_eq!(next.on_read(ReadOutcome::Bytes(Vec::new())), DrainStep::Done);
    assert!(next.closed());
    assert_eq!(next.echo(), None);
}

#[test]
fn close_without_data_writes_nothing() {
    let mut b = Burst::new();
    assert_eq!(b.on_read(ReadOutcome::Bytes(Vec::new())), DrainStep::Done);
    assert!(b.closed());
    assert_eq!(b.len(), 0);
    assert_eq!(b.echo(), None);
}

#[test]
fn data_then_close_in_one_burst_is_not_echoed() {
    let mut b = Burst::new();
    b.on_read(ReadOutcome::Bytes(b"bye".to_vec()));
    assert_eq!(b.on_read(ReadOutcome::Bytes(Vec::new())), DrainStep::Done);
    assert_eq!(b.len(), 3);
    assert_eq!(b.echo(), None);
}

#[test]
fn five_thousand_bytes_grow_the_buffer() {
    let data: Vec<u8> = (0..5000u32).map(|i| (i % 251) as u8).collect();
    let mut b = Burst::new();
    assert_eq!(b.capacity(), GROW);
    let mut at = 0;
    while at < data.len() {
        let n = b.spare().min(data.len() - at);
        assert_eq!(b.on_read(ReadOutcome::Bytes(data[at..at + n].to_vec())), DrainStep::ReadAgain);
        at += n;
    }
    assert_eq!(b.on_read(ReadOutcome::WouldBlock), DrainStep::Done);
    assert!(b.capacity() > GROW);
    assert_eq!(b.capacity(), 2 * GROW);
    assert_eq!(b.echo(), Some(data));
}

#[test]
fn buffer_grows_exactly_when_full() {
    let mut b = Burst::new();
    b.on_read(ReadOutcome::Bytes(vec![7; GROW - 1]));
    assert_eq!(b.capacity(), GROW);
    assert_eq!(b.spare(), 1);
    b.on_read(ReadOutcome::Bytes(vec![8]));
    assert_eq!(b.capacity(), 2 * GROW);
    assert_eq!(b.spare(), GROW);
    assert_eq!(b.len(), GROW);
}

#[test]
fn read_signals() {
    let mut b = Burst::new();
    b.on_read(ReadOutcome::Bytes(b"ab".to_vec()));
    assert_eq!(b.on_read(ReadOutcome::Interrupted), DrainStep::ReadAgain);
    b.on_read(ReadOutcome::Bytes(b"cd".to_vec()));
    assert_eq!(b.on_read(ReadOutcome::Failed), DrainStep::Fatal);
    assert_eq!(b.echo(), Some(b"abcd".to_vec()));
}

#[test]
fn short_or_failed_write_is_not_rearmed() {
    assert!(!rearm_after_write(10, Some(3)));
    assert!(!rearm_after_write(10, None));
    assert!(rearm_after_write(10, Some(10)));
}
