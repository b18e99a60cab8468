use echo_server::table::{next, AcceptOutcome, AcceptStep, ConnectionTable, Target, Token, SERVER_TOKEN};

#[test]
fn accepted_tokens_are_distinct_and_not_the_listener() {
    let mut t = ConnectionTable::new();
    let mut seen = Vec::new();
    for _ in 0..5 {
        match t.on_accept(AcceptOutcome::Accepted) {
            AcceptStep::Register(tok) => seen.push(tok.0),
            other => panic!("unexpected {:?}", other),
        }
    }
    assert_eq!(seen, vec![1, 2, 3, 4, 5]);
    assert!(!seen.contains(&SERVER_TOKEN));
    assert_eq!(t.len(), 5);
    assert_eq!(t.on_accept(AcceptOutcome::WouldBlock), AcceptStep::Stop);
    assert_eq!(t.on_accept(AcceptOutcome::Failed), AcceptStep::Fatal);
    assert_eq!(t.next_token(), Token(6));
}

#[test]
fn removed_tokens_are_not_reused() {
    let mut t = ConnectionTable::new();
    t.on_accept(AcceptOutcome::Accepted);
    t.on_accept(AcceptOutcome::Accepted);
    t.remove(Token(1));
    assert_eq!(t.target(Token(1)), Target::Unknown);
    assert_eq!(t.target(Token(2)), Target::Connection);
    assert_eq!(t.target(Token(SERVER_TOKEN)), Target::Listener);
    assert_eq!(t.on_accept(AcceptOutcome::Accepted), AcceptStep::Register(Token(3)));
    assert_eq!(t.len(), 2);
    t.remove(Token(9));
    assert_eq!(t.len(), 2);
}

#[test]
fn next_hands_out_and_advances() {
    let mut cur = Token(1);
    assert_eq!(next(&mut cur), Token(1));
    assert_eq!(next(&mut cur), Token(2));
    assert_eq!(cur, Token(3));
}
