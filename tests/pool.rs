use echo_server::pool::{job_of, worker_ids, Message, Teardown, TeardownStep};

#[test]
fn pool_of_k_starts_k_workers() {
    assert_eq!(worker_ids(4), vec![0, 1, 2, 3]);
    assert_eq!(worker_ids(1), vec![0]);
}

#[test]
fn teardown_terminates_then_joins_each_worker() {
    let mut t = Teardown::new(3);
    let mut steps = Vec::new();
    loop {
        let s = t.next_step();
        steps.push(s);
        if s == TeardownStep::Finished {
            break;
        }
    }
    assert_eq!(
        steps,
        vec![
            TeardownStep::SendTerminate,
            TeardownStep::SendTerminate,
            TeardownStep::SendTerminate,
            TeardownStep::Join(0),
            TeardownStep::Join(1),
            TeardownStep::Join(2),
            TeardownStep::Finished,
        ]
    );
    assert_eq!(t.next_step(), TeardownStep::Finished);
}

#[test]
fn worker_runs_jobs_and_exits_on_terminate() {
    assert_eq!(job_of(Message::NewJob(7)), Some(7));
    assert_eq!(job_of::<i32>(Message::Terminate), None);
}
