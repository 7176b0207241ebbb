use snd_review::progress::ProgressEpochs;

#[test]
fn stale_job_cannot_update_or_finish_the_new_one() {
    let mut p = ProgressEpochs::new();
    assert!(!p.is_active());
    let first = p.begin();
    let second = p.begin();
    assert_eq!((first, second), (1, 2));
    assert!(!p.accepts(first));
    assert!(p.accepts(second));
    p.finish(first);
    assert!(p.is_active());
    p.finish(second);
    assert!(!p.is_active());
}

#[test]
fn cancel_invalidates_the_running_job() {
    let mut p = ProgressEpochs::new();
    let job = p.begin();
    p.cancel();
    assert!(!p.is_active());
    assert!(!p.is_epoch(job));
    assert!(!p.accepts(job));
    let next = p.begin();
    assert_eq!(next, job + 2);
    assert!(p.is_epoch(next));
}
