use vidcompress::dispatch::{Dispatcher, JobStatus};
use vidcompress::invoke::Outcome;
use vidcompress::job::{ConfigError, Job};
use vidcompress::scale::parse_scale;

fn names(n: usize) -> Vec<String> {
    (0..n).map(|i| format!("v{}.mov", i)).collect()
}

/// Runs `workers` simulated workers in lock step: in each round every worker
/// that holds no item takes one, then the workers in `finish_order` record
/// their outcome. `fail` decides the outcome of each item.
fn simulate(d: &mut Dispatcher, workers: usize, fail: &dyn Fn(usize) -> Option<Outcome>) -> Vec<usize> {
    let mut holding: Vec<Option<usize>> = vec![None; workers];
    let mut handed: Vec<usize> = Vec::new();
    let mut round = 0usize;
    loop {
        let mut any = false;
        for w in 0..workers {
            if holding[w].is_none() {
                if let Some((i, _)) = d.take() {
                    handed.push(i);
                    holding[w] = Some(i);
                }
            }
            any |= holding[w].is_some();
        }
        if !any {
            break;
        }
        // adversarial order: reverse every other round, and let one worker lag
        let order: Vec<usize> = if round % 2 == 0 { (0..workers).collect() } else { (0..workers).rev().collect() };
        for (pos, w) in order.into_iter().enumerate() {
            if pos == 0 && round % 3 == 1 {
                continue;
            }
            if let Some(i) = holding[w].take() {
                assert!(d.is_in_flight(i));
                d.complete(i, fail(i).unwrap_or(Outcome::Success));
                assert!(!d.is_in_flight(i));
            }
        }
        round += 1;
    }
    handed
}

#[test]
fn every_item_recorded_exactly_once() {
    for k in 1..12usize {
        for w in 1..=k {
            let mut d = Dispatcher::new(names(k));
            let handed = simulate(&mut d, w, &|_| None);
            assert_eq!(d.completed(), k);
            assert!(d.all_recorded());
            let mut sorted = handed.clone();
            sorted.sort();
            assert_eq!(sorted, (0..k).collect::<Vec<_>>());
            let r = d.finish(5);
            let mut seen: Vec<usize> = r.records.iter().map(|x| x.index).collect();
            seen.sort();
            assert_eq!(seen, (0..k).collect::<Vec<_>>());
            assert_eq!((r.total, r.successes, r.failures), (k, k, 0));
        }
    }
}

#[test]
fn queue_never_hands_out_an_item_twice() {
    let mut d = Dispatcher::new(names(5));
    let mut got = Vec::new();
    while let Some((i, s)) = d.take() {
        assert_eq!(s, format!("v{}.mov", i));
        got.push(i);
    }
    assert_eq!(got, vec![0, 1, 2, 3, 4]);
    assert!(d.take().is_none());
    assert!(d.take().is_none());
}

#[test]
fn one_tool_failure_among_ten() {
    let mut d = Dispatcher::new(names(10));
    simulate(&mut d, 3, &|i| if i == 4 { Some(Outcome::ToolFailed("item 4: invalid data".to_string())) } else { None });
    let r = d.finish(1234);
    assert_eq!((r.total, r.successes, r.failures), (10, 9, 1));
    assert_eq!(r.elapsed_ms, 1234);
    let failed: Vec<_> = r.records.iter().filter(|x| x.outcome != Outcome::Success).collect();
    assert_eq!(failed.len(), 1);
    assert_eq!(failed[0].index, 4);
    assert_eq!(failed[0].outcome, Outcome::ToolFailed("item 4: invalid data".to_string()));
    assert_eq!(r.inputs[4], "v4.mov");
    assert_eq!(r.status(), JobStatus::CompletedWithFailures(1));
    assert_eq!(r.failed_items(), vec![4]);
}

#[test]
fn all_launches_failing_is_systemic() {
    let mut d = Dispatcher::new(names(4));
    simulate(&mut d, 2, &|_| Some(Outcome::LaunchFailed("not found".to_string())));
    let r = d.finish(0);
    assert_eq!(r.status(), JobStatus::ToolUnavailable);
}

#[test]
fn mixed_failures_are_not_systemic() {
    let mut d = Dispatcher::new(names(3));
    simulate(&mut d, 2, &|i| if i == 0 { Some(Outcome::LaunchFailed("x".to_string())) } else { Some(Outcome::InvalidPath) });
    let r = d.finish(0);
    assert_eq!((r.successes, r.failures), (0, 3));
    assert_eq!(r.status(), JobStatus::CompletedWithFailures(3));
}

#[test]
fn full_success_status() {
    let mut d = Dispatcher::new(names(2));
    simulate(&mut d, 1, &|_| None);
    assert_eq!(d.finish(0).status(), JobStatus::AllSucceeded);
}

#[test]
fn job_standard_parameters() {
    let j = Job::new(vec!["a.mov".to_string()]);
    assert_eq!(j.num_workers, 2);
    assert_eq!(j.format, "mp4");
    assert_eq!(j.scale.text(), "0.75");
    assert_eq!(j.compression, 23);
    assert_eq!(j.filenames, vec!["a.mov".to_string()]);
    let d = Job::default();
    assert!(d.filenames.is_empty());
    assert_eq!((d.num_workers, d.compression), (2, 23));
}

#[test]
fn empty_job_is_refused_before_any_work() {
    let j = Job::new(vec![]);
    assert_eq!(j.validate(&vec![]), Err(ConfigError::EmptyInputs));
    assert!(matches!(j.start(&vec![]), Err(ConfigError::EmptyInputs)));
}

#[test]
fn config_errors() {
    let mut j = Job::new(names(3));
    assert_eq!(j.validate(&vec![true, true, true]), Ok(()));
    assert_eq!(j.validate(&vec![true, false, false]), Err(ConfigError::MissingInput(1)));
    j.compression = 52;
    assert_eq!(j.validate(&vec![true, true, true]), Err(ConfigError::CompressionOutOfRange));
    j.compression = 51;
    assert_eq!(j.validate(&vec![true, true, true]), Ok(()));
    j.num_workers = 0;
    assert_eq!(j.validate(&vec![true, true, true]), Err(ConfigError::NoWorkers));
}

#[test]
fn started_job_hands_out_its_inputs() {
    let mut j = Job::new(names(2));
    j.scale = parse_scale("0.5").unwrap();
    let mut d = j.start(&vec![true, true]).ok().unwrap();
    assert_eq!(d.total(), 2);
    assert_eq!(d.take().map(|x| x.1), Some("v0.mov".to_string()));
    let args = j.command_for("v0.mov").unwrap();
    assert_eq!(args[10], "scale=trunc(iw*0.5/2)*2:trunc(ih*0.5/2)*2");
    assert_eq!(args[11], "v0_compressed.mp4");
}

#[test]
fn input_without_stem_is_decided_invalid() {
    let j = Job::new(names(1));
    assert_eq!(j.command_for("clips/"), Err(Outcome::InvalidPath));
    assert!(j.command_for("clips/a.mov").is_ok());
}
