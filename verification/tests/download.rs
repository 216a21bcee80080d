use tubegrab::download::{
    add_tasks, apply_progress, cancel_task, fail_task, finish_download, get_tasks, load_persisted,
    pump, remove_task, retry_task, CancelOutcome, DownloadState, NewTaskInput, ProgressEvent, Task,
    TaskStatus,
};
use tubegrab::error::ApiError;

fn input(url: &str) -> NewTaskInput {
    NewTaskInput {
        url: url.to_string(),
        title: format!("title of {url}"),
        thumbnail: None,
        format: "mp4-1080".to_string(),
    }
}

fn statuses(s: &DownloadState) -> Vec<TaskStatus> {
    get_tasks(s).iter().map(|t| t.status).collect()
}

fn task(id: u64, status: TaskStatus) -> Task {
    Task {
        id,
        url: format!("https://v/{id}"),
        title: String::new(),
        thumbnail: None,
        format: "mp3".to_string(),
        status,
        error: None,
        filepath: None,
    }
}

#[test]
fn add_tasks_assigns_fresh_ids() {
    let mut s = DownloadState::new();
    let created = add_tasks(&mut s, vec![input(" https://a "), input("https://b")]).ok().unwrap();
    assert_eq!(created.len(), 2);
    assert_eq!(created[0].id, 0);
    assert_eq!(created[1].id, 1);
    assert_eq!(created[0].url, "https://a");
    assert_eq!(created[0].status, TaskStatus::Queued);
    let more = add_tasks(&mut s, vec![input("https://c")]).ok().unwrap();
    assert_eq!(more[0].id, 2);
    assert_eq!(get_tasks(&s).len(), 3);
}

#[test]
fn add_tasks_stops_at_refused_url() {
    let mut s = DownloadState::new();
    let e: ApiError = add_tasks(&mut s, vec![input("https://a"), input("nope"), input("https://c")])
        .err()
        .unwrap();
    assert_eq!(e.kind, "invalid_url");
    let ts = get_tasks(&s);
    assert_eq!(ts.len(), 1);
    assert_eq!(ts[0].url, "https://a");
    let next = add_tasks(&mut s, vec![input("https://d")]).ok().unwrap();
    assert_eq!(next[0].id, 1);
}

#[test]
fn pump_starts_up_to_concurrency() {
    let mut s = DownloadState::new();
    add_tasks(&mut s, vec![input("https://a"), input("https://b"), input("https://c")]).ok().unwrap();
    let started = pump(&mut s, 2);
    assert_eq!(started.iter().map(|t| t.id).collect::<Vec<_>>(), vec![0, 1]);
    assert_eq!(statuses(&s), vec![TaskStatus::Downloading, TaskStatus::Downloading, TaskStatus::Queued]);
    assert!(pump(&mut s, 2).is_empty());
    finish_download(&mut s, 0, Ok(Some("/x.mp4".to_string()))).unwrap();
    let started = pump(&mut s, 2);
    assert_eq!(started.len(), 1);
    assert_eq!(started[0].id, 2);
    assert!(pump(&mut s, 0).is_empty());
}

#[test]
fn cancel_running_and_queued() {
    let mut s = DownloadState::new();
    add_tasks(&mut s, vec![input("https://a"), input("https://b")]).ok().unwrap();
    pump(&mut s, 1);
    assert!(matches!(cancel_task(&mut s, 0), CancelOutcome::StopRunning));
    // the running download ends as canceled once it stops
    assert!(remove_task(&mut s, 0).is_ok());
    match cancel_task(&mut s, 1) {
        CancelOutcome::Canceled(t) => assert_eq!(t.status, TaskStatus::Canceled),
        _ => panic!("expected a canceled task"),
    }
    assert!(matches!(cancel_task(&mut s, 1), CancelOutcome::Unchanged));
    assert!(matches!(cancel_task(&mut s, 99), CancelOutcome::Unchanged));
}

#[test]
fn remove_refused_while_running() {
    let mut s = DownloadState::new();
    add_tasks(&mut s, vec![input("https://a")]).ok().unwrap();
    pump(&mut s, 1);
    let e = remove_task(&mut s, 0).unwrap_err();
    assert_eq!(e.kind, "internal");
    assert_eq!(e.message, "任务进行中，请先取消");
    assert_eq!(get_tasks(&s).len(), 1);
    finish_download(&mut s, 0, Ok(None));
    assert!(remove_task(&mut s, 0).is_ok());
    assert!(get_tasks(&s).is_empty());
}

#[test]
fn retry_only_failed_or_canceled() {
    let mut s = DownloadState::new();
    add_tasks(&mut s, vec![input("https://a")]).ok().unwrap();
    let e = retry_task(&mut s, 0).err().unwrap();
    assert_eq!(e.message, "仅失败或已取消的任务可重试");
    let e = retry_task(&mut s, 7).err().unwrap();
    assert_eq!(e.message, "任务不存在");
    pump(&mut s, 1);
    let t = finish_download(&mut s, 0, Err(ApiError::network("down"))).unwrap();
    assert_eq!(t.status, TaskStatus::Failed);
    assert_eq!(t.error.as_deref(), Some("down"));
    let t = retry_task(&mut s, 0).ok().unwrap();
    assert_eq!(t.status, TaskStatus::Queued);
    assert_eq!(t.error, None);
    let started = pump(&mut s, 1);
    assert_eq!(started[0].error, None);
}

#[test]
fn progress_and_completion() {
    let mut s = DownloadState::new();
    add_tasks(&mut s, vec![input("https://a")]).ok().unwrap();
    pump(&mut s, 3);
    let t = apply_progress(&mut s, 0, ProgressEvent::Finished).unwrap();
    assert_eq!(t.status, TaskStatus::Merging);
    let t = apply_progress(&mut s, 0, ProgressEvent::Downloading).unwrap();
    assert_eq!(t.status, TaskStatus::Downloading);
    let t = apply_progress(&mut s, 0, ProgressEvent::Other).unwrap();
    assert_eq!(t.status, TaskStatus::Downloading);
    assert!(apply_progress(&mut s, 5, ProgressEvent::Finished).is_none());
    let t = finish_download(&mut s, 0, Ok(Some(String::new()))).unwrap();
    assert_eq!(t.status, TaskStatus::Done);
    assert_eq!(t.filepath, None);
    let t = finish_download(&mut s, 0, Ok(Some("/f".to_string()))).unwrap();
    assert_eq!(t.filepath.as_deref(), Some("/f"));
    assert!(finish_download(&mut s, 9, Ok(None)).is_none());
}

#[test]
fn fail_before_start() {
    let mut s = DownloadState::new();
    add_tasks(&mut s, vec![input("https://a")]).ok().unwrap();
    pump(&mut s, 1);
    let t = fail_task(&mut s, 0, "[internal] no settings").unwrap();
    assert_eq!(t.status, TaskStatus::Failed);
    assert_eq!(t.error.as_deref(), Some("[internal] no settings"));
    assert!(remove_task(&mut s, 0).is_ok());
}

#[test]
fn restart_requeues_unfinished() {
    let mut s = DownloadState::new();
    load_persisted(
        &mut s,
        vec![
            task(4, TaskStatus::Downloading),
            task(9, TaskStatus::Merging),
            task(2, TaskStatus::Done),
            task(3, TaskStatus::Failed),
        ],
    );
    assert_eq!(
        statuses(&s),
        vec![TaskStatus::Queued, TaskStatus::Queued, TaskStatus::Done, TaskStatus::Failed]
    );
    let created = add_tasks(&mut s, vec![input("https://n")]).ok().unwrap();
    assert_eq!(created[0].id, 10);
    let mut empty = DownloadState::new();
    load_persisted(&mut empty, vec![]);
    assert_eq!(add_tasks(&mut empty, vec![input("https://n")]).ok().unwrap()[0].id, 1);
}

#[test]
fn default_state_is_empty() {
    let s = DownloadState::default();
    assert!(get_tasks(&s).is_empty());
}

#[test]
fn ids_stay_distinct_and_running_tasks_stay_under_way() {
    let mut s = DownloadState::new();
    add_tasks(&mut s, vec![input("https://a"), input("https://b"), input("https://c")]).ok().unwrap();
    pump(&mut s, 2);
    cancel_task(&mut s, 2);
    remove_task(&mut s, 2).unwrap();
    add_tasks(&mut s, vec![input("https://d")]).ok().unwrap();
    apply_progress(&mut s, 1, ProgressEvent::Finished);
    let ts = get_tasks(&s);
    let mut ids: Vec<u64> = ts.iter().map(|t| t.id).collect();
    ids.sort();
    ids.dedup();
    assert_eq!(ids.len(), ts.len());
    assert_eq!(ids, vec![0, 1, 3]);
    // the running downloads 0 and 1 are under way, so neither can be removed
    assert_eq!(statuses(&s), vec![TaskStatus::Downloading, TaskStatus::Merging, TaskStatus::Queued]);
    assert!(remove_task(&mut s, 0).is_err());
    assert!(remove_task(&mut s, 1).is_err());
    fail_task(&mut s, 0, "boom");
    assert!(remove_task(&mut s, 0).is_ok());
}

#[test]
fn a_download_run_stays_under_way_until_it_ends() {
    let mut s = DownloadState::new();
    add_tasks(&mut s, vec![input("https://a")]).ok().unwrap();
    pump(&mut s, 1);
    let evs = [ProgressEvent::Downloading, ProgressEvent::Other, ProgressEvent::Finished, ProgressEvent::Downloading, ProgressEvent::Finished];
    for ev in evs {
        let t = apply_progress(&mut s, 0, ev).unwrap();
        assert!(t.status == TaskStatus::Downloading || t.status == TaskStatus::Merging);
        assert_eq!(t.id, 0);
    }
    let t = finish_download(&mut s, 0, Err(ApiError::internal("x"))).unwrap();
    assert_eq!(t.status, TaskStatus::Failed);
}
