use localhost::event_loop::{
    failure_message, idle, interest, reading, tasks, wait_failed, would_block, writing, EventLoop, FdKind,
    Task, CGI_TIMEOUT_SECS, CLIENT_TIMEOUT_SECS, MAX_EVENTS, TIMEOUT_MS,
};

#[test]
fn limits() {
    assert_eq!(MAX_EVENTS, 256);
    assert_eq!(TIMEOUT_MS, 1000);
    assert_eq!(CLIENT_TIMEOUT_SECS, 30);
    assert_eq!(CGI_TIMEOUT_SECS, 10);
}

#[test]
fn numbers_of_the_system() {
    assert_eq!(reading(), libc::EPOLLIN as u32);
    assert_eq!(writing(), libc::EPOLLOUT as u32);
    assert!(would_block(libc::EAGAIN));
    assert!(would_block(libc::EWOULDBLOCK));
    assert!(!would_block(libc::EINTR));
    assert_eq!(wait_failed(libc::EINTR), None);
    assert_eq!(wait_failed(9), Some("epoll_wait error: errno 9".to_string()));
}

#[test]
fn events_become_tasks() {
    let (i, o) = (libc::EPOLLIN as u32, libc::EPOLLOUT as u32);
    let (e, h) = (libc::EPOLLERR as u32, libc::EPOLLHUP as u32);
    assert_eq!(tasks(FdKind::Listener(80), i), vec![Task::Accept(80)]);
    assert_eq!(
        tasks(FdKind::Client, i | o | h),
        vec![Task::ReadClient, Task::WriteClient, Task::DropClient]
    );
    assert_eq!(tasks(FdKind::Client, e), vec![Task::DropClient]);
    assert_eq!(tasks(FdKind::Client, 0), vec![]);
    assert_eq!(tasks(FdKind::CgiStdout(7), h), vec![Task::ReadScript(7)]);
    assert_eq!(tasks(FdKind::CgiStdout(7), o), vec![]);
    assert_eq!(
        tasks(FdKind::CgiStdin(7), o | e),
        vec![Task::FeedScript(7), Task::DropInput(7)]
    );
    assert_eq!(interest(FdKind::CgiStdin(7)), o);
    assert_eq!(interest(FdKind::CgiStdout(7)), i);
    assert_eq!(interest(FdKind::Client), i);
}

#[test]
fn descriptors_are_noted() {
    let mut el = EventLoop::new(Ok(3)).unwrap();
    assert_eq!(el.epfd, 3);
    el.add_listener(4, 80, Ok(())).unwrap();
    el.add_client(5, Ok(())).unwrap();
    el.add_cgi_stdout(6, 5, Ok(())).unwrap();
    el.add_cgi_stdin(7, 5, Ok(())).unwrap();
    assert_eq!(el.kind_of(4), Some(FdKind::Listener(80)));
    assert_eq!(el.kind_of(5), Some(FdKind::Client));
    assert_eq!(el.kind_of(6), Some(FdKind::CgiStdout(5)));
    assert_eq!(el.kind_of(7), Some(FdKind::CgiStdin(5)));
    el.remove(5);
    assert_eq!(el.kind_of(5), None);
    assert_eq!(el.fd_map.len(), 3);
}

#[test]
fn failures_are_reported() {
    assert_eq!(
        EventLoop::new(Err(24)).err().unwrap(),
        "epoll_create1 failed: errno 24"
    );
    let mut el = EventLoop::new(Ok(3)).unwrap();
    assert_eq!(
        el.add_client(5, Err(9)).unwrap_err(),
        "epoll_ctl ADD failed for fd 5: errno 9"
    );
    assert!(el.kind_of(5).is_none());
    assert_eq!(
        el.set_writable(5, Err(2)).unwrap_err(),
        "epoll_ctl MOD failed for fd 5: errno 2"
    );
    assert!(el.set_readable(5, Ok(())).is_ok());
    assert!(el.set_idle(5, Ok(())).is_ok());
    assert!(el.set_idle(5, Err(2)).is_err());
    assert_eq!(idle(), 0);
    assert_eq!(
        failure_message("fcntl F_GETFL failed", 1),
        "fcntl F_GETFL failed: errno 1"
    );
}
