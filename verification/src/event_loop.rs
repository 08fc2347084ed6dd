//! The descriptors that the event loop watches, and what their events ask for.
//!
//! Events are level-triggered: one read or one write is done for every descriptor that is
//! reported, and what is left is reported again in the next round.

use crate::number;
use std::collections::HashMap;
use vstd::prelude::*;

verus! {

broadcast use vstd::std_specs::hash::group_hash_axioms;

/// Events that are taken in one round.
pub const MAX_EVENTS: usize = 256;

/// Milliseconds that a round waits for events.
pub const TIMEOUT_MS: i32 = 1000;

/// Seconds after which a silent client is dropped.
pub const CLIENT_TIMEOUT_SECS: u64 = 30;

/// Seconds after which a script is killed.
pub const CGI_TIMEOUT_SECS: u64 = 10;

// ---------------------------------------------------------------------------
// Types
// ---------------------------------------------------------------------------

/// What a watched descriptor is.
#[derive(Debug, PartialEq, Clone, Copy)]
pub enum FdKind {
    /// A listening socket on this port.
    Listener(u16),
    /// The socket of a client.
    Client,
    /// The output of the script that runs for this client.
    CgiStdout(i32),
    /// The input of the script that runs for this client.
    CgiStdin(i32),
}

/// What an event on a descriptor asks for.
#[derive(Debug, PartialEq, Clone, Copy)]
pub enum Task {
    /// Accept one connection on this port.
    Accept(u16),
    /// Read once from the client.
    ReadClient,
    /// Write once to the client.
    WriteClient,
    /// Drop the client.
    DropClient,
    /// Read once from the output of the script of this client.
    ReadScript(i32),
    /// Write once to the input of the script of this client.
    FeedScript(i32),
    /// Close the input of the script of this client.
    DropInput(i32),
}

/// The watched descriptors.
pub struct EventLoop {
    pub epfd: i32,
    pub fd_map: HashMap<i32, FdKind>,
}

// ---------------------------------------------------------------------------
// Model
// ---------------------------------------------------------------------------

/// There is something to read.
pub open spec fn is_readable(flags: u32) -> bool {
    flags & 0x1u32 != 0
}

/// There is room to write.
pub open spec fn is_writable(flags: u32) -> bool {
    flags & 0x4u32 != 0
}

/// The other end is gone, or there was an error.
pub open spec fn is_broken(flags: u32) -> bool {
    flags & (0x8u32 | 0x10u32) != 0
}

/// There is something to read, be it the end or an error.
pub open spec fn has_output(flags: u32) -> bool {
    flags & (0x1u32 | 0x10u32 | 0x8u32) != 0
}

/// One task, or none.
pub open spec fn task_if(condition: bool, task: Task) -> Seq<Task> {
    if condition {
        seq![task]
    } else {
        Seq::empty()
    }
}

/// What an event asks for, in this order.
pub open spec fn tasks_for(kind: FdKind, flags: u32) -> Seq<Task> {
    match kind {
        FdKind::Listener(port) => seq![Task::Accept(port)],
        FdKind::Client => task_if(is_readable(flags), Task::ReadClient) + task_if(
            is_writable(flags),
            Task::WriteClient,
        ) + task_if(is_broken(flags), Task::DropClient),
        FdKind::CgiStdout(client) => task_if(has_output(flags), Task::ReadScript(client)),
        FdKind::CgiStdin(client) => task_if(is_writable(flags), Task::FeedScript(client))
            + task_if(is_broken(flags), Task::DropInput(client)),
    }
}

/// The events for which a descriptor is first watched.
pub open spec fn first_interest(kind: FdKind) -> u32 {
    match kind {
        FdKind::CgiStdin(client) => 0x4,
        _ => 0x1,
    }
}

/// A failed call and its error number.
pub open spec fn failure(what: Seq<char>, errno: i32) -> Seq<char> {
    what + ": errno "@ + number::signed_decimal(errno as int)
}

/// A failed change of what is watched.
pub open spec fn watch_failure(operation: Seq<char>, fd: i32, errno: i32) -> Seq<char> {
    failure(
        "epoll_ctl "@ + operation + " failed for fd "@ + number::signed_decimal(fd as int),
        errno,
    )
}

/// A descriptor is noted if the system watches it; else nothing changes but that the failure is
/// reported.
pub open spec fn watch_noted(
    before: Map<i32, FdKind>,
    after: Map<i32, FdKind>,
    fd: i32,
    kind: FdKind,
    added: Result<(), i32>,
    r: Result<(), String>,
) -> bool {
    match added {
        Ok(_) => r is Ok && after == before.insert(fd, kind),
        Err(errno) => r is Err && r->Err_0@ == watch_failure("ADD"@, fd, errno) && after == before,
    }
}

/// A call on a descriptor that does not block has nothing to do yet.
pub open spec fn blocks(errno: i32) -> bool {
    errno == 11
}

// ---------------------------------------------------------------------------
// Constants of the system
// ---------------------------------------------------------------------------

/// `libc::EPOLLIN`, the event of a descriptor that can be read.
#[verifier::external_body]
fn epollin() -> (r: u32)
    ensures
        r == 0x1,
{
    libc::EPOLLIN as u32
}

/// `libc::EPOLLOUT`, the event of a descriptor that can be written.
#[verifier::external_body]
fn epollout() -> (r: u32)
    ensures
        r == 0x4,
{
    libc::EPOLLOUT as u32
}

/// `libc::EPOLLERR`, the event of a descriptor with an error.
#[verifier::external_body]
fn epollerr() -> (r: u32)
    ensures
        r == 0x8,
{
    libc::EPOLLERR as u32
}

/// `libc::EPOLLHUP`, the event of a descriptor whose other end is gone.
#[verifier::external_body]
fn epollhup() -> (r: u32)
    ensures
        r == 0x10,
{
    libc::EPOLLHUP as u32
}

/// `libc::EAGAIN`, the error number of a call that would block; on Linux it is eleven.
#[verifier::external_body]
fn eagain() -> (r: i32)
    ensures
        r == 11,
{
    libc::EAGAIN
}

/// `libc::EWOULDBLOCK`, which on Linux is the same number as `EAGAIN`, eleven.
#[verifier::external_body]
fn ewouldblock() -> (r: i32)
    ensures
        r == 11,
{
    libc::EWOULDBLOCK
}

/// `libc::EINTR`, the error number of a call that a signal interrupted; on Linux it is four.
#[verifier::external_body]
fn eintr() -> (r: i32)
    ensures
        r == 4,
{
    libc::EINTR
}

// ---------------------------------------------------------------------------
// Events
// ---------------------------------------------------------------------------

/// Whether a call on a descriptor that does not block has nothing to do yet.
pub fn would_block(errno: i32) -> (r: bool)
    ensures
        r == blocks(errno),
{
    errno == eagain() || errno == ewouldblock()
}

/// A failed call and its error number.
pub fn failure_message(what: &str, errno: i32) -> (r: String)
    ensures
        r@ == failure(what@, errno),
{
    let number = number::to_signed_decimal(errno);
    let mut message = what.to_owned();
    message.append(": errno ");
    message.append(number.as_str());
    message
}

/// What a failed wait for events means: an interrupted one is tried again, any other ends the
/// server with this message.
pub fn wait_failed(errno: i32) -> (r: Option<String>)
    ensures
        match r {
            Some(message) => errno != 4 && message@ == failure("epoll_wait error"@, errno),
            None => errno == 4,
        },
{
    if errno == eintr() {
        None
    } else {
        Some(failure_message("epoll_wait error", errno))
    }
}

/// What an event asks for, in this order.
pub fn tasks(kind: FdKind, flags: u32) -> (r: Vec<Task>)
    ensures
        r@ == tasks_for(kind, flags),
{
    let broken: u32 = epollerr() | epollhup();
    let output: u32 = epollin() | epollhup() | epollerr();
    let mut list: Vec<Task> = Vec::new();
    match kind {
        FdKind::Listener(port) => {
            list.push(Task::Accept(port));
        },
        FdKind::Client => {
            if flags & epollin() != 0 {
                list.push(Task::ReadClient);
            }
            if flags & epollout() != 0 {
                list.push(Task::WriteClient);
            }
            if flags & broken != 0 {
                list.push(Task::DropClient);
            }
        },
        FdKind::CgiStdout(client) => {
            if flags & output != 0 {
                list.push(Task::ReadScript(client));
            }
        },
        FdKind::CgiStdin(client) => {
            if flags & epollout() != 0 {
                list.push(Task::FeedScript(client));
            }
            if flags & broken != 0 {
                list.push(Task::DropInput(client));
            }
        },
    }
    assert(list@ =~= tasks_for(kind, flags));
    list
}

/// The events for which a descriptor is first watched.
pub fn interest(kind: FdKind) -> (r: u32)
    ensures
        r == first_interest(kind),
{
    match kind {
        FdKind::CgiStdin(_) => epollout(),
        _ => epollin(),
    }
}

/// The events for which a client is watched that is to send a request.
pub fn reading() -> (r: u32)
    ensures
        r == 0x1,
{
    epollin()
}

/// The events for which a client is watched that is to receive a response.
pub fn writing() -> (r: u32)
    ensures
        r == 0x4,
{
    epollout()
}

/// The events for which a client is watched while a script runs for it: none. Its end is reported
/// all the same.
pub fn idle() -> (r: u32)
    ensures
        r == 0,
{
    0
}

/// What became of a change of what is watched.
fn watched(operation: &str, fd: i32, done: Result<(), i32>) -> (r: Result<(), String>)
    ensures
        match done {
            Ok(_) => r is Ok,
            Err(errno) => r matches Err(m) && m@ == watch_failure(operation@, fd, errno),
        },
{
    match done {
        Ok(_) => Ok(()),
        Err(errno) => {
            let number = number::to_signed_decimal(fd);
            let mut what = "epoll_ctl ".to_owned();
            what.append(operation);
            what.append(" failed for fd ");
            what.append(number.as_str());
            Err(failure_message(what.as_str(), errno))
        },
    }
}

impl EventLoop {
    /// An event loop without descriptors, unless the system refused one.
    pub fn new(created: Result<i32, i32>) -> (r: Result<EventLoop, String>)
        ensures
            match created {
                Ok(epfd) => r matches Ok(el) && el.epfd == epfd && el.fd_map@ == Map::<
                    i32,
                    FdKind,
                >::empty(),
                Err(errno) => r matches Err(m) && m@ == failure("epoll_create1 failed"@, errno),
            },
    {
        match created {
            Ok(epfd) => Ok(EventLoop { epfd, fd_map: HashMap::new() }),
            Err(errno) => Err(failure_message("epoll_create1 failed", errno)),
        }
    }

    /// Notes a descriptor that the system was asked to watch.
    fn add_fd(&mut self, fd: i32, kind: FdKind, added: Result<(), i32>) -> (r: Result<(), String>)
        ensures
            final(self).epfd == old(self).epfd,
            watch_noted(
                old(self).fd_map@,
                final(self).fd_map@,
                fd,
                kind,
                added,
                r,
            ),
    {
        match watched("ADD", fd, added) {
            Ok(_) => {
                self.fd_map.insert(fd, kind);
                Ok(())
            },
            Err(message) => Err(message),
        }
    }

    /// Notes a listening socket that the system was asked to watch.
    pub fn add_listener(&mut self, fd: i32, port: u16, added: Result<(), i32>) -> (r: Result<
        (),
        String,
    >)
        ensures
            final(self).epfd == old(self).epfd,
            watch_noted(
                old(self).fd_map@,
                final(self).fd_map@,
                fd,
                FdKind::Listener(port),
                added,
                r,
            ),
    {
        self.add_fd(fd, FdKind::Listener(port), added)
    }

    /// Notes a client that the system was asked to watch.
    pub fn add_client(&mut self, fd: i32, added: Result<(), i32>) -> (r: Result<(), String>)
        ensures
            final(self).epfd == old(self).epfd,
            watch_noted(
                old(self).fd_map@,
                final(self).fd_map@,
                fd,
                FdKind::Client,
                added,
                r,
            ),
    {
        self.add_fd(fd, FdKind::Client, added)
    }

    /// Notes the output of a script that the system was asked to watch.
    pub fn add_cgi_stdout(&mut self, fd: i32, client_fd: i32, added: Result<(), i32>) -> (r: Result<
        (),
        String,
    >)
        ensures
            final(self).epfd == old(self).epfd,
            watch_noted(
                old(self).fd_map@,
                final(self).fd_map@,
                fd,
                FdKind::CgiStdout(client_fd),
                added,
                r,
            ),
    {
        self.add_fd(fd, FdKind::CgiStdout(client_fd), added)
    }

    /// Notes the input of a script that the system was asked to watch.
    pub fn add_cgi_stdin(&mut self, fd: i32, client_fd: i32, added: Result<(), i32>) -> (r: Result<
        (),
        String,
    >)
        ensures
            final(self).epfd == old(self).epfd,
            watch_noted(
                old(self).fd_map@,
                final(self).fd_map@,
                fd,
                FdKind::CgiStdin(client_fd),
                added,
                r,
            ),
    {
        self.add_fd(fd, FdKind::CgiStdin(client_fd), added)
    }

    /// What became of the wish to watch a client for room to write.
    pub fn set_writable(&self, fd: i32, changed: Result<(), i32>) -> (r: Result<(), String>)
        ensures
            match changed {
                Ok(_) => r is Ok,
                Err(errno) => r matches Err(m) && m@ == watch_failure("MOD"@, fd, errno),
            },
    {
        watched("MOD", fd, changed)
    }

    /// What became of the wish to watch a client for something to read.
    pub fn set_readable(&self, fd: i32, changed: Result<(), i32>) -> (r: Result<(), String>)
        ensures
            match changed {
                Ok(_) => r is Ok,
                Err(errno) => r matches Err(m) && m@ == watch_failure("MOD"@, fd, errno),
            },
    {
        watched("MOD", fd, changed)
    }

    /// What became of the wish to watch a client for nothing but its end.
    pub fn set_idle(&self, fd: i32, changed: Result<(), i32>) -> (r: Result<(), String>)
        ensures
            match changed {
                Ok(_) => r is Ok,
                Err(errno) => r matches Err(m) && m@ == watch_failure("MOD"@, fd, errno),
            },
    {
        watched("MOD", fd, changed)
    }

    /// Forgets a descriptor.
    pub fn remove(&mut self, fd: i32)
        ensures
            final(self).epfd == old(self).epfd,
            final(self).fd_map@ == old(self).fd_map@.remove(fd),
    {
        self.fd_map.remove(&fd);
    }

    /// What a descriptor is.
    pub fn kind_of(&self, fd: i32) -> (r: Option<FdKind>)
        ensures
            match r {
                Some(kind) => self.fd_map@.contains_key(fd) && self.fd_map@[fd] == kind,
                None => !self.fd_map@.contains_key(fd),
            },
    {
        match self.fd_map.get(&fd) {
            Some(kind) => Some(*kind),
            None => None,
        }
    }
}

// ---------------------------------------------------------------------------
// Laws
// ---------------------------------------------------------------------------

/// An event asks for nothing twice: at most one read and one write is done for it.
pub proof fn law_each_task_once(kind: FdKind, flags: u32)
    ensures
        tasks_for(kind, flags).no_duplicates(),
{
}

/// What can be read is read, what can be written is written, and what is broken is dropped, each of
/// them only then; a listener accepts.
pub proof fn law_events(flags: u32, port: u16, client: i32)
    ensures
        tasks_for(FdKind::Listener(port), flags) == seq![Task::Accept(port)],
        tasks_for(FdKind::Client, flags).contains(Task::ReadClient) <==> flags & 1 != 0,
        tasks_for(FdKind::Client, flags).contains(Task::WriteClient) <==> flags & 4 != 0,
        tasks_for(FdKind::Client, flags).contains(Task::DropClient) <==> flags & 0x18 != 0,
        tasks_for(FdKind::CgiStdout(client), flags).contains(Task::ReadScript(client)) <==> flags
            & 0x19 != 0,
        tasks_for(FdKind::CgiStdin(client), flags).contains(Task::FeedScript(client)) <==> flags
            & 4 != 0,
        tasks_for(FdKind::CgiStdin(client), flags).contains(Task::DropInput(client)) <==> flags
            & 0x18 != 0,
{
    assert(0x8u32 | 0x10u32 == 0x18u32) by (bit_vector);
    assert(0x1u32 | 0x10u32 | 0x8u32 == 0x19u32) by (bit_vector);
    lemma_tasks_of_client(flags);
    let out = tasks_for(FdKind::CgiStdout(client), flags);
    if has_output(flags) {
        assert(out[0] == Task::ReadScript(client));
    }
    let input = tasks_for(FdKind::CgiStdin(client), flags);
    if is_writable(flags) {
        assert(input[0] == Task::FeedScript(client));
    }
    if is_broken(flags) {
        assert(input[input.len() - 1] == Task::DropInput(client));
    }
}

proof fn lemma_tasks_of_client(flags: u32)
    ensures
        tasks_for(FdKind::Client, flags).contains(Task::ReadClient) <==> is_readable(flags),
        tasks_for(FdKind::Client, flags).contains(Task::WriteClient) <==> is_writable(flags),
        tasks_for(FdKind::Client, flags).contains(Task::DropClient) <==> is_broken(flags),
{
    let tasks = tasks_for(FdKind::Client, flags);
    if is_readable(flags) {
        assert(tasks[0] == Task::ReadClient);
    }
    if is_writable(flags) {
        assert(tasks[if is_readable(flags) { 1 } else { 0 }] == Task::WriteClient);
    }
    if is_broken(flags) {
        assert(tasks[tasks.len() - 1] == Task::DropClient);
    }
}

/// The input of a script is watched for room to write, everything else for something to read.
pub proof fn law_first_interest(port: u16, client: i32)
    ensures
        first_interest(FdKind::Listener(port)) == 1,
        first_interest(FdKind::Client) == 1,
        first_interest(FdKind::CgiStdout(client)) == 1,
        first_interest(FdKind::CgiStdin(client)) == 4,
{
}

/// A failure is told by what failed and the number of the error.
pub proof fn law_failure_message(what: Seq<char>, errno: i32)
    ensures
        what.is_prefix_of(failure(what, errno)),
        number::signed_decimal(errno as int).is_suffix_of(failure(what, errno)),
{
    let all = failure(what, errno);
    let n = number::signed_decimal(errno as int);
    assert(all.take(what.len() as int) =~= what);
    assert(all.subrange(all.len() - n.len(), all.len() as int) =~= n);
}

/// A descriptor is noted as what it is exactly if the system watches it, and nothing else changes.
pub proof fn law_watch_noted(
    before: Map<i32, FdKind>,
    after: Map<i32, FdKind>,
    fd: i32,
    other: i32,
    kind: FdKind,
    added: Result<(), i32>,
    r: Result<(), String>,
)
    requires
        watch_noted(before, after, fd, kind, added, r),
        other != fd,
    ensures
        added is Ok <==> r is Ok,
        added is Ok ==> after.contains_key(fd) && after[fd] == kind,
        added is Err ==> after == before,
        after.contains_key(other) <==> before.contains_key(other),
        before.contains_key(other) ==> after[other] == before[other],
{
}

/// What an event asks for is done in this order: what is there is read, then what there is room for
/// is written, and what is broken is dropped last.
pub proof fn law_order_of_tasks(flags: u32, client: i32)
    ensures
        flags & 1 != 0 ==> tasks_for(FdKind::Client, flags)[0] == Task::ReadClient,
        flags & 1 == 0 && flags & 4 != 0 ==> tasks_for(FdKind::Client, flags)[0]
            == Task::WriteClient,
        flags & 0x18 != 0 ==> tasks_for(FdKind::Client, flags).last() == Task::DropClient,
        flags & 0x18 == 0 && flags & 4 != 0 ==> tasks_for(FdKind::Client, flags).last()
            == Task::WriteClient,
        tasks_for(FdKind::Client, flags).len() <= 3,
        flags & 4 != 0 ==> tasks_for(FdKind::CgiStdin(client), flags)[0] == Task::FeedScript(
            client,
        ),
        flags & 0x18 != 0 ==> tasks_for(FdKind::CgiStdin(client), flags).last() == Task::DropInput(
            client,
        ),
{
    assert(0x8u32 | 0x10u32 == 0x18u32) by (bit_vector);
}

} // verus!
