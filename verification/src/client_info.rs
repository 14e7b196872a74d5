//! Which process made a proxied request. The proxy only listens on the
//! loopback interface, so the client's local port of the TCP connection is
//! known: the system's TCP socket table gives the process holding that end
//! of the connection, and the process table gives its name, executable and
//! working directory. The lookup has to happen while the connection is
//! still open.

use vstd::prelude::*;
use crate::chain_correlation::opt_view;
use crate::text::{append_chars, lossy_string, str_eq, to_chars, utf8_lossy};
use vstd::string::StrSliceExecFns;

verus! {

/// The process that made a request through the proxy.
#[derive(Debug, Clone)]
pub struct ClientInfo {
    pub pid: i32,
    /// Process name (the system may shorten it).
    pub name: Option<String>,
    /// Full path of the executable.
    pub exe: Option<String>,
    /// Current working directory of the process.
    pub cwd: Option<String>,
}

/// One entry of the socket table: the ports of a TCP socket (`None` for a
/// socket of another protocol) and the processes associated with it.
pub struct SocketRecord {
    pub tcp_ports: Option<(u16, u16)>,
    pub pids: Vec<u32>,
}

/// `netstat2::get_sockets_info` for IPv4 and IPv6 TCP sockets, each entry
/// converted to a [`SocketRecord`]. The table depends on the machine's state
/// at the time of the call; nothing is claimed of it.
#[verifier::external_body]
fn socket_table() -> (r: Option<Vec<SocketRecord>>) {
    let sockets = netstat2::get_sockets_info(
        netstat2::AddressFamilyFlags::IPV4 | netstat2::AddressFamilyFlags::IPV6,
        netstat2::ProtocolFlags::TCP,
    ).ok()?;
    Some(
        sockets.into_iter().map(
            |s| SocketRecord {
                tcp_ports: match s.protocol_socket_info {
                    netstat2::ProtocolSocketInfo::Tcp(t) => Some((t.local_port, t.remote_port)),
                    netstat2::ProtocolSocketInfo::Udp(_) => None,
                },
                pids: s.associated_pids,
            },
        ).collect(),
    )
}

/// Whether a socket is the client end of `client_port -> proxy_port` and
/// names a process.
pub open spec fn is_client_socket(s: (Option<(u16, u16)>, Seq<u32>), client_port: u16, proxy_port: u16) -> bool {
    s.0 == Some((client_port, proxy_port)) && s.1.len() > 0
}

/// Socket records as plain values.
pub open spec fn sockets_view(v: Seq<SocketRecord>) -> Seq<(Option<(u16, u16)>, Seq<u32>)> {
    Seq::new(v.len(), |i: int| (v[i].tcp_ports, v[i].pids@))
}

/// The first process of the first socket that is the client end of the
/// connection `client_port -> proxy_port` (local port the client's, remote
/// port the proxy's, so that the proxy's own accepted socket, whose ports
/// are mirrored, does not match).
pub open spec fn client_pid_spec(s: Seq<(Option<(u16, u16)>, Seq<u32>)>, client_port: u16, proxy_port: u16) -> Option<i32>
    decreases s.len(),
{
    if s.len() == 0 {
        None
    } else if is_client_socket(s[0], client_port, proxy_port) {
        Some(s[0].1[0] as i32)
    } else {
        client_pid_spec(s.drop_first(), client_port, proxy_port)
    }
}

/// Finds the process holding the client end of the connection.
pub fn pid_by_tcp_ports(sockets: &Vec<SocketRecord>, client_port: u16, proxy_port: u16) -> (r:
    Option<i32>)
    ensures
        r == client_pid_spec(sockets_view(sockets@), client_port, proxy_port),
{
    let ghost sv = sockets_view(sockets@);
    let mut k: usize = 0;
    proof {
        assert(sv.skip(0) =~= sv);
    }
    while k < sockets.len()
        invariant
            sv == sockets_view(sockets@),
            k <= sockets@.len(),
            client_pid_spec(sv, client_port, proxy_port) == client_pid_spec(
                sv.skip(k as int),
                client_port,
                proxy_port,
            ),
        decreases sockets@.len() - k,
    {
        proof {
            assert(sv.skip(k as int)[0] == (sockets@[k as int].tcp_ports, sockets@[k as int].pids@));
            assert(sv.skip(k as int).drop_first() =~= sv.skip(k + 1));
        }
        let s = &sockets[k];
        match s.tcp_ports {
            Some((local, remote)) => {
                if local == client_port && remote == proxy_port && s.pids.len() > 0 {
                    return Some(s.pids[0] as i32);
                }
            },
            None => {},
        }
        k = k + 1;
    }
    None
}

/// Index of the last `/` in `p`, or -1.
pub open spec fn last_slash(p: Seq<char>) -> int
    decreases p.len(),
{
    if p.len() == 0 {
        -1
    } else if p.last() == '/' {
        p.len() - 1
    } else {
        last_slash(p.drop_last())
    }
}

proof fn lemma_last_slash_bound(p: Seq<char>)
    ensures
        -1 <= last_slash(p) < p.len(),
    decreases p.len(),
{
    if p.len() > 0 {
        lemma_last_slash_bound(p.drop_last());
    }
}

/// The final component of a Unix path (`Path::file_name`): the last
/// segment between `/`s that is neither empty nor `.`; `None` when there is
/// none or it is `..`.
pub open spec fn file_name_spec(p: Seq<char>) -> Option<Seq<char>>
    decreases p.len(),
{
    let k = last_slash(p);
    let seg = p.skip(k + 1);
    if seg.len() > 0 && seg != "."@ {
        if seg == ".."@ {
            None
        } else {
            Some(seg)
        }
    } else if k < 0 || k >= p.len() {
        None
    } else {
        file_name_spec(p.take(k))
    }
}

/// The final component of a path.
pub fn file_name(path: &str) -> (r: Option<String>)
    ensures
        opt_view(r) == file_name_spec(path@),
{
    let chars = to_chars(path);
    let mut end: usize = chars.len();
    proof {
        assert(path@.take(end as int) =~= path@);
    }
    loop
        invariant
            chars@ == path@,
            end <= chars@.len(),
            file_name_spec(path@) == file_name_spec(path@.take(end as int)),
        decreases end,
    {
        let ghost p = path@.take(end as int);
        let mut k: usize = end;
        proof {
            assert(p.take(k as int) =~= p);
        }
        while k > 0 && chars[k - 1] != '/'
            invariant
                chars@ == path@,
                k <= end <= chars@.len(),
                p == path@.take(end as int),
                last_slash(p) == last_slash(p.take(k as int)),
            decreases k,
        {
            proof {
                assert(p.take(k as int).last() == chars@[k - 1]);
                assert(p.take(k as int).drop_last() =~= p.take(k - 1));
            }
            k = k - 1;
        }
        proof {
            if k > 0 {
                assert(p.take(k as int).last() == '/');
            } else {
                assert(p.take(0) =~= Seq::<char>::empty());
            }
            lemma_last_slash_bound(p);
            assert(p.skip(k as int) =~= chars@.subrange(k as int, end as int));
        }
        let mut seg = String::new();
        append_chars(&mut seg, &chars, k, end);
        if k < end && !str_eq(seg.as_str(), ".") {
            if str_eq(seg.as_str(), "..") {
                return None;
            }
            return Some(seg);
        }
        if k == 0 {
            return None;
        }
        proof {
            assert(p.take(k - 1) =~= path@.take(k - 1));
        }
        end = k - 1;
    }
}

/// The information on a process assembled from the process table's
/// answers: the name falls back to the final component of the executable's
/// path, and an empty working directory counts as unknown.
pub open spec fn client_info_spec(
    pid: i32,
    exe: Option<Seq<char>>,
    proc_name: Option<Seq<char>>,
    cwd: Option<Seq<char>>,
) -> (i32, Option<Seq<char>>, Option<Seq<char>>, Option<Seq<char>>) {
    (
        pid,
        match proc_name {
            Some(n) => Some(n),
            None => match exe {
                Some(p) => file_name_spec(p),
                None => None,
            },
        },
        exe,
        match cwd {
            Some(c) => if c.len() > 0 {
                Some(c)
            } else {
                None
            },
            None => None,
        },
    )
}

/// View of a [`ClientInfo`].
pub open spec fn client_info_view(c: ClientInfo) -> (i32, Option<Seq<char>>, Option<Seq<char>>, Option<Seq<char>>) {
    (c.pid, opt_view(c.name), opt_view(c.exe), opt_view(c.cwd))
}

/// Assembles the information on process `pid` from the process table's
/// answers (see [`client_info_spec`]).
pub fn client_info_from(pid: i32, exe: Option<String>, proc_name: Option<String>, cwd: Option<String>) -> (r: ClientInfo)
    ensures
        client_info_view(r) == client_info_spec(pid, opt_view(exe), opt_view(proc_name), opt_view(cwd)),
{
    let name = match proc_name {
        Some(n) => Some(n),
        None => match &exe {
            Some(p) => file_name(p.as_str()),
            None => None,
        },
    };
    let cwd = match cwd {
        Some(c) => if c.as_str().unicode_len() > 0 {
            Some(c)
        } else {
            None
        },
        None => None,
    };
    ClientInfo { pid, name, exe, cwd }
}

/// `libproc::proc_pid::pidpath`: path of the executable of process `pid`.
/// Depends on the process table at the time of the call; nothing is
/// claimed of it.
#[verifier::external_body]
fn process_path(pid: i32) -> (r: Option<String>) {
    libproc::proc_pid::pidpath(pid).ok()
}

/// `libproc::proc_pid::name`: name of process `pid`. Depends on the process
/// table at the time of the call; nothing is claimed of it.
#[verifier::external_body]
fn process_name(pid: i32) -> (r: Option<String>) {
    libproc::proc_pid::name(pid).ok()
}

/// `libproc::proc_pid::pidcwd`: working directory of process `pid`, as
/// text. On Linux it reads `/proc/<pid>/cwd`; on macOS libproc does not
/// implement it and it always fails, so this gives `None` there. Depends on
/// the process table at the time of the call; nothing is claimed of it.
#[verifier::external_body]
fn process_cwd(pid: i32) -> (r: Option<String>) {
    libproc::proc_pid::pidcwd(pid).ok().map(|p| p.to_string_lossy().into_owned())
}

/// Collects the information on process `pid` from the process table.
pub fn info_for_pid(pid: i32) -> (r: ClientInfo)
    ensures
        r.pid == pid,
        r.cwd matches Some(c) ==> c@.len() > 0,
        r.exe matches Some(p) && file_name_spec(p@) is Some ==> r.name is Some,
{
    let exe = process_path(pid);
    let name = process_name(pid);
    let cwd = process_cwd(pid);
    client_info_from(pid, exe, name, cwd)
}

/// Finds the process that holds the client end of the TCP connection
/// `127.0.0.1:client_port -> 127.0.0.1:proxy_port` and collects its data;
/// `None` where the socket table cannot be read or has no such connection.
/// A blocking call (it scans the socket table). On macOS the working
/// directory is left unknown here (see `process_cwd`); the caller reads it
/// from the process's path-info buffer with [`cwd_from_path_buffer`].
pub fn resolve(client_port: u16, proxy_port: u16) -> (r: Option<ClientInfo>)
    ensures
        r matches Some(info) ==> info.cwd matches Some(c) ==> c@.len() > 0,
        r matches Some(info) ==> (info.exe matches Some(p) && file_name_spec(p@) is Some
            ==> info.name is Some),
{
    let sockets = match socket_table() {
        Some(s) => s,
        None => return None,
    };
    let pid = match pid_by_tcp_ports(&sockets, client_port, proxy_port) {
        Some(p) => p,
        None => return None,
    };
    Some(info_for_pid(pid))
}

/// The path in a NUL-terminated path buffer, read as UTF-8 (invalid
/// sequences replaced); `None` for an empty path.
pub open spec fn path_buffer_text(buf: Seq<u8>) -> Option<Seq<char>> {
    let k = first_zero(buf);
    let text = utf8_lossy(buf.take(k));
    if text.len() > 0 {
        Some(text)
    } else {
        None
    }
}

/// Index of the first zero byte, or the length.
pub open spec fn first_zero(buf: Seq<u8>) -> int
    decreases buf.len(),
{
    if buf.len() == 0 {
        0
    } else if buf[0] == 0 {
        0
    } else {
        first_zero(buf.drop_first()) + 1
    }
}

proof fn lemma_first_zero_scan(buf: Seq<u8>, k: int)
    requires
        0 <= k <= buf.len(),
        forall|j: int| 0 <= j < k ==> #[trigger] buf[j] != 0,
        k == buf.len() || buf[k] == 0,
    ensures
        first_zero(buf) == k,
    decreases k,
{
    if k > 0 {
        let d = buf.drop_first();
        assert forall|j: int| 0 <= j < k - 1 implies #[trigger] d[j] != 0 by {
            assert(d[j] == buf[j + 1]);
        }
        assert(buf[0] != 0);
        lemma_first_zero_scan(d, k - 1);
    }
}

/// The working directory held in a process's path-info buffer (the path
/// field of `proc_vnodepathinfo`), see [`path_buffer_text`].
pub fn cwd_from_path_buffer(buf: &[u8]) -> (r: Option<String>)
    ensures
        opt_view(r) == path_buffer_text(buf@),
{
    let n = buf.len();
    let mut k: usize = 0;
    while k < n && buf[k] != 0
        invariant
            n == buf@.len(),
            k <= n,
            forall|j: int| 0 <= j < k ==> #[trigger] buf@[j] != 0,
        decreases n - k,
    {
        k = k + 1;
    }
    proof {
        lemma_first_zero_scan(buf@, k as int);
    }
    let mut head: Vec<u8> = Vec::new();
    let mut j: usize = 0;
    while j < k
        invariant
            k <= n,
            n == buf@.len(),
            j <= k,
            head@ == buf@.take(j as int),
        decreases k - j,
    {
        head.push(buf[j]);
        j = j + 1;
        assert(head@ =~= buf@.take(j as int));
    }
    let text = lossy_string(head.as_slice());
    if text.as_str().unicode_len() > 0 {
        Some(text)
    } else {
        None
    }
}

} // verus!
