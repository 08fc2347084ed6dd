//! The sockets on which the server listens, and their addresses.

use crate::config;
use crate::config::Config;
use crate::event_loop;
use crate::number;
use crate::seqs;
use crate::text;
use vstd::prelude::*;

verus! {

// ---------------------------------------------------------------------------
// Model
// ---------------------------------------------------------------------------

/// An address and a port.
pub open spec fn endpoint(host: Seq<char>, port: u16) -> Seq<char> {
    host + ":"@ + number::decimal(port as nat)
}

/// The addresses and ports of one server.
pub open spec fn server_endpoints(server: config::ServerView) -> Seq<(Seq<char>, u16)> {
    server.ports.map_values(|port: u16| (server.host, port))
}

/// The addresses and ports of the first `n` servers, in the order in which they are bound.
pub open spec fn endpoints_of(servers: Seq<config::ServerView>, n: int) -> Seq<(Seq<char>, u16)>
    decreases n,
{
    if n <= 0 || n > servers.len() {
        Seq::empty()
    } else {
        endpoints_of(servers, n - 1) + server_endpoints(servers[n - 1])
    }
}

/// What every address and port stands for.
pub open spec fn endpoint_views(v: Seq<(String, u16)>) -> Seq<(Seq<char>, u16)> {
    v.map_values(|b: (String, u16)| (b.0@, b.1))
}

/// What is said of a listener that could not be opened.
pub open spec fn skipped_listener(host: Seq<char>, port: u16, reason: Seq<char>) -> Seq<char> {
    "Warning: could not start listener "@ + endpoint(host, port) + " ("@ + reason
        + ") \u{2014} skipping it, other servers continue"@
}

/// How far the opening of a listener came.
pub enum Opened {
    /// There is no socket.
    NoSocket { errno: i32 },
    /// The socket could not be made to not block, or its address is none.
    Unusable { message: String },
    /// The address could not be bound.
    BindFailed { fd: i32, errno: i32 },
    /// The socket does not listen.
    ListenFailed { fd: i32, errno: i32 },
    /// The socket listens.
    Listening { fd: i32 },
}

/// The listener, or why there is none.
pub open spec fn opened_listener(host: Seq<char>, port: u16, opened: Opened) -> Result<
    i32,
    Seq<char>,
> {
    match opened {
        Opened::NoSocket { errno } => Err(event_loop::failure("socket() failed"@, errno)),
        Opened::Unusable { message } => Err(message@),
        Opened::BindFailed { fd, errno } => Err(
            event_loop::failure("bind() failed on "@ + endpoint(host, port), errno),
        ),
        Opened::ListenFailed { fd, errno } => Err(event_loop::failure("listen() failed"@, errno)),
        Opened::Listening { fd } => Ok(fd),
    }
}

/// The descriptor that is to be closed because it is of no use.
pub open spec fn useless_descriptor(opened: Opened) -> Option<i32> {
    match opened {
        Opened::BindFailed { fd, errno } => Some(fd),
        Opened::ListenFailed { fd, errno } => Some(fd),
        _ => None,
    }
}

/// The number that the octets from `i` on write behind `high`.
pub open spec fn octets(parts: Seq<Seq<char>>, i: int, high: nat) -> Result<nat, Seq<char>>
    decreases parts.len() - i,
{
    if i < 0 || i >= parts.len() {
        Ok(high)
    } else {
        match number::parse_unsigned(parts[i], 10, 255) {
            Some(octet) => octets(parts, i + 1, high * 256 + octet),
            None => Err("Invalid IP octet: "@ + parts[i]),
        }
    }
}

/// The number of an IPv4 address: four octets, the first the highest.
pub open spec fn ipv4(host: Seq<char>) -> Result<nat, Seq<char>> {
    let parts = seqs::split(host, '.');
    if parts.len() != 4 {
        Err("Invalid host address: "@ + host)
    } else {
        octets(parts, 0, 0)
    }
}

/// `n`, of four bytes, with its bytes in the opposite order.
pub open spec fn reversed_bytes(n: nat) -> nat {
    (n % 256) * 0x100_0000 + (n / 256 % 256) * 0x1_0000 + (n / 0x1_0000 % 256) * 0x100 + n
        / 0x100_0000 % 256
}

/// The number whose four bytes, in the order in which the machine keeps them, are those of `n` from
/// the highest to the lowest.
pub open spec fn network_order(n: nat) -> nat {
    match vstd::endian::endianness() {
        vstd::endian::Endian::Big => n,
        vstd::endian::Endian::Little => reversed_bytes(n),
    }
}

// ---------------------------------------------------------------------------
// Listeners
// ---------------------------------------------------------------------------

/// An address and a port.
pub fn endpoint_name(host: &str, port: u16) -> (r: String)
    ensures
        r@ == endpoint(host@, port),
{
    let number = number::to_decimal(port as u64);
    let mut name = host.to_owned();
    name.append(":");
    name.append(number.as_str());
    name
}

/// The addresses and ports of all servers, in the order in which they are bound.
pub fn endpoints(config: &Config) -> (r: Vec<(String, u16)>)
    ensures
        endpoint_views(r@) == endpoints_of(config@, config@.len() as int),
{
    let ghost all = config@;
    let mut list: Vec<(String, u16)> = Vec::new();
    let mut i: usize = 0;
    assert(endpoint_views(list@) =~= Seq::empty());
    while i < config.servers.len()
        invariant
            i <= config.servers@.len(),
            all == config@,
            endpoint_views(list@) == endpoints_of(all, i as int),
        decreases config.servers@.len() - i,
    {
        let server = &config.servers[i];
        assert(all[i as int] == server@);
        let ghost before = endpoint_views(list@);
        let ghost own = server_endpoints(server@);
        let mut j: usize = 0;
        assert(before + own.take(0) =~= before);
        while j < server.ports.len()
            invariant
                j <= server.ports@.len(),
                own == server_endpoints(server@),
                endpoint_views(list@) == before + own.take(j as int),
            decreases server.ports@.len() - j,
        {
            let ghost sofar = list@;
            let place = (server.host.clone(), server.ports[j]);
            let ghost view = (place.0@, place.1);
            list.push(place);
            assert(endpoint_views(list@) =~= endpoint_views(sofar).push(view));
            assert(own.take(j + 1) =~= own.take(j as int).push(view));
            assert(before + own.take(j + 1) =~= (before + own.take(j as int)).push(view));
            j = j + 1;
        }
        assert(own.take(j as int) =~= own);
        i = i + 1;
    }
    list
}

/// What is said of a listener that could not be opened.
pub fn listener_skipped(host: &str, port: u16, reason: &str) -> (r: String)
    ensures
        r@ == skipped_listener(host@, port, reason@),
{
    let place = endpoint_name(host, port);
    let mut line = "Warning: could not start listener ".to_owned();
    line.append(place.as_str());
    line.append(" (");
    line.append(reason);
    line.append(") \u{2014} skipping it, other servers continue");
    line
}

/// The listener, or why there is none, and the descriptor that is to be closed.
pub fn create_listener(host: &str, port: u16, opened: Opened) -> (r: (
    Result<i32, String>,
    Option<i32>,
))
    ensures
        match r.0 {
            Ok(fd) => opened_listener(host@, port, opened) == Ok::<i32, Seq<char>>(fd),
            Err(m) => opened_listener(host@, port, opened) == Err::<i32, Seq<char>>(m@),
        },
        r.1 == useless_descriptor(opened),
{
    match opened {
        Opened::NoSocket { errno } => (
            Err(event_loop::failure_message("socket() failed", errno)),
            None,
        ),
        Opened::Unusable { message } => (Err(message), None),
        Opened::BindFailed { fd, errno } => {
            let place = endpoint_name(host, port);
            let mut what = "bind() failed on ".to_owned();
            what.append(place.as_str());
            (Err(event_loop::failure_message(what.as_str(), errno)), Some(fd))
        },
        Opened::ListenFailed { fd, errno } => (
            Err(event_loop::failure_message("listen() failed", errno)),
            Some(fd),
        ),
        Opened::Listening { fd } => (Ok(fd), None),
    }
}

/// `libc::INADDR_ANY`, the address that stands for all of the machine.
#[verifier::external_body]
fn inaddr_any() -> (r: u32)
    ensures
        r == 0,
{
    libc::INADDR_ANY
}

/// The address that stands for all of the machine has the number zero.
proof fn lemma_any_address()
    ensures
        ipv4("0.0.0.0"@) == Ok::<nat, Seq<char>>(0),
{
    reveal_strlit("0.0.0.0");
    let host = "0.0.0.0"@;
    reveal_with_fuel(seqs::split, 5);
    reveal_with_fuel(seqs::index_from, 3);
    let zero = seq!['0'];
    assert(host.skip(2) =~= seq!['0', '.', '0', '.', '0']);
    assert(host.skip(2).skip(2) =~= seq!['0', '.', '0']);
    assert(host.skip(2).skip(2).skip(2) =~= zero);
    assert(seqs::split(host, '.') =~~= seq![zero, zero, zero, zero]);
    assert(zero.drop_last() =~= Seq::empty());
    reveal_with_fuel(number::digits_value, 2);
    assert(number::parse_unsigned(zero, 10, 255) == Some(0nat));
    reveal_with_fuel(octets, 5);
}

/// `u32::to_be`: the number itself on a big-endian machine, and the number with its bytes in the
/// opposite order on a little-endian one.
#[verifier::external_body]
fn to_be(n: u32) -> (r: u32)
    ensures
        r == network_order(n as nat),
{
    n.to_be()
}

/// The number of an IPv4 address, in network order.
pub fn parse_ipv4(host: &str) -> (r: Result<u32, String>)
    ensures
        match ipv4(host@) {
            Ok(n) => r is Ok && r->Ok_0 == network_order(n),
            Err(m) => r is Err && r->Err_0@ == m,
        },
{
    let chars = text::chars_of(host);
    let parts = text::split_at_char(chars.as_slice(), '.');
    let ghost all = text::slices(parts@);
    if text::same_text(host, "0.0.0.0") {
        proof {
            lemma_any_address();
        }
        return Ok(inaddr_any());
    }
    if parts.len() != 4 {
        let mut message = "Invalid host address: ".to_owned();
        message.append(host);
        return Err(message);
    }
    let mut high: u64 = 0;
    let mut i: usize = 0;
    while i < 4
        invariant
            i <= 4,
            parts@.len() == 4,
            all == text::slices(parts@),
            all == seqs::split(host@, '.'),
            i == 0 ==> high == 0,
            i == 1 ==> high < 0x100,
            i == 2 ==> high < 0x1_0000,
            i == 3 ==> high < 0x100_0000,
            i == 4 ==> high < 0x1_0000_0000,
            ipv4(host@) == octets(all, i as int, high as nat),
        decreases 4 - i,
    {
        assert(all[i as int] == parts@[i as int]@);
        match number::read_unsigned(parts[i], 10, 255) {
            Some(octet) => {
                high = high * 256 + octet;
            },
            None => {
                let part = text::string_of(parts[i]);
                let mut message = "Invalid IP octet: ".to_owned();
                message.append(part.as_str());
                return Err(message);
            },
        }
        i = i + 1;
    }
    Ok(to_be(high as u32))
}

// ---------------------------------------------------------------------------
// Laws
// ---------------------------------------------------------------------------

/// An address of four numbers with dots between them has these numbers as its bytes, the first the
/// highest.
pub proof fn law_ipv4_read_back(a: u8, b: u8, c: u8, d: u8)
    ensures
        ipv4(
            text::joined(
                seq![
                    number::decimal(a as nat),
                    number::decimal(b as nat),
                    number::decimal(c as nat),
                    number::decimal(d as nat),
                ],
                seq!['.'],
            ),
        ) == Ok::<nat, Seq<char>>(
            (a * 0x100_0000 + b * 0x1_0000 + c * 0x100 + d) as nat,
        ),
{
    let parts = seq![
        number::decimal(a as nat),
        number::decimal(b as nat),
        number::decimal(c as nat),
        number::decimal(d as nat),
    ];
    lemma_octet(a);
    lemma_octet(b);
    lemma_octet(c);
    lemma_octet(d);
    text::law_joined_parts_are_split(parts, '.');
    reveal_with_fuel(octets, 5);
}

proof fn lemma_octet(n: u8)
    ensures
        number::parse_unsigned(number::decimal(n as nat), 10, 255) == Some(n as nat),
        !number::decimal(n as nat).contains('.'),
{
    number::lemma_written(n as nat, 10);
    number::law_written_reads_back(n as nat, 10, 255);
}

/// An address of more or fewer parts than four, or with a part that is no number of at most eight
/// bits, is refused.
pub proof fn law_bad_address(parts: Seq<Seq<char>>, k: int)
    requires
        parts.len() > 0,
        forall|i: int| 0 <= i < parts.len() ==> !(#[trigger] parts[i]).contains('.'),
        parts.len() != 4 || (0 <= k < 4 && number::parse_unsigned(parts[k], 10, 255) is None),
    ensures
        ipv4(text::joined(parts, seq!['.'])) is Err,
{
    text::law_joined_parts_are_split(parts, '.');
    reveal_with_fuel(octets, 5);
}

/// The server listens on exactly the ports of its servers, each at the address of the server.
pub proof fn law_endpoints(servers: Seq<config::ServerView>, host: Seq<char>, port: u16)
    ensures
        endpoints_of(servers, servers.len() as int).contains((host, port)) <==> exists|i: int|
            0 <= i < servers.len() && (#[trigger] servers[i]).host == host
                && servers[i].ports.contains(port),
{
    lemma_endpoints(servers, servers.len() as int, host, port);
}

proof fn lemma_endpoints(servers: Seq<config::ServerView>, n: int, host: Seq<char>, port: u16)
    requires
        0 <= n <= servers.len(),
    ensures
        endpoints_of(servers, n).contains((host, port)) <==> exists|i: int|
            0 <= i < n && (#[trigger] servers[i]).host == host && servers[i].ports.contains(port),
    decreases n,
{
    if n > 0 {
        let before = endpoints_of(servers, n - 1);
        let server = servers[n - 1];
        let own = server_endpoints(server);
        let all = endpoints_of(servers, n);
        lemma_endpoints(servers, n - 1, host, port);
        if all.contains((host, port)) {
            let k = choose|k: int| 0 <= k < all.len() && all[k] == (host, port);
            if k < before.len() {
                assert(before[k] == (host, port));
            } else {
                assert(own[k - before.len()] == (host, port));
                assert(server.ports[k - before.len()] == port);
                assert(servers[n - 1].host == host);
            }
        }
        if before.contains((host, port)) {
            let k = choose|k: int| 0 <= k < before.len() && before[k] == (host, port);
            assert(all[k] == (host, port));
        }
        if server.host == host && server.ports.contains(port) {
            let k = choose|k: int| 0 <= k < server.ports.len() && server.ports[k] == port;
            assert(own[k] == (host, port));
            assert(all[before.len() + k] == (host, port));
        }
    }
}

/// A listener that could not be opened is none, and what was opened for it is closed; one that
/// listens is kept.
pub proof fn law_opened_listener(host: Seq<char>, port: u16, opened: Opened, fd: i32)
    ensures
        opened == (Opened::Listening { fd }) ==> opened_listener(host, port, opened) == Ok::<
            i32,
            Seq<char>,
        >(fd) && useless_descriptor(opened) is None,
        !(opened is Listening) ==> opened_listener(host, port, opened) is Err,
        opened matches Opened::BindFailed { fd: f, errno } ==> useless_descriptor(opened) == Some(f),
        opened matches Opened::ListenFailed { fd: f, errno } ==> useless_descriptor(opened)
            == Some(f),
{
}

/// An address and a port are written with a colon between them.
pub proof fn law_endpoint_name(host: Seq<char>, port: u16)
    ensures
        endpoint(host, port) == host + seq![':'] + number::decimal(port as nat),
{
    reveal_strlit(":");
    assert(":"@ =~= seq![':']);
}

/// The bytes of an address are reversed one for one.
pub proof fn law_reversed_bytes(a: u8, b: u8, c: u8, d: u8)
    ensures
        reversed_bytes((a * 0x100_0000 + b * 0x1_0000 + c * 0x100 + d) as nat) == d * 0x100_0000
            + c * 0x1_0000 + b * 0x100 + a,
{
    let n = (a * 0x100_0000 + b * 0x1_0000 + c * 0x100 + d) as nat;
    assert(n % 256 == d);
    assert(n / 256 == a * 0x1_0000 + b * 0x100 + c);
    assert(n / 256 % 256 == c);
    assert(n / 0x1_0000 == a * 0x100 + b);
    assert(n / 0x1_0000 % 256 == b);
    assert(n / 0x100_0000 == a);
}

/// What is said of a listener that could not be opened names its address and port and the reason.
pub proof fn law_skipped_listener(host: Seq<char>, port: u16, reason: Seq<char>)
    ensures
        seqs::find(
            skipped_listener(host, port, reason),
            host + seq![':'] + number::decimal(port as nat),
        ) is Some,
        seqs::find(skipped_listener(host, port, reason), reason) is Some,
{
    law_endpoint_name(host, port);
    let all = skipped_listener(host, port, reason);
    let lead = "Warning: could not start listener "@;
    let place = endpoint(host, port);
    let end = ") \u{2014} skipping it, other servers continue"@;
    assert(all =~= lead + place + (" ("@ + reason + end));
    seqs::law_find(lead, place, " ("@ + reason + end, all, 0);
    assert(all =~= (lead + place + " ("@) + reason + end);
    seqs::law_find(lead + place + " ("@, reason, end, all, 0);
}

} // verus!
