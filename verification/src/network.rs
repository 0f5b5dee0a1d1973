//! A private network with a way to the internet, made by an outside program.
use vstd::prelude::*;

use crate::arguments::{put_each, put_two};
use crate::numbers::{number_in, parse_up_to};
use crate::paths::{join, joined};
use crate::text::{decimal, decimal_of, same, texts, words, words_of};

verus! {

/// What the program is told of every network: where it begins, how names are found, and
/// that no port leads in or out by itself.
pub open spec fn common_args() -> Seq<Seq<char>> {
    seq![
        "-f"@,
        "-q"@,
        "-4"@,
        "--config-net"@,
        "--no-map-gw"@,
        "-a"@,
        "10.0.2.1"@,
        "-g"@,
        "10.0.2.2"@,
        "-n"@,
        "255.255.255.0"@,
        "--dns-forward"@,
        "10.0.2.3"@,
        "-t"@,
        "none"@,
        "-u"@,
        "none"@,
        "-T"@,
        "none"@,
        "-U"@,
        "none"@,
    ]
}

fn common() -> (r: Vec<String>)
    ensures
        texts(r@) == common_args(),
{
    let mut r: Vec<String> = Vec::new();
    put_each(
        &mut r,
        [
            "-f",
            "-q",
            "-4",
            "--config-net",
            "--no-map-gw",
            "-a",
            "10.0.2.1",
            "-g",
            "10.0.2.2",
            "-n",
            "255.255.255.0",
            "--dns-forward",
            "10.0.2.3",
            "-t",
            "none",
            "-u",
            "none",
            "-T",
            "none",
            "-U",
            "none",
        ],
    );
    assert(texts(r@) =~= common_args());
    r
}

/// The path of a descriptor of a process.
pub open spec fn descriptor_path(process: nat, descriptor: nat) -> Seq<char> {
    "/proc/"@ + decimal_of(process) + "/fd/"@ + decimal_of(descriptor)
}

/// The arguments that give namespaces which exist a network.
pub fn attach_args(process: u32, user: u32, net_path: &str, directory: &str) -> (r: Vec<String>)
    ensures
        texts(r@) == common_args() + seq![
            "--userns"@,
            descriptor_path(process as nat, user as nat),
            "--netns"@,
            net_path@,
            "--pid"@,
            joined(directory@, "network.pid"@),
        ],
{
    let mut path = String::from_str("/proc/");
    path.push_str(&decimal(process as u64));
    path.push_str("/fd/");
    path.push_str(&decimal(user as u64));
    let mut r = common();
    put_two(&mut r, "--userns", &path);
    put_two(&mut r, "--netns", net_path);
    put_two(&mut r, "--pid", &join(directory, "network.pid"));
    assert(texts(r@) =~= common_args() + seq![
        "--userns"@,
        descriptor_path(process as nat, user as nat),
        "--netns"@,
        net_path@,
        "--pid"@,
        joined(directory@, "network.pid"@),
    ]);
    r
}

/// The arguments that make a network together with namespaces, which a shell keeps until
/// its input ends.
pub fn start_args(shell: &str) -> (r: Vec<String>)
    ensures
        texts(r@) == common_args() + seq![
            "--"@,
            shell@,
            "-c"@,
            "printf 'READY\\n'; read -r _goblins_network_lifetime"@,
        ],
{
    let mut r = common();
    put_two(&mut r, "--", shell);
    put_two(&mut r, "-c", "printf 'READY\\n'; read -r _goblins_network_lifetime");
    assert(texts(r@) =~= common_args() + seq![
        "--"@,
        shell@,
        "-c"@,
        "printf 'READY\\n'; read -r _goblins_network_lifetime"@,
    ]);
    r
}

/// What is done while something is awaited.
#[derive(Clone, Copy, Debug, PartialEq, Eq, Structural)]
pub enum Wait {
    Ready,
    Again,
    Failed,
}

/// Whether an attached network is ready, by the file that it writes. One that ended, or
/// took too long, has failed whatever it wrote.
pub fn attached(exited: bool, expired: bool, written: bool) -> (r: Wait)
    ensures
        r == if exited || expired {
            Wait::Failed
        } else if written {
            Wait::Ready
        } else {
            Wait::Again
        },
{
    if exited || expired {
        Wait::Failed
    } else if written {
        Wait::Ready
    } else {
        Wait::Again
    }
}

/// The one child that a process has, by the list of its children.
pub open spec fn only_child(children: Seq<char>, exited: bool) -> Result<nat, Seq<char>> {
    let w = words_of(children);
    if w.len() != 1 || exited {
        Err("pasta namespace keeper exited"@)
    } else {
        number_in(w[0], u32::MAX as nat)
    }
}

/// The process that keeps the namespaces, once the program said that it was ready.
pub fn keeper(line: &str, children: &str, exited: bool) -> (r: Result<u32, String>)
    ensures
        if line@ != "READY"@ {
            r matches Err(e) && e@ == "invalid pasta namespace readiness"@
        } else {
            match only_child(children@, exited) {
                Ok(n) => r matches Ok(m) && m == n,
                Err(text) => r matches Err(e) && e@ == text,
            }
        },
{
    if !same(line, "READY") {
        return Err(String::from_str("invalid pasta namespace readiness"));
    }
    let w = words(children);
    assert(texts(w@).len() == w@.len());
    if w.len() != 1 || exited {
        return Err(String::from_str("pasta namespace keeper exited"));
    }
    assert(texts(w@)[0] == w@[0]@);
    match parse_up_to(&w[0], 0xFFFF_FFFF) {
        Ok(n) => Ok(n as u32),
        Err(e) => Err(e),
    }
}

} // verus!
